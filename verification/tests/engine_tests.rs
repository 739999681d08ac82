use hegel::native::optimiser::TargetedRunnerSettings;
use hegel::native::shrinker::choicetree::{
    prefix_selection_order, random_selection_order, ChoiceTree, DeadBranch,
};
use hegel::native::targeting::TargetingSchedule;
use hegel::native::test_runner::{hash_string, should_generate_more, too_slow_check, Elapsed};
use hegel::native::unicodedata::{general_category, is_in_group, Category, CategoryTable};

#[test]
fn schedule_fires_after_a_tenth_of_the_budget_then_every_half_budget() {
    let mut s = TargetingSchedule::new(100);
    assert!(!s.should_fire(9));
    assert!(s.should_fire(10));
    assert!(!s.should_fire(10));
    assert!(!s.should_fire(59));
    assert!(s.should_fire(60));
    assert!(!s.should_fire(109));
    assert!(s.should_fire(110));
}

#[test]
fn schedule_first_firing_is_capped_at_fifty_and_step_has_a_floor_of_ten() {
    let mut s = TargetingSchedule::new(4);
    assert!(s.should_fire(1));
    assert!(!s.should_fire(10));
    assert!(s.should_fire(11));
    let mut big = TargetingSchedule::new(1000);
    assert!(!big.should_fire(49));
    assert!(big.should_fire(50));
    assert!(!big.should_fire(549));
    assert!(big.should_fire(550));
}

#[test]
fn schedule_saturates() {
    let mut s = TargetingSchedule::new(100);
    assert!(s.should_fire(u64::MAX));
    assert!(s.should_fire(u64::MAX));
}

#[test]
fn generation_continues_before_a_bug() {
    assert!(should_generate_more(true, 5000, None, None, false));
}

#[test]
fn generation_stops_without_shrinking_or_generation_bugs() {
    assert!(!should_generate_more(false, 1, Some(1), Some(1), false));
    assert!(!should_generate_more(false, 1, None, None, true));
}

#[test]
fn generation_window_after_a_bug() {
    assert!(should_generate_more(false, 9, Some(1), Some(1), true));
    assert!(!should_generate_more(false, 10, Some(1), Some(1), true));
    assert!(should_generate_more(false, 19, Some(10), Some(10), true));
    assert!(!should_generate_more(false, 20, Some(10), Some(10), true));
    assert!(should_generate_more(false, 1009, Some(10), Some(2000), true));
    assert!(!should_generate_more(false, 1010, Some(10), Some(2000), true));
    assert!(should_generate_more(false, 11, Some(6), None, true));
    assert!(!should_generate_more(false, 12, Some(6), None, true));
}

#[test]
fn fnv1a_hashes() {
    assert_eq!(hash_string(""), 0xcbf29ce484222325);
    assert_eq!(hash_string("a"), 0xaf63dc4c8601ec8c);
    assert_eq!(hash_string("unnamed-test"), hash_string("unnamed-test"));
    assert_ne!(hash_string("a"), hash_string("b"));
}

#[test]
fn settings_default_to_one_hundred_examples() {
    assert_eq!(TargetedRunnerSettings::new().max_examples, 100);
    assert_eq!(TargetedRunnerSettings::default().max_examples, 100);
    assert_eq!(TargetedRunnerSettings::new().max_examples(7).max_examples, 7);
}

#[test]
fn category_codes_and_groups() {
    assert_eq!(Category::Lu.as_str(), "Lu");
    assert_eq!(Category::Cn.as_str(), "Cn");
    assert!(is_in_group(Category::Lu, "Lu"));
    assert!(is_in_group(Category::Lu, "L"));
    assert!(!is_in_group(Category::Lu, "Ll"));
    assert!(!is_in_group(Category::Nd, "L"));
    assert!(!is_in_group(Category::Lu, "X"));
    assert!(!is_in_group(Category::Lu, "Lux"));
    assert!(!is_in_group(Category::Lu, ""));
}

#[test]
fn category_lookup_finds_the_run() {
    let table = CategoryTable {
        ranges: vec![(0x2F, Category::Po), (0x39, Category::Nd), (0x10FFFF, Category::Cn)],
    };
    assert_eq!(general_category(&table, 0), Category::Po);
    assert_eq!(general_category(&table, 0x2F), Category::Po);
    assert_eq!(general_category(&table, 0x30), Category::Nd);
    assert_eq!(general_category(&table, 0x39), Category::Nd);
    assert_eq!(general_category(&table, 0x3A), Category::Cn);
    assert_eq!(general_category(&table, 0x10FFFF), Category::Cn);
}

#[test]
fn prefix_order_prefers_towards_zero_then_wraps() {
    let mut order = prefix_selection_order(vec![2]);
    assert_eq!(order.order(0, 5), vec![2, 1, 0, 4, 3]);
    assert_eq!(order.order(1, 3), vec![2, 1, 0]);
    assert_eq!(order.order(0, 0), Vec::<usize>::new());
    let mut capped = prefix_selection_order(vec![9]);
    assert_eq!(capped.order(0, 3), vec![2, 1, 0]);
}

#[test]
fn random_order_is_a_permutation() {
    let mut order = random_selection_order(42);
    for n in 0..20 {
        let mut v = order.order(0, n);
        v.sort();
        assert_eq!(v, (0..n).collect::<Vec<usize>>());
    }
}

#[test]
fn each_step_takes_a_new_path_until_the_tree_is_exhausted() {
    let mut tree = ChoiceTree::new();
    let mut seen = Vec::new();
    while !tree.exhausted() {
        let path = tree.step(prefix_selection_order(Vec::new()), |c| {
            c.choose_from(&[10, 20, 30], |_v: &i32| true)?;
            Ok(())
        });
        seen.push(path);
    }
    assert_eq!(seen, vec![vec![2], vec![1], vec![0]]);
}

#[test]
fn rejected_values_are_pruned() {
    let mut tree = ChoiceTree::new();
    let path = tree.step(prefix_selection_order(Vec::new()), |c| {
        let v = c.choose_from(&[1, 2, 3], |v: &i32| *v == 1)?;
        assert_eq!(v, 1);
        Ok(())
    });
    assert_eq!(path, vec![0]);
    assert!(tree.exhausted());
}

#[test]
fn nested_choices_record_the_path() {
    let mut tree = ChoiceTree::new();
    let path = tree.step(prefix_selection_order(vec![0, 1]), |c| {
        c.choose_from(&['a', 'b'], |_v: &char| true)?;
        c.choose_from(&['x', 'y', 'z'], |_v: &char| true)?;
        Ok(())
    });
    assert_eq!(path, vec![0, 1]);
    assert!(!tree.exhausted());
}

#[test]
fn choosing_from_nothing_is_a_dead_branch() {
    let mut tree = ChoiceTree::new();
    let path = tree.step(prefix_selection_order(Vec::new()), |c| {
        let empty: [u8; 0] = [];
        let r: Result<u8, DeadBranch> = c.choose_from(&empty, |_v: &u8| true);
        assert!(r.is_err());
        Ok(())
    });
    assert!(path.is_empty());
    assert!(tree.exhausted());
}

#[test]
fn flaky_diagnostic_names_the_cause() {
    let message = hegel::native::test_runner::flaky_diagnostic();
    assert!(message.starts_with("Flaky test detected: Your test produced different outcomes when run"));
    assert!(message.contains("same generated data \u{2014} it failed"));
    assert!(message.ends_with("external random number generators."));
}

#[test]
fn too_slow_fires_only_when_slow_unsuppressed_and_short_of_examples() {
    let slow = Elapsed { secs: 31, nanos: 500_000_000 };
    let limit = Elapsed { secs: 30, nanos: 0 };
    let message = too_slow_check(3, Elapsed { secs: 31, nanos: 500_000_000 }, Elapsed { secs: 30, nanos: 0 }, false);
    assert_eq!(
        message.as_deref(),
        Some(
            "FailedHealthCheck: TooSlow \u{2014} input generation is slow: only 3 valid inputs after 31.5s \
             (threshold 30s). Slow generation makes property testing much less effective. If this is \
             expected, suppress the check with suppress_health_check = [HealthCheck::TooSlow]."
        )
    );
    assert!(too_slow_check(10, slow, Elapsed { secs: 30, nanos: 0 }, false).is_none());
    assert!(too_slow_check(3, Elapsed { secs: 31, nanos: 0 }, Elapsed { secs: 30, nanos: 0 }, true).is_none());
    assert!(too_slow_check(3, Elapsed { secs: 30, nanos: 0 }, limit, false).is_none());
    assert!(too_slow_check(0, Elapsed { secs: 30, nanos: 1 }, Elapsed { secs: 30, nanos: 0 }, false).is_some());
}

#[test]
fn category_tables_are_checked() {
    let good = CategoryTable { ranges: vec![(0x40, Category::Po), (0x10FFFF, Category::Cn)] };
    assert!(good.is_wf());
    let unsorted = CategoryTable { ranges: vec![(0x40, Category::Po), (0x20, Category::Zs), (0x10FFFF, Category::Cn)] };
    assert!(!unsorted.is_wf());
    let short = CategoryTable { ranges: vec![(0x40, Category::Po)] };
    assert!(!short.is_wf());
    assert!(!CategoryTable { ranges: vec![] }.is_wf());
}

#[test]
fn steps_take_each_path_once_in_selection_order() {
    let mut tree = ChoiceTree::default();
    let first = tree.step(prefix_selection_order(vec![]), |c| {
        c.choose_from(&[7, 8], |_v: &i32| true).map(|_| ())
    });
    assert_eq!(first, vec![1]);
    let second = tree.step(prefix_selection_order(vec![]), |c| {
        c.choose_from(&[7, 8], |_v: &i32| true).map(|_| ())
    });
    assert_eq!(second, vec![0]);
    assert!(tree.exhausted());
}

#[test]
fn refused_values_are_dead_and_the_first_live_accepted_one_is_chosen() {
    let mut tree = ChoiceTree::new();
    let path = tree.step(prefix_selection_order(vec![2]), |c| {
        let v = c.choose_from(&[10, 20, 30], |v: &i32| *v != 30)?;
        assert_eq!(v, 20);
        Ok(())
    });
    assert_eq!(path, vec![1]);
    assert!(!tree.exhausted());
    let path = tree.step(prefix_selection_order(vec![2]), |c| {
        let v = c.choose_from(&[10, 20, 30], |_v: &i32| true)?;
        assert_eq!(v, 10);
        Ok(())
    });
    assert_eq!(path, vec![0]);
    assert!(tree.exhausted());
}
