use std::collections::HashMap;

use hegel::native::re::constants::{SRE_FLAG_ASCII, SRE_FLAG_IGNORECASE};
use hegel::native::re::parser::{parse_pattern, OpCode, ParsedPattern};
use hegel::native::re::{ChCode, SetItem};
use hegel::native::schema::regex::{
    add_with_swapcase, alphabet_allows, build_in_set, char_swapcase, default_not_literal, effective_first,
    effective_last, gather_chars, match_seq, CharFilter,
};
use hegel::native::schema::StringAlphabet;
use hegel::native::unicodedata::{Category, CategoryTable};
use hegel::native::re::AtCode;

fn ascii_table() -> CategoryTable {
    CategoryTable {
        ranges: vec![
            (0x1F, Category::Cc),
            (0x20, Category::Zs),
            (0x2F, Category::Po),
            (0x39, Category::Nd),
            (0x40, Category::Po),
            (0x5A, Category::Lu),
            (0x5E, Category::Po),
            (0x5F, Category::Pc),
            (0x60, Category::Sk),
            (0x7A, Category::Ll),
            (0x7E, Category::Po),
            (0x10FFFF, Category::Cn),
        ],
    }
}

fn parse(p: &str) -> ParsedPattern {
    match parse_pattern(p, 0) {
        Ok(pp) => pp,
        Err(e) => panic!("{} at {}", e.msg, e.pos),
    }
}

fn run(p: &str, text: &str) -> Option<usize> {
    let pp = parse(p);
    let chars: Vec<char> = text.chars().collect();
    match_seq(&pp.pattern.data, 0, &chars, pp.flags, &HashMap::new(), &ascii_table())
}

fn error_of(p: &str) -> (String, usize) {
    match parse_pattern(p, 0) {
        Ok(_) => panic!("expected an error for {:?}", p),
        Err(e) => (e.msg, e.pos),
    }
}

#[test]
fn parses_literals() {
    let pp = parse("abc");
    assert_eq!(pp.pattern.data.len(), 3);
    assert!(matches!(pp.pattern.data[0], OpCode::Literal(97)));
    assert!(matches!(pp.pattern.data[2], OpCode::Literal(99)));
    assert_eq!(pp.group_count, 1);
    assert_eq!(pp.flags & 32, 32);
}

#[test]
fn records_named_groups() {
    let pp = parse("(a)(?P<name>b)");
    assert_eq!(pp.group_count, 3);
    assert_eq!(pp.group_names.len(), 1);
    assert_eq!(pp.group_names[0].0, "name");
    assert_eq!(pp.group_names[0].1, 2);
    assert_eq!(pp.group_index("name"), Some(2));
    assert_eq!(pp.group_index("other"), None);
}

#[test]
fn reports_parse_errors_with_positions() {
    assert_eq!(error_of(")"), ("unbalanced parenthesis".to_string(), 0));
    assert_eq!(error_of("*"), ("nothing to repeat".to_string(), 0));
    assert_eq!(error_of("a{3,2}"), ("min repeat greater than max repeat".to_string(), 2));
    assert_eq!(error_of("(a"), ("missing ), unterminated subpattern".to_string(), 0));
    assert_eq!(error_of("\\1").0, "invalid group reference 1");
    assert_eq!(error_of("[b-a]").0, "bad character range b-a");
}

#[test]
fn refuses_incompatible_flags() {
    let e = match parse_pattern("a", 256 | 32) {
        Err(e) => e,
        Ok(_) => panic!("expected an error"),
    };
    assert_eq!(e.msg, "ASCII and UNICODE flags are incompatible");
    assert_eq!(e.pos, 0);
}

#[test]
fn matches_literal_prefix() {
    assert_eq!(run("abc", "abcd"), Some(3));
    assert_eq!(run("abc", "abd"), None);
    assert_eq!(run("", "xyz"), Some(0));
}

#[test]
fn branches_try_alternatives_in_order() {
    assert_eq!(run("a|ab", "ab"), Some(1));
    assert_eq!(run("(?:a|ab)c", "abc"), Some(3));
    assert_eq!(run("x|y", "z"), None);
}

#[test]
fn repeats_are_greedy_lazy_or_possessive() {
    assert_eq!(run("a*", "aaa"), Some(3));
    assert_eq!(run("a*?", "aaa"), Some(0));
    assert_eq!(run("a*?b", "aab"), Some(3));
    assert_eq!(run("a{2,3}", "aaaa"), Some(3));
    assert_eq!(run("a{2,3}", "a"), None);
    assert_eq!(run("a*a", "aaa"), Some(3));
    assert_eq!(run("a*+a", "aaa"), None);
}

#[test]
fn classes_and_categories() {
    assert_eq!(run("\\d+", "123a"), Some(3));
    assert_eq!(run("\\w+", "ab_9 x"), Some(4));
    assert_eq!(run("\\s", " "), Some(1));
    assert_eq!(run("[^a-c]", "d"), Some(1));
    assert_eq!(run("[^a-c]", "b"), None);
    assert_eq!(run(".", "\n"), None);
    assert_eq!(run("(?s).", "\n"), Some(1));
}

#[test]
fn anchors_and_boundaries() {
    assert_eq!(run("\\bfoo\\b", "foo bar"), Some(3));
    assert_eq!(run("\\bfoo\\b", "foobar"), None);
    assert_eq!(run("a$", "a\n"), Some(1));
    assert_eq!(run("a\\Z", "a\n"), None);
    assert_eq!(run("^a", "a"), Some(1));
}

#[test]
fn lookarounds() {
    assert_eq!(run("(?=a)a", "a"), Some(1));
    assert_eq!(run("(?!b).", "a"), Some(1));
    assert_eq!(run("(?!b).", "b"), None);
}

#[test]
fn case_insensitive_matching() {
    assert_eq!(run("(?i)abc", "ABC"), Some(3));
    assert_eq!(run("abc", "ABC"), None);
    assert_eq!(char_swapcase('a'), 'A');
    assert_eq!(char_swapcase('Q'), 'q');
    assert_eq!(char_swapcase('1'), '1');
}

#[test]
fn group_references_read_captured_text() {
    let pp = parse("(a)\\1");
    let chars: Vec<char> = "aa".chars().collect();
    let mut groups = HashMap::new();
    groups.insert(1u32, "a".to_string());
    assert_eq!(match_seq(&pp.pattern.data, 0, &chars, pp.flags, &groups, &ascii_table()), Some(2));
    assert_eq!(match_seq(&pp.pattern.data, 0, &chars, pp.flags, &HashMap::new(), &ascii_table()), None);
}

#[test]
fn matching_starts_at_the_given_position() {
    let pp = parse("b");
    let chars: Vec<char> = "ab".chars().collect();
    assert_eq!(match_seq(&pp.pattern.data, 1, &chars, pp.flags, &HashMap::new(), &ascii_table()), Some(2));
    assert_eq!(match_seq(&pp.pattern.data, 2, &chars, pp.flags, &HashMap::new(), &ascii_table()), None);
}

#[test]
fn effective_ends_look_through_groups() {
    let pp = parse("((?>\\A)x)(y\\Z)");
    assert!(matches!(effective_first(&pp.pattern), Some(OpCode::At(AtCode::BeginningString))));
    assert!(matches!(effective_last(&pp.pattern), Some(OpCode::At(AtCode::EndString))));
    let empty = parse("");
    assert!(effective_first(&empty.pattern).is_none());
}

#[test]
fn atom_patterns_parse_item_by_item() {
    let pp = parse("^a.b$");
    let d = &pp.pattern.data;
    assert_eq!(d.len(), 5);
    assert!(matches!(d[0], OpCode::At(AtCode::Beginning)));
    assert!(matches!(d[1], OpCode::Literal(97)));
    assert!(matches!(d[2], OpCode::Any));
    assert!(matches!(d[3], OpCode::Literal(98)));
    assert!(matches!(d[4], OpCode::At(AtCode::End)));
    assert_eq!(pp.group_count, 1);
    assert!(pp.group_names.is_empty());
    let empty = parse("");
    assert!(empty.pattern.data.is_empty());
    assert_eq!(empty.group_count, 1);
    // ASCII without UNICODE is kept as given.
    let ascii = match parse_pattern("xy", 256) {
        Ok(pp) => pp,
        Err(_) => panic!("refused"),
    };
    assert_eq!(ascii.flags, 256);
    assert_eq!(ascii.pattern.data.len(), 2);
    assert!(matches!(ascii.pattern.data[0], OpCode::Literal(120)));
    assert!(matches!(ascii.pattern.data[1], OpCode::Literal(121)));
}

fn in_set(items: Vec<SetItem>, flags: u32, alphabet: Option<StringAlphabet>) -> Vec<char> {
    build_in_set(&ascii_table(), &items, flags, &alphabet)
}

#[test]
fn class_ranges_and_literals_list_their_characters() {
    assert_eq!(in_set(vec![SetItem::Range(97, 99)], 0, None), vec!['a', 'b', 'c']);
    assert_eq!(
        in_set(vec![SetItem::Literal('a' as u32), SetItem::Literal('Z' as u32)], SRE_FLAG_IGNORECASE, None),
        vec!['a', 'A', 'Z', 'z']
    );
    // Listed characters outside the alphabet are dropped.
    assert_eq!(
        in_set(vec![SetItem::Range(97, 102)], 0, Some(StringAlphabet::Range { min: 99, max: 100 })),
        vec!['c', 'd']
    );
}

#[test]
fn class_categories_gather_from_the_alphabet() {
    let digits: Vec<char> = ('0'..='9').collect();
    assert_eq!(in_set(vec![SetItem::Category(ChCode::Digit)], 0, None), digits);
    // Listed characters come first, then the category's, each once.
    let mut expected = vec!['5', 'x'];
    expected.extend(['0', '1', '2', '3', '4', '6', '7', '8', '9']);
    assert_eq!(
        in_set(
            vec![SetItem::Literal('5' as u32), SetItem::Literal('x' as u32), SetItem::Category(ChCode::Digit)],
            0,
            None
        ),
        expected
    );
}

#[test]
fn negated_classes_gather_what_they_admit() {
    let alphabet = Some(StringAlphabet::Range { min: 97, max: 100 });
    assert_eq!(in_set(vec![SetItem::Negate, SetItem::Literal(97)], 0, alphabet), vec!['b', 'c', 'd']);
    let explicit = Some(StringAlphabet::Explicit(vec!['é', '1', 'q', '2']));
    assert_eq!(
        in_set(vec![SetItem::Negate, SetItem::Category(ChCode::Digit)], SRE_FLAG_ASCII, explicit),
        vec!['q']
    );
}

#[test]
fn alphabets_admit_their_characters() {
    assert!(alphabet_allows(&None, 'é'));
    assert!(alphabet_allows(&Some(StringAlphabet::Range { min: 97, max: 98 }), 'b'));
    assert!(!alphabet_allows(&Some(StringAlphabet::Range { min: 97, max: 98 }), 'c'));
    assert!(alphabet_allows(&Some(StringAlphabet::Explicit(vec!['x'])), 'x'));
    assert!(!alphabet_allows(&Some(StringAlphabet::Explicit(vec!['x'])), 'y'));
}

#[test]
fn gathering_walks_the_alphabet_in_order() {
    let table = ascii_table();
    let chars = gather_chars(
        &table,
        &Some(StringAlphabet::Explicit(vec!['z', 'a', '7'])),
        &CharFilter::NotIn(vec!['a']),
    );
    assert_eq!(chars, vec!['z', '7']);
    let all = gather_chars(&table, &None, &CharFilter::NotIn(Vec::new()));
    assert_eq!(all.len(), 0x10000 - 0x800);
    assert_eq!(all[0xD800], '\u{E000}');
}

#[test]
fn negated_literals_leave_out_the_character_and_its_case() {
    let table = ascii_table();
    let plain = default_not_literal(&table, 'a' as u32, 0);
    assert_eq!(plain.len(), 0x10000 - 0x800 - 1);
    assert!(!plain.contains(&'a'));
    assert!(plain.contains(&'A'));
    let folded = default_not_literal(&table, 'a' as u32, SRE_FLAG_IGNORECASE);
    assert_eq!(folded.len(), 0x10000 - 0x800 - 2);
    assert!(!folded.contains(&'A'));
}

#[test]
fn swapcase_additions_skip_what_is_there() {
    let mut v = vec!['A'];
    add_with_swapcase(&mut v, 'a', SRE_FLAG_IGNORECASE);
    assert_eq!(v, vec!['A', 'a']);
    add_with_swapcase(&mut v, '1', SRE_FLAG_IGNORECASE);
    assert_eq!(v, vec!['A', 'a', '1']);
    add_with_swapcase(&mut v, 'b', 0);
    assert_eq!(v, vec!['A', 'a', '1', 'b']);
}

#[test]
fn a_closing_parenthesis_after_atoms_is_unbalanced() {
    assert_eq!(error_of("ab.)c"), ("unbalanced parenthesis".to_string(), 3));
    assert_eq!(error_of("^$)"), ("unbalanced parenthesis".to_string(), 2));
}

#[test]
fn a_repeat_with_nothing_before_it_is_refused() {
    assert_eq!(error_of("*a"), ("nothing to repeat".to_string(), 0));
    assert_eq!(error_of("ab^+"), ("nothing to repeat".to_string(), 3));
    assert_eq!(error_of("x$?"), ("nothing to repeat".to_string(), 2));
}

#[test]
fn groups_take_their_kind_from_how_they_start() {
    let pp = parse("(?P<n>a)(?P=n)");
    assert!(matches!(pp.pattern.data[1], OpCode::GroupRef(1)));
    let pp = parse("(a)(?(1)b|c)");
    assert!(matches!(pp.pattern.data[1], OpCode::GroupRefExists { cond_group: 1, .. }));
    let pp = parse("(?<=a)");
    assert!(matches!(pp.pattern.data[0], OpCode::Assert { direction: -1, .. }));
    let pp = parse("(?!)");
    assert!(matches!(pp.pattern.data[0], OpCode::Failure));
    let pp = parse("(?:ab)c");
    assert!(matches!(pp.pattern.data[0], OpCode::Literal(97)));
    assert_eq!(pp.pattern.data.len(), 3);
    let pp = parse("(?i:a)");
    assert!(matches!(pp.pattern.data[0], OpCode::Subpattern { group: None, add_flags: 2, del_flags: 0, .. }));
    let pp = parse("(?#note)a");
    assert_eq!(pp.pattern.data.len(), 1);
}

#[test]
fn escapes_and_extensions_are_refused_where_they_name_nothing() {
    assert_eq!(error_of("\\q"), ("bad escape \\q".to_string(), 0));
    assert_eq!(error_of("a\\x4"), ("incomplete escape \\x4".to_string(), 1));
    assert_eq!(error_of("(?<x)"), ("unknown extension ?<x".to_string(), 1));
    assert_eq!(error_of("(a(?<=\\1))"), ("cannot refer to an open group".to_string(), 6));
}

#[test]
fn braces_give_repeat_bounds() {
    let pp = parse("a{3}");
    assert!(matches!(pp.pattern.data[0], OpCode::MaxRepeat { min: 3, max: 3, .. }));
    let pp = parse("a{2,}");
    assert!(matches!(pp.pattern.data[0], OpCode::MaxRepeat { min: 2, max: 0xffff_ffff, .. }));
    let pp = parse("a{,5}?");
    assert!(matches!(pp.pattern.data[0], OpCode::MinRepeat { min: 0, max: 5, .. }));
    let pp = parse("a{}");
    assert_eq!(pp.pattern.data.len(), 3);
    assert!(matches!(pp.pattern.data[1], OpCode::Literal(123)));
    assert_eq!(error_of("a**"), ("multiple repeat".to_string(), 2));
    assert_eq!(error_of("a{3,2}"), ("min repeat greater than max repeat".to_string(), 2));
}

#[test]
fn numeric_escapes_are_octal_or_group_references() {
    let pp = parse("\\101");
    assert!(matches!(pp.pattern.data[0], OpCode::Literal(65)));
    let pp = parse("\\0");
    assert!(matches!(pp.pattern.data[0], OpCode::Literal(0)));
    assert_eq!(error_of("\\1"), ("invalid group reference 1".to_string(), 1));
    assert_eq!(error_of("(a)\\12"), ("invalid group reference 12".to_string(), 4));
    assert_eq!(error_of("[\\A]"), ("bad escape \\A".to_string(), 1));
    assert_eq!(error_of("[\\9]"), ("bad escape \\9".to_string(), 1));
    let pp = parse("[\\d]");
    assert!(matches!(&pp.pattern.data[0], OpCode::In(items) if matches!(items[0], SetItem::Category(ChCode::Digit))));
}

#[test]
fn type_flags_are_checked_for_a_text_pattern() {
    match parse_pattern("a", 4) {
        Ok(_) => panic!("LOCALE accepted"),
        Err(e) => {
            assert_eq!(e.msg, "cannot use LOCALE flag with a str pattern");
            assert_eq!(e.pos, 0);
        },
    }
    assert_eq!(parse("(?a)a").flags, 256);
}

#[test]
fn one_character_classes_collapse_to_literals() {
    let pp = parse("[a]");
    assert!(matches!(pp.pattern.data[0], OpCode::Literal(97)));
    let pp = parse("[^a]");
    assert!(matches!(pp.pattern.data[0], OpCode::NotLiteral(97)));
    assert_eq!(error_of("(a"), ("missing ), unterminated subpattern".to_string(), 0));
    assert_eq!(error_of("x(ab"), ("missing ), unterminated subpattern".to_string(), 1));
}

#[test]
fn alternatives_hoist_their_common_prefix_into_a_set() {
    let pp = parse("ab|ac");
    assert_eq!(pp.pattern.data.len(), 2);
    assert!(matches!(pp.pattern.data[0], OpCode::Literal(97)));
    match &pp.pattern.data[1] {
        OpCode::In(items) => assert_eq!(items, &vec![SetItem::Literal(98), SetItem::Literal(99)]),
        _ => panic!("expected a set"),
    }
    assert_eq!(pp.group_count, 1);
}

#[test]
fn alternatives_of_repeated_characters_fold_into_one_set() {
    let pp = parse("a|b|a");
    assert_eq!(pp.pattern.data.len(), 1);
    match &pp.pattern.data[0] {
        OpCode::In(items) => assert_eq!(items, &vec![SetItem::Literal(97), SetItem::Literal(98)]),
        _ => panic!("expected a set"),
    }
}

#[test]
fn alternatives_that_differ_in_length_stay_a_branch() {
    let pp = parse("ab|cde");
    assert_eq!(pp.pattern.data.len(), 1);
    match &pp.pattern.data[0] {
        OpCode::Branch(alts) => {
            assert_eq!(alts.len(), 2);
            assert_eq!(alts[0].data.len(), 2);
            assert_eq!(alts[1].data.len(), 3);
        },
        _ => panic!("expected a branch"),
    }
}

#[test]
fn a_repeat_in_braces_has_exact_bounds() {
    let pp = parse("xa{2,5}");
    assert_eq!(pp.pattern.data.len(), 2);
    assert!(matches!(pp.pattern.data[0], OpCode::Literal(120)));
    match &pp.pattern.data[1] {
        OpCode::MaxRepeat { min, max, item } => {
            assert_eq!((*min, *max), (2, 5));
            assert!(matches!(item.data[..], [OpCode::Literal(97)]));
        },
        _ => panic!("expected a repeat"),
    }
}
