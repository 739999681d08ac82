use hegel::pretty::{LayoutOp, PrettyPrintable, PrettyPrinter};

fn text(s: &str) -> LayoutOp {
    LayoutOp::Text(s.to_string())
}

fn ops_of<T: PrettyPrintable + ?Sized>(value: &T) -> Vec<LayoutOp> {
    let mut p = PrettyPrinter::new(79);
    value.pretty_print(&mut p);
    p.ops().iter().map(|op| match op {
        LayoutOp::Text(t) => LayoutOp::Text(t.clone()),
        LayoutOp::Breakable(t) => LayoutOp::Breakable(t.clone()),
        LayoutOp::HardBreak => LayoutOp::HardBreak,
        LayoutOp::BeginGroup(i, t) => LayoutOp::BeginGroup(*i, t.clone()),
        LayoutOp::EndGroup(i, t) => LayoutOp::EndGroup(*i, t.clone()),
        LayoutOp::ShiftIndent(d) => LayoutOp::ShiftIndent(*d),
        LayoutOp::Comment(t) => LayoutOp::Comment(t.clone()),
    }).collect()
}

#[test]
fn scalars_print_as_they_display() {
    assert_eq!(ops_of(&5u64), vec![text("5")]);
    assert_eq!(ops_of(&-12i32), vec![text("-12")]);
    assert_eq!(ops_of(&0usize), vec![text("0")]);
    assert_eq!(ops_of(&i128::MIN), vec![text(&i128::MIN.to_string())]);
    assert_eq!(ops_of(&u128::MAX), vec![text(&u128::MAX.to_string())]);
    assert_eq!(ops_of(&true), vec![text("true")]);
    assert_eq!(ops_of(&false), vec![text("false")]);
    assert_eq!(ops_of(&()), vec![text("()")]);
}

#[test]
fn strings_and_chars_print_as_literals() {
    assert_eq!(ops_of("a\"b"), vec![text("\"a\\\"b\"")]);
    assert_eq!(ops_of(&String::from("hi\nthere")), vec![text("\"hi\\nthere\"")]);
    assert_eq!(ops_of(&'x'), vec![text("'x'")]);
}

#[test]
fn sequences_print_as_groups() {
    assert_eq!(
        ops_of(&vec![1u8, 2, 3]),
        vec![
            LayoutOp::BeginGroup(1, "[".to_string()),
            text("1"),
            text(","),
            LayoutOp::Breakable(" ".to_string()),
            text("2"),
            text(","),
            LayoutOp::Breakable(" ".to_string()),
            text("3"),
            LayoutOp::EndGroup(1, "]".to_string()),
        ]
    );
    assert_eq!(
        ops_of(&Vec::<u8>::new()),
        vec![LayoutOp::BeginGroup(1, "[".to_string()), LayoutOp::EndGroup(1, "]".to_string())]
    );
}

#[test]
fn options_results_and_tuples_print_as_groups() {
    assert_eq!(
        ops_of(&Some(3u8)),
        vec![LayoutOp::BeginGroup(5, "Some(".to_string()), text("3"), LayoutOp::EndGroup(5, ")".to_string())]
    );
    assert_eq!(ops_of(&None::<u8>), vec![text("None")]);
    assert_eq!(
        ops_of(&Ok::<u8, bool>(1)),
        vec![LayoutOp::BeginGroup(3, "Ok(".to_string()), text("1"), LayoutOp::EndGroup(3, ")".to_string())]
    );
    assert_eq!(
        ops_of(&Err::<u8, bool>(true)),
        vec![LayoutOp::BeginGroup(4, "Err(".to_string()), text("true"), LayoutOp::EndGroup(4, ")".to_string())]
    );
    assert_eq!(
        ops_of(&(1u8,)),
        vec![LayoutOp::BeginGroup(1, "(".to_string()), text("1"), LayoutOp::EndGroup(1, ",)".to_string())]
    );
    assert_eq!(
        ops_of(&(1u8, true, 'c')),
        vec![
            LayoutOp::BeginGroup(1, "(".to_string()),
            text("1"),
            text(","),
            LayoutOp::Breakable(" ".to_string()),
            text("true"),
            text(","),
            LayoutOp::Breakable(" ".to_string()),
            text("'c'"),
            LayoutOp::EndGroup(1, ")".to_string()),
        ]
    );
    assert_eq!(ops_of(&Box::new(7u16)), vec![text("7")]);
}

#[test]
fn references_and_shared_pointers_print_their_target() {
    let v = 7u16;
    assert_eq!(ops_of(&&v), vec![text("7")]);
    let mut w = 8u16;
    let m = &mut w;
    assert_eq!(ops_of(&m), vec![text("8")]);
    assert_eq!(ops_of(&std::rc::Rc::new(-3i64)), vec![text("-3")]);
    assert_eq!(ops_of(&std::sync::Arc::new('q')), vec![text("'q'")]);
}

#[test]
fn slices_and_arrays_print_as_lists() {
    let expected = vec![
        LayoutOp::BeginGroup(1, "[".to_string()),
        text("4"),
        text(","),
        LayoutOp::Breakable(" ".to_string()),
        text("5"),
        LayoutOp::EndGroup(1, "]".to_string()),
    ];
    let arr = [4u32, 5];
    assert_eq!(ops_of(&arr), expected);
    assert_eq!(ops_of(&arr[..]), expected);
}

#[test]
fn long_tuples_print_as_groups() {
    let sep = || vec![text(","), LayoutOp::Breakable(" ".to_string())];
    let mut expected = vec![LayoutOp::BeginGroup(1, "(".to_string()), text("1")];
    expected.extend(sep());
    expected.push(text("true"));
    expected.extend(sep());
    expected.push(text("'c'"));
    expected.extend(sep());
    expected.push(text("\"d\""));
    expected.push(LayoutOp::EndGroup(1, ")".to_string()));
    assert_eq!(ops_of(&(1u8, true, 'c', "d")), expected);

    let twelve = (0u8, 1u8, 2u8, 3u8, 4u8, 5u8, 6u8, 7u8, 8u8, 9u8, 10u8, 11u8);
    let mut expected = vec![LayoutOp::BeginGroup(1, "(".to_string())];
    for i in 0..12 {
        if i > 0 {
            expected.extend(sep());
        }
        expected.push(text(&i.to_string()));
    }
    expected.push(LayoutOp::EndGroup(1, ")".to_string()));
    assert_eq!(ops_of(&twelve), expected);
}
