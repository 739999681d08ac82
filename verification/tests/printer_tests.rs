use hegel::pretty::{print_debug_repr, LayoutOp, PrettyPrinter};

fn text(s: &str) -> LayoutOp {
    LayoutOp::Text(s.to_string())
}

fn flat(ops: &[LayoutOp]) -> String {
    let mut out = String::new();
    for op in ops {
        match op {
            LayoutOp::Text(t) | LayoutOp::Breakable(t) | LayoutOp::Comment(t) => out.push_str(t),
            LayoutOp::BeginGroup(_, t) | LayoutOp::EndGroup(_, t) => out.push_str(t),
            LayoutOp::HardBreak => out.push('\n'),
            LayoutOp::ShiftIndent(_) => {}
        }
    }
    out
}

#[test]
fn text_splits_at_newlines() {
    let mut p = PrettyPrinter::new(79);
    p.text("a\n\nbc");
    p.text("");
    assert_eq!(
        p.ops(),
        &[text("a"), LayoutOp::HardBreak, LayoutOp::HardBreak, text("bc")][..]
    );
}

#[test]
fn primitives_are_recorded_in_order() {
    let mut p = PrettyPrinter::new(10);
    assert_eq!(p.max_width(), 10);
    p.begin_group(1, "[");
    p.text("first");
    p.text(",");
    p.breakable(" ");
    p.text("second");
    p.end_group(1, "]");
    p.shift_indent(-2);
    p.hard_break();
    p.comment("note");
    assert_eq!(
        p.ops(),
        &[
            LayoutOp::BeginGroup(1, "[".to_string()),
            text("first"),
            text(","),
            LayoutOp::Breakable(" ".to_string()),
            text("second"),
            LayoutOp::EndGroup(1, "]".to_string()),
            LayoutOp::ShiftIndent(-2),
            LayoutOp::HardBreak,
            LayoutOp::Comment("  // note".to_string()),
        ][..]
    );
}

#[test]
fn the_discarding_printer_records_nothing() {
    let mut p = PrettyPrinter::noop();
    assert!(!p.should_print());
    p.text("x");
    p.begin_group(1, "(");
    assert!(p.ops().is_empty());
    assert!(PrettyPrinter::new(5).should_print());
}

#[test]
fn debug_repr_of_a_struct_becomes_groups() {
    let mut p = PrettyPrinter::new(79);
    print_debug_repr("Point { x: 1, y: [2, 3] }", &mut p);
    assert_eq!(
        p.ops(),
        &[
            LayoutOp::BeginGroup(4, "Point {".to_string()),
            LayoutOp::Breakable(" ".to_string()),
            text("x: 1"),
            text(","),
            LayoutOp::Breakable(" ".to_string()),
            text("y: "),
            LayoutOp::BeginGroup(1, "[".to_string()),
            text("2"),
            text(","),
            LayoutOp::Breakable(" ".to_string()),
            text("3"),
            LayoutOp::EndGroup(1, "]".to_string()),
            LayoutOp::EndGroup(4, " }".to_string()),
        ][..]
    );
}

#[test]
fn debug_repr_groups_use_their_delimiters() {
    let mut p = PrettyPrinter::new(79);
    print_debug_repr("Some({1: 'a'})", &mut p);
    assert_eq!(
        p.ops(),
        &[
            LayoutOp::BeginGroup(1, "Some(".to_string()),
            LayoutOp::BeginGroup(1, "{".to_string()),
            text("1: "),
            text("'a'"),
            LayoutOp::EndGroup(1, "}".to_string()),
            LayoutOp::EndGroup(1, ")".to_string()),
        ][..]
    );
}

#[test]
fn unparsable_repr_is_printed_as_text() {
    let mut p = PrettyPrinter::new(79);
    print_debug_repr("line one\nline (two", &mut p);
    assert_eq!(
        p.ops(),
        &[text("line one"), LayoutOp::HardBreak, text("line (two")][..]
    );
}

#[test]
fn printing_a_debug_repr_loses_nothing() {
    for repr in [
        "Point { x: 1, y: [2, 3] }",
        "Some({1: \"a, b\", 2: 'x'})",
        "Wrapper(Inner { v: vec![] })",
        "Unit {}",
        "oops (",
        "multi\nline",
        "",
    ] {
        let mut p = PrettyPrinter::new(20);
        print_debug_repr(repr, &mut p);
        assert_eq!(flat(p.ops()), repr);
    }
}

#[test]
fn aborted_speculation_leaves_the_document_as_it_was() {
    let mut p = PrettyPrinter::new(79);
    p.text("kept");
    let mut s = p.speculate();
    s.printer().text("dropped");
    s.printer().begin_group(1, "(");
    let p = s.abort();
    assert_eq!(p.ops(), &[text("kept")][..]);
}

#[test]
fn committed_speculation_keeps_its_output() {
    let mut p = PrettyPrinter::new(79);
    p.text("a");
    let mut s = p.speculate();
    s.printer().text("b");
    let p = s.commit();
    assert_eq!(p.ops(), &[text("a"), text("b")][..]);
}

#[test]
fn speculation_on_the_discarding_printer_records_nothing() {
    let mut s = PrettyPrinter::noop().speculate();
    s.printer().text("x");
    let p = s.abort();
    assert!(!p.should_print());
    assert_eq!(p.ops().len(), 0);
}
