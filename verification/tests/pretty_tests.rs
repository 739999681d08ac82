use hegel::pretty::{DebugNode, DebugRepr};

fn leaf(s: &str) -> DebugNode {
    DebugNode::Leaf(s.chars().collect())
}

fn group(prefix: &str, delimiter: char, named: bool, items: Vec<Vec<DebugNode>>) -> DebugNode {
    DebugNode::Group {
        prefix: prefix.chars().collect(),
        delimiter,
        named,
        items,
    }
}

fn render(nodes: &[DebugNode]) -> String {
    let mut out = String::new();
    for node in nodes {
        match node {
            DebugNode::Leaf(t) => out.extend(t.iter()),
            DebugNode::Group { prefix, delimiter, named, items } => {
                out.extend(prefix.iter());
                if *delimiter == '{' && !prefix.is_empty() {
                    out.push(' ');
                }
                out.push(*delimiter);
                if *named {
                    out.push(' ');
                }
                for (i, item) in items.iter().enumerate() {
                    if i > 0 {
                        out.push_str(", ");
                    }
                    out.push_str(&render(item));
                }
                if *named {
                    out.push(' ');
                }
                out.push(match delimiter {
                    '[' => ']',
                    '(' => ')',
                    _ => '}',
                });
            }
        }
    }
    out
}

#[test]
fn parses_a_tuple_struct() {
    let nodes = DebugRepr::parse("Some(5)").unwrap();
    assert_eq!(nodes, vec![group("Some", '(', false, vec![vec![leaf("5")]])]);
}

#[test]
fn parses_a_named_struct() {
    let nodes = DebugRepr::parse("Point { x: 1, y: [2, 3] }").unwrap();
    assert_eq!(
        nodes,
        vec![group(
            "Point",
            '{',
            true,
            vec![
                vec![leaf("x: 1")],
                vec![leaf("y: "), group("", '[', false, vec![vec![leaf("2")], vec![leaf("3")]])],
            ],
        )]
    );
}

#[test]
fn parses_a_map_and_string_literals() {
    let nodes = DebugRepr::parse("{1: \"a, b\", 2: 'x'}").unwrap();
    assert_eq!(
        nodes,
        vec![group(
            "",
            '{',
            false,
            vec![
                vec![leaf("1: "), leaf("\"a, b\"")],
                vec![leaf("2: "), leaf("'x'")],
            ],
        )]
    );
}

#[test]
fn escaped_quotes_stay_inside_a_literal() {
    let nodes = DebugRepr::parse("\"say \\\"hi\\\"\"").unwrap();
    assert_eq!(nodes, vec![leaf("\"say \\\"hi\\\"\"")]);
}

#[test]
fn text_before_a_group_keeps_its_words() {
    let nodes = DebugRepr::parse("x Foo(1) y").unwrap();
    assert_eq!(
        nodes,
        vec![leaf("x "), group("Foo", '(', false, vec![vec![leaf("1")]]), leaf(" y")]
    );
}

#[test]
fn empty_groups_have_no_items() {
    let nodes = DebugRepr::parse("()").unwrap();
    assert_eq!(nodes, vec![group("", '(', false, vec![])]);
    let nodes = DebugRepr::parse("Unit {}").unwrap();
    assert_eq!(nodes, vec![group("Unit", '{', false, vec![])]);
}

#[test]
fn plain_text_is_one_leaf() {
    assert_eq!(DebugRepr::parse("hello world").unwrap(), vec![leaf("hello world")]);
    assert_eq!(DebugRepr::parse("").unwrap(), vec![]);
}

#[test]
fn refuses_what_is_outside_the_grammar() {
    assert_eq!(DebugRepr::parse("a\nb"), None);
    assert_eq!(DebugRepr::parse("("), None);
    assert_eq!(DebugRepr::parse("a)"), None);
    assert_eq!(DebugRepr::parse("a }"), None);
    assert_eq!(DebugRepr::parse("a, b"), None);
    assert_eq!(DebugRepr::parse("\"open"), None);
    assert_eq!(DebugRepr::parse("N { a}"), None);
}

#[test]
fn rendering_the_parse_gives_the_text_back() {
    for repr in [
        "Some(5)",
        "Point { x: 1, y: [2, 3] }",
        "{1: \"a, b\", 2: 'x'}",
        "Wrapper(Inner { v: vec![] })",
        "[(1, 2), (3, 4)]",
        "x Foo(1) y",
        "Unit {}",
        "a,b",
    ] {
        let nodes = DebugRepr::parse(repr).unwrap();
        assert_eq!(render(&nodes), repr);
    }
}
