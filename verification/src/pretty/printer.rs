//! The document side of pretty-printing.
//!
//! Output is built from three primitives: literal text, a breakable point
//! that renders as its separator when the enclosing group fits on one line
//! and as a newline plus indentation when it does not, and groups that
//! delimit where those decisions are made. A [`PrettyPrinter`] records
//! these primitives, in order, as [`LayoutOp`]s for the layout engine that
//! decides the line breaks. [`print_debug_repr`] re-emits a `{:?}`
//! representation through the primitives, so a derived `Debug` output wraps
//! like a hand-written layout.

use vstd::prelude::*;

use crate::native::charutil::{chars_to_string, str_to_chars};
use crate::pretty::{
    canonical_node, canonical_nodes, chain_ok, closer, group_head_ok, lemma_render_group,
    prefix_text, render_items, render_node, render_nodes, same_items, same_node, same_nodes,
    DebugNode, DebugRepr,
};

verus! {

/// The kinds of layout operation.
#[derive(Clone, Copy, Debug, PartialEq, Eq, Structural)]
pub enum LayoutKind {
    Text,
    Breakable,
    HardBreak,
    BeginGroup,
    EndGroup,
    ShiftIndent,
    Comment,
}

/// One operation for the layout engine.
#[derive(Debug, PartialEq, Eq)]
pub enum LayoutOp {
    /// Literal text, without newlines.
    Text(String),
    /// A break point that renders as this separator when its group fits.
    Breakable(String),
    /// An unconditional newline followed by the current indentation.
    HardBreak,
    /// Emits the opening text and indents later break points.
    BeginGroup(usize, String),
    /// Dedents, then emits the closing text.
    EndGroup(usize, String),
    /// Adjusts the indentation of later break points.
    ShiftIndent(isize),
    /// A comment attached to the current line.
    Comment(String),
}

impl View for LayoutOp {
    type V = (LayoutKind, int, Seq<char>);

    open spec fn view(&self) -> (LayoutKind, int, Seq<char>) {
        match self {
            LayoutOp::Text(t) => (LayoutKind::Text, 0, t@),
            LayoutOp::Breakable(s) => (LayoutKind::Breakable, 0, s@),
            LayoutOp::HardBreak => (LayoutKind::HardBreak, 0, Seq::empty()),
            LayoutOp::BeginGroup(indent, open) => (LayoutKind::BeginGroup, *indent as int, open@),
            LayoutOp::EndGroup(dedent, close) => (LayoutKind::EndGroup, *dedent as int, close@),
            LayoutOp::ShiftIndent(delta) => (LayoutKind::ShiftIndent, *delta as int, Seq::empty()),
            LayoutOp::Comment(c) => (LayoutKind::Comment, 0, c@),
        }
    }
}

/// The views of a sequence of operations.
pub open spec fn op_views(ops: Seq<LayoutOp>) -> Seq<(LayoutKind, int, Seq<char>)> {
    ops.map_values(|op: LayoutOp| op@)
}

/// A document extended by `added`; the discarding printer stays discarding.
pub open spec fn extended(
    doc: Option<Seq<(LayoutKind, int, Seq<char>)>>,
    added: Seq<(LayoutKind, int, Seq<char>)>,
) -> Option<Seq<(LayoutKind, int, Seq<char>)>> {
    match doc {
        Some(d) => Some(d + added),
        None => None,
    }
}

/// +1 for an operation that opens a group, -1 for one that closes one.
pub open spec fn group_delta(op: (LayoutKind, int, Seq<char>)) -> int {
    if op.0 == LayoutKind::BeginGroup {
        1
    } else if op.0 == LayoutKind::EndGroup {
        -1
    } else {
        0
    }
}

/// The groups that `ops` opens less those it closes: for a document, the
/// number of groups open at its end.
pub open spec fn open_count(ops: Seq<(LayoutKind, int, Seq<char>)>) -> int
    decreases ops.len(),
{
    if ops.len() == 0 {
        0
    } else {
        group_delta(ops[0]) + open_count(ops.drop_first())
    }
}

/// Counts add up over concatenation.
pub broadcast proof fn lemma_open_count_add(
    a: Seq<(LayoutKind, int, Seq<char>)>,
    b: Seq<(LayoutKind, int, Seq<char>)>,
)
    ensures
        #[trigger] open_count(a + b) == open_count(a) + open_count(b),
    decreases a.len(),
{
    if a.len() > 0 {
        assert((a + b).drop_first() =~= a.drop_first() + b);
        lemma_open_count_add(a.drop_first(), b);
    } else {
        assert(a + b =~= b);
    }
}

/// The count of one operation.
pub broadcast proof fn lemma_open_count_one(x: (LayoutKind, int, Seq<char>))
    ensures
        #[trigger] open_count(seq![x]) == group_delta(x),
{
    assert(seq![x].drop_first() =~= Seq::<(LayoutKind, int, Seq<char>)>::empty());
    assert(open_count(Seq::<(LayoutKind, int, Seq<char>)>::empty()) == 0);
    assert(seq![x][0] == x);
}

/// Text opens and closes no group.
pub broadcast proof fn lemma_text_layout_count(s: Seq<char>)
    ensures
        #[trigger] open_count(text_layout(s)) == 0,
{
    lemma_text_layout_from_count(Seq::empty(), s);
}

proof fn lemma_text_layout_from_count(seg: Seq<char>, rest: Seq<char>)
    ensures
        open_count(text_layout_from(seg, rest)) == 0,
    decreases rest.len(),
{
    broadcast use lemma_open_count_add, lemma_open_count_one;

    if rest.len() == 0 {
        if seg.len() > 0 {
            assert(open_count(text_run(seg)) == 0);
        } else {
            assert(text_run(seg) =~= Seq::<(LayoutKind, int, Seq<char>)>::empty());
        }
    } else if rest[0] == '\n' {
        lemma_text_layout_from_count(Seq::empty(), rest.drop_first());
        if seg.len() == 0 {
            assert(text_run(seg) =~= Seq::<(LayoutKind, int, Seq<char>)>::empty());
        }
    } else {
        lemma_text_layout_from_count(seg.push(rest[0]), rest.drop_first());
    }
}

/// The item separator opens and closes no group.
pub proof fn lemma_separator_count()
    ensures
        open_count(item_separator()) == 0,
{
    broadcast use lemma_open_count_add, lemma_open_count_one;

    assert(item_separator() =~= seq![(LayoutKind::Text, 0int, seq![','])] + seq![
        (LayoutKind::Breakable, 0int, seq![' ']),
    ]);
}

pub broadcast group group_open_count {
    lemma_open_count_add,
    lemma_open_count_one,
    lemma_text_layout_count,
}

/// Whether no prefix of `d` closes more groups than it opened.
pub open spec fn prefixes_nested(d: Seq<(LayoutKind, int, Seq<char>)>) -> bool {
    forall|i: int| 0 <= i <= d.len() ==> open_count(#[trigger] d.take(i)) >= 0
}

/// The literal text `seg` as an operation, if it is not empty.
pub open spec fn text_run(seg: Seq<char>) -> Seq<(LayoutKind, int, Seq<char>)> {
    if seg.len() > 0 {
        seq![(LayoutKind::Text, 0int, seg)]
    } else {
        Seq::empty()
    }
}

/// The operations for text `rest` after the pending run `seg`: each
/// newline is a hard break, and each non-empty run between them literal
/// text.
pub open spec fn text_layout_from(seg: Seq<char>, rest: Seq<char>) -> Seq<
    (LayoutKind, int, Seq<char>),
>
    decreases rest.len(),
{
    if rest.len() == 0 {
        text_run(seg)
    } else if rest[0] == '\n' {
        text_run(seg) + seq![(LayoutKind::HardBreak, 0int, Seq::<char>::empty())]
            + text_layout_from(Seq::empty(), rest.drop_first())
    } else {
        text_layout_from(seg.push(rest[0]), rest.drop_first())
    }
}

/// The operations for literal text `s`, its newlines as hard breaks.
pub open spec fn text_layout(s: Seq<char>) -> Seq<(LayoutKind, int, Seq<char>)> {
    text_layout_from(Seq::empty(), s)
}

/// The text of a document laid out on one line: every break point as its
/// separator, every hard break as a newline.
pub open spec fn flat_text(ops: Seq<(LayoutKind, int, Seq<char>)>) -> Seq<char>
    decreases ops.len(),
{
    if ops.len() == 0 {
        Seq::empty()
    } else {
        let op = ops[0];
        let t = if op.0 == LayoutKind::HardBreak {
            seq!['\n']
        } else {
            op.2
        };
        t + flat_text(ops.drop_first())
    }
}

/// The opening text, closing text and indentation of a group.
pub open spec fn group_delims(prefix: Seq<char>, delimiter: char, named: bool) -> (
    Seq<char>,
    Seq<char>,
    int,
) {
    if delimiter == '{' && named {
        (prefix + seq![' ', '{'], seq![' ', '}'], 4)
    } else if delimiter == '{' && prefix.len() == 0 {
        (seq!['{'], seq!['}'], 1)
    } else if delimiter == '{' {
        (prefix + seq![' ', '{'], seq!['}'], 1)
    } else if delimiter == '[' {
        (prefix + seq!['['], seq![']'], 1)
    } else {
        (prefix + seq!['('], seq![')'], 1)
    }
}

/// The operations that lay out a parsed node: literal text as text, a group
/// as a group whose items are separated by `","` and a break point (and
/// that opens with a break point in struct style).
pub open spec fn node_layout(n: DebugNode) -> Seq<(LayoutKind, int, Seq<char>)>
    decreases n,
{
    match n {
        DebugNode::Leaf(t) => text_layout(t@),
        DebugNode::Group { prefix, delimiter, named, items } => {
            let d = group_delims(prefix@, delimiter, named);
            let lead: Seq<(LayoutKind, int, Seq<char>)> = if named {
                seq![(LayoutKind::Breakable, 0int, seq![' '])]
            } else {
                Seq::empty()
            };
            seq![(LayoutKind::BeginGroup, d.2, d.0)] + lead + items_layout(items@) + seq![
                (LayoutKind::EndGroup, d.2, d.1),
            ]
        },
    }
}

/// The operations that lay out parsed nodes, one after the other.
pub open spec fn nodes_layout(ns: Seq<DebugNode>) -> Seq<(LayoutKind, int, Seq<char>)>
    decreases ns,
{
    if ns.len() == 0 {
        Seq::empty()
    } else {
        node_layout(ns[0]) + nodes_layout(ns.drop_first())
    }
}

/// The operations that lay out a group's items, separated by `","` and a
/// break point.
pub open spec fn items_layout(items: Seq<Vec<DebugNode>>) -> Seq<(LayoutKind, int, Seq<char>)>
    decreases items,
{
    if items.len() == 0 {
        Seq::empty()
    } else if items.len() == 1 {
        nodes_layout(items[0]@)
    } else {
        nodes_layout(items[0]@) + seq![
            (LayoutKind::Text, 0int, seq![',']),
            (LayoutKind::Breakable, 0int, seq![' ']),
        ] + items_layout(items.drop_first())
    }
}

/// Whether `repr` parses as a derived `Debug` representation.
pub open spec fn parses(repr: Seq<char>) -> bool {
    !repr.contains('\n') && exists|ns: Seq<DebugNode>| canonical_nodes(ns, None) && render_nodes(ns)
        == repr
}

/// The operations that print a `{:?}` representation: the layout of its
/// parse, or the text itself when it does not parse.
pub open spec fn debug_layout(repr: Seq<char>) -> Seq<(LayoutKind, int, Seq<char>)> {
    if parses(repr) {
        nodes_layout(
            choose|ns: Seq<DebugNode>| canonical_nodes(ns, None) && render_nodes(ns) == repr,
        )
    } else {
        text_layout(repr)
    }
}

proof fn lemma_views_push(ops: Seq<LayoutOp>, op: LayoutOp)
    ensures
        op_views(ops.push(op)) == op_views(ops).push(op@),
{
    assert(op_views(ops.push(op)) =~= op_views(ops).push(op@));
}

proof fn lemma_flat_concat(a: Seq<(LayoutKind, int, Seq<char>)>, b: Seq<(LayoutKind, int, Seq<char>)>)
    ensures
        flat_text(a + b) == flat_text(a) + flat_text(b),
    decreases a.len(),
{
    if a.len() == 0 {
        assert(a + b =~= b);
        assert(flat_text(a) + flat_text(b) =~= flat_text(b));
    } else {
        assert((a + b).drop_first() =~= a.drop_first() + b);
        lemma_flat_concat(a.drop_first(), b);
        assert(flat_text(a + b) =~= flat_text(a) + flat_text(b));
    }
}

proof fn lemma_flat_text_run(seg: Seq<char>)
    ensures
        flat_text(text_run(seg)) == seg,
{
    if seg.len() > 0 {
        let r = text_run(seg);
        assert(r.drop_first() =~= Seq::<(LayoutKind, int, Seq<char>)>::empty());
        assert(flat_text(r.drop_first()) == Seq::<char>::empty());
        assert(flat_text(r) =~= seg);
    } else {
        assert(flat_text(text_run(seg)) =~= seg);
    }
}

proof fn lemma_flat_text_from(seg: Seq<char>, rest: Seq<char>)
    ensures
        flat_text(text_layout_from(seg, rest)) == seg + rest,
    decreases rest.len(),
{
    lemma_flat_text_run(seg);
    if rest.len() == 0 {
        assert(seg + rest =~= seg);
    } else if rest[0] == '\n' {
        let hb = seq![(LayoutKind::HardBreak, 0int, Seq::<char>::empty())];
        lemma_flat_text_from(Seq::empty(), rest.drop_first());
        lemma_flat_concat(text_run(seg), hb);
        lemma_flat_concat(text_run(seg) + hb, text_layout_from(Seq::empty(), rest.drop_first()));
        assert(hb.drop_first() =~= Seq::<(LayoutKind, int, Seq<char>)>::empty());
        assert(flat_text(hb.drop_first()) == Seq::<char>::empty());
        assert(flat_text(hb) =~= seq!['\n']);
        assert(seg + rest =~= seg + seq!['\n'] + (Seq::<char>::empty() + rest.drop_first()));
    } else {
        lemma_flat_text_from(seg.push(rest[0]), rest.drop_first());
        assert(seg + rest =~= seg.push(rest[0]) + rest.drop_first());
    }
}

/// Printing literal text loses nothing: the text of its operations on one
/// line is the text itself, newlines included.
pub proof fn lemma_text_layout_flat(s: Seq<char>)
    ensures
        flat_text(text_layout(s)) == s,
{
    lemma_flat_text_from(Seq::empty(), s);
    assert(Seq::<char>::empty() + s =~= s);
}

/// Text after a pending run, up to and through the first newline: the
/// run so far and that text form one literal run, then comes a hard break.
proof fn lemma_text_from_newline(seg: Seq<char>, a: Seq<char>, b: Seq<char>)
    requires
        !a.contains('\n'),
    ensures
        text_layout_from(seg, a + seq!['\n'] + b) == text_run(seg + a) + seq![
            (LayoutKind::HardBreak, 0int, Seq::<char>::empty()),
        ] + text_layout(b),
    decreases a.len(),
{
    let t = a + seq!['\n'] + b;
    if a.len() == 0 {
        assert(t[0] == '\n');
        assert(t.drop_first() =~= b);
        assert(seg + a =~= seg);
    } else {
        assert(a[0] != '\n') by {
            assert(a.contains(a[0]));
        }
        assert(t[0] == a[0]);
        assert(t.drop_first() =~= a.drop_first() + seq!['\n'] + b);
        assert(!a.drop_first().contains('\n')) by {
            if a.drop_first().contains('\n') {
                let j = choose|j: int| 0 <= j < a.drop_first().len() && a.drop_first()[j] == '\n';
                assert(a[j + 1] == '\n');
            }
        }
        lemma_text_from_newline(seg.push(a[0]), a.drop_first(), b);
        assert(seg.push(a[0]) + a.drop_first() =~= seg + a);
    }
}

/// Text with no newline after a pending run is one literal run.
proof fn lemma_text_from_plain(seg: Seq<char>, a: Seq<char>)
    requires
        !a.contains('\n'),
    ensures
        text_layout_from(seg, a) == text_run(seg + a),
    decreases a.len(),
{
    if a.len() == 0 {
        assert(seg + a =~= seg);
    } else {
        assert(a[0] != '\n') by {
            assert(a.contains(a[0]));
        }
        assert(!a.drop_first().contains('\n')) by {
            if a.drop_first().contains('\n') {
                let j = choose|j: int| 0 <= j < a.drop_first().len() && a.drop_first()[j] == '\n';
                assert(a[j + 1] == '\n');
            }
        }
        lemma_text_from_plain(seg.push(a[0]), a.drop_first());
        assert(seg.push(a[0]) + a.drop_first() =~= seg + a);
    }
}

/// Emitting text that holds a newline is emitting the text before it, a
/// hard break, and the text after it; text without a newline is one
/// literal run (nothing, when it is empty).
pub proof fn lemma_text_newline_is_hard_break(a: Seq<char>, b: Seq<char>)
    requires
        !a.contains('\n'),
    ensures
        text_layout(a + seq!['\n'] + b) == text_layout(a) + seq![
            (LayoutKind::HardBreak, 0int, Seq::<char>::empty()),
        ] + text_layout(b),
        text_layout(a) == text_run(a),
{
    lemma_text_from_newline(Seq::empty(), a, b);
    lemma_text_from_plain(Seq::empty(), a);
    assert(Seq::<char>::empty() + a =~= a);
}

proof fn lemma_flat_node(n: DebugNode)
    requires
        canonical_node(n),
    ensures
        flat_text(node_layout(n)) == render_node(n),
    decreases n,
{
    match n {
        DebugNode::Leaf(t) => {
            lemma_text_layout_flat(t@);
        },
        DebugNode::Group { prefix, delimiter, named, items } => {
            lemma_render_group(n);
            assert(group_head_ok(prefix@, delimiter, named, items@));
            let d = group_delims(prefix@, delimiter, named);
            let begin = seq![(LayoutKind::BeginGroup, d.2, d.0)];
            let lead: Seq<(LayoutKind, int, Seq<char>)> = if named {
                seq![(LayoutKind::Breakable, 0int, seq![' '])]
            } else {
                Seq::empty()
            };
            let end = seq![(LayoutKind::EndGroup, d.2, d.1)];
            let il = items_layout(items@);
            let last_next = if named {
                Some(' ')
            } else {
                Some(closer(delimiter))
            };
            lemma_flat_items(items@, last_next);
            lemma_flat_concat(begin, lead);
            lemma_flat_concat(begin + lead, il);
            lemma_flat_concat(begin + lead + il, end);
            assert(begin.drop_first() =~= Seq::<(LayoutKind, int, Seq<char>)>::empty());
            assert(flat_text(begin.drop_first()) == Seq::<char>::empty());
            assert(flat_text(begin) =~= d.0);
            assert(end.drop_first() =~= Seq::<(LayoutKind, int, Seq<char>)>::empty());
            assert(flat_text(end.drop_first()) == Seq::<char>::empty());
            assert(flat_text(end) =~= d.1);
            let pad: Seq<char> = if named {
                seq![' ']
            } else {
                Seq::empty()
            };
            if named {
                assert(lead.drop_first() =~= Seq::<(LayoutKind, int, Seq<char>)>::empty());
                assert(flat_text(lead.drop_first()) == Seq::<char>::empty());
                assert(flat_text(lead) =~= pad);
            } else {
                assert(flat_text(lead) =~= pad);
            }
            assert(d.0 =~= prefix_text(prefix@, delimiter) + seq![delimiter]);
            assert(d.1 =~= pad + seq![closer(delimiter)]);
            assert(flat_text(node_layout(n)) =~= render_node(n));
        },
    }
}

proof fn lemma_flat_nodes(ns: Seq<DebugNode>)
    requires
        chain_ok(ns),
    ensures
        flat_text(nodes_layout(ns)) == render_nodes(ns),
    decreases ns,
{
    if ns.len() > 0 {
        lemma_flat_node(ns[0]);
        lemma_flat_nodes(ns.drop_first());
        lemma_flat_concat(node_layout(ns[0]), nodes_layout(ns.drop_first()));
    } else {
        assert(flat_text(nodes_layout(ns)) =~= render_nodes(ns));
    }
}

proof fn lemma_flat_items(items: Seq<Vec<DebugNode>>, last_next: Option<char>)
    requires
        crate::pretty::canonical_items(items, last_next),
    ensures
        flat_text(items_layout(items)) == render_items(items),
    decreases items,
{
    if items.len() == 0 {
        assert(flat_text(items_layout(items)) =~= render_items(items));
    } else if items.len() == 1 {
        lemma_flat_nodes(items[0]@);
    } else {
        let sep = seq![
            (LayoutKind::Text, 0int, seq![',']),
            (LayoutKind::Breakable, 0int, seq![' ']),
        ];
        lemma_flat_nodes(items[0]@);
        lemma_flat_items(items.drop_first(), last_next);
        lemma_flat_concat(nodes_layout(items[0]@), sep);
        lemma_flat_concat(nodes_layout(items[0]@) + sep, items_layout(items.drop_first()));
        assert(sep.drop_first().drop_first() =~= Seq::<(LayoutKind, int, Seq<char>)>::empty());
        assert(flat_text(sep.drop_first().drop_first()) == Seq::<char>::empty());
        assert(flat_text(sep.drop_first()) =~= seq![' ']);
        assert(flat_text(sep) =~= seq![',', ' ']);
        assert(flat_text(items_layout(items)) =~= render_items(items));
    }
}

proof fn lemma_same_layout_node(a: DebugNode, b: DebugNode)
    requires
        same_node(a, b),
    ensures
        node_layout(a) == node_layout(b),
    decreases a,
{
    match a {
        DebugNode::Leaf(_) => {},
        DebugNode::Group { items, .. } => {
            lemma_same_layout_items(items@, b->Group_items@);
        },
    }
}

proof fn lemma_same_layout_items(a: Seq<Vec<DebugNode>>, b: Seq<Vec<DebugNode>>)
    requires
        same_items(a, b),
    ensures
        items_layout(a) == items_layout(b),
    decreases a,
{
    if a.len() > 0 {
        lemma_same_layout_nodes(a[0]@, b[0]@);
        lemma_same_layout_items(a.drop_first(), b.drop_first());
    }
}

proof fn lemma_same_layout_nodes(a: Seq<DebugNode>, b: Seq<DebugNode>)
    requires
        same_nodes(a, b),
    ensures
        nodes_layout(a) == nodes_layout(b),
    decreases a,
{
    if a.len() > 0 {
        lemma_same_layout_node(a[0], b[0]);
        lemma_same_layout_nodes(a.drop_first(), b.drop_first());
    }
}

proof fn lemma_nodes_layout_push(ns: Seq<DebugNode>, n: DebugNode)
    ensures
        nodes_layout(ns.push(n)) == nodes_layout(ns) + node_layout(n),
    decreases ns.len(),
{
    if ns.len() == 0 {
        let s = ns.push(n);
        assert(s.drop_first() =~= Seq::<DebugNode>::empty());
        assert(nodes_layout(s.drop_first()) == Seq::<(LayoutKind, int, Seq<char>)>::empty());
        assert(nodes_layout(s) =~= nodes_layout(ns) + node_layout(n));
    } else {
        assert(ns.push(n).drop_first() =~= ns.drop_first().push(n));
        lemma_nodes_layout_push(ns.drop_first(), n);
        assert(nodes_layout(ns.push(n)) =~= nodes_layout(ns) + node_layout(n));
    }
}

/// The separator between a group's items: `","` and a break point.
pub open spec fn item_separator() -> Seq<(LayoutKind, int, Seq<char>)> {
    seq![(LayoutKind::Text, 0int, seq![',']), (LayoutKind::Breakable, 0int, seq![' '])]
}

proof fn lemma_items_layout_push(items: Seq<Vec<DebugNode>>, x: Vec<DebugNode>)
    ensures
        items_layout(items.push(x)) == if items.len() == 0 {
            nodes_layout(x@)
        } else {
            items_layout(items) + item_separator() + nodes_layout(x@)
        },
    decreases items.len(),
{
    if items.len() == 0 {
    } else if items.len() == 1 {
        let t = items.push(x).drop_first();
        assert(t =~= seq![x]);
        assert(items_layout(t) == nodes_layout(x@));
        assert(items_layout(items.push(x)) =~= items_layout(items) + item_separator() + nodes_layout(
            x@,
        ));
    } else {
        assert(items.push(x).drop_first() =~= items.drop_first().push(x));
        lemma_items_layout_push(items.drop_first(), x);
        assert(items_layout(items.push(x)) =~= items_layout(items) + item_separator() + nodes_layout(
            x@,
        ));
    }
}

proof fn lemma_node_layout_group(g: DebugNode)
    requires
        g is Group,
    ensures
        node_layout(g) == seq![
            (
                LayoutKind::BeginGroup,
                group_delims(g->Group_prefix@, g->Group_delimiter, g->Group_named).2,
                group_delims(g->Group_prefix@, g->Group_delimiter, g->Group_named).0,
            ),
        ] + (if g->Group_named {
            seq![(LayoutKind::Breakable, 0int, seq![' '])]
        } else {
            Seq::<(LayoutKind, int, Seq<char>)>::empty()
        }) + items_layout(g->Group_items@) + seq![
            (
                LayoutKind::EndGroup,
                group_delims(g->Group_prefix@, g->Group_delimiter, g->Group_named).2,
                group_delims(g->Group_prefix@, g->Group_delimiter, g->Group_named).1,
            ),
        ],
{
}

proof fn lemma_extended_twice(
    doc: Option<Seq<(LayoutKind, int, Seq<char>)>>,
    a: Seq<(LayoutKind, int, Seq<char>)>,
    b: Seq<(LayoutKind, int, Seq<char>)>,
)
    ensures
        extended(extended(doc, a), b) == extended(doc, a + b),
{
    if doc is Some {
        assert(doc->0 + a + b =~= doc->0 + (a + b));
    }
}

/// The number of nodes in a node, counting those nested in its groups.
pub open spec fn node_size(n: DebugNode) -> nat
    decreases n,
{
    match n {
        DebugNode::Leaf(_) => 1,
        DebugNode::Group { items, .. } => 1 + items_size(items@),
    }
}

/// The number of nodes in a group's items.
pub open spec fn items_size(items: Seq<Vec<DebugNode>>) -> nat
    decreases items,
{
    if items.len() == 0 {
        0
    } else {
        nodes_size(items[0]@) + items_size(items.drop_first())
    }
}

/// The number of nodes in a sequence of nodes.
pub open spec fn nodes_size(ns: Seq<DebugNode>) -> nat
    decreases ns,
{
    if ns.len() == 0 {
        0
    } else {
        node_size(ns[0]) + nodes_size(ns.drop_first())
    }
}

proof fn lemma_nodes_size_at(ns: Seq<DebugNode>, i: int)
    requires
        0 <= i < ns.len(),
    ensures
        node_size(ns[i]) <= nodes_size(ns),
    decreases i,
{
    if i > 0 {
        lemma_nodes_size_at(ns.drop_first(), i - 1);
    }
}

proof fn lemma_items_size_at(items: Seq<Vec<DebugNode>>, j: int)
    requires
        0 <= j < items.len(),
    ensures
        nodes_size(items[j]@) <= items_size(items),
    decreases j,
{
    if j > 0 {
        lemma_items_size_at(items.drop_first(), j - 1);
    }
}

/// Printing a `{:?}` representation loses and adds nothing: laid out on
/// one line, its operations give the representation back, whether it was
/// parsed into groups or printed as it stands.
pub proof fn lemma_debug_layout_flat(repr: Seq<char>)
    ensures
        flat_text(debug_layout(repr)) == repr,
{
    if parses(repr) {
        let ns = choose|ns: Seq<DebugNode>| canonical_nodes(ns, None) && render_nodes(ns) == repr;
        lemma_flat_nodes(ns);
    } else {
        lemma_text_layout_flat(repr);
    }
}

/// A printer that records a document of layout operations for the layout
/// engine, which keeps lines within `max_width` where the group structure
/// allows it. The discarding printer records nothing.
pub struct PrettyPrinter {
    max_width: usize,
    ops: Option<Vec<LayoutOp>>,
}

impl PrettyPrinter {
    /// No part of the document from its start closes more groups than it
    /// opened.
    #[verifier::type_invariant]
    pub closed spec fn well_nested(self) -> bool {
        self.ops matches Some(v) ==> prefixes_nested(op_views(v@))
    }

    /// What the invariant says of the document: it has not closed more
    /// groups than it opened.
    pub proof fn lemma_well_nested(&self)
        requires
            self.well_nested(),
        ensures
            self.document() matches Some(d) ==> open_count(d) >= 0 && prefixes_nested(d),
    {
        if self.ops is Some {
            let d = op_views(self.ops->0@);
            assert(d.take(d.len() as int) =~= d);
        }
    }

    /// The document so far; `None` for the discarding printer.
    pub closed spec fn document(&self) -> Option<Seq<(LayoutKind, int, Seq<char>)>> {
        match self.ops {
            Some(v) => Some(op_views(v@)),
            None => None,
        }
    }

    /// The line width the layout engine keeps to.
    pub closed spec fn width(&self) -> nat {
        self.max_width as nat
    }

    /// A printer that keeps lines within `max_width` characters where the
    /// group structure allows it.
    pub fn new(max_width: usize) -> (p: Self)
        ensures
            p.document() == Some(Seq::<(LayoutKind, int, Seq<char>)>::empty()),
            p.width() == max_width,
    {
        let p = PrettyPrinter { max_width, ops: Some(Vec::new()) };
        proof {
            assert(op_views(Seq::<LayoutOp>::empty()) =~= Seq::<(LayoutKind, int, Seq<char>)>::empty());
        }
        p
    }

    /// A printer that discards everything printed to it.
    pub fn noop() -> (p: Self)
        ensures
            p.document() is None,
    {
        PrettyPrinter { max_width: 0, ops: None }
    }

    /// Whether printing produces output: `false` for the discarding printer.
    pub fn should_print(&self) -> (r: bool)
        ensures
            r == self.document() is Some,
    {
        self.ops.is_some()
    }

    /// The line width the layout engine keeps to.
    pub fn max_width(&self) -> (r: usize)
        ensures
            r == self.width(),
    {
        self.max_width
    }

    /// The operations recorded so far, in order (none for the discarding
    /// printer).
    pub fn ops(&self) -> (r: &[LayoutOp])
        ensures
            self.document() is Some ==> self.document() == Some(op_views(r@)),
            self.document() is None ==> r@.len() == 0,
    {
        match &self.ops {
            Some(v) => v.as_slice(),
            None => &[],
        }
    }

    /// Records one operation.
    fn record(&mut self, op: LayoutOp)
        requires
            old(self).document() matches Some(d) ==> open_count(d) + group_delta(op@) >= 0,
        ensures
            final(self).document() == extended(old(self).document(), seq![op@]),
            final(self).width() == old(self).width(),
    {
        broadcast use group_open_count;

        proof {
            use_type_invariant(&*self);
        }
        let mut ops: Option<Vec<LayoutOp>> = None;
        std::mem::swap(&mut ops, &mut self.ops);
        match ops {
            Some(mut v) => {
                let ghost before = v@;
                let ghost view = op@;
                v.push(op);
                proof {
                    lemma_views_push(before, v@.last());
                    assert(v@ == before.push(v@.last()));
                    assert(op_views(before) + seq![view] =~= op_views(before).push(view));
                    let d = op_views(before);
                    let e = op_views(v@);
                    assert(d.take(d.len() as int) =~= d);
                    assert forall|i: int| 0 <= i <= e.len() implies open_count(#[trigger] e.take(i)) >= 0 by {
                        if i <= d.len() {
                            assert(e.take(i) =~= d.take(i));
                        } else {
                            assert(e.take(i) =~= d + seq![view]);
                        }
                    }
                }
                self.ops = Some(v);
            },
            None => {},
        }
    }

    /// Emits literal text; newlines in `s` are hard breaks.
    pub fn text(&mut self, s: &str)
        ensures
            final(self).document() == extended(old(self).document(), text_layout(s@)),
            final(self).width() == old(self).width(),
    {
        if self.ops.is_none() {
            return;
        }
        let chars = str_to_chars(s);
        let mut seg: Vec<char> = Vec::new();
        let mut i: usize = 0;
        let ghost start = self.document()->0;
        proof {
            assert(chars@.skip(0) =~= s@);
            assert(self.document()->0 =~= self.document()->0 + Seq::<(LayoutKind, int, Seq<char>)>::empty());
        }
        while i < chars.len()
            invariant
                chars@ == s@,
                i <= chars@.len(),
                self.document() is Some,
                self.width() == old(self).width(),
                old(self).document() == Some(start),
                self.document()->0 + text_layout_from(seg@, chars@.skip(i as int)) == start
                    + text_layout(s@),
            decreases chars@.len() - i,
        {
            let c = chars[i];
            let ghost rest = chars@.skip(i as int);
            proof {
                assert(rest.drop_first() =~= chars@.skip(i + 1));
            }
            if c == '\n' {
                if seg.len() > 0 {
                    let run = chars_to_string(seg.as_slice());
                    proof {
                        use_type_invariant(&*self);
            self.lemma_well_nested();
                    }
                    self.record(LayoutOp::Text(run));
                }
                proof {
                    use_type_invariant(&*self);
            self.lemma_well_nested();
                }
                self.record(LayoutOp::HardBreak);
                proof {
                    assert(text_run(seg@) =~= if seg@.len() > 0 {
                        seq![(LayoutKind::Text, 0int, seg@)]
                    } else {
                        Seq::empty()
                    });
                }
                seg = Vec::new();
                proof {
                    assert(seg@ =~= Seq::<char>::empty());
                }
            } else {
                seg.push(c);
            }
            i += 1;
            proof {
                if c == '\n' {
                    assert(self.document()->0 + text_layout_from(seg@, chars@.skip(i as int)) =~= start
                        + text_layout(s@));
                } else {
                    assert(self.document()->0 + text_layout_from(seg@, chars@.skip(i as int)) =~= start
                        + text_layout(s@));
                }
            }
        }
        if seg.len() > 0 {
            let run = chars_to_string(seg.as_slice());
            proof {
                use_type_invariant(&*self);
            self.lemma_well_nested();
            }
            self.record(LayoutOp::Text(run));
        }
        proof {
            assert(chars@.skip(i as int) =~= Seq::<char>::empty());
            assert(self.document()->0 =~= start + text_layout(s@));
        }
    }

    /// Emits a break point: `sep` when the enclosing group fits on the line,
    /// a newline and the indentation when it breaks.
    pub fn breakable(&mut self, sep: &str)
        ensures
            final(self).document() == extended(
                old(self).document(),
                seq![(LayoutKind::Breakable, 0int, sep@)],
            ),
            final(self).width() == old(self).width(),
    {
        proof {
            use_type_invariant(&*self);
            self.lemma_well_nested();
        }
        self.record(LayoutOp::Breakable(sep.to_owned()));
    }

    /// Emits an unconditional newline followed by the current indentation.
    pub fn hard_break(&mut self)
        ensures
            final(self).document() == extended(
                old(self).document(),
                seq![(LayoutKind::HardBreak, 0int, Seq::<char>::empty())],
            ),
            final(self).width() == old(self).width(),
    {
        proof {
            use_type_invariant(&*self);
            self.lemma_well_nested();
        }
        self.record(LayoutOp::HardBreak);
    }

    /// Opens a group: emits `open`, then indents later break points by
    /// `indent`.
    pub fn begin_group(&mut self, indent: usize, open: &str)
        ensures
            final(self).document() == extended(
                old(self).document(),
                seq![(LayoutKind::BeginGroup, indent as int, open@)],
            ),
            final(self).width() == old(self).width(),
    {
        proof {
            use_type_invariant(&*self);
            self.lemma_well_nested();
        }
        self.record(LayoutOp::BeginGroup(indent, open.to_owned()));
    }

    /// Closes the innermost group: dedents by `dedent`, then emits `close`.
    /// A group must be open (the discarding printer takes anything).
    pub fn end_group(&mut self, dedent: usize, close: &str)
        requires
            old(self).document() matches Some(d) ==> open_count(d) > 0,
        ensures
            final(self).document() == extended(
                old(self).document(),
                seq![(LayoutKind::EndGroup, dedent as int, close@)],
            ),
            final(self).width() == old(self).width(),
    {
        proof {
            use_type_invariant(&*self);
            self.lemma_well_nested();
        }
        self.record(LayoutOp::EndGroup(dedent, close.to_owned()));
    }

    /// Adjusts the indentation of later break points by `delta`.
    pub fn shift_indent(&mut self, delta: isize)
        ensures
            final(self).document() == extended(
                old(self).document(),
                seq![(LayoutKind::ShiftIndent, delta as int, Seq::<char>::empty())],
            ),
            final(self).width() == old(self).width(),
    {
        proof {
            use_type_invariant(&*self);
            self.lemma_well_nested();
        }
        self.record(LayoutOp::ShiftIndent(delta));
    }

    /// Attaches a comment to the current line, rendered as `  // text`.
    pub fn comment(&mut self, text: &str)
        ensures
            final(self).document() == extended(
                old(self).document(),
                seq![(LayoutKind::Comment, 0int, seq![' ', ' ', '/', '/', ' '] + text@)],
            ),
            final(self).width() == old(self).width(),
    {
        let mut c: Vec<char> = Vec::new();
        c.push(' ');
        c.push(' ');
        c.push('/');
        c.push('/');
        c.push(' ');
        let t = str_to_chars(text);
        let mut i: usize = 0;
        while i < t.len()
            invariant
                i <= t@.len(),
                c@ == seq![' ', ' ', '/', '/', ' '] + t@.take(i as int),
            decreases t@.len() - i,
        {
            c.push(t[i]);
            i += 1;
            proof {
                assert(c@ =~= seq![' ', ' ', '/', '/', ' '] + t@.take(i as int));
            }
        }
        proof {
            assert(t@.take(i as int) =~= text@);
        }
        let s = chars_to_string(c.as_slice());
        proof {
            use_type_invariant(&*self);
            self.lemma_well_nested();
        }
        self.record(LayoutOp::Comment(s));
    }
}

impl PrettyPrinter {
    /// Opens a speculative region at the current end of the document:
    /// output printed through the returned [`Speculation`] is kept by
    /// [`Speculation::commit`] or discarded by [`Speculation::abort`]. The
    /// region holds the printer until then.
    pub fn speculate(self) -> (s: Speculation)
        ensures
            s.spec_printer() == self,
            s.held_from() == self.document(),
            s.wf(),
    {
        let mark = match &self.ops {
            Some(v) => v.len(),
            None => 0,
        };
        let ghost start = self.document();
        Speculation { printer: self, mark, start: Ghost(start) }
    }
}

/// An open speculative region on a [`PrettyPrinter`].
pub struct Speculation {
    printer: PrettyPrinter,
    mark: usize,
    start: Ghost<Option<Seq<(LayoutKind, int, Seq<char>)>>>,
}

impl Speculation {
    /// The printer that the region's output goes to.
    pub closed spec fn spec_printer(&self) -> PrettyPrinter {
        self.printer
    }

    /// The document as it stood when the region opened.
    pub closed spec fn held_from(&self) -> Option<Seq<(LayoutKind, int, Seq<char>)>> {
        self.start@
    }

    /// The mark is where the region opened.
    pub closed spec fn wf(&self) -> bool {
        self.start@ matches Some(d0) ==> self.mark == d0.len()
    }

    /// The printer to print the speculative output through.
    pub fn printer(&mut self) -> (r: &mut PrettyPrinter)
        ensures
            *r == old(self).spec_printer(),
            final(self).spec_printer() == *final(r),
            final(self).held_from() == old(self).held_from(),
            old(self).wf() ==> final(self).wf(),
    {
        &mut self.printer
    }

    /// Closes the region, keeping its output.
    pub fn commit(self) -> (p: PrettyPrinter)
        ensures
            p == self.spec_printer(),
    {
        self.printer
    }

    /// Closes the region, discarding its output: the document is as it
    /// stood when the region opened.
    pub fn abort(self) -> (p: PrettyPrinter)
        requires
            self.wf(),
        ensures
            p.width() == self.spec_printer().width(),
            self.spec_printer().document() is None ==> p.document() is None,
            self.spec_printer().document() matches Some(d) && self.held_from() matches Some(d0)
                && d0.is_prefix_of(d) ==> p.document() == self.held_from(),
    {
        let mut p = self.printer;
        proof {
            use_type_invariant(&p);
        }
        let mut ops: Option<Vec<LayoutOp>> = None;
        std::mem::swap(&mut ops, &mut p.ops);
        match ops {
            Some(mut v) => {
                let ghost d = op_views(v@);
                v.truncate(self.mark);
                proof {
                    let e = op_views(v@);
                    if self.mark <= d.len() {
                        assert(e =~= d.take(self.mark as int));
                    } else {
                        assert(e == d);
                    }
                    assert forall|i: int| 0 <= i <= e.len() implies open_count(#[trigger] e.take(i)) >= 0 by {
                        assert(e.take(i) =~= d.take(i));
                    }
                    if self.start@ is Some {
                        let d0 = self.start@->0;
                        if d0.is_prefix_of(d) {
                            assert(e =~= d0);
                        }
                    }
                }
                p.ops = Some(v);
            },
            None => {},
        }
        p
    }
}

/// Emits parsed nodes through the printer: literal text as text, each
/// group as a group with a break point after each separating comma.
fn emit_debug_nodes(nodes: &[DebugNode], printer: &mut PrettyPrinter)
    ensures
        final(printer).document() == extended(old(printer).document(), nodes_layout(nodes@)),
        final(printer).width() == old(printer).width(),
        open_count(nodes_layout(nodes@)) == 0,
    decreases nodes_size(nodes@),
{
    broadcast use group_open_count;

    let ghost start = printer.document();
    let mut i: usize = 0;
    proof {
        assert(nodes@.take(0) =~= Seq::<DebugNode>::empty());
        lemma_extended_twice(start, Seq::empty(), Seq::empty());
        assert(extended(start, Seq::<(LayoutKind, int, Seq<char>)>::empty()) == start) by {
            if start is Some {
                assert(start->0 + Seq::<(LayoutKind, int, Seq<char>)>::empty() =~= start->0);
            }
        }
    }
    while i < nodes.len()
        invariant
            i <= nodes@.len(),
            printer.width() == old(printer).width(),
            start == old(printer).document(),
            printer.document() == extended(start, nodes_layout(nodes@.take(i as int))),
            open_count(nodes_layout(nodes@.take(i as int))) == 0,
        decreases nodes@.len() - i,
    {
        let ghost before = printer.document();
        let node = &nodes[i];
        match node {
            DebugNode::Leaf(text) => {
                let s = chars_to_string(text.as_slice());
                printer.text(s.as_str());
            },
            DebugNode::Group { prefix, delimiter, named, items } => {
                let d = *delimiter;
                let mut open: Vec<char> = Vec::new();
                let mut close: Vec<char> = Vec::new();
                let indent: usize;
                if d == '{' && *named {
                    append_chars(&mut open, prefix);
                    open.push(' ');
                    open.push('{');
                    close.push(' ');
                    close.push('}');
                    indent = 4;
                } else if d == '{' && prefix.len() == 0 {
                    open.push('{');
                    close.push('}');
                    indent = 1;
                } else if d == '{' {
                    append_chars(&mut open, prefix);
                    open.push(' ');
                    open.push('{');
                    close.push('}');
                    indent = 1;
                } else if d == '[' {
                    append_chars(&mut open, prefix);
                    open.push('[');
                    close.push(']');
                    indent = 1;
                } else {
                    append_chars(&mut open, prefix);
                    open.push('(');
                    close.push(')');
                    indent = 1;
                }
                let ghost dl = group_delims(prefix@, d, *named);
                proof {
                    assert(open@ =~= dl.0);
                    assert(close@ =~= dl.1);
                    assert(indent == dl.2);
                }
                let open_s = chars_to_string(open.as_slice());
                let close_s = chars_to_string(close.as_slice());
                proof {
                    use_type_invariant(&*printer);
                    printer.lemma_well_nested();
                }
                printer.begin_group(indent, open_s.as_str());
                assert(printer.document() == extended(before, seq![(LayoutKind::BeginGroup, dl.2, dl.0)]));
                let ghost lead: Seq<(LayoutKind, int, Seq<char>)> = if *named {
                    seq![(LayoutKind::Breakable, 0int, seq![' '])]
                } else {
                    Seq::empty()
                };
                if *named {
                    printer.breakable(" ");
                    proof {
                        reveal_strlit(" ");
                        assert(" "@ =~= seq![' ']);
                        assert(printer.document() == extended(
                            extended(before, seq![(LayoutKind::BeginGroup, dl.2, dl.0)]),
                            lead,
                        ));
                    }
                }
                let ghost head = seq![(LayoutKind::BeginGroup, dl.2, dl.0)] + lead;
                proof {
                    lemma_extended_twice(before, seq![(LayoutKind::BeginGroup, dl.2, dl.0)], lead);
                    if !*named {
                        assert(seq![(LayoutKind::BeginGroup, dl.2, dl.0)] + lead =~= seq![
                            (LayoutKind::BeginGroup, dl.2, dl.0),
                        ]);
                    }
                    assert(printer.document() == extended(before, head));
                    if *named {
                        lemma_open_count_one((LayoutKind::Breakable, 0int, seq![' ']));
                        assert(open_count(lead) == 0);
                    } else {
                        assert(lead =~= Seq::<(LayoutKind, int, Seq<char>)>::empty());
                        assert(open_count(lead) == 0);
                    }
                    lemma_open_count_one((LayoutKind::BeginGroup, dl.2, dl.0));
                    lemma_open_count_add(seq![(LayoutKind::BeginGroup, dl.2, dl.0)], lead);
                    assert(open_count(head) == 1);
                    assert(items@.take(0) =~= Seq::<Vec<DebugNode>>::empty());
                    assert(items_layout(items@.take(0)) =~= Seq::<(LayoutKind, int, Seq<char>)>::empty());
                    assert(head + items_layout(items@.take(0)) =~= head);
                }
                let mut j: usize = 0;
                while j < items.len()
                    invariant
                        j <= items@.len(),
                        i < nodes@.len(),
                        printer.width() == old(printer).width(),
                        printer.document() == extended(before, head + items_layout(items@.take(j as int))),
                        nodes@[i as int] == *node,
                        *node matches DebugNode::Group { items: its, .. } && its == *items,
                        open_count(items_layout(items@.take(j as int))) == 0,
                        open_count(head) == 1,
                        before matches Some(d) ==> open_count(d) >= 0,
                    decreases items@.len() - j,
                {
                    let ghost at_item = printer.document();
                    if j > 0 {
                        print_separator(printer);
                    }
                    let ghost at_nodes = printer.document();
                    proof {
                        lemma_nodes_size_at(nodes@, i as int);
                        lemma_items_size_at(items@, j as int);
                        assert(node_size(*node) == 1 + items_size(items@));
                    }
                    let elem = items[j].as_slice();
                    emit_debug_nodes(elem, printer);
                    proof {
                        assert(elem@ == items@[j as int]@);
                        assert(open_count(nodes_layout(items@[j as int]@)) == 0);
                        let h = head + items_layout(items@.take(j as int));
                        let n = nodes_layout(items@[j as int]@);
                        assert(items@.take(j + 1) =~= items@.take(j as int).push(items@[j as int]));
                        lemma_items_layout_push(items@.take(j as int), items@[j as int]);
                        if j == 0 {
                            assert(items@.take(0) =~= Seq::<Vec<DebugNode>>::empty());
                            assert(items_layout(items@.take(0)) =~= Seq::<(LayoutKind, int, Seq<char>)>::empty());
                            assert(at_nodes == extended(before, h));
                            lemma_extended_twice(before, h, n);
                            assert(h + n =~= head + items_layout(items@.take(j + 1)));
                        } else {
                            assert(at_nodes == extended(extended(before, h), item_separator()));
                            lemma_extended_twice(before, h, item_separator());
                            lemma_extended_twice(before, h + item_separator(), n);
                            assert(h + item_separator() + n =~= head + items_layout(items@.take(j + 1)));
                        }
                        assert(open_count(n) == 0);
                        if j == 0 {
                            assert(items_layout(items@.take(j + 1)) == n);
                        } else {
                            assert(items_layout(items@.take(j + 1)) == items_layout(items@.take(j as int))
                                + item_separator() + n);
                            lemma_separator_count();
                            lemma_open_count_add(items_layout(items@.take(j as int)), item_separator());
                            lemma_open_count_add(items_layout(items@.take(j as int)) + item_separator(), n);
                        }
                        assert(open_count(items_layout(items@.take(j + 1))) == 0);
                    }
                    j += 1;
                }
                proof {
                    if before is Some {
                        let x = items_layout(items@.take(j as int));
                        lemma_open_count_add(head, x);
                        lemma_open_count_add(before->0, head + x);
                    }
                }
                printer.end_group(indent, close_s.as_str());
                proof {
                    assert(items@.take(j as int) =~= items@);
                    lemma_node_layout_group(*node);
                    lemma_extended_twice(before, head + items_layout(items@), seq![(LayoutKind::EndGroup, dl.2, dl.1)]);
                    assert(head + items_layout(items@) + seq![(LayoutKind::EndGroup, dl.2, dl.1)] =~= node_layout(*node));
                    lemma_open_count_one((LayoutKind::EndGroup, dl.2, dl.1));
                    lemma_open_count_add(head, items_layout(items@));
                    lemma_open_count_add(head + items_layout(items@), seq![(LayoutKind::EndGroup, dl.2, dl.1)]);
                    assert(open_count(node_layout(*node)) == 0);
                }
            },
        }
        proof {
            if nodes@[i as int] is Leaf {
                lemma_text_layout_count(nodes@[i as int]->Leaf_0@);
            }
            assert(open_count(node_layout(nodes@[i as int])) == 0);
            lemma_open_count_add(nodes_layout(nodes@.take(i as int)), node_layout(nodes@[i as int]));
            assert(nodes@.take(i + 1) =~= nodes@.take(i as int).push(nodes@[i as int]));
            lemma_nodes_layout_push(nodes@.take(i as int), nodes@[i as int]);
            lemma_extended_twice(start, nodes_layout(nodes@.take(i as int)), node_layout(nodes@[i as int]));
        }
        i += 1;
    }
    proof {
        assert(nodes@.take(i as int) =~= nodes@);
    }
}

/// Appends the characters of `src` to `dst`.
fn append_chars(dst: &mut Vec<char>, src: &Vec<char>)
    ensures
        final(dst)@ == old(dst)@ + src@,
{
    let mut k: usize = 0;
    while k < src.len()
        invariant
            k <= src@.len(),
            dst@ == old(dst)@ + src@.take(k as int),
        decreases src@.len() - k,
    {
        dst.push(src[k]);
        k += 1;
        proof {
            assert(dst@ =~= old(dst)@ + src@.take(k as int));
        }
    }
    proof {
        assert(src@.take(k as int) =~= src@);
    }
}

/// Prints a `{:?}` representation through the layout primitives: parsed
/// into groups when it is in the derived-`Debug` grammar, so it wraps like a
/// hand-written layout, and as literal text otherwise.
pub fn print_debug_repr(repr: &str, printer: &mut PrettyPrinter)
    ensures
        final(printer).document() == extended(old(printer).document(), debug_layout(repr@)),
        final(printer).width() == old(printer).width(),
{
    match DebugRepr::parse(repr) {
        Some(nodes) => {
            proof {
                let ns = choose|ns: Seq<DebugNode>| canonical_nodes(ns, None) && render_nodes(ns) == repr@;
                assert(canonical_nodes(nodes@, None) && render_nodes(nodes@) == repr@);
                assert(parses(repr@));
                assert(same_nodes(nodes@, ns));
                lemma_same_layout_nodes(nodes@, ns);
            }
            emit_debug_nodes(nodes.as_slice(), printer);
        },
        None => {
            proof {
                if parses(repr@) {
                    let ns = choose|ns: Seq<DebugNode>| canonical_nodes(ns, None) && render_nodes(ns) == repr@;
                    assert(canonical_nodes(ns, None) && render_nodes(ns) == repr@);
                }
            }
            printer.text(repr);
        },
    }
}

/// Prints the separator between a group's items: `","` and a break point.
pub(crate) fn print_separator(printer: &mut PrettyPrinter)
    ensures
        final(printer).document() == extended(old(printer).document(), item_separator()),
        final(printer).width() == old(printer).width(),
{
    let ghost start = printer.document();
    printer.text(",");
    printer.breakable(" ");
    proof {
        reveal_strlit(",");
        reveal_strlit(" ");
        let one = seq![','];
        assert(","@ =~= one);
        assert(" "@ =~= seq![' ']);
        assert(one.drop_first() =~= Seq::<char>::empty());
        assert(text_layout_from(one, Seq::<char>::empty()) == text_run(one));
        assert(text_layout(one) == text_layout_from(seq![','], Seq::<char>::empty()));
        assert(text_layout(one) =~= seq![(LayoutKind::Text, 0int, one)]);
        lemma_extended_twice(start, text_layout(one), seq![(LayoutKind::Breakable, 0int, seq![' '])]);
        assert(text_layout(one) + seq![(LayoutKind::Breakable, 0int, seq![' '])] =~= item_separator());
    }
}

} // verus!
