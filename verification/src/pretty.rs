//! Reading `{:?}` representations back into their structure.
//!
//! A derived `Debug` implementation prints values in a small grammar —
//! `Name { field: value, … }`, `Name(…)`, `(…)`, `[…]`, `{key: value, …}`,
//! string and character literals, atoms. [`DebugRepr::parse`] splits such a
//! representation into literal runs and delimited groups whose items were
//! separated by `", "`, so that a layout engine can break a large value
//! after each comma. Anything outside the grammar is refused, and nothing is
//! lost: rendering the parsed nodes gives back the representation exactly.

pub mod printable;
pub mod printer;

use vstd::prelude::*;

use crate::native::charutil::str_to_chars;

pub use self::printable::PrettyPrintable;
pub use self::printer::{print_debug_repr, LayoutKind, LayoutOp, PrettyPrinter, Speculation};

verus! {

/// One parsed piece of a `Debug` representation: literal text, or a
/// delimited group.
#[derive(Debug, PartialEq, Eq)]
pub enum DebugNode {
    Leaf(Vec<char>),
    Group {
        /// The atom glued to the open delimiter (`Some` in `Some(5)`, `Name`
        /// in `Name { … }`); empty for bare tuples, lists and map braces.
        prefix: Vec<char>,
        delimiter: char,
        /// A brace group in derived struct style (`Name { … }`, spaces
        /// inside the braces) rather than map style (`{…}`).
        named: bool,
        items: Vec<Vec<DebugNode>>,
    },
}

/// The closing delimiter for an opening one.
pub open spec fn closer(open: char) -> char {
    if open == '[' {
        ']'
    } else if open == '(' {
        ')'
    } else {
        '}'
    }
}

/// What a group's prefix stood for in the text: a brace group's prefix was
/// followed by a space.
pub open spec fn prefix_text(prefix: Seq<char>, delimiter: char) -> Seq<char> {
    if delimiter == '{' && prefix.len() > 0 {
        prefix + seq![' ']
    } else {
        prefix
    }
}

/// The text a node stands for.
pub open spec fn render_node(n: DebugNode) -> Seq<char>
    decreases n,
{
    match n {
        DebugNode::Leaf(t) => t@,
        DebugNode::Group { prefix, delimiter, named, items } => {
            let pad: Seq<char> = if named { seq![' '] } else { Seq::empty() };
            prefix_text(prefix@, delimiter) + seq![delimiter] + pad + render_items(items@) + pad + seq![closer(delimiter)]
        },
    }
}

/// The text of a sequence of nodes.
pub open spec fn render_nodes(ns: Seq<DebugNode>) -> Seq<char>
    decreases ns,
{
    if ns.len() == 0 {
        Seq::empty()
    } else {
        render_node(ns[0]) + render_nodes(ns.drop_first())
    }
}

/// The text of a group's items, joined by `", "`.
pub open spec fn render_items(items: Seq<Vec<DebugNode>>) -> Seq<char>
    decreases items,
{
    if items.len() == 0 {
        Seq::empty()
    } else if items.len() == 1 {
        render_nodes(items[0]@)
    } else {
        render_nodes(items[0]@) + seq![',', ' '] + render_items(items.drop_first())
    }
}

pub(crate) proof fn lemma_render_group(g: DebugNode)
    requires
        g is Group,
    ensures
        render_node(g) == prefix_text(g->Group_prefix@, g->Group_delimiter) + seq![g->Group_delimiter]
            + (if g->Group_named { seq![' '] } else { Seq::<char>::empty() }) + render_items(
            g->Group_items@,
        ) + (if g->Group_named { seq![' '] } else { Seq::<char>::empty() }) + seq![
            closer(g->Group_delimiter),
        ],
{
}

proof fn lemma_render_nodes_push(ns: Seq<DebugNode>, n: DebugNode)
    ensures
        render_nodes(ns.push(n)) == render_nodes(ns) + render_node(n),
    decreases ns.len(),
{
    if ns.len() == 0 {
        let s = ns.push(n);
        assert(s.drop_first() =~= Seq::<DebugNode>::empty());
        assert(render_nodes(s.drop_first()) == Seq::<char>::empty());
        assert(render_nodes(s) =~= render_node(n));
    } else {
        assert(ns.push(n).drop_first() =~= ns.drop_first().push(n));
        lemma_render_nodes_push(ns.drop_first(), n);
        assert(render_nodes(ns.push(n)) =~= render_nodes(ns) + render_node(n));
    }
}

proof fn lemma_render_items_push(items: Seq<Vec<DebugNode>>, x: Vec<DebugNode>)
    ensures
        render_items(items.push(x)) == if items.len() == 0 {
            render_nodes(x@)
        } else {
            render_items(items) + seq![',', ' '] + render_nodes(x@)
        },
    decreases items.len(),
{
    if items.len() == 0 {
    } else if items.len() == 1 {
        let t = items.push(x).drop_first();
        assert(t =~= seq![x]);
        assert(render_items(t) == render_nodes(x@));
        assert(render_items(items.push(x)) =~= render_items(items) + seq![',', ' '] + render_nodes(x@));
    } else {
        assert(items.push(x).drop_first() =~= items.drop_first().push(x));
        lemma_render_items_push(items.drop_first(), x);
        assert(render_items(items.push(x)) =~= render_items(items) + seq![',', ' '] + render_nodes(x@));
    }
}

/// A quote or a delimiter: a character that ends a run of literal text.
pub open spec fn is_structural(c: char) -> bool {
    c == '"' || c == '\'' || c == '[' || c == '(' || c == '{' || c == ']' || c == ')' || c == '}'
}

/// Whether `t` has `", "` at position `i`.
pub open spec fn comma_space_at(t: Seq<char>, i: int) -> bool {
    t[i] == ',' && t[i + 1] == ' '
}

/// Literal text as a representation holds it between its structure: no
/// quote, no delimiter and no item separator `", "`.
pub open spec fn plain_text(t: Seq<char>) -> bool {
    &&& forall|i: int| 0 <= i < t.len() ==> !is_structural(#[trigger] t[i])
    &&& forall|i: int| 0 <= i < t.len() - 1 ==> !#[trigger] comma_space_at(t, i)
}

/// The inside of a string or character literal quoted by `q`: every
/// backslash escapes the character after it, and no other character is `q`.
pub open spec fn escaped_body(b: Seq<char>, q: char) -> bool
    decreases b.len(),
{
    if b.len() == 0 {
        true
    } else if b[0] == '\\' {
        b.len() >= 2 && escaped_body(b.skip(2), q)
    } else {
        b[0] != q && escaped_body(b.skip(1), q)
    }
}

/// A complete string or character literal, quotes included.
pub open spec fn quoted_literal(t: Seq<char>) -> bool {
    &&& t.len() >= 2
    &&& t[0] == '"' || t[0] == '\''
    &&& t.last() == t[0]
    &&& escaped_body(t.subrange(1, t.len() - 1), t[0])
}

/// A leaf of literal text (as opposed to a quoted literal).
pub open spec fn is_text_leaf(n: DebugNode) -> bool {
    n matches DebugNode::Leaf(t) && plain_text(t@)
}

/// Literal text `t` standing right before a group: a group's prefix, or a
/// `(` or `[`, only follows a space, and a bare `{` never follows a space
/// that ends a word.
pub open spec fn text_before_group_ok(t: Seq<char>, prefix: Seq<char>, delimiter: char) -> bool {
    if delimiter != '{' || prefix.len() > 0 {
        t.len() > 0 && t.last() == ' '
    } else {
        !(t.len() >= 2 && t.last() == ' ' && t[t.len() - 2] != ' ')
    }
}

/// Two neighbouring nodes of an item: literal text is never split in two,
/// and it leaves a group its prefix.
pub open spec fn adjacent_ok(a: DebugNode, b: DebugNode) -> bool {
    match a {
        DebugNode::Leaf(t) => {
            if plain_text(t@) {
                match b {
                    DebugNode::Leaf(u) => !plain_text(u@),
                    DebugNode::Group { prefix, delimiter, .. } => text_before_group_ok(
                        t@,
                        prefix@,
                        delimiter,
                    ),
                }
            } else {
                true
            }
        },
        DebugNode::Group { .. } => true,
    }
}

/// Literal text `t` followed by the character `next` (`None` at the end)
/// does not run into an item separator or a `" }"`.
pub open spec fn text_end_ok(t: Seq<char>, next: Option<char>) -> bool {
    !(t.len() > 0 && ((t.last() == ',' && next == Some(' ')) || (t.last() == ' ' && next == Some(
        '}',
    ))))
}

/// The last node of an item, followed by the character `next`.
pub open spec fn end_ok(n: DebugNode, next: Option<char>) -> bool {
    match n {
        DebugNode::Leaf(t) => plain_text(t@) ==> text_end_ok(t@, next),
        DebugNode::Group { .. } => true,
    }
}

/// The head of a group: its delimiter, its prefix (an atom: no space, quote
/// or delimiter), and the layout that tells its style apart.
pub open spec fn group_head_ok(
    prefix: Seq<char>,
    delimiter: char,
    named: bool,
    items: Seq<Vec<DebugNode>>,
) -> bool {
    &&& delimiter == '[' || delimiter == '(' || delimiter == '{'
    &&& forall|i: int| 0 <= i < prefix.len() ==> !is_structural(#[trigger] prefix[i]) && prefix[i] != ' '
    &&& delimiter == '{' && prefix.len() > 0 ==> prefix.last() != ','
    &&& named ==> delimiter == '{' && prefix.len() > 0 && items.len() > 0
    &&& !named ==> items.len() == 0 || render_items(items).len() > 0
    &&& !named && delimiter == '{' && prefix.len() > 0 && render_items(items).len() > 0
        ==> render_items(items)[0] != ' '
}

/// A node as the parser produces it.
pub open spec fn canonical_node(n: DebugNode) -> bool
    decreases n,
{
    match n {
        DebugNode::Leaf(t) => (t@.len() > 0 && plain_text(t@)) || quoted_literal(t@),
        DebugNode::Group { prefix, delimiter, named, items } => group_head_ok(
            prefix@,
            delimiter,
            named,
            items@,
        ) && canonical_items(
            items@,
            if named {
                Some(' ')
            } else {
                Some(closer(delimiter))
            },
        ),
    }
}

/// Canonical nodes, each next to the following one as the parser leaves
/// them.
pub open spec fn chain_ok(ns: Seq<DebugNode>) -> bool
    decreases ns,
{
    if ns.len() == 0 {
        true
    } else {
        canonical_node(ns[0]) && (ns.len() > 1 ==> adjacent_ok(ns[0], ns[1])) && chain_ok(
            ns.drop_first(),
        )
    }
}

/// A group's items: each a canonical item, followed by `", "` or, for the
/// last, by the character `last_next`.
pub open spec fn canonical_items(items: Seq<Vec<DebugNode>>, last_next: Option<char>) -> bool
    decreases items,
{
    if items.len() == 0 {
        true
    } else {
        let next = if items.len() == 1 {
            last_next
        } else {
            Some(',')
        };
        chain_ok(items[0]@) && (items[0]@.len() > 0 ==> end_ok(items[0]@.last(), next))
            && canonical_items(items.drop_first(), last_next)
    }
}

/// An item as the parser produces it, followed by the character `next`.
pub open spec fn canonical_nodes(ns: Seq<DebugNode>, next: Option<char>) -> bool {
    chain_ok(ns) && (ns.len() > 0 ==> end_ok(ns.last(), next))
}

proof fn lemma_chain_push(ns: Seq<DebugNode>, n: DebugNode)
    ensures
        chain_ok(ns.push(n)) == (chain_ok(ns) && canonical_node(n) && (ns.len() > 0 ==> adjacent_ok(
            ns.last(),
            n,
        ))),
    decreases ns.len(),
{
    if ns.len() == 0 {
        let s = ns.push(n);
        assert(s.drop_first() =~= Seq::<DebugNode>::empty());
        assert(chain_ok(s.drop_first()));
    } else {
        assert(ns.push(n).drop_first() =~= ns.drop_first().push(n));
        lemma_chain_push(ns.drop_first(), n);
        if ns.len() > 1 {
            assert(ns.drop_first().last() == ns.last());
        }
    }
}

proof fn lemma_items_push(items: Seq<Vec<DebugNode>>, x: Vec<DebugNode>, last_next: Option<char>)
    ensures
        canonical_items(items.push(x), last_next) == if items.len() == 0 {
            canonical_nodes(x@, last_next)
        } else {
            canonical_items(items, Some(',')) && canonical_nodes(x@, last_next)
        },
    decreases items.len(),
{
    if items.len() == 0 {
        let t = items.push(x);
        assert(t.drop_first() =~= Seq::<Vec<DebugNode>>::empty());
        assert(canonical_items(t.drop_first(), last_next));
    } else if items.len() == 1 {
        let t = items.push(x).drop_first();
        assert(t =~= seq![x]);
        assert(t.drop_first() =~= Seq::<Vec<DebugNode>>::empty());
        assert(canonical_items(t.drop_first(), last_next));
        assert(canonical_items(t, last_next) == canonical_nodes(x@, last_next));
        assert(items.drop_first() =~= Seq::<Vec<DebugNode>>::empty());
        assert(canonical_items(items.drop_first(), Some(',')));
        assert(items.push(x)[0] == items[0]);
    } else {
        assert(items.push(x).drop_first() =~= items.drop_first().push(x));
        assert(items.push(x)[0] == items[0]);
        lemma_items_push(items.drop_first(), x, last_next);
    }
}

proof fn lemma_escaped_concat(a: Seq<char>, b: Seq<char>, q: char)
    requires
        escaped_body(a, q),
        escaped_body(b, q),
    ensures
        escaped_body(a + b, q),
    decreases a.len(),
{
    if a.len() == 0 {
        assert(a + b =~= b);
    } else if a[0] == '\\' {
        assert((a + b).skip(2) =~= a.skip(2) + b);
        lemma_escaped_concat(a.skip(2), b, q);
    } else {
        assert((a + b).skip(1) =~= a.skip(1) + b);
        lemma_escaped_concat(a.skip(1), b, q);
    }
}

proof fn lemma_plain_prefix(t: Seq<char>, k: int)
    requires
        plain_text(t),
        0 <= k <= t.len(),
    ensures
        plain_text(t.take(k)),
{
    assert forall|i: int| 0 <= i < t.take(k).len() - 1 implies !#[trigger] comma_space_at(t.take(k), i) by {
        assert(!comma_space_at(t, i));
    }
}

/// Whether two nodes have the same structure and text.
pub open spec fn same_node(a: DebugNode, b: DebugNode) -> bool
    decreases a,
{
    match a {
        DebugNode::Leaf(t) => b matches DebugNode::Leaf(u) && t@ == u@,
        DebugNode::Group { prefix, delimiter, named, items } => b matches DebugNode::Group {
            prefix: p2,
            delimiter: d2,
            named: n2,
            items: i2,
        } && prefix@ == p2@ && delimiter == d2 && named == n2 && same_items(items@, i2@),
    }
}

/// Whether two groups' items have the same structure and text.
pub open spec fn same_items(a: Seq<Vec<DebugNode>>, b: Seq<Vec<DebugNode>>) -> bool
    decreases a,
{
    a.len() == b.len() && (a.len() > 0 ==> same_nodes(a[0]@, b[0]@) && same_items(
        a.drop_first(),
        b.drop_first(),
    ))
}

/// Whether two node sequences have the same structure and text.
pub open spec fn same_nodes(a: Seq<DebugNode>, b: Seq<DebugNode>) -> bool
    decreases a,
{
    a.len() == b.len() && (a.len() > 0 ==> same_node(a[0], b[0]) && same_nodes(
        a.drop_first(),
        b.drop_first(),
    ))
}

proof fn lemma_same_node_render(a: DebugNode, b: DebugNode)
    requires
        same_node(a, b),
    ensures
        render_node(a) == render_node(b),
    decreases a,
{
    match a {
        DebugNode::Leaf(_) => {},
        DebugNode::Group { items, .. } => {
            lemma_render_group(a);
            lemma_render_group(b);
            lemma_same_items_render(items@, b->Group_items@);
        },
    }
}

proof fn lemma_same_items_render(a: Seq<Vec<DebugNode>>, b: Seq<Vec<DebugNode>>)
    requires
        same_items(a, b),
    ensures
        render_items(a) == render_items(b),
    decreases a,
{
    if a.len() > 0 {
        lemma_same_nodes_render(a[0]@, b[0]@);
        lemma_same_items_render(a.drop_first(), b.drop_first());
    }
}

proof fn lemma_same_nodes_render(a: Seq<DebugNode>, b: Seq<DebugNode>)
    requires
        same_nodes(a, b),
    ensures
        render_nodes(a) == render_nodes(b),
    decreases a,
{
    if a.len() > 0 {
        lemma_same_node_render(a[0], b[0]);
        lemma_same_nodes_render(a.drop_first(), b.drop_first());
    }
}

proof fn lemma_same_nodes_push(a: Seq<DebugNode>, b: Seq<DebugNode>, x: DebugNode, y: DebugNode)
    requires
        same_nodes(a, b),
        same_node(x, y),
    ensures
        same_nodes(a.push(x), b.push(y)),
    decreases a.len(),
{
    if a.len() == 0 {
        assert(a.push(x).drop_first() =~= Seq::<DebugNode>::empty());
        assert(b.push(y).drop_first() =~= Seq::<DebugNode>::empty());
        assert(same_nodes(a.push(x).drop_first(), b.push(y).drop_first()));
    } else {
        assert(a.push(x).drop_first() =~= a.drop_first().push(x));
        assert(b.push(y).drop_first() =~= b.drop_first().push(y));
        lemma_same_nodes_push(a.drop_first(), b.drop_first(), x, y);
    }
}

proof fn lemma_same_items_push(
    a: Seq<Vec<DebugNode>>,
    b: Seq<Vec<DebugNode>>,
    x: Vec<DebugNode>,
    y: Vec<DebugNode>,
)
    requires
        same_items(a, b),
        same_nodes(x@, y@),
    ensures
        same_items(a.push(x), b.push(y)),
    decreases a.len(),
{
    if a.len() == 0 {
        assert(a.push(x).drop_first() =~= Seq::<Vec<DebugNode>>::empty());
        assert(b.push(y).drop_first() =~= Seq::<Vec<DebugNode>>::empty());
        assert(same_items(a.push(x).drop_first(), b.push(y).drop_first()));
    } else {
        assert(a.push(x).drop_first() =~= a.drop_first().push(x));
        assert(b.push(y).drop_first() =~= b.drop_first().push(y));
        lemma_same_items_push(a.drop_first(), b.drop_first(), x, y);
    }
}

/// The text of `ns` is that of its first `k` nodes followed by the rest.
proof fn lemma_render_split(ns: Seq<DebugNode>, k: int)
    requires
        0 <= k <= ns.len(),
    ensures
        render_nodes(ns) == render_nodes(ns.take(k)) + render_nodes(ns.skip(k)),
    decreases k,
{
    if k == 0 {
        assert(ns.take(0) =~= Seq::<DebugNode>::empty());
        assert(ns.skip(0) =~= ns);
        assert(render_nodes(ns.take(0)) == Seq::<char>::empty());
        assert(render_nodes(ns) =~= render_nodes(ns.take(k)) + render_nodes(ns.skip(k)));
    } else {
        lemma_render_split(ns, k - 1);
        assert(ns.take(k) =~= ns.take(k - 1).push(ns[k - 1]));
        lemma_render_nodes_push(ns.take(k - 1), ns[k - 1]);
        assert(ns.skip(k - 1).drop_first() =~= ns.skip(k));
        assert(render_nodes(ns) =~= render_nodes(ns.take(k)) + render_nodes(ns.skip(k)));
    }
}

proof fn lemma_chain_skip(ns: Seq<DebugNode>, k: int)
    requires
        chain_ok(ns),
        0 <= k <= ns.len(),
    ensures
        chain_ok(ns.skip(k)),
    decreases k,
{
    if k > 0 {
        lemma_chain_skip(ns, k - 1);
        assert(ns.skip(k - 1).drop_first() =~= ns.skip(k));
    } else {
        assert(ns.skip(0) =~= ns);
    }
}

/// A closing delimiter.
pub open spec fn is_closer(c: char) -> bool {
    c == ']' || c == ')' || c == '}'
}

/// Whether the parser of an item stops at position `q` of `chars`: the end,
/// a closing delimiter, `", "` or `" }"`.
pub open spec fn stop_at(chars: Seq<char>, q: int) -> bool {
    ||| q == chars.len()
    ||| (q < chars.len() && is_closer(chars[q]))
    ||| (q + 1 < chars.len() && chars[q] == ',' && chars[q + 1] == ' ')
    ||| (q + 1 < chars.len() && chars[q] == ' ' && chars[q + 1] == '}')
}

/// The character at position `q` of `chars`, if any.
pub open spec fn char_at(chars: Seq<char>, q: int) -> Option<char> {
    if 0 <= q < chars.len() {
        Some(chars[q])
    } else {
        None
    }
}

/// Whether `ns` is a canonical item whose text stands in `chars` at
/// `start`, up to a place where the parser of an item stops.
pub open spec fn item_fits(chars: Seq<char>, start: int, ns: Seq<DebugNode>) -> bool {
    let q = start + render_nodes(ns).len();
    &&& 0 <= start
    &&& q <= chars.len()
    &&& chars.subrange(start, q) == render_nodes(ns)
    &&& canonical_nodes(ns, char_at(chars, q))
    &&& stop_at(chars, q)
}

/// The text of a group after its prefix.
pub open spec fn group_body(g: DebugNode) -> Seq<char> {
    match g {
        DebugNode::Group { prefix, delimiter, named, items } => {
            let pad: Seq<char> = if named { seq![' '] } else { Seq::empty() };
            seq![delimiter] + pad + render_items(items@) + pad + seq![closer(delimiter)]
        },
        DebugNode::Leaf(_) => Seq::empty(),
    }
}

/// Whether `g` is a canonical group with prefix `prefix` whose text after
/// the prefix stands in `chars` at `start`.
pub open spec fn group_fits(chars: Seq<char>, start: int, prefix: Seq<char>, g: DebugNode) -> bool {
    &&& 0 <= start
    &&& start + group_body(g).len() <= chars.len()
    &&& canonical_node(g)
    &&& g matches DebugNode::Group { prefix: p, .. } && p@ == prefix
    &&& chars.subrange(start, start + group_body(g).len()) == group_body(g)
}

/// The length of the text before a node's first quote or delimiter when
/// it is a group: its prefix (and the space after a brace group's prefix).
pub open spec fn head_len(n: DebugNode) -> nat {
    match n {
        DebugNode::Group { prefix, delimiter, .. } => prefix_text(prefix@, delimiter).len(),
        DebugNode::Leaf(_) => 0,
    }
}

/// How much literal text the parser of an item reads at the front of
/// `tail` before it meets a quote or a delimiter.
pub open spec fn frontier_len(tail: Seq<DebugNode>) -> nat {
    if tail.len() == 0 {
        0
    } else if is_text_leaf(tail[0]) {
        tail[0]->Leaf_0@.len() + if tail.len() > 1 {
            head_len(tail[1])
        } else {
            0
        }
    } else {
        head_len(tail[0])
    }
}

/// Whether the parser of an item would stop at position `j` of `r`, judged
/// from `r[j]` and `r[j + 1]`.
pub open spec fn stop_pair(r: Seq<char>, j: int) -> bool {
    (r[j] == ',' && r[j + 1] == ' ') || (r[j] == ' ' && r[j + 1] == '}')
}

/// The literal text at the front of `tail`, if it starts with a text leaf.
pub open spec fn text_front(tail: Seq<DebugNode>) -> Seq<char> {
    if tail.len() > 0 && is_text_leaf(tail[0]) {
        tail[0]->Leaf_0@
    } else {
        Seq::empty()
    }
}

/// The index of the first node of `tail` that is not literal text.
pub open spec fn front_idx(tail: Seq<DebugNode>) -> int {
    if tail.len() > 0 && is_text_leaf(tail[0]) {
        1
    } else {
        0
    }
}

/// What the parser of an item meets at the front of `tail`: literal text
/// (no quote or delimiter, and nowhere a place to stop), then either the
/// end of the item or a node that is not literal text.
pub open spec fn frontier_facts(tail: Seq<DebugNode>, next: Option<char>) -> bool {
    let r = render_nodes(tail);
    let f = frontier_len(tail);
    &&& f <= r.len()
    &&& forall|j: int| 0 <= j < f ==> !is_structural(#[trigger] r[j])
    &&& forall|j: int| 0 <= j < f && j + 1 < r.len() ==> !#[trigger] stop_pair(r, j)
    &&& f == r.len() ==> (tail.len() == 0 || (tail.len() == 1 && is_text_leaf(tail[0]))) && r
        == text_front(tail) && text_end_ok(r, next)
    &&& f < r.len() ==> {
        let i = front_idx(tail);
        &&& i < tail.len()
        &&& canonical_node(tail[i])
        &&& !is_text_leaf(tail[i])
        &&& r == text_front(tail) + render_node(tail[i]) + render_nodes(tail.skip(i + 1))
        &&& f == text_front(tail).len() + head_len(tail[i])
    }
}

/// A group's text is its head followed by its body, which starts with the
/// delimiter; the head is an atom, with a space after a brace group's.
proof fn lemma_group_text(g: DebugNode)
    requires
        canonical_node(g),
        g is Group,
    ensures
        render_node(g) == prefix_text(g->Group_prefix@, g->Group_delimiter) + group_body(g),
        group_body(g)[0] == g->Group_delimiter,
        head_len(g) == prefix_text(g->Group_prefix@, g->Group_delimiter).len(),
        group_head_ok(g->Group_prefix@, g->Group_delimiter, g->Group_named, g->Group_items@),
        forall|j: int|
            0 <= j < head_len(g) ==> !is_structural(#[trigger] render_node(g)[j]) && (j + 1
                < head_len(g) ==> render_node(g)[j] != ' '),
        forall|j: int|
            0 <= j < head_len(g) ==> !#[trigger] stop_pair(render_node(g), j),
        head_len(g) < render_node(g).len(),
        render_node(g)[head_len(g) as int] == g->Group_delimiter,
{
    lemma_render_group(g);
    let prefix = g->Group_prefix@;
    let delimiter = g->Group_delimiter;
    let pt = prefix_text(prefix, delimiter);
    let r = render_node(g);
    assert(r =~= pt + group_body(g));
    assert forall|j: int| 0 <= j < head_len(g) implies !is_structural(#[trigger] r[j]) && (j + 1
        < head_len(g) ==> r[j] != ' ') by {
        if j < prefix.len() {
            assert(r[j] == prefix[j]);
        } else {
            assert(r[j] == ' ');
        }
    }
    assert forall|j: int| 0 <= j < head_len(g) implies !#[trigger] stop_pair(r, j) by {
        if j + 1 < prefix.len() {
            assert(r[j + 1] == prefix[j + 1]);
        } else if j + 1 == prefix.len() {
            assert(r[j] == prefix.last());
            if delimiter == '{' && prefix.len() > 0 {
                assert(r[j + 1] == ' ');
            } else {
                assert(r[j + 1] == delimiter);
            }
        } else {
            assert(r[j + 1] == delimiter);
        }
    }
}

proof fn lemma_frontier_text_only(tail: Seq<DebugNode>, next: Option<char>)
    requires
        canonical_nodes(tail, next),
        tail.len() == 1,
        is_text_leaf(tail[0]),
    ensures
        frontier_facts(tail, next),
{
    let t = tail[0]->Leaf_0@;
    let rest = tail.drop_first();
    assert(rest =~= Seq::<DebugNode>::empty());
    assert(render_nodes(rest) == Seq::<char>::empty());
    let r = render_nodes(tail);
    assert(r == render_node(tail[0]) + render_nodes(rest));
    assert(render_node(tail[0]) == t);
    assert(r =~= t);
    assert forall|j: int| 0 <= j < frontier_len(tail) && j + 1 < r.len() implies !#[trigger] stop_pair(r, j) by {
        assert(!comma_space_at(t, j));
        assert(!is_structural(t[j + 1]));
    }
}

proof fn lemma_frontier_text_then(tail: Seq<DebugNode>, next: Option<char>)
    requires
        canonical_nodes(tail, next),
        tail.len() > 1,
        is_text_leaf(tail[0]),
    ensures
        frontier_facts(tail, next),
{
    let t = tail[0]->Leaf_0@;
    let n0 = tail[0];
    let n1 = tail[1];
    let rest = tail.drop_first();
    assert(rest[0] == n1);
    assert(chain_ok(rest));
    assert(canonical_node(n1));
    assert(adjacent_ok(n0, n1));
    assert(render_nodes(rest) == render_node(n1) + render_nodes(rest.drop_first()));
    assert(rest.drop_first() =~= tail.skip(2));
    let r = render_nodes(tail);
    assert(r == render_node(n0) + render_nodes(rest));
    assert(render_node(n0) == t);
    assert(r =~= t + render_node(n1) + render_nodes(tail.skip(2)));
    assert(text_front(tail) == t);
    if is_text_leaf(n1) {
        assert(false);
    } else if n1 is Leaf {
        let lit = n1->Leaf_0@;
        assert(quoted_literal(lit));
        assert forall|j: int| 0 <= j < frontier_len(tail) && j + 1 < r.len() implies !#[trigger] stop_pair(r, j) by {
            if j + 1 < t.len() {
                assert(!comma_space_at(t, j));
                assert(!is_structural(t[j + 1]));
            } else {
                assert(r[j + 1] == lit[0]);
            }
        }
    } else {
        lemma_group_text(n1);
        let g = render_node(n1);
        let prefix = n1->Group_prefix@;
        assert(text_before_group_ok(t, prefix, n1->Group_delimiter));
        assert forall|j: int| 0 <= j < frontier_len(tail) implies !is_structural(#[trigger] r[j]) by {
            if j >= t.len() {
                assert(r[j] == g[j - t.len()]);
            }
        }
        assert forall|j: int| 0 <= j < frontier_len(tail) && j + 1 < r.len() implies !#[trigger] stop_pair(r, j) by {
            if j + 1 < t.len() {
                assert(!comma_space_at(t, j));
                assert(!is_structural(t[j + 1]));
            } else if j + 1 == t.len() {
                assert(r[j + 1] == g[0]);
                if head_len(n1) > 0 {
                    assert(g[0] != ' ');
                } else {
                    assert(g[0] == n1->Group_delimiter);
                }
            } else {
                assert(r[j] == g[j - t.len()]);
                assert(r[j + 1] == g[j + 1 - t.len()]);
                assert(!stop_pair(g, j - t.len()));
            }
        }
    }
}

proof fn lemma_frontier_other(tail: Seq<DebugNode>, next: Option<char>)
    requires
        canonical_nodes(tail, next),
        tail.len() > 0,
        !is_text_leaf(tail[0]),
    ensures
        frontier_facts(tail, next),
{
    let n0 = tail[0];
    assert(canonical_node(n0));
    let r = render_nodes(tail);
    assert(tail.drop_first() =~= tail.skip(1));
    assert(text_front(tail) =~= Seq::<char>::empty());
    assert(r =~= text_front(tail) + render_node(n0) + render_nodes(tail.skip(1)));
    if n0 is Leaf {
        let lit = n0->Leaf_0@;
        assert(quoted_literal(lit));
        assert(r[0] == lit[0]);
    } else {
        lemma_group_text(n0);
        let g = render_node(n0);
        assert forall|j: int| 0 <= j < frontier_len(tail) implies !is_structural(#[trigger] r[j]) by {
            assert(r[j] == g[j]);
        }
        assert forall|j: int| 0 <= j < frontier_len(tail) && j + 1 < r.len() implies !#[trigger] stop_pair(r, j) by {
            assert(r[j] == g[j]);
            assert(r[j + 1] == g[j + 1]);
            assert(!stop_pair(g, j));
        }
    }
}

/// What the parser of an item meets at the front of a canonical `tail`.
proof fn lemma_frontier(tail: Seq<DebugNode>, next: Option<char>)
    requires
        canonical_nodes(tail, next),
    ensures
        frontier_facts(tail, next),
{
    if tail.len() == 0 {
    } else if is_text_leaf(tail[0]) {
        if tail.len() == 1 {
            lemma_frontier_text_only(tail, next);
        } else {
            lemma_frontier_text_then(tail, next);
        }
    } else {
        lemma_frontier_other(tail, next);
    }
}

/// Whether a string or character literal of length `len` stands in `chars`
/// at `start`.
pub open spec fn quoted_at(chars: Seq<char>, start: int, len: int) -> bool {
    &&& 0 <= start
    &&& 2 <= len
    &&& start + len <= chars.len()
    &&& quoted_literal(chars.subrange(start, start + len))
}

/// Whether `whole` is literal text `t` followed by the head of a group with
/// prefix `p` and delimiter `d`, as a canonical item lays them out.
pub open spec fn prefix_split(whole: Seq<char>, t: Seq<char>, p: Seq<char>, d: char) -> bool {
    &&& whole == t + prefix_text(p, d)
    &&& forall|k: int| 0 <= k < p.len() ==> #[trigger] p[k] != ' '
    &&& t.len() > 0 ==> text_before_group_ok(t, p, d)
}

/// The `i`-th item of canonical items is canonical, followed by `", "` or,
/// for the last, by `last_next`.
proof fn lemma_items_at(items: Seq<Vec<DebugNode>>, last_next: Option<char>, i: int)
    requires
        canonical_items(items, last_next),
        0 <= i < items.len(),
    ensures
        canonical_nodes(
            items[i]@,
            if i == items.len() - 1 {
                last_next
            } else {
                Some(',')
            },
        ),
    decreases i,
{
    if i > 0 {
        lemma_items_at(items.drop_first(), last_next, i - 1);
    }
}

/// The text of items from the `i`-th on: that item, then `", "` and the
/// rest.
proof fn lemma_items_skip(items: Seq<Vec<DebugNode>>, i: int)
    requires
        0 <= i < items.len(),
    ensures
        render_items(items.skip(i)) == render_nodes(items[i]@) + if i + 1 < items.len() {
            seq![',', ' '] + render_items(items.skip(i + 1))
        } else {
            Seq::<char>::empty()
        },
{
    let s = items.skip(i);
    assert(s[0] == items[i]);
    assert(s.drop_first() =~= items.skip(i + 1));
    if i + 1 < items.len() {
        assert(render_items(s) =~= render_nodes(items[i]@) + seq![',', ' '] + render_items(
            items.skip(i + 1),
        ));
    } else {
        assert(render_items(s) =~= render_nodes(items[i]@));
    }
}

/// A canonical node's text starts with no closing delimiter.
proof fn lemma_node_first(n: DebugNode)
    requires
        canonical_node(n),
    ensures
        render_node(n).len() > 0,
        !is_closer(render_node(n)[0]),
{
    if n is Group {
        lemma_group_text(n);
        if head_len(n) > 0 {
            assert(!is_structural(render_node(n)[0]));
        }
    }
}

/// The text of canonical items starts with no closing delimiter.
proof fn lemma_items_first(items: Seq<Vec<DebugNode>>, last_next: Option<char>)
    requires
        canonical_items(items, last_next),
        render_items(items).len() > 0,
    ensures
        !is_closer(render_items(items)[0]),
{
    let first = items[0]@;
    if first.len() == 0 {
        assert(render_nodes(first) == Seq::<char>::empty());
        if items.len() == 1 {
            assert(render_items(items) == render_nodes(first));
        } else {
            assert(render_items(items) =~= seq![',', ' '] + render_items(items.drop_first()));
        }
    } else {
        assert(chain_ok(first));
        assert(canonical_node(first[0]));
        lemma_node_first(first[0]);
        assert(render_nodes(first) == render_node(first[0]) + render_nodes(first.drop_first()));
        if items.len() == 1 {
            assert(render_items(items) == render_nodes(first));
        } else {
            assert(render_items(items) == render_nodes(first) + seq![',', ' '] + render_items(
                items.drop_first(),
            ));
        }
    }
}

/// Where the parser of an item stands on the way to a canonical item `ns`:
/// it has built the first nodes of `ns`, and read `text`, the start of the
/// literal text in front of the rest.
pub open spec fn item_progress(ns: Seq<DebugNode>, nodes: Seq<DebugNode>, text: Seq<char>) -> bool {
    let k = nodes.len() as int;
    &&& k <= ns.len()
    &&& same_nodes(nodes, ns.take(k))
    &&& text.len() <= frontier_len(ns.skip(k))
    &&& text == render_nodes(ns.skip(k)).take(text.len() as int)
}

/// The text of the rest of a canonical item as it stands in `chars`.
proof fn lemma_item_view(
    chars: Seq<char>,
    start: int,
    ns: Seq<DebugNode>,
    nodes: Seq<DebugNode>,
    text: Seq<char>,
)
    requires
        item_fits(chars, start, ns),
        item_progress(ns, nodes, text),
    ensures
        ({
            let k = nodes.len() as int;
            let tail = ns.skip(k);
            let r = render_nodes(tail);
            let base = start + render_nodes(nodes).len();
            let q = start + render_nodes(ns).len();
            &&& base + r.len() == q
            &&& forall|j: int| 0 <= j < r.len() ==> chars[base + j] == #[trigger] r[j]
            &&& frontier_facts(tail, char_at(chars, q))
            &&& text.len() <= frontier_len(tail) <= r.len()
            &&& stop_at(chars, q)
            &&& q <= chars.len()
            &&& chain_ok(tail)
            &&& text == r.take(text.len() as int)
        }),
{
    let k = nodes.len() as int;
    let tail = ns.skip(k);
    let r = render_nodes(tail);
    let base = start + render_nodes(nodes).len();
    let q = start + render_nodes(ns).len();
    lemma_render_split(ns, k);
    lemma_same_nodes_render(nodes, ns.take(k));
    assert forall|j: int| 0 <= j < r.len() implies chars[base + j] == #[trigger] r[j] by {
        assert(chars.subrange(start, q)[base - start + j] == render_nodes(ns)[base - start + j]);
    }
    lemma_chain_skip(ns, k);
    if tail.len() > 0 {
        assert(tail.last() == ns.last());
    }
    lemma_frontier(tail, char_at(chars, q));
}

/// A character of literal text in front of the rest: the parser reads on.
proof fn lemma_item_plain(
    chars: Seq<char>,
    start: int,
    ns: Seq<DebugNode>,
    nodes: Seq<DebugNode>,
    text: Seq<char>,
)
    requires
        item_fits(chars, start, ns),
        item_progress(ns, nodes, text),
        ({
            let pos = start + render_nodes(nodes).len() + text.len();
            &&& pos < chars.len()
            &&& !is_structural(chars[pos])
            &&& !(pos + 1 < chars.len() && chars[pos] == ',' && chars[pos + 1] == ' ')
            &&& !(pos + 1 < chars.len() && chars[pos] == ' ' && chars[pos + 1] == '}')
        }),
    ensures
        item_progress(ns, nodes, text.push(chars[start + render_nodes(nodes).len() + text.len()])),
{
    lemma_item_view(chars, start, ns, nodes, text);
    let k = nodes.len() as int;
    let tail = ns.skip(k);
    let r = render_nodes(tail);
    let f = frontier_len(tail);
    let m = text.len() as int;
    let base = start + render_nodes(nodes).len();
    let pos = base + m;
    if m == f {
        if f == r.len() {
            assert(pos == start + render_nodes(ns).len());
        } else {
            let i = front_idx(tail);
            let n = tail[i];
            assert(r == text_front(tail) + render_node(n) + render_nodes(tail.skip(i + 1)));
            assert(chars[pos] == r[m]);
            if n is Group {
                lemma_group_text(n);
                assert(r[m] == render_node(n)[head_len(n) as int]);
            } else {
                assert(r[m] == render_node(n)[0]);
                assert(quoted_literal(n->Leaf_0@));
            }
        }
    }
    assert(m < f);
    assert(chars[pos] == r[m]);
    assert(text.push(chars[pos]) =~= r.take(m + 1));
}

/// The parser of an item stops: it has read the whole of `ns` but for
/// literal text at its end.
proof fn lemma_item_stop(
    chars: Seq<char>,
    start: int,
    ns: Seq<DebugNode>,
    nodes: Seq<DebugNode>,
    text: Seq<char>,
)
    requires
        item_fits(chars, start, ns),
        item_progress(ns, nodes, text),
        ({
            let pos = start + render_nodes(nodes).len() + text.len();
            ||| pos == chars.len()
            ||| (pos < chars.len() && is_closer(chars[pos]))
            ||| (pos + 1 < chars.len() && chars[pos] == ',' && chars[pos + 1] == ' ')
            ||| (pos + 1 < chars.len() && chars[pos] == ' ' && chars[pos + 1] == '}')
        }),
    ensures
        ({
            let k = nodes.len() as int;
            &&& text.len() == 0 ==> k == ns.len()
            &&& text.len() > 0 ==> k + 1 == ns.len() && (ns.last() matches DebugNode::Leaf(t)
                && t@ == text)
            &&& start + render_nodes(nodes).len() + text.len() == start + render_nodes(ns).len()
        }),
{
    lemma_item_view(chars, start, ns, nodes, text);
    let k = nodes.len() as int;
    let tail = ns.skip(k);
    let r = render_nodes(tail);
    let f = frontier_len(tail);
    let m = text.len() as int;
    let base = start + render_nodes(nodes).len();
    let pos = base + m;
    let q = start + render_nodes(ns).len();
    if m < f {
        assert(chars[pos] == r[m]);
        assert(!is_structural(r[m]));
        if m + 1 < r.len() {
            assert(chars[pos + 1] == r[m + 1]);
            assert(!stop_pair(r, m));
        } else {
            assert(pos + 1 == q);
            assert(text_end_ok(r, char_at(chars, q)));
            assert(r.last() == r[m]);
        }
        assert(false);
    }
    if f < r.len() {
        let i = front_idx(tail);
        let n = tail[i];
        assert(chars[pos] == r[m]);
        if n is Group {
            lemma_group_text(n);
            assert(r[m] == render_node(n)[head_len(n) as int]);
        } else {
            assert(r[m] == render_node(n)[0]);
            assert(quoted_literal(n->Leaf_0@));
        }
        assert(false);
    }
    assert(text =~= r);
    if tail.len() == 1 {
        assert(tail[0] == ns.last());
        assert(k + 1 == ns.len());
        assert(canonical_node(tail[0]));
        assert(r == text_front(tail));
        assert(text.len() > 0);
    } else {
        assert(tail.len() == 0);
        assert(k == ns.len());
    }
}

/// A quote in front of the rest: the rest starts with a quoted literal,
/// after the literal text read so far.
proof fn lemma_item_quote(
    chars: Seq<char>,
    start: int,
    ns: Seq<DebugNode>,
    nodes: Seq<DebugNode>,
    text: Seq<char>,
)
    requires
        item_fits(chars, start, ns),
        item_progress(ns, nodes, text),
        ({
            let pos = start + render_nodes(nodes).len() + text.len();
            pos < chars.len() && (chars[pos] == '"' || chars[pos] == '\'')
        }),
    ensures
        ({
            let k = nodes.len() as int;
            let tail = ns.skip(k);
            let i = front_idx(tail);
            let pos = start + render_nodes(nodes).len() + text.len();
            &&& i < tail.len()
            &&& text == text_front(tail)
            &&& (i == 1 ==> text.len() > 0 && (tail[0] matches DebugNode::Leaf(t) && t@ == text))
            &&& tail[i] matches DebugNode::Leaf(lit) && quoted_at(chars, pos, lit@.len() as int)
                && chars.subrange(pos, pos + lit@.len()) == lit@
        }),
{
    lemma_item_view(chars, start, ns, nodes, text);
    let k = nodes.len() as int;
    let tail = ns.skip(k);
    let r = render_nodes(tail);
    let f = frontier_len(tail);
    let m = text.len() as int;
    let base = start + render_nodes(nodes).len();
    let pos = base + m;
    if m < f {
        assert(chars[pos] == r[m]);
        assert(false);
    }
    if f == r.len() {
        assert(pos == start + render_nodes(ns).len());
        assert(false);
    }
    let i = front_idx(tail);
    let n = tail[i];
    assert(r == text_front(tail) + render_node(n) + render_nodes(tail.skip(i + 1)));
    if n is Group {
        lemma_group_text(n);
        assert(chars[pos] == r[m]);
        assert(r[m] == render_node(n)[head_len(n) as int]);
        assert(false);
    }
    let lit = n->Leaf_0@;
    assert(quoted_literal(lit));
    assert(head_len(n) == 0);
    assert(text =~= text_front(tail));
    if i == 1 {
        assert(canonical_node(tail[0]));
    }
    assert(text_front(tail).len() + lit.len() <= r.len());
    assert(render_node(n) == lit);
    assert(chars.subrange(pos, pos + lit.len()) =~= lit) by {
        assert forall|j: int| 0 <= j < lit.len() implies chars.subrange(pos, pos + lit.len())[j]
            == lit[j] by {
            assert(chars[pos + j] == r[m + j]);
        }
    }
}

/// A delimiter in front of the rest: the rest starts with a group, after
/// the literal text and the group's head read so far.
#[verifier::spinoff_prover]
proof fn lemma_item_open(
    chars: Seq<char>,
    start: int,
    ns: Seq<DebugNode>,
    nodes: Seq<DebugNode>,
    text: Seq<char>,
)
    requires
        item_fits(chars, start, ns),
        item_progress(ns, nodes, text),
        ({
            let pos = start + render_nodes(nodes).len() + text.len();
            pos < chars.len() && (chars[pos] == '[' || chars[pos] == '(' || chars[pos] == '{')
        }),
    ensures
        ({
            let k = nodes.len() as int;
            let tail = ns.skip(k);
            let i = front_idx(tail);
            let pos = start + render_nodes(nodes).len() + text.len();
            &&& i < tail.len()
            &&& tail[i] is Group
            &&& prefix_split(text, text_front(tail), tail[i]->Group_prefix@, chars[pos])
            &&& (i == 1 ==> (tail[0] matches DebugNode::Leaf(t) && t@ == text_front(tail)
                && t@.len() > 0))
            &&& group_fits(chars, pos, tail[i]->Group_prefix@, tail[i])
        }),
{
    lemma_item_view(chars, start, ns, nodes, text);
    let k = nodes.len() as int;
    let tail = ns.skip(k);
    let r = render_nodes(tail);
    let f = frontier_len(tail);
    let m = text.len() as int;
    let base = start + render_nodes(nodes).len();
    let pos = base + m;
    if m < f {
        assert(chars[pos] == r[m]);
        assert(false);
    }
    if f == r.len() {
        assert(pos == start + render_nodes(ns).len());
        assert(false);
    }
    let i = front_idx(tail);
    let n = tail[i];
    assert(r == text_front(tail) + render_node(n) + render_nodes(tail.skip(i + 1)));
    if n is Leaf {
        assert(chars[pos] == r[m]);
        assert(r[m] == render_node(n)[0]);
        assert(quoted_literal(n->Leaf_0@));
        assert(false);
    }
    lemma_group_text(n);
    let tf = text_front(tail);
    let pt = prefix_text(n->Group_prefix@, n->Group_delimiter);
    let body = group_body(n);
    assert(chars[pos] == r[m]);
    assert(r[m] == render_node(n)[head_len(n) as int]);
    assert(text =~= tf + pt);
    if i == 1 {
        assert(adjacent_ok(tail[0], tail[1]));
        assert(canonical_node(tail[0]));
    }
    assert(tf.len() + pt.len() + body.len() <= r.len());
    assert(group_head_ok(n->Group_prefix@, n->Group_delimiter, n->Group_named, n->Group_items@));
    assert(chars.subrange(pos, pos + body.len()) =~= body) by {
        assert forall|j: int| 0 <= j < body.len() implies chars.subrange(pos, pos + body.len())[j]
            == body[j] by {
            assert(chars[pos + j] == r[m + j]);
            assert(r[m + j] == render_node(n)[head_len(n) + j]);
        }
    }
}

/// Where the parser of an item stands on the way to every canonical item
/// that fits at `start`.
pub open spec fn all_progress(
    chars: Seq<char>,
    start: int,
    nodes: Seq<DebugNode>,
    text: Seq<char>,
) -> bool {
    forall|ns: Seq<DebugNode>| #[trigger]
        item_fits(chars, start, ns) ==> item_progress(ns, nodes, text)
}

/// Whether `after` is `before` with the literal text `text` moved into a
/// leaf (when there is any).
pub open spec fn flushed(before: Seq<DebugNode>, text: Seq<char>, after: Seq<DebugNode>) -> bool {
    &&& text.len() == 0 ==> after == before
    &&& text.len() > 0 ==> after.len() == before.len() + 1 && after.drop_last() == before && (
    after.last() matches DebugNode::Leaf(t) && t@ == text)
}

proof fn lemma_all_plain(chars: Seq<char>, start: int, nodes: Seq<DebugNode>, text: Seq<char>)
    requires
        all_progress(chars, start, nodes, text),
        ({
            let pos = start + render_nodes(nodes).len() + text.len();
            &&& pos < chars.len()
            &&& !is_structural(chars[pos])
            &&& !(pos + 1 < chars.len() && chars[pos] == ',' && chars[pos + 1] == ' ')
            &&& !(pos + 1 < chars.len() && chars[pos] == ' ' && chars[pos + 1] == '}')
        }),
    ensures
        all_progress(
            chars,
            start,
            nodes,
            text.push(chars[start + render_nodes(nodes).len() + text.len()]),
        ),
{
    assert forall|ns: Seq<DebugNode>| #[trigger] item_fits(chars, start, ns) implies item_progress(
        ns,
        nodes,
        text.push(chars[start + render_nodes(nodes).len() + text.len()]),
    ) by {
        lemma_item_plain(chars, start, ns, nodes, text);
    }
}

/// Where the parser of an item stops, it has read every canonical item
/// that fits, but for literal text at its end.
pub open spec fn all_stopped(
    chars: Seq<char>,
    start: int,
    nodes: Seq<DebugNode>,
    text: Seq<char>,
) -> bool {
    forall|ns: Seq<DebugNode>| #[trigger]
        item_fits(chars, start, ns) ==> item_progress(ns, nodes, text) && (text.len() == 0
            ==> nodes.len() == ns.len()) && (text.len() > 0 ==> nodes.len() + 1 == ns.len() && (
        ns.last() matches DebugNode::Leaf(t) && t@ == text)) && start + render_nodes(nodes).len()
            + text.len() == start + render_nodes(ns).len()
}

proof fn lemma_all_stop(chars: Seq<char>, start: int, nodes: Seq<DebugNode>, text: Seq<char>)
    requires
        all_progress(chars, start, nodes, text),
        ({
            let pos = start + render_nodes(nodes).len() + text.len();
            ||| pos == chars.len()
            ||| (pos < chars.len() && is_closer(chars[pos]))
            ||| (pos + 1 < chars.len() && chars[pos] == ',' && chars[pos + 1] == ' ')
            ||| (pos + 1 < chars.len() && chars[pos] == ' ' && chars[pos + 1] == '}')
        }),
    ensures
        all_stopped(chars, start, nodes, text),
{
    assert forall|ns: Seq<DebugNode>| #[trigger] item_fits(chars, start, ns) implies item_progress(
        ns,
        nodes,
        text,
    ) && (text.len() == 0 ==> nodes.len() == ns.len()) && (text.len() > 0 ==> nodes.len() + 1
        == ns.len() && (ns.last() matches DebugNode::Leaf(t) && t@ == text)) && start
        + render_nodes(nodes).len() + text.len() == start + render_nodes(ns).len() by {
        lemma_item_stop(chars, start, ns, nodes, text);
    }
}

/// After the parser of an item has stopped and moved its literal text into
/// a leaf, it has built every canonical item that fits.
proof fn lemma_all_done(
    chars: Seq<char>,
    start: int,
    nodes: Seq<DebugNode>,
    text: Seq<char>,
    result: Seq<DebugNode>,
)
    requires
        all_stopped(chars, start, nodes, text),
        flushed(nodes, text, result),
    ensures
        forall|ns: Seq<DebugNode>| #[trigger]
            item_fits(chars, start, ns) ==> same_nodes(result, ns) && start + render_nodes(nodes).len()
                + text.len() == start + render_nodes(ns).len(),
{
    assert forall|ns: Seq<DebugNode>| #[trigger] item_fits(chars, start, ns) implies same_nodes(
        result,
        ns,
    ) by {
        let k = nodes.len() as int;
        if text.len() > 0 {
            assert(ns =~= ns.take(k).push(ns[k]));
            assert(result =~= nodes.push(result.last()));
            lemma_same_nodes_push(nodes, ns.take(k), result.last(), ns[k]);
        } else {
            assert(ns.take(k) =~= ns);
        }
    }
}

/// After a quoted literal: every canonical item that fits has it next.
proof fn lemma_all_quote(
    chars: Seq<char>,
    start: int,
    nodes: Seq<DebugNode>,
    text: Seq<char>,
    flushed_nodes: Seq<DebugNode>,
    leaf: DebugNode,
    end: int,
)
    requires
        all_progress(chars, start, nodes, text),
        ({
            let pos = start + render_nodes(nodes).len() + text.len();
            &&& pos < chars.len()
            &&& chars[pos] == '"' || chars[pos] == '\''
            &&& forall|len: int| #[trigger] quoted_at(chars, pos, len) ==> end == pos + len
            &&& leaf matches DebugNode::Leaf(l) && l@ == chars.subrange(pos, end)
        }),
        flushed(nodes, text, flushed_nodes),
    ensures
        all_progress(chars, start, flushed_nodes.push(leaf), Seq::empty()),
{
    let pos = start + render_nodes(nodes).len() + text.len();
    assert forall|ns: Seq<DebugNode>| #[trigger] item_fits(chars, start, ns) implies item_progress(
        ns,
        flushed_nodes.push(leaf),
        Seq::empty(),
    ) by {
        lemma_item_quote(chars, start, ns, nodes, text);
        let k = nodes.len() as int;
        let tail = ns.skip(k);
        let i = front_idx(tail);
        let lit0 = tail[i]->Leaf_0@;
        assert(quoted_at(chars, pos, lit0.len() as int));
        assert(leaf->Leaf_0@ =~= lit0);
        if i == 1 {
            assert(ns.take(k + 1) =~= ns.take(k).push(ns[k]));
            assert(tail[0] == ns[k]);
            lemma_same_nodes_push(nodes, ns.take(k), flushed_nodes.last(), ns[k]);
            assert(flushed_nodes =~= nodes.push(flushed_nodes.last()));
        }
        assert(ns.take(k + i + 1) =~= ns.take(k + i).push(ns[k + i]));
        assert(tail[i] == ns[k + i]);
        lemma_same_nodes_push(flushed_nodes, ns.take(k + i), leaf, ns[k + i]);
        assert(Seq::<char>::empty() =~= render_nodes(ns.skip(k + i + 1)).take(0));
    }
}

/// A quote where no quoted literal stands: no canonical item fits.
proof fn lemma_none_quote(chars: Seq<char>, start: int, nodes: Seq<DebugNode>, text: Seq<char>)
    requires
        all_progress(chars, start, nodes, text),
        ({
            let pos = start + render_nodes(nodes).len() + text.len();
            &&& pos < chars.len()
            &&& chars[pos] == '"' || chars[pos] == '\''
            &&& forall|len: int| !#[trigger] quoted_at(chars, pos, len)
        }),
    ensures
        forall|ns: Seq<DebugNode>| !#[trigger] item_fits(chars, start, ns),
{
    let pos = start + render_nodes(nodes).len() + text.len();
    assert forall|ns: Seq<DebugNode>| !#[trigger] item_fits(chars, start, ns) by {
        if item_fits(chars, start, ns) {
            lemma_item_quote(chars, start, ns, nodes, text);
            let tail = ns.skip(nodes.len() as int);
            let lit0 = tail[front_idx(tail)]->Leaf_0@;
            assert(quoted_at(chars, pos, lit0.len() as int));
        }
    }
}

/// After a group: every canonical item that fits has it next.
proof fn lemma_all_group(
    chars: Seq<char>,
    start: int,
    nodes: Seq<DebugNode>,
    text: Seq<char>,
    prefix: Seq<char>,
    rest: Seq<char>,
    flushed_nodes: Seq<DebugNode>,
    group: DebugNode,
)
    requires
        all_progress(chars, start, nodes, text),
        ({
            let pos = start + render_nodes(nodes).len() + text.len();
            let c = chars[pos];
            &&& pos < chars.len()
            &&& c == '[' || c == '(' || c == '{'
            &&& forall|t: Seq<char>, p: Seq<char>| #[trigger]
                prefix_split(text, t, p, c) ==> prefix == p && rest == t
            &&& forall|g: DebugNode| #[trigger] group_fits(chars, pos, prefix, g) ==> same_node(group, g)
        }),
        flushed(nodes, rest, flushed_nodes),
    ensures
        all_progress(chars, start, flushed_nodes.push(group), Seq::empty()),
{
    let pos = start + render_nodes(nodes).len() + text.len();
    let c = chars[pos];
    assert forall|ns: Seq<DebugNode>| #[trigger] item_fits(chars, start, ns) implies item_progress(
        ns,
        flushed_nodes.push(group),
        Seq::empty(),
    ) by {
        lemma_item_open(chars, start, ns, nodes, text);
        let k = nodes.len() as int;
        let tail = ns.skip(k);
        let i = front_idx(tail);
        let g = tail[i];
        assert(prefix_split(text, text_front(tail), g->Group_prefix@, c));
        assert(group_fits(chars, pos, prefix, g));
        if i == 1 {
            assert(ns.take(k + 1) =~= ns.take(k).push(ns[k]));
            assert(tail[0] == ns[k]);
            lemma_same_nodes_push(nodes, ns.take(k), flushed_nodes.last(), ns[k]);
            assert(flushed_nodes =~= nodes.push(flushed_nodes.last()));
        } else {
            assert(rest.len() == 0);
        }
        assert(ns.take(k + i + 1) =~= ns.take(k + i).push(ns[k + i]));
        assert(tail[i] == ns[k + i]);
        lemma_same_nodes_push(flushed_nodes, ns.take(k + i), group, ns[k + i]);
        assert(Seq::<char>::empty() =~= render_nodes(ns.skip(k + i + 1)).take(0));
    }
}

/// A delimiter where no canonical group stands: no canonical item fits.
proof fn lemma_none_group(
    chars: Seq<char>,
    start: int,
    nodes: Seq<DebugNode>,
    text: Seq<char>,
    prefix: Seq<char>,
)
    requires
        all_progress(chars, start, nodes, text),
        ({
            let pos = start + render_nodes(nodes).len() + text.len();
            let c = chars[pos];
            &&& pos < chars.len()
            &&& c == '[' || c == '(' || c == '{'
            &&& forall|t: Seq<char>, p: Seq<char>| #[trigger]
                prefix_split(text, t, p, c) ==> prefix == p
            &&& forall|g: DebugNode| !#[trigger] group_fits(chars, pos, prefix, g)
        }),
    ensures
        forall|ns: Seq<DebugNode>| !#[trigger] item_fits(chars, start, ns),
{
    let pos = start + render_nodes(nodes).len() + text.len();
    let c = chars[pos];
    assert forall|ns: Seq<DebugNode>| !#[trigger] item_fits(chars, start, ns) by {
        if item_fits(chars, start, ns) {
            lemma_item_open(chars, start, ns, nodes, text);
            let tail = ns.skip(nodes.len() as int);
            let g = tail[front_idx(tail)];
            assert(prefix_split(text, text_front(tail), g->Group_prefix@, c));
            assert(group_fits(chars, pos, prefix, g));
        }
    }
}

/// The padding inside a group's delimiters: a space in derived struct
/// style.
pub open spec fn group_pad(g: DebugNode) -> Seq<char> {
    if g->Group_named {
        seq![' ']
    } else {
        Seq::empty()
    }
}

/// Where the parser of a group stands on the way to a canonical group `g`
/// whose body starts at `start`: it has built the first items of `g`, and
/// the rest of the body stands at `pos`.
pub open spec fn group_progress(
    chars: Seq<char>,
    start: int,
    g: DebugNode,
    items: Seq<Vec<DebugNode>>,
    pos: int,
) -> bool {
    let gi = g->Group_items@;
    let i = items.len() as int;
    let end = start + group_body(g).len();
    &&& i < gi.len()
    &&& same_items(items, gi.take(i))
    &&& 0 <= pos <= end <= chars.len()
    &&& chars.subrange(pos, end) == render_items(gi.skip(i)) + group_pad(g) + seq![
        closer(g->Group_delimiter),
    ]
}

/// The head of a canonical group's body: its delimiter, whether it is in
/// struct style, and whether it has items.
proof fn lemma_group_head(chars: Seq<char>, start: int, prefix: Seq<char>, g: DebugNode)
    requires
        group_fits(chars, start, prefix, g),
    ensures
        start < chars.len(),
        chars[start] == g->Group_delimiter,
        g->Group_named <==> (g->Group_delimiter == '{' && prefix.len() > 0 && start + 1
            < chars.len() && chars[start + 1] == ' '),
        g->Group_items@.len() == 0 <==> (!g->Group_named && start + 1 < chars.len() && chars[start
            + 1] == closer(g->Group_delimiter)),
        g->Group_items@.len() == 0 ==> group_body(g).len() == 2,
        g->Group_items@.len() > 0 ==> group_progress(
            chars,
            start,
            g,
            Seq::empty(),
            start + 1 + group_pad(g).len(),
        ),
        g->Group_delimiter == '[' || g->Group_delimiter == '(' || g->Group_delimiter == '{',
{
    let gi = g->Group_items@;
    let d = g->Group_delimiter;
    let pad = group_pad(g);
    let body = group_body(g);
    let ri = render_items(gi);
    assert(canonical_node(g));
    assert(group_head_ok(g->Group_prefix@, d, g->Group_named, gi));
    assert(body =~= seq![d] + pad + ri + pad + seq![closer(d)]);
    assert(chars[start] == body[0]);
    assert(forall|j: int| 0 <= j < body.len() ==> chars[start + j] == #[trigger] body[j]) by {
        assert forall|j: int| 0 <= j < body.len() implies chars[start + j] == #[trigger] body[j] by {
            assert(chars.subrange(start, start + body.len())[j] == body[j]);
        }
    }
    assert(chars[start + 1] == body[1]);
    assert(canonical_items(gi, if g->Group_named { Some(' ') } else { Some(closer(d)) }));
    if gi.len() > 0 && !g->Group_named {
        lemma_items_first(gi, Some(closer(d)));
        assert(body[1] == ri[0]);
    }
    if !g->Group_named && d == '{' && prefix.len() > 0 && ri.len() > 0 {
        assert(body[1] == ri[0]);
    }
    if gi.len() == 0 {
        assert(ri == Seq::<char>::empty());
    }
    if gi.len() > 0 {
        let p0 = start + 1 + pad.len();
        let end = start + body.len();
        assert(gi.skip(0) =~= gi);
        assert(gi.take(0) =~= Seq::<Vec<DebugNode>>::empty());
        assert(same_items(Seq::<Vec<DebugNode>>::empty(), gi.take(0)));
        assert(chars.subrange(p0, end) =~= ri + pad + seq![closer(d)]) by {
            assert forall|j: int| 0 <= j < end - p0 implies chars.subrange(p0, end)[j] == (ri + pad
                + seq![closer(d)])[j] by {
                assert(chars[p0 + j] == body[1 + pad.len() + j]);
            }
        }
    }
}

/// The next item of a canonical group: it fits where it stands, and what
/// follows it is `", "` and the rest, or the end of the body.
proof fn lemma_group_item(
    chars: Seq<char>,
    start: int,
    prefix: Seq<char>,
    g: DebugNode,
    items: Seq<Vec<DebugNode>>,
    pos: int,
)
    requires
        group_fits(chars, start, prefix, g),
        group_progress(chars, start, g, items, pos),
    ensures
        ({
            let gi = g->Group_items@;
            let i = items.len() as int;
            let q = pos + render_nodes(gi[i]@).len();
            let end = start + group_body(g).len();
            let close = closer(g->Group_delimiter);
            &&& item_fits(chars, pos, gi[i]@)
            &&& i + 1 < gi.len() ==> q + 2 <= end && q + 1 < chars.len() && chars[q] == ','
                && chars[q + 1] == ' ' && chars.subrange(q + 2, end) == render_items(gi.skip(i + 1)) + group_pad(g)
                + seq![close]
            &&& i + 1 == gi.len() && g->Group_named ==> q + 2 == end && chars[q] == ' ' && chars[q
                + 1] == close && close == '}'
            &&& i + 1 == gi.len() && !g->Group_named ==> q + 1 == end && chars[q] == close
        }),
{
    let gi = g->Group_items@;
    let i = items.len() as int;
    let d = g->Group_delimiter;
    let close = closer(d);
    let pad = group_pad(g);
    let end = start + group_body(g).len();
    let item = gi[i]@;
    let ri = render_nodes(item);
    let q = pos + ri.len();
    lemma_items_skip(gi, i);
    assert(canonical_node(g));
    assert(group_head_ok(g->Group_prefix@, d, g->Group_named, gi));
    let last_next = if g->Group_named { Some(' ') } else { Some(close) };
    assert(canonical_items(gi, last_next));
    lemma_items_at(gi, last_next, i);
    let rest = chars.subrange(pos, end);
    assert(forall|j: int| 0 <= j < rest.len() ==> chars[pos + j] == #[trigger] rest[j]);
    if i + 1 < gi.len() {
        let tail = render_items(gi.skip(i + 1));
        assert(rest =~= ri + seq![',', ' '] + tail + pad + seq![close]);
        assert(chars[q] == rest[ri.len() as int]);
        assert(chars[q + 1] == rest[ri.len() as int + 1]);
        assert(chars.subrange(q + 2, end) =~= tail + pad + seq![close]) by {
            assert forall|j: int| 0 <= j < end - (q + 2) implies chars.subrange(q + 2, end)[j] == (
            tail + pad + seq![close])[j] by {
                assert(chars[q + 2 + j] == rest[ri.len() as int + 2 + j]);
            }
        }
    } else {
        assert(rest =~= ri + pad + seq![close]);
        assert(chars[q] == rest[ri.len() as int]);
        if g->Group_named {
            assert(chars[q + 1] == rest[ri.len() as int + 1]);
        }
    }
    assert(chars.subrange(pos, q) =~= ri) by {
        assert forall|j: int| 0 <= j < ri.len() implies chars.subrange(pos, q)[j] == ri[j] by {
            assert(chars[pos + j] == rest[j]);
        }
    }
}

/// A recursive-descent parser over the derived-`Debug` grammar.
pub struct DebugRepr {
    chars: Vec<char>,
    pos: usize,
}

/// Moves accumulated literal text into a leaf node.
fn flush_text(text: &mut Vec<char>, nodes: &mut Vec<DebugNode>)
    ensures
        final(text)@.len() == 0,
        render_nodes(final(nodes)@) == render_nodes(old(nodes)@) + old(text)@,
        old(text)@.len() == 0 ==> final(nodes)@ == old(nodes)@,
        old(text)@.len() > 0 ==> final(nodes)@.len() == old(nodes)@.len() + 1 && final(nodes)@.drop_last()
            == old(nodes)@ && (final(nodes)@.last() matches DebugNode::Leaf(t) && t@ == old(text)@),
{
    if text.len() > 0 {
        let mut taken: Vec<char> = Vec::new();
        std::mem::swap(&mut taken, text);
        let ghost before = nodes@;
        let leaf = DebugNode::Leaf(taken);
        proof {
            lemma_render_nodes_push(before, leaf);
        }
        nodes.push(leaf);
        proof {
            assert(nodes@.drop_last() =~= before);
        }
    } else {
        assert(render_nodes(nodes@) + text@ =~= render_nodes(nodes@));
    }
}

/// Literal text moved into a leaf keeps a chain canonical.
proof fn lemma_chain_text(ns: Seq<DebugNode>, leaf: DebugNode)
    requires
        chain_ok(ns),
        ns.len() > 0 ==> !is_text_leaf(ns.last()),
        leaf matches DebugNode::Leaf(t) && t@.len() > 0 && plain_text(t@),
    ensures
        chain_ok(ns.push(leaf)),
        is_text_leaf(ns.push(leaf).last()),
{
    lemma_chain_push(ns, leaf);
}

/// The position just past the last space of `s[..end]`, or 0.
fn after_last_space(s: &Vec<char>, end: usize) -> (r: usize)
    requires
        end <= s@.len(),
    ensures
        r <= end,
        r == 0 || s@[r - 1] == ' ',
        forall|k: int| r <= k < end ==> s@[k] != ' ',
{
    let mut k = end;
    while k > 0
        invariant
            k <= end <= s@.len(),
            forall|j: int| k <= j < end ==> s@[j] != ' ',
        decreases k,
    {
        if s[k - 1] == ' ' {
            return k;
        }
        k -= 1;
    }
    0
}

/// `s[a..b]` as a new vector.
fn slice_chars(s: &Vec<char>, a: usize, b: usize) -> (r: Vec<char>)
    requires
        a <= b <= s@.len(),
    ensures
        r@ == s@.subrange(a as int, b as int),
{
    let mut r: Vec<char> = Vec::new();
    let mut k = a;
    while k < b
        invariant
            a <= k <= b <= s@.len(),
            r@ == s@.subrange(a as int, k as int),
        decreases b - k,
    {
        r.push(s[k]);
        proof {
            assert(s@.subrange(a as int, k + 1) =~= s@.subrange(a as int, k as int).push(s@[k as int]));
        }
        k += 1;
    }
    r
}

/// Splits the atom glued to an open delimiter off the accumulated text:
/// `Some` from `Some(`, and `Name` (dropping the joining space) from
/// `Name {`. A brace group only takes a prefix across that space.
fn take_group_prefix(text: &mut Vec<char>, delimiter: char) -> (prefix: Vec<char>)
    requires
        plain_text(old(text)@),
    ensures
        final(text)@ + prefix_text(prefix@, delimiter) == old(text)@,
        plain_text(final(text)@),
        forall|k: int| 0 <= k < prefix@.len() ==> !is_structural(#[trigger] prefix@[k]) && prefix@[k] != ' ',
        delimiter == '{' && prefix@.len() > 0 ==> prefix@.last() != ',',
        final(text)@.len() > 0 ==> text_before_group_ok(final(text)@, prefix@, delimiter),
        forall|t: Seq<char>, p: Seq<char>| #[trigger]
            prefix_split(old(text)@, t, p, delimiter) ==> prefix@ == p && final(text)@ == t,
{
    let ghost t0 = text@;
    if delimiter == '{' {
        let n = text.len();
        if n == 0 || text[n - 1] != ' ' {
            proof {
                assert(text@ + prefix_text(Seq::<char>::empty(), delimiter) =~= text@);
                assert forall|t: Seq<char>, p: Seq<char>| #[trigger] prefix_split(t0, t, p, delimiter)
                    implies Seq::<char>::empty() == p && t0 == t by {
                    if p.len() > 0 {
                        assert(t0.last() == ' ');
                    }
                    assert(t0 =~= t);
                }
            }
            return Vec::new();
        }
        let start = after_last_space(text, n - 1);
        let prefix = slice_chars(text, start, n - 1);
        proof {
            assert forall|t: Seq<char>, p: Seq<char>| #[trigger] prefix_split(t0, t, p, delimiter)
                implies (p.len() == 0 ==> start == n - 1 && t == t0) by {
                if p.len() == 0 {
                    assert(t0 =~= t);
                    if start < n - 1 {
                        assert(t0[n - 2] == ' ');
                    }
                }
            }
            assert forall|t: Seq<char>, p: Seq<char>| #[trigger] prefix_split(t0, t, p, delimiter)
                implies (p.len() > 0 ==> start == t.len()) by {
                if p.len() > 0 {
                    assert(t0 =~= t + p + seq![' ']);
                    if start < t.len() {
                        assert(t0[t.len() - 1] == ' ');
                    }
                    if start > t.len() {
                        assert(t0[start - 1] == p[start - 1 - t.len()]);
                    }
                }
            }
        }
        if prefix.len() == 0 {
            proof {
                assert(text@ + prefix_text(Seq::<char>::empty(), delimiter) =~= text@);
                assert forall|t: Seq<char>, p: Seq<char>| #[trigger] prefix_split(t0, t, p, delimiter)
                    implies Seq::<char>::empty() == p && t0 == t by {
                    if p.len() > 0 {
                        assert(t0 =~= t + p + seq![' ']);
                        assert(prefix@ =~= p);
                    }
                }
            }
            return Vec::new();
        }
        text.truncate(start);
        proof {
            assert(text@ + prefix_text(prefix@, delimiter) =~= old(text)@);
            assert(text@ =~= t0.take(start as int));
            assert forall|t: Seq<char>, p: Seq<char>| #[trigger] prefix_split(t0, t, p, delimiter)
                implies prefix@ == p && text@ == t by {
                assert(t0 =~= t + p + seq![' ']);
                assert(prefix@ =~= p);
                assert(text@ =~= t);
            }
            lemma_plain_prefix(t0, start as int);
            assert(!comma_space_at(t0, n - 2));
            assert(prefix@.last() == t0[n - 2]);
            assert forall|k: int| 0 <= k < prefix@.len() implies !is_structural(#[trigger] prefix@[k])
                && prefix@[k] != ' ' by {
                assert(prefix@[k] == t0[start + k]);
            }
        }
        prefix
    } else {
        let n = text.len();
        let start = after_last_space(text, n);
        let prefix = slice_chars(text, start, n);
        proof {
            assert forall|t: Seq<char>, p: Seq<char>| #[trigger] prefix_split(t0, t, p, delimiter)
                implies prefix@ == p && t0.take(start as int) == t by {
                assert(t0 =~= t + p);
                if start < t.len() {
                    assert(t0[t.len() - 1] == ' ');
                }
                if start > t.len() {
                    assert(t0[start - 1] == p[start - 1 - t.len()]);
                }
                assert(prefix@ =~= p);
                assert(t0.take(start as int) =~= t);
            }
        }
        text.truncate(start);
        proof {
            assert(text@ + prefix_text(prefix@, delimiter) =~= old(text)@);
            assert(text@ =~= t0.take(start as int));
            lemma_plain_prefix(t0, start as int);
            assert forall|k: int| 0 <= k < prefix@.len() implies !is_structural(#[trigger] prefix@[k])
                && prefix@[k] != ' ' by {
                assert(prefix@[k] == t0[start + k]);
            }
        }
        prefix
    }
}

impl DebugRepr {
    pub closed spec fn wf(&self) -> bool {
        self.pos <= self.chars@.len()
    }

    /// The text consumed between `self` and `later`.
    pub closed spec fn consumed(&self, later: Self) -> Seq<char> {
        self.chars@.subrange(self.pos as int, later.pos as int)
    }

    pub closed spec fn advances_to(&self, later: Self) -> bool {
        &&& later.chars@ == self.chars@
        &&& self.pos <= later.pos <= self.chars@.len()
    }

    fn peek(&self) -> (r: Option<char>)
        requires
            self.wf(),
        ensures
            r == if self.pos < self.chars@.len() { Some(self.chars@[self.pos as int]) } else { None::<char> },
    {
        if self.pos < self.chars.len() {
            Some(self.chars[self.pos])
        } else {
            None
        }
    }

    fn peek_next(&self) -> (r: Option<char>)
        requires
            self.wf(),
        ensures
            r == if self.pos + 1 < self.chars@.len() { Some(self.chars@[self.pos + 1]) } else { None::<char> },
    {
        let n = self.chars.len();
        if n > 0 && self.pos < n - 1 {
            Some(self.chars[self.pos + 1])
        } else {
            None
        }
    }

    fn bump(&mut self) -> (r: Option<char>)
        requires
            old(self).wf(),
        ensures
            final(self).wf(),
            old(self).advances_to(*final(self)),
            r == if old(self).pos < old(self).chars@.len() {
                Some(old(self).chars@[old(self).pos as int])
            } else {
                None::<char>
            },
            r is Some ==> final(self).pos == old(self).pos + 1,
            r is None ==> final(self).pos == old(self).pos,
    {
        if self.pos < self.chars.len() {
            let c = self.chars[self.pos];
            self.pos = self.pos + 1;
            Some(c)
        } else {
            None
        }
    }

    /// Lexes a string or character literal, quotes included. A backslash
    /// escapes the character after it.
    fn lex_quoted(&mut self) -> (r: Option<Vec<char>>)
        requires
            old(self).wf(),
            old(self).pos < old(self).chars@.len(),
            old(self).chars@[old(self).pos as int] == '"' || old(self).chars@[old(self).pos as int]
                == '\'',
        ensures
            final(self).wf(),
            old(self).advances_to(*final(self)),
            r matches Some(lit) ==> lit@ == old(self).consumed(*final(self)) && final(self).pos > old(
                self,
            ).pos && quoted_literal(lit@),
            forall|len: int| #[trigger]
                quoted_at(old(self).chars@, old(self).pos as int, len) ==> r is Some && final(self).pos
                    == old(self).pos + len,
    {
        let start = self.pos;
        let quote = match self.bump() {
            Some(q) => q,
            None => {
                return None;
            },
        };
        let mut lit: Vec<char> = Vec::new();
        lit.push(quote);
        proof {
            assert(lit@ =~= self.chars@.subrange(start as int, self.pos as int));
            assert(lit@.subrange(1, lit@.len() as int) =~= Seq::<char>::empty());
            assert forall|len: int| #[trigger] quoted_at(old(self).chars@, start as int, len) implies self.pos
                <= start + len - 1 && escaped_body(self.chars@.subrange(self.pos as int, start + len - 1), quote) by {
                let t = self.chars@.subrange(start as int, start + len);
                assert(t.subrange(1, t.len() - 1) =~= self.chars@.subrange(self.pos as int, start + len - 1));
            }
        }
        loop
            invariant
                self.wf(),
                old(self).advances_to(*self),
                start == old(self).pos,
                start < self.pos,
                lit@ == self.chars@.subrange(start as int, self.pos as int),
                lit@.len() >= 1,
                lit@[0] == quote,
                quote == '"' || quote == '\'',
                quote == old(self).chars@[start as int],
                escaped_body(lit@.subrange(1, lit@.len() as int), quote),
                forall|len: int| #[trigger]
                    quoted_at(old(self).chars@, start as int, len) ==> self.pos <= start + len - 1
                        && escaped_body(self.chars@.subrange(self.pos as int, start + len - 1), quote),
            decreases self.chars@.len() - self.pos,
        {
            let ghost body = lit@.subrange(1, lit@.len() as int);
            let ghost at = self.pos;
            proof {
                assert forall|len: int| #[trigger] quoted_at(old(self).chars@, start as int, len) && at
                    < start + len - 1 implies ({
                    let b = self.chars@.subrange(at as int, start + len - 1);
                    &&& self.chars@[at as int] == b[0]
                    &&& b[0] == '\\' ==> b.len() >= 2 && escaped_body(b.skip(2), quote)
                    &&& b[0] != '\\' ==> b[0] != quote && escaped_body(b.skip(1), quote)
                }) by {
                }
                assert forall|len: int| #[trigger] quoted_at(old(self).chars@, start as int, len) && at
                    == start + len - 1 implies self.chars@[at as int] == quote by {
                    let t = self.chars@.subrange(start as int, start + len);
                    assert(t.last() == self.chars@[at as int]);
                }
            }
            let c = match self.bump() {
                Some(c) => c,
                None => {
                    return None;
                },
            };
            lit.push(c);
            proof {
                assert(lit@ =~= self.chars@.subrange(start as int, self.pos as int));
            }
            if c == '\\' {
                let e = match self.bump() {
                    Some(e) => e,
                    None => {
                        return None;
                    },
                };
                lit.push(e);
                proof {
                    assert forall|len: int| #[trigger] quoted_at(old(self).chars@, start as int, len)
                        implies self.pos <= start + len - 1 && escaped_body(
                        self.chars@.subrange(self.pos as int, start + len - 1),
                        quote,
                    ) by {
                        let b = self.chars@.subrange(at as int, start + len - 1);
                        assert(b.skip(2) =~= self.chars@.subrange(self.pos as int, start + len - 1));
                    }
                    assert(lit@ =~= self.chars@.subrange(start as int, self.pos as int));
                    let tok = seq![c, e];
                    assert(tok.skip(2) =~= Seq::<char>::empty());
                    assert(escaped_body(tok.skip(2), quote));
                    assert(escaped_body(tok, quote));
                    lemma_escaped_concat(body, tok, quote);
                    assert(lit@.subrange(1, lit@.len() as int) =~= body + tok);
                }
            } else if c == quote {
                proof {
                    assert(lit@.subrange(1, lit@.len() - 1) =~= body);
                }
                return Some(lit);
            } else {
                proof {
                    assert forall|len: int| #[trigger] quoted_at(old(self).chars@, start as int, len)
                        implies self.pos <= start + len - 1 && escaped_body(
                        self.chars@.subrange(self.pos as int, start + len - 1),
                        quote,
                    ) by {
                        let b = self.chars@.subrange(at as int, start + len - 1);
                        assert(b.skip(1) =~= self.chars@.subrange(self.pos as int, start + len - 1));
                    }
                    let tok = seq![c];
                    assert(tok.skip(1) =~= Seq::<char>::empty());
                    assert(escaped_body(tok.skip(1), quote));
                    assert(escaped_body(tok, quote));
                    lemma_escaped_concat(body, tok, quote);
                    assert(lit@.subrange(1, lit@.len() as int) =~= body + tok);
                }
            }
        }
    }
}

impl DebugRepr {
    /// The character at the current position, if any.
    pub closed spec fn upcoming(&self) -> Option<char> {
        if self.pos < self.chars@.len() {
            Some(self.chars@[self.pos as int])
        } else {
            None
        }
    }

    /// Parses a `Debug` representation into literal runs and groups; `None`
    /// where it is not in the derived-`Debug` grammar, and always where it
    /// spans several lines.
    pub fn parse(repr: &str) -> (r: Option<Vec<DebugNode>>)
        ensures
            r matches Some(ns) ==> render_nodes(ns@) == repr@ && canonical_nodes(ns@, None),
            repr@.contains('\n') ==> r is None,
            forall|ns: Seq<DebugNode>| #[trigger]
                canonical_nodes(ns, None) && render_nodes(ns) == repr@ && !repr@.contains('\n') ==> (
                r matches Some(v) && same_nodes(v@, ns)),
    {
        let chars = str_to_chars(repr);
        let mut k: usize = 0;
        while k < chars.len()
            invariant
                chars@ == repr@,
                k <= chars@.len(),
                forall|j: int| 0 <= j < k ==> chars@[j] != '\n',
            decreases chars@.len() - k,
        {
            if chars[k] == '\n' {
                return None;
            }
            k += 1;
        }
        let mut parser = DebugRepr { chars, pos: 0 };
        let ghost start = parser;
        proof {
            assert forall|ns: Seq<DebugNode>| #[trigger]
                canonical_nodes(ns, None) && render_nodes(ns) == repr@ implies item_fits(
                start.chars@,
                0,
                ns,
            ) by {
                assert(start.chars@.subrange(0, repr@.len() as int) =~= repr@);
            }
        }
        let nodes = match parser.parse_item() {
            Some(nodes) => nodes,
            None => {
                return None;
            },
        };
        if parser.pos != parser.chars.len() {
            return None;
        }
        proof {
            assert(start.consumed(parser) =~= repr@);
        }
        Some(nodes)
    }

    /// Parses one comma-separated item (literal runs and nested groups),
    /// stopping before `", "`, `" }"`, a closing delimiter or the end.
    #[verifier::rlimit(60)]
    fn parse_item(&mut self) -> (r: Option<Vec<DebugNode>>)
        requires
            old(self).wf(),
        ensures
            final(self).wf(),
            old(self).advances_to(*final(self)),
            r matches Some(ns) ==> render_nodes(ns@) == old(self).consumed(*final(self))
                && canonical_nodes(ns@, final(self).upcoming()),
            forall|ns: Seq<DebugNode>| #[trigger]
                item_fits(old(self).chars@, old(self).pos as int, ns) ==> (r matches Some(v)
                    && same_nodes(v@, ns)) && final(self).pos == old(self).pos + render_nodes(
                    ns,
                ).len(),
        decreases old(self).chars@.len() - old(self).pos, 1int,
    {
        let ghost entry = *self;
        let ghost chars = self.chars@;
        let ghost start = self.pos as int;
        let mut nodes: Vec<DebugNode> = Vec::new();
        let mut text: Vec<char> = Vec::new();
        proof {
            assert forall|ns: Seq<DebugNode>| #[trigger] item_fits(chars, start, ns) implies item_progress(
                ns,
                nodes@,
                text@,
            ) by {
                assert(ns.take(0) =~= Seq::<DebugNode>::empty());
                assert(ns.skip(0) =~= ns);
                assert(same_nodes(nodes@, ns.take(0)));
                assert(text@ =~= render_nodes(ns.skip(0)).take(0));
            }
        }
        loop
            invariant
                *old(self) == entry,
                chars == entry.chars@,
                start == entry.pos,
                self.wf(),
                entry.advances_to(*self),
                render_nodes(nodes@) + text@ == entry.consumed(*self),
                chain_ok(nodes@),
                nodes@.len() > 0 ==> !is_text_leaf(nodes@.last()),
                plain_text(text@),
                text_end_ok(text@, self.upcoming()),
                all_progress(chars, start, nodes@, text@),
            ensures
                self.wf(),
                entry.advances_to(*self),
                render_nodes(nodes@) + text@ == entry.consumed(*self),
                chain_ok(nodes@),
                nodes@.len() > 0 ==> !is_text_leaf(nodes@.last()),
                plain_text(text@),
                text_end_ok(text@, self.upcoming()),
                all_stopped(chars, start, nodes@, text@),
            decreases self.chars@.len() - self.pos,
        {
            let ghost before = *self;
            proof {
                assert(entry.consumed(*self).len() == self.pos - start);
            }
            let c = match self.peek() {
                None => {
                    proof {
                        lemma_all_stop(chars, start, nodes@, text@);
                    }
                    break;
                },
                Some(c) => c,
            };
            let next = self.peek_next();
            if c == ']' || c == ')' || c == '}' || (c == ',' && next == Some(' ')) || (c == ' '
                && next == Some('}')) {
                proof {
                    lemma_all_stop(chars, start, nodes@, text@);
                }
                break;
            }
            if c == '"' || c == '\'' {
                let ghost ns_before = nodes@;
                let ghost text_before = text@;
                flush_text(&mut text, &mut nodes);
                proof {
                    if text_before.len() > 0 {
                        assert(nodes@ =~= ns_before.push(nodes@.last()));
                        lemma_chain_text(ns_before, nodes@.last());
                    }
                }
                let lit = match self.lex_quoted() {
                    Some(lit) => lit,
                    None => {
                        proof {
                            lemma_none_quote(chars, start, ns_before, text_before);
                        }
                        return None;
                    },
                };
                let ghost ns0 = nodes@;
                let leaf = DebugNode::Leaf(lit);
                proof {
                    lemma_render_nodes_push(ns0, leaf);
                    lemma_chain_push(ns0, leaf);
                    assert(!plain_text(leaf->0@)) by {
                        assert(is_structural(leaf->0@[0]));
                    }
                    assert(entry.consumed(before) + before.consumed(*self) =~= entry.consumed(*self));
                    lemma_all_quote(chars, start, ns_before, text_before, ns0, leaf, self.pos as int);
                }
                nodes.push(leaf);
                proof {
                    assert(text@ =~= Seq::<char>::empty());
                    assert(nodes@ =~= ns0.push(leaf));
                }
            } else if c == '[' || c == '(' || c == '{' {
                let ghost text_before = text@;
                let ghost ns_before = nodes@;
                let prefix = take_group_prefix(&mut text, c);
                let ghost rest = text@;
                flush_text(&mut text, &mut nodes);
                proof {
                    if rest.len() > 0 {
                        assert(nodes@ =~= ns_before.push(nodes@.last()));
                        lemma_chain_text(ns_before, nodes@.last());
                    }
                }
                let ghost prefix_view = prefix@;
                let ghost ns0 = nodes@;
                let group = match self.parse_group(prefix) {
                    Some(g) => g,
                    None => {
                        proof {
                            lemma_none_group(chars, start, ns_before, text_before, prefix_view);
                        }
                        return None;
                    },
                };
                proof {
                    lemma_render_nodes_push(ns0, group);
                    lemma_chain_push(ns0, group);
                    assert(entry.consumed(before) + before.consumed(*self) =~= entry.consumed(*self));
                    lemma_all_group(chars, start, ns_before, text_before, prefix_view, rest, ns0, group);
                }
                nodes.push(group);
                proof {
                    assert(text@ =~= Seq::<char>::empty());
                    assert(nodes@ =~= ns0.push(group));
                }
            } else {
                proof {
                    assert(!is_structural(c));
                    let t2 = text@.push(c);
                    assert forall|i: int| 0 <= i < t2.len() - 1 implies !#[trigger] comma_space_at(t2, i) by {
                        if i < text@.len() - 1 {
                            assert(comma_space_at(t2, i) == comma_space_at(text@, i));
                        }
                    }
                    lemma_all_plain(chars, start, nodes@, text@);
                }
                text.push(c);
                self.bump();
                proof {
                    assert(entry.consumed(*self) =~= entry.consumed(before).push(c));
                }
            }
        }
        let ghost ns_before = nodes@;
        let ghost text_before = text@;
        flush_text(&mut text, &mut nodes);
        proof {
            if text_before.len() > 0 {
                assert(nodes@ =~= ns_before.push(nodes@.last()));
                lemma_chain_text(ns_before, nodes@.last());
            }
            lemma_all_done(chars, start, ns_before, text_before, nodes@);
        }
        Some(nodes)
    }

    /// Parses a delimited group whose open delimiter is the current
    /// character; `prefix` is the atom already taken before it.
    fn parse_group(&mut self, prefix: Vec<char>) -> (r: Option<DebugNode>)
        requires
            old(self).wf(),
            old(self).pos < old(self).chars@.len(),
            old(self).chars@[old(self).pos as int] == '[' || old(self).chars@[old(self).pos as int]
                == '(' || old(self).chars@[old(self).pos as int] == '{',
            forall|k: int| 0 <= k < prefix@.len() ==> !is_structural(#[trigger] prefix@[k]) && prefix@[k] != ' ',
            old(self).chars@[old(self).pos as int] == '{' && prefix@.len() > 0 ==> prefix@.last() != ',',
        ensures
            final(self).wf(),
            old(self).advances_to(*final(self)),
            r matches Some(g) ==> final(self).pos > old(self).pos && canonical_node(g) && (g matches DebugNode::Group {
                prefix: p,
                delimiter,
                ..
            } && p@ == prefix@ && delimiter == old(self).chars@[old(self).pos as int]
                && render_node(g) == prefix_text(prefix@, delimiter) + old(self).consumed(
                *final(self),
            )),
            forall|g: DebugNode| #[trigger]
                group_fits(old(self).chars@, old(self).pos as int, prefix@, g) ==> (r matches Some(g2)
                    && same_node(g2, g)) && final(self).pos == old(self).pos + group_body(g).len(),
        decreases old(self).chars@.len() - old(self).pos, 0int,
    {
        let ghost entry = *self;
        let ghost chars = self.chars@;
        let ghost start = self.pos as int;
        let ghost prefix_view = prefix@;
        proof {
            assert forall|g: DebugNode| #[trigger] group_fits(chars, start, prefix_view, g) implies chars[start]
                == g->Group_delimiter by {
                lemma_group_head(chars, start, prefix_view, g);
            }
        }
        let delimiter = match self.bump() {
            Some(d) => d,
            None => {
                return None;
            },
        };
        let close = if delimiter == '[' {
            ']'
        } else if delimiter == '(' {
            ')'
        } else {
            '}'
        };
        let ghost first = *self;
        let named = delimiter == '{' && prefix.len() > 0 && self.peek() == Some(' ');
        if named {
            self.bump();
        }
        let ghost pad: Seq<char> = if named { seq![' '] } else { Seq::empty() };
        let ghost inner = *self;
        proof {
            assert(entry.consumed(*self) =~= seq![delimiter] + pad);
            assert forall|g: DebugNode| #[trigger] group_fits(chars, start, prefix_view, g) implies g->Group_named
                == named && group_pad(g) == pad && closer(g->Group_delimiter) == close && (g->Group_items@.len() > 0
                ==> group_progress(chars, start, g, Seq::empty(), inner.pos as int)) && (g->Group_items@.len()
                == 0 <==> (!named && inner.upcoming() == Some(close))) && (g->Group_items@.len() == 0
                ==> group_body(g).len() == 2) by {
                lemma_group_head(chars, start, prefix_view, g);
            }
        }
        let mut items: Vec<Vec<DebugNode>> = Vec::new();
        if !named && self.peek() == Some(close) {
            let ghost before = *self;
            self.bump();
            proof {
                assert(render_items(items@) =~= Seq::<char>::empty());
                assert(entry.consumed(*self) =~= seq![delimiter] + pad + render_items(items@) + pad
                    + seq![close]);
                assert forall|g: DebugNode| #[trigger] group_fits(chars, start, prefix_view, g) implies same_items(
                    items@,
                    g->Group_items@,
                ) && self.pos == start + group_body(g).len() by {
                    assert(g->Group_items@ =~= Seq::<Vec<DebugNode>>::empty());
                }
            }
        } else {
            loop
                invariant_except_break
                    entry.consumed(*self) == seq![delimiter] + pad + (if items@.len() == 0 {
                        Seq::<char>::empty()
                    } else {
                        render_items(items@) + seq![',', ' ']
                    }),
                    canonical_items(items@, Some(',')),
                    forall|g: DebugNode| #[trigger]
                        group_fits(chars, start, prefix_view, g) ==> group_progress(
                            chars,
                            start,
                            g,
                            items@,
                            self.pos as int,
                        ),
                invariant
                    *old(self) == entry,
                    self.wf(),
                    entry.advances_to(*self),
                    entry.pos < self.pos,
                    close == closer(delimiter),
                    named ==> delimiter == '{' && close == '}',
                    pad == (if named { seq![' '] } else { Seq::<char>::empty() }),
                    inner.chars@ == entry.chars@,
                    inner.pos == entry.pos + 1 + pad.len(),
                    !named ==> inner.upcoming() != Some(close),
                    chars == entry.chars@,
                    start == entry.pos,
                    prefix_view == prefix@,
                    forall|g: DebugNode| #[trigger]
                        group_fits(chars, start, prefix_view, g) ==> g->Group_named == named
                            && group_pad(g) == pad && closer(g->Group_delimiter) == close,
                ensures
                    self.wf(),
                    entry.advances_to(*self),
                    entry.consumed(*self) == seq![delimiter] + pad + render_items(items@) + pad
                        + seq![close],
                    canonical_items(items@, if named { Some(' ') } else { Some(close) }),
                    items@.len() > 0,
                    !named ==> render_items(items@).len() > 0,
                    forall|g: DebugNode| #[trigger]
                        group_fits(chars, start, prefix_view, g) ==> same_items(items@, g->Group_items@)
                            && self.pos == start + group_body(g).len(),
                decreases self.chars@.len() - self.pos,
            {
                let ghost before = *self;
                let ghost old_items = items@;
                proof {
                    assert forall|g: DebugNode| #[trigger] group_fits(chars, start, prefix_view, g) implies item_fits(
                        chars,
                        before.pos as int,
                        g->Group_items@[old_items.len() as int]@,
                    ) by {
                        lemma_group_item(chars, start, prefix_view, g, old_items, before.pos as int);
                    }
                }
                let item = match self.parse_item() {
                    Some(item) => item,
                    None => {
                        proof {
                            assert forall|g: DebugNode| #[trigger] group_fits(chars, start, prefix_view, g) implies false by {
                                assert(item_fits(chars, before.pos as int, g->Group_items@[old_items.len() as int]@));
                            }
                        }
                        return None;
                    },
                };
                proof {
                    lemma_render_items_push(old_items, item);
                }
                let ghost item_view = item;
                items.push(item);
                proof {
                    assert forall|g: DebugNode| #[trigger] group_fits(chars, start, prefix_view, g) implies ({
                        let gi = g->Group_items@;
                        let i = old_items.len() as int;
                        &&& same_items(items@, gi.take(i + 1))
                        &&& self.pos == before.pos + render_nodes(gi[i]@).len()
                    }) by {
                        let gi = g->Group_items@;
                        let i = old_items.len() as int;
                        lemma_group_item(chars, start, prefix_view, g, old_items, before.pos as int);
                        assert(item_fits(chars, before.pos as int, gi[i]@));
                        assert(gi.take(i + 1) =~= gi.take(i).push(gi[i]));
                        lemma_same_items_push(old_items, gi.take(i), item_view, gi[i]);
                        assert(items@ =~= old_items.push(item_view));
                    }
                }
                let ghost mid = *self;
                proof {
                    assert(entry.consumed(before) + before.consumed(mid) =~= entry.consumed(mid));
                    assert(entry.consumed(mid) =~= seq![delimiter] + pad + render_items(items@));
                    if old_items.len() == 0 {
                        assert(entry.consumed(before) =~= seq![delimiter] + pad);
                        assert(before.pos == inner.pos);
                    }
                }
                let c = self.peek();
                let next = self.peek_next();
                if c == Some(',') && next == Some(' ') {
                    proof {
                        lemma_items_push(old_items, item_view, Some(','));
                    }
                    self.bump();
                    self.bump();
                    proof {
                        assert(entry.consumed(*self) =~= seq![delimiter] + pad + render_items(items@)
                            + seq![',', ' ']);
                        assert forall|g: DebugNode| #[trigger] group_fits(chars, start, prefix_view, g) implies group_progress(
                            chars,
                            start,
                            g,
                            items@,
                            self.pos as int,
                        ) by {
                            lemma_group_item(chars, start, prefix_view, g, old_items, before.pos as int);
                            let gi = g->Group_items@;
                            let i = old_items.len() as int;
                            assert(mid.pos == before.pos + render_nodes(gi[i]@).len());
                            assert(chars[mid.pos as int] == ',');
                            if i + 1 == gi.len() {
                                assert(is_closer(closer(g->Group_delimiter)));
                                assert(false);
                            }
                            assert(same_items(items@, gi.take(i + 1)));
                        }
                    }
                } else if named && c == Some(' ') && next == Some(close) {
                    proof {
                        lemma_items_push(old_items, item_view, Some(' '));
                    }
                    self.bump();
                    self.bump();
                    proof {
                        assert(entry.consumed(*self) =~= seq![delimiter] + pad + render_items(items@)
                            + pad + seq![close]);
                        assert forall|g: DebugNode| #[trigger] group_fits(chars, start, prefix_view, g) implies same_items(
                            items@,
                            g->Group_items@,
                        ) && self.pos == start + group_body(g).len() by {
                            lemma_group_item(chars, start, prefix_view, g, old_items, before.pos as int);
                            let gi = g->Group_items@;
                            assert(gi.take(gi.len() as int) =~= gi);
                        }
                    }
                    break;
                } else if !named && c == Some(close) {
                    proof {
                        lemma_items_push(old_items, item_view, Some(close));
                        if old_items.len() == 0 && render_items(items@).len() == 0 {
                            assert(mid.pos == inner.pos);
                        }
                    }
                    self.bump();
                    proof {
                        assert(entry.consumed(*self) =~= seq![delimiter] + pad + render_items(items@)
                            + pad + seq![close]);
                        assert forall|g: DebugNode| #[trigger] group_fits(chars, start, prefix_view, g) implies same_items(
                            items@,
                            g->Group_items@,
                        ) && self.pos == start + group_body(g).len() by {
                            lemma_group_item(chars, start, prefix_view, g, old_items, before.pos as int);
                            let gi = g->Group_items@;
                            assert(gi.take(gi.len() as int) =~= gi);
                        }
                    }
                    break;
                } else {
                    proof {
                        assert forall|g: DebugNode| #[trigger] group_fits(chars, start, prefix_view, g) implies false by {
                            lemma_group_item(chars, start, prefix_view, g, old_items, before.pos as int);
                        }
                    }
                    return None;
                }
            }
        }
        let ghost body = seq![delimiter] + pad + render_items(items@) + pad + seq![closer(delimiter)];
        assert(entry.consumed(*self) == body);
        let ghost items_view = items@;
        proof {
            if !named && delimiter == '{' && prefix_view.len() > 0 && render_items(items_view).len() > 0 {
                assert(body[1] == render_items(items_view)[0]);
                assert(entry.chars@[entry.pos + 1] == body[1]);
                assert(first.upcoming() != Some(' '));
            }
        }
        let g = DebugNode::Group { prefix, delimiter, named, items };
        proof {
            lemma_render_group(g);
            assert(render_node(g) =~= prefix_text(prefix_view, delimiter) + body);
            assert(group_head_ok(prefix_view, delimiter, named, items_view));
            assert forall|g0: DebugNode| #[trigger] group_fits(chars, start, prefix_view, g0) implies same_node(
                g,
                g0,
            ) by {
                lemma_group_head(chars, start, prefix_view, g0);
            }
        }
        Some(g)
    }
}

} // verus!
