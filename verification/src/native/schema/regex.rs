//! A small backtracking matcher over the parsed regex tree.
//!
//! It checks negative lookaround assertions against generated text:
//! `match_seq` tries to match a sequence of operations at a position and
//! answers the end of the first match it finds. Alternatives and repeats
//! backtrack inline; scoped flags apply to a group's body only.

use std::collections::HashMap;

use vstd::prelude::*;

use crate::native::charutil::{
    char_from_u32, is_lowercase, is_scalar, is_uppercase, lower_first, spec_is_lowercase, spec_is_uppercase,
    spec_lower_first, spec_upper_first, str_to_chars, upper_first,
};
use crate::native::re::constants::{
    AtCode, ChCode, SRE_FLAG_ASCII, SRE_FLAG_DOTALL, SRE_FLAG_IGNORECASE, SRE_FLAG_MULTILINE,
};
use crate::native::re::tokenizer::contains_char;
use crate::native::schema::{char_code, is_surrogate_cp, surrogate, StringAlphabet};
use crate::native::re::parser::{OpCode, SetItem, SubPattern};
use crate::native::unicodedata::{general_category, spec_general_category, Category, CategoryTable};

verus! {

// ---------------------------------------------------------------------------
// Characters
// ---------------------------------------------------------------------------

/// A character with its case flipped: lowercase characters map to the first
/// character of their uppercase mapping, uppercase ones to the first of
/// their lowercase mapping, others to themselves.
pub open spec fn spec_swapcase(c: char) -> char {
    if spec_is_lowercase(c) {
        match spec_upper_first(c) {
            Some(u) => u,
            None => c,
        }
    } else if spec_is_uppercase(c) {
        match spec_lower_first(c) {
            Some(l) => l,
            None => c,
        }
    } else {
        c
    }
}

/// Python's `str.swapcase` on one character, as far as single-character
/// case flips go.
pub fn char_swapcase(c: char) -> (r: char)
    ensures
        r == spec_swapcase(c),
{
    if is_lowercase(c) {
        match upper_first(c) {
            Some(u) => u,
            None => c,
        }
    } else if is_uppercase(c) {
        match lower_first(c) {
            Some(l) => l,
            None => c,
        }
    } else {
        c
    }
}

/// Whether two characters match, case-insensitively under `IGNORECASE`.
pub open spec fn spec_chars_eq(a: char, b: char, flags: u32) -> bool {
    a == b || (flags & SRE_FLAG_IGNORECASE != 0 && (spec_swapcase(a) == b || a == spec_swapcase(b)))
}

pub fn chars_eq(a: char, b: char, flags: u32) -> (r: bool)
    ensures
        r == spec_chars_eq(a, b, flags),
{
    if a == b {
        return true;
    }
    if flags & SRE_FLAG_IGNORECASE != 0 {
        char_swapcase(a) == b || a == char_swapcase(b)
    } else {
        false
    }
}

/// The general category of a character.
pub open spec fn category_of(table: Seq<(u32, Category)>, c: char) -> Category {
    spec_general_category(table, c as u32)
}

pub open spec fn is_letter(cat: Category) -> bool {
    cat == Category::Lu || cat == Category::Ll || cat == Category::Lt || cat == Category::Lm || cat == Category::Lo
}

pub open spec fn is_number(cat: Category) -> bool {
    cat == Category::Nd || cat == Category::Nl || cat == Category::No
}

pub open spec fn is_separator(cat: Category) -> bool {
    cat == Category::Zs || cat == Category::Zl || cat == Category::Zp
}

/// Unicode whitespace as `\s` matches it.
pub open spec fn spec_is_uni_space(table: Seq<(u32, Category)>, c: char) -> bool {
    c == ' ' || c == '\t' || c == '\n' || c == '\r' || c == '\x0b' || c == '\x0c' || c == '\x1c' || c == '\x1d'
        || c == '\x1e' || c == '\x1f' || c == '\u{85}' || is_separator(category_of(table, c))
}

/// A word character as `\w` matches it: `_`, a letter or a number.
pub open spec fn spec_is_uni_word(table: Seq<(u32, Category)>, c: char) -> bool {
    c == '_' || is_letter(category_of(table, c)) || is_number(category_of(table, c))
}

fn category(table: &CategoryTable, c: char) -> (r: Category)
    requires
        table.wf(),
    ensures
        r == category_of(table.ranges@, c),
{
    general_category(table, c as u32)
}

fn is_uni_space(table: &CategoryTable, c: char) -> (r: bool)
    requires
        table.wf(),
    ensures
        r == spec_is_uni_space(table.ranges@, c),
{
    if c == ' ' || c == '\t' || c == '\n' || c == '\r' || c == '\x0b' || c == '\x0c' || c == '\x1c' || c == '\x1d'
        || c == '\x1e' || c == '\x1f' || c == '\u{85}' {
        return true;
    }
    let cat = category(table, c);
    cat == Category::Zs || cat == Category::Zl || cat == Category::Zp
}

fn is_uni_word(table: &CategoryTable, c: char) -> (r: bool)
    requires
        table.wf(),
    ensures
        r == spec_is_uni_word(table.ranges@, c),
{
    if c == '_' {
        return true;
    }
    let cat = category(table, c);
    cat == Category::Lu || cat == Category::Ll || cat == Category::Lt || cat == Category::Lm || cat == Category::Lo
        || cat == Category::Nd || cat == Category::Nl || cat == Category::No
}

/// Whether a character belongs to a class category such as `\d`.
pub open spec fn spec_in_category(table: Seq<(u32, Category)>, c: char, cat: ChCode) -> bool {
    match cat {
        ChCode::Digit => category_of(table, c) == Category::Nd,
        ChCode::NotDigit => category_of(table, c) != Category::Nd,
        ChCode::Space => spec_is_uni_space(table, c),
        ChCode::NotSpace => !spec_is_uni_space(table, c),
        ChCode::Word => spec_is_uni_word(table, c),
        ChCode::NotWord => !spec_is_uni_word(table, c),
    }
}

pub fn in_category(table: &CategoryTable, c: char, cat: ChCode) -> (r: bool)
    requires
        table.wf(),
    ensures
        r == spec_in_category(table.ranges@, c, cat),
{
    match cat {
        ChCode::Digit => category(table, c) == Category::Nd,
        ChCode::NotDigit => category(table, c) != Category::Nd,
        ChCode::Space => is_uni_space(table, c),
        ChCode::NotSpace => !is_uni_space(table, c),
        ChCode::Word => is_uni_word(table, c),
        ChCode::NotWord => !is_uni_word(table, c),
    }
}

/// Whether one item of a class matches a character.
pub open spec fn spec_item_matches(table: Seq<(u32, Category)>, item: SetItem, c: char, flags: u32) -> bool {
    match item {
        SetItem::Negate => false,
        SetItem::Literal(cp) => is_scalar(cp) && spec_chars_eq(c, cp as char, flags),
        SetItem::Range(lo, hi) => (lo <= c as u32 && c as u32 <= hi) || (flags & SRE_FLAG_IGNORECASE != 0 && lo
            <= spec_swapcase(c) as u32 && spec_swapcase(c) as u32 <= hi),
        SetItem::Category(cat) => spec_in_category(table, c, cat),
    }
}

/// Whether a class (negated when it starts with `Negate`) matches a
/// character.
pub open spec fn spec_set_matches(table: Seq<(u32, Category)>, items: Seq<SetItem>, c: char, flags: u32) -> bool {
    let contained = exists|i: int| 0 <= i < items.len() && spec_item_matches(table, #[trigger] items[i], c, flags);
    if items.len() > 0 && items[0] is Negate {
        !contained
    } else {
        contained
    }
}

pub fn char_matches_set(table: &CategoryTable, items: &[SetItem], c: char, flags: u32) -> (r: bool)
    requires
        table.wf(),
    ensures
        r == spec_set_matches(table.ranges@, items@, c, flags),
{
    let negate = items.len() > 0 && match items[0] {
        SetItem::Negate => true,
        _ => false,
    };
    let mut contained = false;
    let mut i: usize = 0;
    while i < items.len()
        invariant
            table.wf(),
            i <= items@.len(),
            contained == exists|j: int| 0 <= j < i && spec_item_matches(table.ranges@, #[trigger] items@[j], c, flags),
        decreases items@.len() - i,
    {
        let hit = match items[i] {
            SetItem::Negate => false,
            SetItem::Literal(cp) => match char_from_u32(cp) {
                Some(lc) => chars_eq(c, lc, flags),
                None => false,
            },
            SetItem::Range(lo, hi) => {
                let cp = c as u32;
                if cp >= lo && cp <= hi {
                    true
                } else if flags & SRE_FLAG_IGNORECASE != 0 {
                    let sw = char_swapcase(c) as u32;
                    sw >= lo && sw <= hi
                } else {
                    false
                }
            },
            SetItem::Category(cat) => in_category(table, c, cat),
        };
        proof {
            assert(hit == spec_item_matches(table.ranges@, items@[i as int], c, flags));
        }
        if hit {
            contained = true;
        }
        i += 1;
    }
    if negate {
        !contained
    } else {
        contained
    }
}

/// Whether a word boundary lies at `pos`.
pub open spec fn spec_word_boundary(table: Seq<(u32, Category)>, chars: Seq<char>, pos: nat) -> bool {
    let before = pos > 0 && spec_is_uni_word(table, chars[pos - 1]);
    let after = pos < chars.len() && spec_is_uni_word(table, chars[pos as int]);
    before != after
}

fn is_word_boundary(table: &CategoryTable, chars: &[char], pos: usize) -> (r: bool)
    requires
        table.wf(),
        pos <= chars@.len(),
    ensures
        r == spec_word_boundary(table.ranges@, chars@, pos as nat),
{
    let before = pos > 0 && is_uni_word(table, chars[pos - 1]);
    let after = pos < chars.len() && is_uni_word(table, chars[pos]);
    before != after
}

/// Whether a position assertion holds at `pos`.
pub open spec fn spec_at_matches(
    table: Seq<(u32, Category)>,
    at: AtCode,
    chars: Seq<char>,
    pos: nat,
    flags: u32,
) -> bool {
    match at {
        AtCode::BeginningString => pos == 0,
        AtCode::Beginning => if flags & SRE_FLAG_MULTILINE != 0 {
            pos == 0 || chars[pos - 1] == '\n'
        } else {
            pos == 0
        },
        AtCode::End => if flags & SRE_FLAG_MULTILINE != 0 {
            pos == chars.len() || chars[pos as int] == '\n'
        } else {
            pos == chars.len() || (pos + 1 == chars.len() && chars[pos as int] == '\n')
        },
        AtCode::EndString => pos == chars.len(),
        AtCode::Boundary => spec_word_boundary(table, chars, pos),
        AtCode::NonBoundary => !spec_word_boundary(table, chars, pos),
    }
}

/// In MULTILINE mode `$` marks the end of every line: it holds wherever it
/// holds without the flag (so at the end of the subject and before a final
/// newline), and just before a newline exactly where `^` holds just after
/// it; and it holds wherever the end of the subject is.
pub proof fn lemma_multiline_end(
    table: Seq<(u32, Category)>,
    chars: Seq<char>,
    pos: nat,
    flags: u32,
    other: u32,
)
    requires
        flags & SRE_FLAG_MULTILINE != 0,
        pos <= chars.len(),
    ensures
        spec_at_matches(table, AtCode::End, chars, pos, other) ==> spec_at_matches(
            table,
            AtCode::End,
            chars,
            pos,
            flags,
        ),
        pos < chars.len() ==> (spec_at_matches(table, AtCode::End, chars, pos, flags) <==> spec_at_matches(
            table,
            AtCode::Beginning,
            chars,
            pos + 1,
            flags,
        )),
        spec_at_matches(table, AtCode::EndString, chars, pos, flags) ==> spec_at_matches(
            table,
            AtCode::End,
            chars,
            pos,
            flags,
        ),
        pos < chars.len() && chars[pos as int] != '\n' ==> !spec_at_matches(table, AtCode::End, chars, pos, flags),
{
}

/// Without MULTILINE, `^` holds only at the start of the subject, and `$`
/// only at its end or just before a newline that ends it; with MULTILINE,
/// `^` also holds just after every newline, and always at the start.
pub proof fn lemma_line_anchors(table: Seq<(u32, Category)>, chars: Seq<char>, pos: nat, flags: u32)
    requires
        pos <= chars.len(),
    ensures
        flags & SRE_FLAG_MULTILINE == 0 ==> (spec_at_matches(table, AtCode::Beginning, chars, pos, flags)
            <==> spec_at_matches(table, AtCode::BeginningString, chars, pos, flags)),
        flags & SRE_FLAG_MULTILINE == 0 ==> (spec_at_matches(table, AtCode::End, chars, pos, flags) <==> (
        spec_at_matches(table, AtCode::EndString, chars, pos, flags) || (pos + 1 == chars.len() && chars[pos as int]
            == '\n'))),
        spec_at_matches(table, AtCode::Beginning, chars, 0, flags),
        spec_at_matches(table, AtCode::End, chars, chars.len(), flags),
        flags & SRE_FLAG_MULTILINE != 0 && 0 < pos && chars[pos - 1] == '\n' ==> spec_at_matches(
            table,
            AtCode::Beginning,
            chars,
            pos,
            flags,
        ),
{
}

pub fn at_matches(table: &CategoryTable, at: &AtCode, chars: &[char], pos: usize, flags: u32) -> (r: bool)
    requires
        table.wf(),
        pos <= chars@.len(),
    ensures
        r == spec_at_matches(table.ranges@, *at, chars@, pos as nat, flags),
{
    match at {
        AtCode::BeginningString => pos == 0,
        AtCode::Beginning => {
            if flags & SRE_FLAG_MULTILINE != 0 {
                pos == 0 || chars[pos - 1] == '\n'
            } else {
                pos == 0
            }
        },
        AtCode::End => {
            if flags & SRE_FLAG_MULTILINE != 0 {
                pos == chars.len() || chars[pos] == '\n'
            } else {
                pos == chars.len() || (pos + 1 == chars.len() && chars[pos] == '\n')
            }
        },
        AtCode::EndString => pos == chars.len(),
        AtCode::Boundary => is_word_boundary(table, chars, pos),
        AtCode::NonBoundary => !is_word_boundary(table, chars, pos),
    }
}

// ---------------------------------------------------------------------------
// Matching
// ---------------------------------------------------------------------------

/// The number of operations in an operation, counting nested ones.
pub open spec fn op_size(op: OpCode) -> nat
    decreases op,
{
    match op {
        OpCode::Branch(alts) => 1 + alts_size(alts@),
        OpCode::Subpattern { p, .. } => 1 + ops_size(p.data@),
        OpCode::GroupRefExists { yes, no, .. } => 1 + ops_size(yes.data@) + match no {
            Some(n) => ops_size(n.data@),
            None => 0,
        },
        OpCode::Assert { p, .. } => 1 + ops_size(p.data@),
        OpCode::AssertNot { p, .. } => 1 + ops_size(p.data@),
        OpCode::AtomicGroup(p) => 1 + ops_size(p.data@),
        OpCode::MaxRepeat { item, .. } => 1 + ops_size(item.data@),
        OpCode::MinRepeat { item, .. } => 1 + ops_size(item.data@),
        OpCode::PossessiveRepeat { item, .. } => 1 + ops_size(item.data@),
        _ => 1,
    }
}

/// The size of a sequence of operations.
pub open spec fn ops_size(s: Seq<OpCode>) -> nat
    decreases s,
{
    if s.len() == 0 {
        0
    } else {
        op_size(s[0]) + ops_size(s.drop_first())
    }
}

/// The size of the alternatives of a branch.
pub open spec fn alts_size(s: Seq<SubPattern>) -> nat
    decreases s,
{
    if s.len() == 0 {
        0
    } else {
        ops_size(s[0].data@) + alts_size(s.drop_first())
    }
}

pub proof fn lemma_op_size_positive(op: OpCode)
    ensures
        op_size(op) >= 1,
{
}

pub proof fn lemma_ops_size_concat(a: Seq<OpCode>, b: Seq<OpCode>)
    ensures
        ops_size(a + b) == ops_size(a) + ops_size(b),
    decreases a.len(),
{
    if a.len() > 0 {
        assert((a + b).drop_first() =~= a.drop_first() + b);
        lemma_ops_size_concat(a.drop_first(), b);
    } else {
        assert(a + b =~= b);
    }
}

/// What the matcher reads besides the operations: the text, the groups
/// captured so far, and the table of general categories.
pub struct Subject {
    pub chars: Seq<char>,
    pub groups: Map<u32, Seq<char>>,
    pub table: Seq<(u32, Category)>,
}

/// The repeat bound as an option: `MAXREPEAT` means unbounded.
pub open spec fn bound_of(max: u32) -> Option<nat> {
    if max == 0xffff_ffff {
        None
    } else {
        Some(max as nat)
    }
}

/// The flags inside a group that adds and removes some.
pub open spec fn scoped_flags(flags: u32, add: u32, del: u32) -> u32 {
    (flags | add) & !del
}

/// The end of the first match of `ops` at `pos`, trying alternatives in
/// order, greedy repeats longest first, lazy repeats shortest first and
/// possessive repeats without giving back, and requiring every repetition
/// of a repeat to consume text.
pub open spec fn seq_match(ops: Seq<OpCode>, pos: nat, sub: Subject, flags: u32) -> Option<nat>
    decreases ops_size(ops), 2nat, 0nat,
{
    if ops.len() == 0 {
        Some(pos)
    } else {
        let rest = ops.drop_first();
        let len = sub.chars.len();
        proof {
            assert(ops_size(ops) == op_size(ops[0]) + ops_size(rest));
            lemma_op_size_positive(ops[0]);
        }
        match ops[0] {
            OpCode::Literal(cp) => if !is_scalar(cp) || pos >= len {
                None
            } else if spec_chars_eq(sub.chars[pos as int], cp as char, flags) {
                seq_match(rest, pos + 1, sub, flags)
            } else {
                None
            },
            OpCode::NotLiteral(cp) => if !is_scalar(cp) || pos >= len {
                None
            } else if spec_chars_eq(sub.chars[pos as int], cp as char, flags) {
                None
            } else {
                seq_match(rest, pos + 1, sub, flags)
            },
            OpCode::Any => if pos >= len {
                None
            } else if sub.chars[pos as int] == '\n' && flags & SRE_FLAG_DOTALL == 0 {
                None
            } else {
                seq_match(rest, pos + 1, sub, flags)
            },
            OpCode::In(items) => if pos >= len {
                None
            } else if spec_set_matches(sub.table, items@, sub.chars[pos as int], flags) {
                seq_match(rest, pos + 1, sub, flags)
            } else {
                None
            },
            OpCode::At(at) => if spec_at_matches(sub.table, at, sub.chars, pos, flags) {
                seq_match(rest, pos, sub, flags)
            } else {
                None
            },
            OpCode::Branch(alts) => branch_match(alts@, rest, pos, sub, flags),
            OpCode::Subpattern { add_flags, del_flags, p, .. } => match seq_match(
                p.data@,
                pos,
                sub,
                scoped_flags(flags, add_flags, del_flags),
            ) {
                Some(end) => seq_match(rest, end, sub, flags),
                None => None,
            },
            OpCode::AtomicGroup(p) => match seq_match(p.data@, pos, sub, flags) {
                Some(end) => seq_match(rest, end, sub, flags),
                None => None,
            },
            OpCode::GroupRef(gid) => if !sub.groups.contains_key(gid) {
                None
            } else {
                let v = sub.groups[gid];
                if pos + v.len() > len {
                    None
                } else if forall|i: int| 0 <= i < v.len() ==> spec_chars_eq(#[trigger] sub.chars[pos + i], v[i], flags) {
                    seq_match(rest, pos + v.len(), sub, flags)
                } else {
                    None
                }
            },
            OpCode::GroupRefExists { cond_group, yes, no } => {
                let body = if sub.groups.contains_key(cond_group) {
                    yes.data@
                } else {
                    match no {
                        Some(n) => n.data@,
                        None => Seq::empty(),
                    }
                };
                proof {
                    lemma_ops_size_concat(body, rest);
                }
                seq_match(body + rest, pos, sub, flags)
            },
            OpCode::Assert { p, .. } => if seq_match(p.data@, pos, sub, flags) is Some {
                seq_match(rest, pos, sub, flags)
            } else {
                None
            },
            OpCode::AssertNot { p, .. } => if seq_match(p.data@, pos, sub, flags) is None {
                seq_match(rest, pos, sub, flags)
            } else {
                None
            },
            OpCode::Failure => None,
            OpCode::MaxRepeat { min, max, item } => {
                let positions = seq![pos] + greedy_positions(item.data@, rest, pos, 1, bound_of(max), sub, flags);
                if positions.len() - 1 < min {
                    None
                } else {
                    try_from_longest(item.data@, rest, positions, min as nat, positions.len(), sub, flags)
                }
            },
            OpCode::MinRepeat { min, max, item } => match min_prefix(item.data@, rest, pos, min as nat, sub, flags) {
                Some(cur) => min_tail(item.data@, rest, cur, min as nat, bound_of(max), sub, flags),
                None => None,
            },
            OpCode::PossessiveRepeat { min, max, item } => {
                let (cur, count) = possessive(item.data@, rest, pos, 0, bound_of(max), sub, flags);
                if count < min {
                    None
                } else {
                    seq_match(rest, cur, sub, flags)
                }
            },
        }
    }
}

/// Tries each alternative, followed by `rest`, in order.
pub open spec fn branch_match(alts: Seq<SubPattern>, rest: Seq<OpCode>, pos: nat, sub: Subject, flags: u32) -> Option<
    nat,
>
    decreases 1 + alts_size(alts) + ops_size(rest), 1nat, alts.len(),
{
    if alts.len() == 0 {
        None
    } else {
        proof {
            lemma_ops_size_concat(alts[0].data@, rest);
        }
        match seq_match(alts[0].data@ + rest, pos, sub, flags) {
            Some(end) => Some(end),
            None => branch_match(alts.drop_first(), rest, pos, sub, flags),
        }
    }
}

/// The positions a greedy repeat reaches after `cur`, one per further
/// repetition, while repetitions consume text and the bound allows.
pub open spec fn greedy_positions(
    item: Seq<OpCode>,
    rest: Seq<OpCode>,
    cur: nat,
    count: nat,
    max: Option<nat>,
    sub: Subject,
    flags: u32,
) -> Seq<nat>
    decreases 1 + ops_size(item) + ops_size(rest), 1nat, sub.chars.len() - cur,
{
    if max matches Some(m) && count > m {
        Seq::empty()
    } else {
        match seq_match(item, cur, sub, flags) {
            Some(next) => if cur < next <= sub.chars.len() {
                seq![next] + greedy_positions(item, rest, next, count + 1, max, sub, flags)
            } else {
                Seq::empty()
            },
            None => Seq::empty(),
        }
    }
}

/// Tries `rest` from `positions[k - 1]` down to `positions[min]`.
pub open spec fn try_from_longest(
    item: Seq<OpCode>,
    rest: Seq<OpCode>,
    positions: Seq<nat>,
    min: nat,
    k: nat,
    sub: Subject,
    flags: u32,
) -> Option<nat>
    decreases 1 + ops_size(item) + ops_size(rest), 1nat, k,
{
    if k <= min || k > positions.len() {
        None
    } else {
        match seq_match(rest, positions[k - 1], sub, flags) {
            Some(end) => Some(end),
            None => try_from_longest(item, rest, positions, min, (k - 1) as nat, sub, flags),
        }
    }
}

/// The position after `k` mandatory repetitions, each consuming text.
pub open spec fn min_prefix(item: Seq<OpCode>, rest: Seq<OpCode>, cur: nat, k: nat, sub: Subject, flags: u32) -> Option<
    nat,
>
    decreases 1 + ops_size(item) + ops_size(rest), 1nat, k,
{
    if k == 0 {
        Some(cur)
    } else {
        match seq_match(item, cur, sub, flags) {
            Some(next) => if next <= cur {
                None
            } else {
                min_prefix(item, rest, next, (k - 1) as nat, sub, flags)
            },
            None => None,
        }
    }
}

/// A lazy repeat after its mandatory repetitions: `rest` first, then one
/// more repetition, while the bound allows.
pub open spec fn min_tail(
    item: Seq<OpCode>,
    rest: Seq<OpCode>,
    cur: nat,
    count: nat,
    max: Option<nat>,
    sub: Subject,
    flags: u32,
) -> Option<nat>
    decreases 1 + ops_size(item) + ops_size(rest), 1nat, sub.chars.len() - cur,
{
    match seq_match(rest, cur, sub, flags) {
        Some(end) => Some(end),
        None => if max matches Some(m) && count >= m {
            None
        } else {
            match seq_match(item, cur, sub, flags) {
                Some(next) => if next <= cur || next > sub.chars.len() {
                    None
                } else {
                    min_tail(item, rest, next, count + 1, max, sub, flags)
                },
                None => None,
            }
        },
    }
}

/// A possessive repeat: the position and count after repeating as long as
/// repetitions consume text and the bound allows.
pub open spec fn possessive(
    item: Seq<OpCode>,
    rest: Seq<OpCode>,
    cur: nat,
    count: nat,
    max: Option<nat>,
    sub: Subject,
    flags: u32,
) -> (nat, nat)
    decreases 1 + ops_size(item) + ops_size(rest), 1nat, sub.chars.len() - cur,
{
    if max matches Some(m) && count >= m {
        (cur, count)
    } else {
        match seq_match(item, cur, sub, flags) {
            Some(next) => if cur < next <= sub.chars.len() {
                possessive(item, rest, next, count + 1, max, sub, flags)
            } else {
                (cur, count)
            },
            None => (cur, count),
        }
    }
}

/// The operations of a list of segments, in order.
pub open spec fn flatten(segs: Seq<&[OpCode]>) -> Seq<OpCode>
    decreases segs.len(),
{
    if segs.len() == 0 {
        Seq::empty()
    } else {
        segs[0]@ + flatten(segs.drop_first())
    }
}

proof fn lemma_flatten_push(a: Seq<&[OpCode]>, x: &[OpCode])
    ensures
        flatten(a.push(x)) == flatten(a) + x@,
    decreases a.len(),
{
    if a.len() == 0 {
        assert(a.push(x).drop_first() =~= Seq::<&[OpCode]>::empty());
        assert(flatten(Seq::<&[OpCode]>::empty()) =~= Seq::<OpCode>::empty());
        assert(flatten(a.push(x)) =~= x@);
    } else {
        assert(a.push(x).drop_first() =~= a.drop_first().push(x));
        lemma_flatten_push(a.drop_first(), x);
        assert(flatten(a.push(x)) =~= flatten(a) + x@);
    }
}

/// The captured groups as character sequences.
pub open spec fn group_views(groups: Map<u32, String>) -> Map<u32, Seq<char>> {
    groups.map_values(|s: String| s@)
}

/// The subject a matcher call reads.
pub open spec fn subject_of(chars: Seq<char>, groups: Map<u32, String>, table: Seq<(u32, Category)>) -> Subject {
    Subject { chars, groups: group_views(groups), table }
}

/// An exec result as a spec one.
pub open spec fn as_nat_opt(r: Option<usize>) -> Option<nat> {
    match r {
        Some(e) => Some(e as nat),
        None => None,
    }
}

/// `front` followed by the segments of `rest`.
fn with_front<'a>(front: &'a [OpCode], rest: &Vec<&'a [OpCode]>) -> (r: Vec<&'a [OpCode]>)
    ensures
        flatten(r@) == front@ + flatten(rest@),
{
    let mut r: Vec<&'a [OpCode]> = Vec::new();
    r.push(front);
    let mut t: usize = 0;
    proof {
        assert(rest@.subrange(0, 0) =~= Seq::<&[OpCode]>::empty());
        assert(r@.drop_first() =~= Seq::<&[OpCode]>::empty());
        assert(flatten(r@) =~= front@ + flatten(rest@.subrange(0, 0)));
    }
    while t < rest.len()
        invariant
            t <= rest@.len(),
            flatten(r@) == front@ + flatten(rest@.subrange(0, t as int)),
        decreases rest@.len() - t,
    {
        let ghost before = r@;
        r.push(rest[t]);
        proof {
            lemma_flatten_push(before, rest@[t as int]);
            assert(rest@.subrange(0, t + 1) =~= rest@.subrange(0, t as int).push(rest@[t as int]));
            lemma_flatten_push(rest@.subrange(0, t as int), rest@[t as int]);
        }
        t += 1;
    }
    assert(rest@.subrange(0, rest@.len() as int) =~= rest@);
    r
}

/// Matches the operations of `segs` at `pos`.
fn match_segs(
    segs: &[&[OpCode]],
    pos: usize,
    chars: &[char],
    flags: u32,
    groups: &HashMap<u32, String>,
    table: &CategoryTable,
) -> (r: Option<usize>)
    requires
        table.wf(),
        pos <= chars@.len(),
    ensures
        r matches Some(e) ==> pos <= e <= chars@.len(),
        as_nat_opt(r) == seq_match(flatten(segs@), pos as nat, subject_of(chars@, groups@, table.ranges@), flags),
    decreases ops_size(flatten(segs@)), 2nat,
{
    broadcast use vstd::std_specs::hash::group_hash_axioms;
    let ghost sub = subject_of(chars@, groups@, table.ranges@);
    let ghost all = flatten(segs@);
    // Skip empty segments.
    let mut s: usize = 0;
    proof {
        assert(segs@.skip(0) =~= segs@);
    }
    while s < segs.len() && segs[s].len() == 0
        invariant
            s <= segs@.len(),
            flatten(segs@.skip(s as int)) == all,
            all == flatten(segs@),
        decreases segs@.len() - s,
    {
        proof {
            assert(segs@.skip(s as int).drop_first() =~= segs@.skip(s + 1));
            assert(segs@.skip(s as int)[0]@ =~= Seq::<OpCode>::empty());
            assert(flatten(segs@.skip(s as int)) =~= flatten(segs@.skip(s + 1)));
        }
        s += 1;
    }
    if s == segs.len() {
        proof {
            assert(segs@.skip(s as int) =~= Seq::<&[OpCode]>::empty());
        }
        return Some(pos);
    }
    let seg = segs[s];
    let first = &seg[0];
    let mut tail: Vec<&[OpCode]> = Vec::new();
    tail.push(&seg[1..seg.len()]);
    let mut t = s + 1;
    proof {
        assert(tail@.drop_first() =~= Seq::<&[OpCode]>::empty());
        assert(segs@.subrange(s + 1, s + 1) =~= Seq::<&[OpCode]>::empty());
        assert(flatten(tail@) =~= seg@.drop_first() + flatten(segs@.subrange(s + 1, t as int)));
    }
    while t < segs.len()
        invariant
            s < t <= segs@.len(),
            seg@.len() > 0,
            flatten(tail@) == seg@.drop_first() + flatten(segs@.subrange(s + 1, t as int)),
        decreases segs@.len() - t,
    {
        let ghost before = tail@;
        tail.push(segs[t]);
        proof {
            lemma_flatten_push(before, segs@[t as int]);
            assert(segs@.subrange(s + 1, t + 1) =~= segs@.subrange(s + 1, t as int).push(segs@[t as int]));
            lemma_flatten_push(segs@.subrange(s + 1, t as int), segs@[t as int]);
        }
        t += 1;
    }
    let ghost rest = flatten(tail@);
    proof {
        assert(segs@.subrange(s + 1, segs@.len() as int) =~= segs@.skip(s + 1));
        assert(segs@.skip(s as int).drop_first() =~= segs@.skip(s + 1));
        assert(all == seg@ + flatten(segs@.skip(s + 1)));
        assert(all.drop_first() =~= rest);
        assert(all[0] == *first);
        assert(ops_size(all) == op_size(all[0]) + ops_size(rest));
        lemma_op_size_positive(all[0]);
        assert(all =~= seq![*first] + rest);
    }
    match first {
        OpCode::Literal(cp) => {
            let want = match char_from_u32(*cp) {
                Some(w) => w,
                None => {
                    return None;
                },
            };
            if pos >= chars.len() {
                return None;
            }
            if chars_eq(chars[pos], want, flags) {
                match_segs(tail.as_slice(), pos + 1, chars, flags, groups, table)
            } else {
                None
            }
        },
        OpCode::NotLiteral(cp) => {
            let banned = match char_from_u32(*cp) {
                Some(w) => w,
                None => {
                    return None;
                },
            };
            if pos >= chars.len() {
                return None;
            }
            if chars_eq(chars[pos], banned, flags) {
                None
            } else {
                match_segs(tail.as_slice(), pos + 1, chars, flags, groups, table)
            }
        },
        OpCode::Any => {
            if pos >= chars.len() {
                return None;
            }
            if chars[pos] == '\n' && flags & SRE_FLAG_DOTALL == 0 {
                None
            } else {
                match_segs(tail.as_slice(), pos + 1, chars, flags, groups, table)
            }
        },
        OpCode::In(items) => {
            if pos >= chars.len() {
                return None;
            }
            if char_matches_set(table, items.as_slice(), chars[pos], flags) {
                match_segs(tail.as_slice(), pos + 1, chars, flags, groups, table)
            } else {
                None
            }
        },
        OpCode::At(at) => {
            if at_matches(table, at, chars, pos, flags) {
                match_segs(tail.as_slice(), pos, chars, flags, groups, table)
            } else {
                None
            }
        },
        OpCode::Failure => None,
        _ => match_compound(first, &tail, pos, chars, flags, groups, table),
    }
}

/// An operation that contains further operations or refers to a group.
pub open spec fn is_compound(op: OpCode) -> bool {
    !(op is Literal || op is NotLiteral || op is Any || op is In || op is At || op is Failure)
}

proof fn lemma_flatten_single(x: &[OpCode])
    ensures
        flatten(seq![x]) == x@,
{
    assert(seq![x].drop_first() =~= Seq::<&[OpCode]>::empty());
    assert(flatten(Seq::<&[OpCode]>::empty()) =~= Seq::<OpCode>::empty());
    assert(flatten(seq![x]) =~= x@);
}

proof fn lemma_alts_size_elem(alts: Seq<SubPattern>, j: int)
    requires
        0 <= j < alts.len(),
    ensures
        ops_size(alts[j].data@) <= alts_size(alts),
        alts_size(alts.skip(j)) == ops_size(alts[j].data@) + alts_size(alts.skip(j + 1)),
        alts_size(alts.skip(j)) <= alts_size(alts),
    decreases j,
{
    assert(alts.skip(j).drop_first() =~= alts.skip(j + 1));
    assert(alts.skip(j)[0] == alts[j]);
    if j > 0 {
        lemma_alts_size_elem(alts.drop_first(), j - 1);
        assert(alts.drop_first().skip(j - 1) =~= alts.skip(j));
        assert(alts.drop_first().skip(j) =~= alts.skip(j + 1));
        assert(alts.drop_first()[j - 1] == alts[j]);
    } else {
        assert(alts.skip(0) =~= alts);
    }
}

/// Matches an operation that contains further operations, followed by the
/// operations of `tail`.
fn match_compound(
    first: &OpCode,
    tail: &Vec<&[OpCode]>,
    pos: usize,
    chars: &[char],
    flags: u32,
    groups: &HashMap<u32, String>,
    table: &CategoryTable,
) -> (r: Option<usize>)
    requires
        table.wf(),
        pos <= chars@.len(),
        is_compound(*first),
    ensures
        r matches Some(e) ==> pos <= e <= chars@.len(),
        as_nat_opt(r) == seq_match(
            seq![*first] + flatten(tail@),
            pos as nat,
            subject_of(chars@, groups@, table.ranges@),
            flags,
        ),
    decreases ops_size(seq![*first] + flatten(tail@)), 1nat,
{
    broadcast use vstd::std_specs::hash::group_hash_axioms;
    let ghost sub = subject_of(chars@, groups@, table.ranges@);
    let ghost rest = flatten(tail@);
    let ghost ops = seq![*first] + rest;
    proof {
        assert(ops.drop_first() =~= rest);
        assert(ops[0] == *first);
        assert(ops_size(ops) == op_size(*first) + ops_size(rest));
    }
    match first {
        OpCode::Branch(alts) => {
            let mut j: usize = 0;
            proof {
                assert(alts@.skip(0) =~= alts@);
            }
            while j < alts.len()
                invariant
                    table.wf(),
                    pos <= chars@.len(),
                    j <= alts@.len(),
                    ops == seq![*first] + rest,
                    rest == flatten(tail@),
                    *first == OpCode::Branch(*alts),
                    ops_size(ops) == 1 + alts_size(alts@) + ops_size(rest),
                    seq_match(ops, pos as nat, sub, flags) == branch_match(alts@.skip(j as int), rest, pos as nat, sub, flags),
                    sub == subject_of(chars@, groups@, table.ranges@),
                decreases alts@.len() - j,
            {
                let combined = with_front(alts[j].data.as_slice(), tail);
                proof {
                    lemma_alts_size_elem(alts@, j as int);
                    lemma_ops_size_concat(alts@[j as int].data@, rest);
                    assert(alts@.skip(j as int)[0] == alts@[j as int]);
                    assert(alts@.skip(j as int).drop_first() =~= alts@.skip(j + 1));
                }
                let r = match_segs(combined.as_slice(), pos, chars, flags, groups, table);
                if r.is_some() {
                    return r;
                }
                j += 1;
            }
            proof {
                assert(alts@.skip(j as int) =~= Seq::<SubPattern>::empty());
                assert(branch_match(alts@.skip(j as int), rest, pos as nat, sub, flags) is None);
            }
            None
        },
        OpCode::Subpattern { add_flags, del_flags, p, .. } => {
            let inner_flags = (flags | *add_flags) & !*del_flags;
            let body = p.data.as_slice();
            let inner: Vec<&[OpCode]> = vec![body];
            proof {
                lemma_flatten_single(body);
                assert(inner@ =~= seq![body]);
            }
            let end = match match_segs(inner.as_slice(), pos, chars, inner_flags, groups, table) {
                Some(e) => e,
                None => {
                    return None;
                },
            };
            match_segs(tail.as_slice(), end, chars, flags, groups, table)
        },
        OpCode::AtomicGroup(p) => {
            let body = p.data.as_slice();
            let inner: Vec<&[OpCode]> = vec![body];
            proof {
                lemma_flatten_single(body);
                assert(inner@ =~= seq![body]);
            }
            let end = match match_segs(inner.as_slice(), pos, chars, flags, groups, table) {
                Some(e) => e,
                None => {
                    return None;
                },
            };
            match_segs(tail.as_slice(), end, chars, flags, groups, table)
        },
        OpCode::Assert { p, .. } => {
            let body = p.data.as_slice();
            let inner: Vec<&[OpCode]> = vec![body];
            proof {
                lemma_flatten_single(body);
                assert(inner@ =~= seq![body]);
            }
            if match_segs(inner.as_slice(), pos, chars, flags, groups, table).is_some() {
                match_segs(tail.as_slice(), pos, chars, flags, groups, table)
            } else {
                None
            }
        },
        OpCode::AssertNot { p, .. } => {
            let body = p.data.as_slice();
            let inner: Vec<&[OpCode]> = vec![body];
            proof {
                lemma_flatten_single(body);
                assert(inner@ =~= seq![body]);
            }
            if match_segs(inner.as_slice(), pos, chars, flags, groups, table).is_none() {
                match_segs(tail.as_slice(), pos, chars, flags, groups, table)
            } else {
                None
            }
        },
        OpCode::GroupRef(gid) => {
            let val = match groups.get(gid) {
                Some(v) => v,
                None => {
                    return None;
                },
            };
            let vcs = str_to_chars(val.as_str());
            proof {
                assert(groups@.contains_key(*gid));
                assert(groups@[*gid] == *val);
                assert(sub.groups.contains_key(*gid));
                assert(sub.groups[*gid] == vcs@);
            }
            let n = chars.len();
            if vcs.len() > n - pos {
                return None;
            }
            let mut i: usize = 0;
            while i < vcs.len()
                invariant
                    n == chars@.len(),
                    sub == subject_of(chars@, groups@, table.ranges@),
                    sub.groups.contains_key(*gid),
                    sub.groups[*gid] == vcs@,
                    ops == seq![*first] + rest,
                    *first == OpCode::GroupRef(*gid),
                    pos + vcs@.len() <= chars@.len(),
                    i <= vcs@.len(),
                    forall|k: int| 0 <= k < i ==> spec_chars_eq(#[trigger] chars@[pos + k], vcs@[k], flags),
                decreases vcs@.len() - i,
            {
                if !chars_eq(chars[pos + i], vcs[i], flags) {
                    proof {
                        assert(!spec_chars_eq(sub.chars[pos + i as int], sub.groups[*gid][i as int], flags));
                        assert(ops.drop_first() =~= rest);
                        assert(seq_match(ops, pos as nat, sub, flags) is None);
                    }
                    return None;
                }
                i += 1;
            }
            match_segs(tail.as_slice(), pos + vcs.len(), chars, flags, groups, table)
        },
        OpCode::GroupRefExists { cond_group, yes, no } => {
            if groups.contains_key(cond_group) {
                let combined = with_front(yes.data.as_slice(), tail);
                proof {
                    lemma_ops_size_concat(yes.data@, rest);
                }
                match_segs(combined.as_slice(), pos, chars, flags, groups, table)
            } else {
                match no {
                    Some(n) => {
                        let combined = with_front(n.data.as_slice(), tail);
                        proof {
                            lemma_ops_size_concat(n.data@, rest);
                        }
                        match_segs(combined.as_slice(), pos, chars, flags, groups, table)
                    },
                    None => {
                        proof {
                            assert(Seq::<OpCode>::empty() + rest =~= rest);
                        }
                        match_segs(tail.as_slice(), pos, chars, flags, groups, table)
                    },
                }
            }
        },
        OpCode::MaxRepeat { min, max, item } => {
            match_max_repeat(*min, *max, item.data.as_slice(), first, tail, pos, chars, flags, groups, table)
        },
        OpCode::MinRepeat { min, max, item } => {
            match_min_repeat(*min, *max, item.data.as_slice(), first, tail, pos, chars, flags, groups, table)
        },
        OpCode::PossessiveRepeat { min, max, item } => {
            match_possessive(*min, *max, item.data.as_slice(), first, tail, pos, chars, flags, groups, table)
        },
        _ => None,
    }
}

/// The positions as naturals.
pub open spec fn nat_positions(p: Seq<usize>) -> Seq<nat> {
    p.map_values(|x: usize| x as nat)
}

/// A greedy repeat: repeat as long as repetitions consume text and the
/// bound allows, then try the rest from the longest repetition down.
fn match_max_repeat(
    min: u32,
    max: u32,
    item: &[OpCode],
    first: &OpCode,
    tail: &Vec<&[OpCode]>,
    pos: usize,
    chars: &[char],
    flags: u32,
    groups: &HashMap<u32, String>,
    table: &CategoryTable,
) -> (r: Option<usize>)
    requires
        table.wf(),
        pos <= chars@.len(),
        *first matches OpCode::MaxRepeat { min: mn, max: mx, item: it } && mn == min && mx == max && it.data@ == item@,
    ensures
        r matches Some(e) ==> pos <= e <= chars@.len(),
        as_nat_opt(r) == seq_match(
            seq![*first] + flatten(tail@),
            pos as nat,
            subject_of(chars@, groups@, table.ranges@),
            flags,
        ),
    decreases ops_size(seq![*first] + flatten(tail@)), 0nat,
{
    let ghost sub = subject_of(chars@, groups@, table.ranges@);
    let ghost rest = flatten(tail@);
    let ghost ops = seq![*first] + rest;
    let ghost bound = bound_of(max);
    let ghost target = seq_match(ops, pos as nat, sub, flags);
    let n = chars.len();
    proof {
        assert(ops.drop_first() =~= rest);
        assert(ops[0] == *first);
        assert(ops_size(ops) == op_size(*first) + ops_size(rest));
        lemma_flatten_single(item);
    }
    let inner: Vec<&[OpCode]> = vec![item];
    proof {
        assert(inner@ =~= seq![item]);
    }
    let mx: Option<usize> = if max == 0xffff_ffff { None } else { Some(max as usize) };
    let ghost full = seq![pos as nat] + greedy_positions(item@, rest, pos as nat, 1, bound, sub, flags);
    proof {
        assert(target == if full.len() - 1 < min {
            None
        } else {
            try_from_longest(item@, rest, full, min as nat, full.len(), sub, flags)
        });
    }
    let mut positions: Vec<usize> = vec![pos];
    let mut cur = pos;
    proof {
        assert(nat_positions(positions@) =~= seq![pos as nat]);
    }
    loop
        invariant
            table.wf(),
            n == chars@.len(),
            sub == subject_of(chars@, groups@, table.ranges@),
            rest == flatten(tail@),
            flatten(inner@) == item@,
            ops_size(item@) < ops_size(seq![*first] + flatten(tail@)),
            ops_size(rest) < ops_size(seq![*first] + flatten(tail@)),
            bound == bound_of(max),
            mx == (if max == 0xffff_ffff { None::<usize> } else { Some(max as usize) }),
            target == seq_match(seq![*first] + flatten(tail@), pos as nat, subject_of(chars@, groups@, table.ranges@), flags),
            positions@.len() >= 1,
            cur == positions@.last(),
            pos <= cur <= chars@.len(),
            forall|k: int| 0 <= k < positions@.len() ==> pos <= #[trigger] positions@[k] <= chars@.len(),
            nat_positions(positions@) + greedy_positions(item@, rest, cur as nat, positions@.len(), bound, sub, flags)
                == full,
        ensures
            positions@.len() >= 1,
            forall|k: int| 0 <= k < positions@.len() ==> pos <= #[trigger] positions@[k] <= chars@.len(),
            nat_positions(positions@) == full,
        decreases chars@.len() - cur,
    {
        if let Some(m) = mx {
            if positions.len() > m {
                proof {
                    assert(greedy_positions(item@, rest, cur as nat, positions@.len(), bound, sub, flags)
                        =~= Seq::<nat>::empty());
                    assert(nat_positions(positions@) =~= full);
                }
                break;
            }
        }
        let step = match_segs(inner.as_slice(), cur, chars, flags, groups, table);
        match step {
            Some(next) => {
                if next > cur {
                    let ghost before = positions@;
                    cur = next;
                    positions.push(cur);
                    proof {
                        assert(nat_positions(positions@) =~= nat_positions(before).push(next as nat));
                        assert(greedy_positions(item@, rest, before.last() as nat, before.len(), bound, sub, flags)
                            == seq![next as nat] + greedy_positions(item@, rest, next as nat, before.len() + 1, bound, sub, flags));
                        assert(nat_positions(before).push(next as nat) + greedy_positions(item@, rest, next as nat, before.len() + 1, bound, sub, flags)
                            =~= nat_positions(before) + (seq![next as nat] + greedy_positions(item@, rest, next as nat, before.len() + 1, bound, sub, flags)));
                    }
                } else {
                    proof {
                        assert(nat_positions(positions@) =~= full);
                    }
                    break;
                }
            },
            None => {
                proof {
                    assert(nat_positions(positions@) =~= full);
                }
                break;
            },
        }
    }
    proof {
        assert(full.len() == positions@.len());
    }
    if positions.len() - 1 < min as usize {
        return None;
    }
    let mut k = positions.len();
    while k > min as usize
        invariant
            table.wf(),
            n == chars@.len(),
            sub == subject_of(chars@, groups@, table.ranges@),
            rest == flatten(tail@),
            flatten(inner@) == item@,
            ops_size(item@) < ops_size(seq![*first] + flatten(tail@)),
            ops_size(rest) < ops_size(seq![*first] + flatten(tail@)),
            bound == bound_of(max),
            mx == (if max == 0xffff_ffff { None::<usize> } else { Some(max as usize) }),
            target == seq_match(seq![*first] + flatten(tail@), pos as nat, subject_of(chars@, groups@, table.ranges@), flags),
            nat_positions(positions@) == full,
            k <= positions@.len(),
            full.len() - 1 >= min,
            forall|j: int| 0 <= j < positions@.len() ==> pos <= #[trigger] positions@[j] <= chars@.len(),
            target == try_from_longest(item@, rest, full, min as nat, k as nat, sub, flags),
        decreases k,
    {
        proof {
            assert(full[k - 1] == positions@[k - 1] as nat);
        }
        let r = match_segs(tail.as_slice(), positions[k - 1], chars, flags, groups, table);
        if r.is_some() {
            return r;
        }
        k -= 1;
    }
    None
}

/// A lazy repeat: the mandatory repetitions, then the rest before each
/// further repetition.
fn match_min_repeat(
    min: u32,
    max: u32,
    item: &[OpCode],
    first: &OpCode,
    tail: &Vec<&[OpCode]>,
    pos: usize,
    chars: &[char],
    flags: u32,
    groups: &HashMap<u32, String>,
    table: &CategoryTable,
) -> (r: Option<usize>)
    requires
        table.wf(),
        pos <= chars@.len(),
        *first matches OpCode::MinRepeat { min: mn, max: mx, item: it } && mn == min && mx == max && it.data@ == item@,
    ensures
        r matches Some(e) ==> pos <= e <= chars@.len(),
        as_nat_opt(r) == seq_match(
            seq![*first] + flatten(tail@),
            pos as nat,
            subject_of(chars@, groups@, table.ranges@),
            flags,
        ),
    decreases ops_size(seq![*first] + flatten(tail@)), 0nat,
{
    let ghost sub = subject_of(chars@, groups@, table.ranges@);
    let ghost rest = flatten(tail@);
    let ghost ops = seq![*first] + rest;
    let ghost bound = bound_of(max);
    let ghost target = seq_match(ops, pos as nat, sub, flags);
    let n = chars.len();
    proof {
        assert(ops.drop_first() =~= rest);
        assert(ops[0] == *first);
        assert(ops_size(ops) == op_size(*first) + ops_size(rest));
        lemma_flatten_single(item);
    }
    let inner: Vec<&[OpCode]> = vec![item];
    proof {
        assert(inner@ =~= seq![item]);
    }
    let mx: Option<usize> = if max == 0xffff_ffff { None } else { Some(max as usize) };
    let ghost whole = min_prefix(item@, rest, pos as nat, min as nat, sub, flags);
    proof {
        assert(target == match whole {
            Some(c) => min_tail(item@, rest, c, min as nat, bound, sub, flags),
            None => None,
        });
    }
    let mut cur = pos;
    let mut count: u128 = 0;
    while count < min as u128
        invariant
            table.wf(),
            n == chars@.len(),
            sub == subject_of(chars@, groups@, table.ranges@),
            rest == flatten(tail@),
            flatten(inner@) == item@,
            ops_size(item@) < ops_size(seq![*first] + flatten(tail@)),
            ops_size(rest) < ops_size(seq![*first] + flatten(tail@)),
            bound == bound_of(max),
            mx == (if max == 0xffff_ffff { None::<usize> } else { Some(max as usize) }),
            target == seq_match(seq![*first] + flatten(tail@), pos as nat, subject_of(chars@, groups@, table.ranges@), flags),
            target == match whole {
                Some(c) => min_tail(item@, rest, c, min as nat, bound, sub, flags),
                None => None,
            },
            count <= min,
            pos <= cur <= chars@.len(),
            count <= cur - pos,
            whole == min_prefix(item@, rest, cur as nat, (min - count) as nat, sub, flags),
        decreases min - count,
    {
        let next = match match_segs(inner.as_slice(), cur, chars, flags, groups, table) {
            Some(x) => x,
            None => {
                return None;
            },
        };
        if next <= cur {
            return None;
        }
        cur = next;
        count = count + 1;
    }
    proof {
        assert(whole == Some(cur as nat));
    }
    loop
        invariant
            table.wf(),
            n == chars@.len(),
            sub == subject_of(chars@, groups@, table.ranges@),
            rest == flatten(tail@),
            flatten(inner@) == item@,
            ops_size(item@) < ops_size(seq![*first] + flatten(tail@)),
            ops_size(rest) < ops_size(seq![*first] + flatten(tail@)),
            bound == bound_of(max),
            mx == (if max == 0xffff_ffff { None::<usize> } else { Some(max as usize) }),
            target == seq_match(seq![*first] + flatten(tail@), pos as nat, subject_of(chars@, groups@, table.ranges@), flags),
            pos <= cur <= chars@.len(),
            min <= count <= min + (cur - pos),
            target == min_tail(item@, rest, cur as nat, count as nat, bound, sub, flags),
        decreases chars@.len() - cur,
    {
        let r = match_segs(tail.as_slice(), cur, chars, flags, groups, table);
        if r.is_some() {
            return r;
        }
        if let Some(m) = mx {
            if count >= m as u128 {
                return None;
            }
        }
        let next = match match_segs(inner.as_slice(), cur, chars, flags, groups, table) {
            Some(x) => x,
            None => {
                return None;
            },
        };
        if next <= cur {
            return None;
        }
        cur = next;
        count = count + 1;
    }
}

/// A possessive repeat: repeat as long as repetitions consume text and the
/// bound allows, never giving any back.
fn match_possessive(
    min: u32,
    max: u32,
    item: &[OpCode],
    first: &OpCode,
    tail: &Vec<&[OpCode]>,
    pos: usize,
    chars: &[char],
    flags: u32,
    groups: &HashMap<u32, String>,
    table: &CategoryTable,
) -> (r: Option<usize>)
    requires
        table.wf(),
        pos <= chars@.len(),
        *first matches OpCode::PossessiveRepeat { min: mn, max: mx, item: it } && mn == min && mx == max && it.data@ == item@,
    ensures
        r matches Some(e) ==> pos <= e <= chars@.len(),
        as_nat_opt(r) == seq_match(
            seq![*first] + flatten(tail@),
            pos as nat,
            subject_of(chars@, groups@, table.ranges@),
            flags,
        ),
    decreases ops_size(seq![*first] + flatten(tail@)), 0nat,
{
    let ghost sub = subject_of(chars@, groups@, table.ranges@);
    let ghost rest = flatten(tail@);
    let ghost ops = seq![*first] + rest;
    let ghost bound = bound_of(max);
    let ghost target = seq_match(ops, pos as nat, sub, flags);
    let n = chars.len();
    proof {
        assert(ops.drop_first() =~= rest);
        assert(ops[0] == *first);
        assert(ops_size(ops) == op_size(*first) + ops_size(rest));
        lemma_flatten_single(item);
    }
    let inner: Vec<&[OpCode]> = vec![item];
    proof {
        assert(inner@ =~= seq![item]);
    }
    let mx: Option<usize> = if max == 0xffff_ffff { None } else { Some(max as usize) };
    let ghost goal = possessive(item@, rest, pos as nat, 0, bound, sub, flags);
    proof {
        assert(target == if goal.1 < min { None } else { seq_match(rest, goal.0, sub, flags) });
    }
    let mut cur = pos;
    let mut count: usize = 0;
    loop
        invariant
            table.wf(),
            n == chars@.len(),
            sub == subject_of(chars@, groups@, table.ranges@),
            rest == flatten(tail@),
            flatten(inner@) == item@,
            ops_size(item@) < ops_size(seq![*first] + flatten(tail@)),
            ops_size(rest) < ops_size(seq![*first] + flatten(tail@)),
            bound == bound_of(max),
            mx == (if max == 0xffff_ffff { None::<usize> } else { Some(max as usize) }),
            target == seq_match(seq![*first] + flatten(tail@), pos as nat, subject_of(chars@, groups@, table.ranges@), flags),
            pos <= cur <= chars@.len(),
            count <= cur - pos,
            goal == possessive(item@, rest, cur as nat, count as nat, bound, sub, flags),
            target == if goal.1 < min { None } else { seq_match(rest, goal.0, sub, flags) },
        ensures
            pos <= cur <= chars@.len(),
            goal == (cur as nat, count as nat),
            target == if goal.1 < min { None } else { seq_match(rest, goal.0, sub, flags) },
            rest == flatten(tail@),
            sub == subject_of(chars@, groups@, table.ranges@),
            ops_size(rest) < ops_size(seq![*first] + flatten(tail@)),
            target == seq_match(seq![*first] + flatten(tail@), pos as nat, subject_of(chars@, groups@, table.ranges@), flags),
        decreases chars@.len() - cur,
    {
        if let Some(m) = mx {
            if count >= m {
                break;
            }
        }
        match match_segs(inner.as_slice(), cur, chars, flags, groups, table) {
            Some(next) => {
                if next > cur {
                    cur = next;
                    count += 1;
                } else {
                    break;
                }
            },
            None => {
                break;
            },
        }
    }
    if count < min as usize {
        return None;
    }
    match_segs(tail.as_slice(), cur, chars, flags, groups, table)
}

/// Matches `ops` at `pos` in `chars` and answers the end of the first match
/// found, with `groups` the text captured by each group so far and `table`
/// the general categories that `\d`, `\s`, `\w` and word boundaries
/// read.
pub fn match_seq(
    ops: &[OpCode],
    pos: usize,
    chars: &[char],
    flags: u32,
    groups: &HashMap<u32, String>,
    table: &CategoryTable,
) -> (r: Option<usize>)
    requires
        table.wf(),
        pos <= chars@.len(),
    ensures
        r matches Some(e) ==> pos <= e <= chars@.len(),
        as_nat_opt(r) == seq_match(ops@, pos as nat, subject_of(chars@, groups@, table.ranges@), flags),
{
    let segs: Vec<&[OpCode]> = vec![ops];
    proof {
        lemma_flatten_single(ops);
        assert(segs@ =~= seq![ops]);
    }
    match_segs(segs.as_slice(), pos, chars, flags, groups, table)
}

/// The first operation of a pattern that is not a group, looking through
/// capturing and atomic groups (which consume nothing themselves).
pub open spec fn spec_effective_first(sp: SubPattern) -> Option<OpCode>
    decreases sp,
{
    if sp.data@.len() == 0 {
        None
    } else {
        match sp.data@[0] {
            OpCode::Subpattern { p, .. } => spec_effective_first(p),
            OpCode::AtomicGroup(p) => spec_effective_first(p),
            op => Some(op),
        }
    }
}

/// The last operation of a pattern that is not a group, looking through
/// capturing and atomic groups.
pub open spec fn spec_effective_last(sp: SubPattern) -> Option<OpCode>
    decreases sp,
{
    if sp.data@.len() == 0 {
        None
    } else {
        match sp.data@.last() {
            OpCode::Subpattern { p, .. } => spec_effective_last(p),
            OpCode::AtomicGroup(p) => spec_effective_last(p),
            op => Some(op),
        }
    }
}

pub fn effective_first(sp: &SubPattern) -> (r: Option<&OpCode>)
    ensures
        match r {
            Some(op) => spec_effective_first(*sp) == Some(*op),
            None => spec_effective_first(*sp) is None,
        },
    decreases sp,
{
    if sp.data.len() == 0 {
        return None;
    }
    let first = &sp.data[0];
    match first {
        OpCode::Subpattern { p, .. } => effective_first(p),
        OpCode::AtomicGroup(p) => effective_first(p),
        _ => Some(first),
    }
}

pub fn effective_last(sp: &SubPattern) -> (r: Option<&OpCode>)
    ensures
        match r {
            Some(op) => spec_effective_last(*sp) == Some(*op),
            None => spec_effective_last(*sp) is None,
        },
    decreases sp,
{
    if sp.data.len() == 0 {
        return None;
    }
    let last = &sp.data[sp.data.len() - 1];
    match last {
        OpCode::Subpattern { p, .. } => effective_last(p),
        OpCode::AtomicGroup(p) => effective_last(p),
        _ => Some(last),
    }
}


// ---------------------------------------------------------------------------
// Character sets for generation
// ---------------------------------------------------------------------------

/// Whether the alphabet admits `c`; without an alphabet, every character
/// that is not a surrogate.
pub open spec fn spec_alphabet_allows(alphabet: Option<StringAlphabet>, c: char) -> bool {
    match alphabet {
        None => !surrogate(c as u32 as int),
        Some(StringAlphabet::Range { min, max }) => min <= c as u32 && c as u32 <= max && !surrogate(c as u32 as int),
        Some(StringAlphabet::Explicit(v)) => v@.contains(c),
    }
}

/// Whether the alphabet (or, without one, any non-surrogate) admits `c`.
pub fn alphabet_allows(alphabet: &Option<StringAlphabet>, c: char) -> (r: bool)
    ensures
        r == spec_alphabet_allows(*alphabet, c),
{
    match alphabet {
        None => !is_surrogate_cp(char_code(c)),
        Some(StringAlphabet::Range { min, max }) => {
            let cp = char_code(c);
            cp >= *min && cp <= *max && !is_surrogate_cp(cp)
        },
        Some(StringAlphabet::Explicit(chars)) => contains_char(chars.as_slice(), c),
    }
}

/// The characters of the codepoints in `[lo, hi]`, ascending, leaving out
/// surrogates and whatever lies beyond Unicode.
pub open spec fn range_chars(lo: int, hi: int) -> Seq<char>
    decreases hi - lo + 1,
{
    if hi < lo {
        Seq::empty()
    } else {
        let prev = range_chars(lo, hi - 1);
        if 0 <= hi <= 0x10FFFF && !surrogate(hi) {
            prev.push(hi as char)
        } else {
            prev
        }
    }
}

/// The characters a gather walks, in order: the alphabet's, or the Basic
/// Multilingual Plane less the surrogates when there is no alphabet.
pub open spec fn gather_candidates(alphabet: Option<StringAlphabet>) -> Seq<char> {
    match alphabet {
        None => range_chars(0, 0xFFFF),
        Some(StringAlphabet::Range { min, max }) => range_chars(min as int, max as int),
        Some(StringAlphabet::Explicit(v)) => v@,
    }
}

/// The elements of `s` that satisfy `p`, in order.
pub open spec fn keep(s: Seq<char>, p: spec_fn(char) -> bool) -> Seq<char>
    decreases s.len(),
{
    if s.len() == 0 {
        Seq::empty()
    } else {
        let prev = keep(s.drop_last(), p);
        if p(s.last()) {
            prev.push(s.last())
        } else {
            prev
        }
    }
}

/// Whether `c` is in one of the class categories `cats`.
pub open spec fn in_any_chcode(table: Seq<(u32, Category)>, cats: Seq<ChCode>, c: char) -> bool {
    exists|i: int| 0 <= i < cats.len() && spec_in_category(table, c, #[trigger] cats[i])
}

/// Whether a negated class admits `c`: ASCII when asked for, not listed,
/// and in none of the categories.
pub open spec fn outside_class(
    table: Seq<(u32, Category)>,
    ascii_only: bool,
    listed: Seq<char>,
    cats: Seq<ChCode>,
    c: char,
) -> bool {
    !(ascii_only && c as u32 >= 128) && !listed.contains(c) && !in_any_chcode(table, cats, c)
}

/// Which characters a gather keeps.
pub enum CharFilter {
    /// Characters other than these.
    NotIn(Vec<char>),
    /// Characters in one of these class categories.
    InCategories(Vec<ChCode>),
    /// The characters a negated class admits: ASCII ones when `ascii_only`,
    /// not listed, and in none of the categories.
    Outside { ascii_only: bool, listed: Vec<char>, categories: Vec<ChCode> },
}

/// Whether the filter keeps `c`.
pub open spec fn filter_holds(table: Seq<(u32, Category)>, f: CharFilter, c: char) -> bool {
    match f {
        CharFilter::NotIn(v) => !v@.contains(c),
        CharFilter::InCategories(cats) => in_any_chcode(table, cats@, c),
        CharFilter::Outside { ascii_only, listed, categories } => outside_class(
            table,
            ascii_only,
            listed@,
            categories@,
            c,
        ),
    }
}

/// Whether `c` is in one of the class categories `cats`.
fn any_chcode(table: &CategoryTable, cats: &Vec<ChCode>, c: char) -> (r: bool)
    requires
        table.wf(),
    ensures
        r == in_any_chcode(table.ranges@, cats@, c),
{
    let mut i: usize = 0;
    while i < cats.len()
        invariant
            i <= cats@.len(),
            table.wf(),
            forall|j: int| 0 <= j < i ==> !spec_in_category(table.ranges@, c, #[trigger] cats@[j]),
        decreases cats@.len() - i,
    {
        if in_category(table, c, cats[i]) {
            return true;
        }
        i += 1;
    }
    false
}

/// Whether `bits` marks exactly the characters of `s`, by codepoint.
pub open spec fn marks(bits: Seq<bool>, s: Seq<char>) -> bool {
    &&& bits.len() == 0x110000
    &&& forall|c: char| #[trigger] bits[c as u32 as int] == s.contains(c)
}

/// A table of the characters of `s`, one flag per codepoint.
fn char_marks(s: &[char]) -> (r: Vec<bool>)
    ensures
        marks(r@, s@),
{
    let mut bits: Vec<bool> = vec![false; 0x110000];
    proof {
        assert forall|c: char| #[trigger] bits@[c as u32 as int] == s@.take(0).contains(c) by {
            assert(c as u32 <= 0x10FFFF);
        }
    }
    let mut k: usize = 0;
    while k < s.len()
        invariant
            k <= s@.len(),
            bits@.len() == 0x110000,
            forall|c: char| #[trigger] bits@[c as u32 as int] == s@.take(k as int).contains(c),
        decreases s@.len() - k,
    {
        let c = s[k];
        let cp = char_code(c);
        bits.set(cp as usize, true);
        proof {
            assert forall|d: char| #[trigger] bits@[d as u32 as int] == s@.take(k + 1).contains(d) by {
                assert(s@.take(k + 1) =~= s@.take(k as int).push(c));
                if d == c {
                    assert(s@.take(k + 1)[k as int] == c);
                } else {
                    assert(d as u32 != c as u32);
                    if s@.take(k + 1).contains(d) {
                        let j = choose|j: int| 0 <= j < k + 1 && #[trigger] s@.take(k + 1)[j] == d;
                        assert(s@.take(k as int)[j] == d);
                    }
                }
            }
        }
        k += 1;
    }
    assert(s@.take(s@.len() as int) =~= s@);
    bits
}

/// A filter ready for asking: the listed characters of a negated class as
/// a table by codepoint.
struct ReadyFilter<'a> {
    filter: &'a CharFilter,
    listed: Vec<bool>,
}

impl<'a> ReadyFilter<'a> {
    spec fn ready(&self) -> bool {
        match *self.filter {
            CharFilter::Outside { listed, .. } => marks(self.listed@, listed@),
            _ => true,
        }
    }

    fn new(filter: &'a CharFilter) -> (r: Self)
        ensures
            r.ready(),
            r.filter == filter,
    {
        let listed = match filter {
            CharFilter::Outside { listed, .. } => char_marks(listed.as_slice()),
            _ => Vec::new(),
        };
        ReadyFilter { filter, listed }
    }

    fn holds(&self, table: &CategoryTable, c: char) -> (r: bool)
        requires
            self.ready(),
            table.wf(),
        ensures
            r == filter_holds(table.ranges@, *self.filter, c),
    {
        match self.filter {
            CharFilter::NotIn(v) => !contains_char(v.as_slice(), c),
            CharFilter::InCategories(cats) => any_chcode(table, cats, c),
            CharFilter::Outside { ascii_only, categories, .. } => {
                let cp = char_code(c);
                if *ascii_only && cp >= 128 {
                    return false;
                }
                if self.listed[cp as usize] {
                    return false;
                }
                !any_chcode(table, categories, c)
            },
        }
    }
}

/// The characters of `[lo, hi]` (less surrogates and non-characters) that
/// the filter keeps, ascending.
fn gather_range(table: &CategoryTable, lo: u32, hi: u32, f: &ReadyFilter) -> (r: Vec<char>)
    requires
        table.wf(),
        f.ready(),
    ensures
        r@ == keep(range_chars(lo as int, hi as int), |c: char| filter_holds(table.ranges@, *f.filter, c)),
{
    let ghost p = |c: char| filter_holds(table.ranges@, *f.filter, c);
    let mut out: Vec<char> = Vec::new();
    let mut cp: u64 = lo as u64;
    proof {
        assert(range_chars(lo as int, lo - 1) =~= Seq::<char>::empty());
    }
    while cp <= hi as u64
        invariant
            table.wf(),
            f.ready(),
            lo <= cp,
            cp <= hi as u64 + 1 || cp == lo,
            p == (|c: char| filter_holds(table.ranges@, *f.filter, c)),
            out@ == keep(range_chars(lo as int, cp - 1), p),
        decreases hi as u64 + 1 - cp,
    {
        let ghost before = range_chars(lo as int, cp - 1);
        if cp <= 0x10FFFF && !is_surrogate_cp(cp as u32) {
            match char_from_u32(cp as u32) {
                Some(c) => {
                    if f.holds(table, c) {
                        out.push(c);
                    }
                    proof {
                        assert(range_chars(lo as int, cp as int) == before.push(c));
                        assert(before.push(c).drop_last() =~= before);
                    }
                },
                None => {},
            }
        }
        cp += 1;
    }
    proof {
        if lo > hi {
            assert(range_chars(lo as int, hi as int) =~= Seq::<char>::empty());
        }
    }
    out
}

/// The characters of `chars` that the filter keeps, in order.
fn gather_list(table: &CategoryTable, chars: &Vec<char>, f: &ReadyFilter) -> (r: Vec<char>)
    requires
        table.wf(),
        f.ready(),
    ensures
        r@ == keep(chars@, |c: char| filter_holds(table.ranges@, *f.filter, c)),
{
    let ghost p = |c: char| filter_holds(table.ranges@, *f.filter, c);
    let mut out: Vec<char> = Vec::new();
    let mut k: usize = 0;
    proof {
        assert(chars@.take(0) =~= Seq::<char>::empty());
    }
    while k < chars.len()
        invariant
            table.wf(),
            f.ready(),
            k <= chars@.len(),
            p == (|c: char| filter_holds(table.ranges@, *f.filter, c)),
            out@ == keep(chars@.take(k as int), p),
        decreases chars@.len() - k,
    {
        let c = chars[k];
        if f.holds(table, c) {
            out.push(c);
        }
        proof {
            assert(chars@.take(k + 1).drop_last() =~= chars@.take(k as int));
        }
        k += 1;
    }
    assert(chars@.take(chars@.len() as int) =~= chars@);
    out
}

/// Every character of the alphabet (or, without one, of the Basic
/// Multilingual Plane less the surrogates) that the filter keeps, in the
/// alphabet's order.
pub fn gather_chars(table: &CategoryTable, alphabet: &Option<StringAlphabet>, filter: &CharFilter) -> (r: Vec<
    char,
>)
    requires
        table.wf(),
    ensures
        r@ == keep(gather_candidates(*alphabet), |c: char| filter_holds(table.ranges@, *filter, c)),
{
    let f = ReadyFilter::new(filter);
    match alphabet {
        None => gather_range(table, 0, 0xFFFF, &f),
        Some(StringAlphabet::Range { min, max }) => gather_range(table, *min, *max, &f),
        Some(StringAlphabet::Explicit(chars)) => gather_list(table, chars, &f),
    }
}


/// `v` with `c` added unless it is there, then, under IGNORECASE, with the
/// case swap of `c` added unless it is `c` or there.
pub open spec fn spec_add_with_swapcase(v: Seq<char>, c: char, flags: u32) -> Seq<char> {
    let v1 = if v.contains(c) {
        v
    } else {
        v.push(c)
    };
    if flags & SRE_FLAG_IGNORECASE != 0 {
        let sw = spec_swapcase(c);
        if sw != c && !v1.contains(sw) {
            v1.push(sw)
        } else {
            v1
        }
    } else {
        v1
    }
}

/// Adds `c` to `v` unless it is there, and under IGNORECASE its case swap
/// too.
pub fn add_with_swapcase(v: &mut Vec<char>, c: char, flags: u32)
    ensures
        final(v)@ == spec_add_with_swapcase(old(v)@, c, flags),
{
    if !contains_char(v.as_slice(), c) {
        v.push(c);
    }
    if flags & SRE_FLAG_IGNORECASE != 0 {
        let sw = char_swapcase(c);
        if sw != c && !contains_char(v.as_slice(), sw) {
            v.push(sw);
        }
    }
}

/// `v` with the characters of `[lo, hi]` added in ascending order, as
/// [`add_with_swapcase`] adds them.
pub open spec fn add_range_with_swapcase(v: Seq<char>, lo: int, hi: int, flags: u32) -> Seq<char>
    decreases hi - lo + 1,
{
    if hi < lo {
        v
    } else {
        let prev = add_range_with_swapcase(v, lo, hi - 1, flags);
        if 0 <= hi <= 0x10FFFF && !surrogate(hi) {
            spec_add_with_swapcase(prev, hi as char, flags)
        } else {
            prev
        }
    }
}

/// The characters a class lists, in the order they are added: its
/// literals and the characters of its ranges, with their case swaps under
/// IGNORECASE, each once.
pub open spec fn listed_chars(items: Seq<SetItem>, flags: u32) -> Seq<char>
    decreases items.len(),
{
    if items.len() == 0 {
        Seq::empty()
    } else {
        let prev = listed_chars(items.drop_last(), flags);
        match items.last() {
            SetItem::Literal(cp) => spec_add_with_swapcase(prev, cp as char, flags),
            SetItem::Range(lo, hi) => add_range_with_swapcase(prev, lo as int, hi as int, flags),
            _ => prev,
        }
    }
}

/// The categories a class names, in order.
pub open spec fn class_categories(items: Seq<SetItem>) -> Seq<ChCode>
    decreases items.len(),
{
    if items.len() == 0 {
        Seq::empty()
    } else {
        let prev = class_categories(items.drop_last());
        match items.last() {
            SetItem::Category(cat) => prev.push(cat),
            _ => prev,
        }
    }
}

/// `acc` followed by each element of `xs` that is not there yet.
pub open spec fn append_new(acc: Seq<char>, xs: Seq<char>) -> Seq<char>
    decreases xs.len(),
{
    if xs.len() == 0 {
        acc
    } else {
        let a = append_new(acc, xs.drop_last());
        if a.contains(xs.last()) {
            a
        } else {
            a.push(xs.last())
        }
    }
}

/// Whether `c` passes the ASCII restriction of `flags`.
pub open spec fn ascii_ok(flags: u32, c: char) -> bool {
    !(flags & SRE_FLAG_ASCII != 0 && c as u32 >= 128)
}

/// The characters a class can emit, in the order they are offered.
///
/// A negated class admits every character of the alphabet that passes the
/// ASCII restriction, is not listed and is in none of the class's
/// categories. Otherwise the listed characters that pass the ASCII
/// restriction and the alphabet come first, then the alphabet's characters
/// in the class's categories that pass the ASCII restriction, each once.
pub open spec fn spec_build_in_set(
    table: Seq<(u32, Category)>,
    items: Seq<SetItem>,
    flags: u32,
    alphabet: Option<StringAlphabet>,
) -> Seq<char> {
    let listed = listed_chars(items, flags);
    let cats = class_categories(items);
    if items.len() > 0 && items[0] is Negate {
        keep(
            gather_candidates(alphabet),
            |c: char| outside_class(table, flags & SRE_FLAG_ASCII != 0, listed, cats, c),
        )
    } else {
        let first = append_new(
            Seq::empty(),
            keep(listed, |c: char| ascii_ok(flags, c) && spec_alphabet_allows(alphabet, c)),
        );
        if cats.len() == 0 {
            first
        } else {
            append_new(
                first,
                keep(
                    keep(gather_candidates(alphabet), |c: char| in_any_chcode(table, cats, c)),
                    |c: char| ascii_ok(flags, c),
                ),
            )
        }
    }
}

/// Appends to `out` each character of `xs` that `p` keeps and that is not
/// in `out` yet; `seen` marks the characters of `out`.
fn append_kept(
    out: &mut Vec<char>,
    seen: &mut Vec<bool>,
    xs: &Vec<char>,
    flags: u32,
    alphabet: &Option<StringAlphabet>,
    check_alphabet: bool,
)
    requires
        marks(old(seen)@, old(out)@),
    ensures
        marks(final(seen)@, final(out)@),
        check_alphabet ==> final(out)@ == append_new(
            old(out)@,
            keep(xs@, |c: char| ascii_ok(flags, c) && spec_alphabet_allows(*alphabet, c)),
        ),
        !check_alphabet ==> final(out)@ == append_new(old(out)@, keep(xs@, |c: char| ascii_ok(flags, c))),
{
    let ghost p = if check_alphabet {
        |c: char| ascii_ok(flags, c) && spec_alphabet_allows(*alphabet, c)
    } else {
        |c: char| ascii_ok(flags, c)
    };
    let ghost out0 = out@;
    let mut k: usize = 0;
    proof {
        assert(xs@.take(0) =~= Seq::<char>::empty());
    }
    while k < xs.len()
        invariant
            k <= xs@.len(),
            marks(seen@, out@),
            p == (if check_alphabet {
                |c: char| ascii_ok(flags, c) && spec_alphabet_allows(*alphabet, c)
            } else {
                |c: char| ascii_ok(flags, c)
            }),
            out@ == append_new(out0, keep(xs@.take(k as int), p)),
        decreases xs@.len() - k,
    {
        let c = xs[k];
        let cp = char_code(c);
        let ghost a0 = out@;
        let ghost s0 = seen@;
        let kept = !(flags & SRE_FLAG_ASCII != 0 && cp >= 128) && (!check_alphabet || alphabet_allows(alphabet, c));
        assert(kept == p(c));
        assert(s0[c as u32 as int] == a0.contains(c));
        if kept && !seen[cp as usize] {
            seen.set(cp as usize, true);
            out.push(c);
            proof {
                assert forall|d: char| #[trigger] seen@[d as u32 as int] == out@.contains(d) by {
                    assert(s0[d as u32 as int] == a0.contains(d));
                    if d != c {
                        assert(d as u32 != c as u32);
                        assert(seen@[d as u32 as int] == s0[d as u32 as int]);
                        if out@.contains(d) {
                            let j = choose|j: int| 0 <= j < out@.len() && #[trigger] out@[j] == d;
                            assert(j < a0.len());
                            assert(a0[j] == d);
                        }
                        if a0.contains(d) {
                            let j = choose|j: int| 0 <= j < a0.len() && #[trigger] a0[j] == d;
                            assert(out@[j] == d);
                        }
                    } else {
                        assert(out@[out@.len() - 1] == c);
                    }
                }
            }
        }
        proof {
            let t = xs@.take(k + 1);
            assert(t.drop_last() =~= xs@.take(k as int));
            assert(t.last() == c);
            assert(keep(t, p) == (if p(c) {
                keep(xs@.take(k as int), p).push(c)
            } else {
                keep(xs@.take(k as int), p)
            }));
            if p(c) {
                let kt = keep(t, p);
                assert(kt.drop_last() =~= keep(xs@.take(k as int), p));
                assert(kt.last() == c);
            }
        }
        k += 1;
    }
    assert(xs@.take(xs@.len() as int) =~= xs@);
}

/// The characters of `[lo, hi]` added to `v` in ascending order, as
/// [`add_with_swapcase`] adds them.
fn add_range(v: &mut Vec<char>, lo: u32, hi: u32, flags: u32)
    ensures
        final(v)@ == add_range_with_swapcase(old(v)@, lo as int, hi as int, flags),
{
    let ghost v0 = v@;
    let mut cp: u64 = lo as u64;
    while cp <= hi as u64
        invariant
            lo <= cp,
            cp <= hi as u64 + 1 || cp == lo,
            v@ == add_range_with_swapcase(v0, lo as int, cp - 1, flags),
        decreases hi as u64 + 1 - cp,
    {
        if cp <= 0x10FFFF && !is_surrogate_cp(cp as u32) {
            match char_from_u32(cp as u32) {
                Some(c) => add_with_swapcase(v, c, flags),
                None => {},
            }
        }
        cp += 1;
    }
}

/// The characters that a class `[...]` can emit under `flags`, restricted
/// to the alphabet (see [`spec_build_in_set`]).
pub fn build_in_set(table: &CategoryTable, items: &[SetItem], flags: u32, alphabet: &Option<StringAlphabet>) -> (r:
    Vec<char>)
    requires
        table.wf(),
        forall|i: int| 0 <= i < items@.len() ==> (#[trigger] items@[i] matches SetItem::Literal(cp) ==> is_scalar(
            cp,
        )),
    ensures
        r@ == spec_build_in_set(table.ranges@, items@, flags, *alphabet),
{
    let negate = items.len() > 0 && match items[0] {
        SetItem::Negate => true,
        _ => false,
    };
    let mut positive: Vec<char> = Vec::new();
    let mut categories: Vec<ChCode> = Vec::new();
    let mut k: usize = 0;
    proof {
        assert(items@.take(0) =~= Seq::<SetItem>::empty());
    }
    while k < items.len()
        invariant
            k <= items@.len(),
            forall|i: int| 0 <= i < items@.len() ==> (#[trigger] items@[i] matches SetItem::Literal(cp)
                ==> is_scalar(cp)),
            positive@ == listed_chars(items@.take(k as int), flags),
            categories@ == class_categories(items@.take(k as int)),
        decreases items@.len() - k,
    {
        let ghost t = items@.take(k + 1);
        assert(t.drop_last() =~= items@.take(k as int));
        assert(t.last() == items@[k as int]);
        match items[k] {
            SetItem::Negate => {},
            SetItem::Literal(cp) => {
                match char_from_u32(cp) {
                    Some(c) => add_with_swapcase(&mut positive, c, flags),
                    None => {
                        assert(false);
                    },
                }
            },
            SetItem::Range(lo, hi) => add_range(&mut positive, lo, hi, flags),
            SetItem::Category(cat) => categories.push(cat),
        }
        k += 1;
    }
    assert(items@.take(items@.len() as int) =~= items@);
    let ascii_only = flags & SRE_FLAG_ASCII != 0;
    if !negate {
        let mut out: Vec<char> = Vec::new();
        let mut seen: Vec<bool> = vec![false; 0x110000];
        proof {
            assert forall|c: char| #[trigger] seen@[c as u32 as int] == out@.contains(c) by {
                assert(c as u32 <= 0x10FFFF);
            }
        }
        append_kept(&mut out, &mut seen, &positive, flags, alphabet, true);
        if categories.len() > 0 {
            let ghost cats = categories@;
            let filter = CharFilter::InCategories(categories);
            let cat_chars = gather_chars(table, alphabet, &filter);
            proof {
                assert((|c: char| filter_holds(table.ranges@, filter, c)) =~= (|c: char| in_any_chcode(
                    table.ranges@,
                    cats,
                    c,
                )));
            }
            append_kept(&mut out, &mut seen, &cat_chars, flags, alphabet, false);
        }
        out
    } else {
        let ghost listed = positive@;
        let ghost cats = categories@;
        let filter = CharFilter::Outside { ascii_only, listed: positive, categories };
        let r = gather_chars(table, alphabet, &filter);
        proof {
            assert((|c: char| filter_holds(table.ranges@, filter, c)) =~= (|c: char| outside_class(
                table.ranges@,
                flags & SRE_FLAG_ASCII != 0,
                listed,
                cats,
                c,
            )));
        }
        r
    }
}


/// Whether `[^c]` admits `d`: it is neither `c` nor, under IGNORECASE,
/// the case swap of `c`.
pub open spec fn not_literal_admits(c: char, flags: u32, d: char) -> bool {
    d != c && !(flags & SRE_FLAG_IGNORECASE != 0 && spec_swapcase(c) != c && d == spec_swapcase(c))
}

/// The characters a negated literal `[^c]` emits without an alphabet: the
/// Basic Multilingual Plane less the surrogates, less `c` and, under
/// IGNORECASE, its case swap.
pub fn default_not_literal(table: &CategoryTable, cp: u32, flags: u32) -> (r: Vec<char>)
    requires
        table.wf(),
        is_scalar(cp),
    ensures
        r@ == keep(range_chars(0, 0xFFFF), |d: char| not_literal_admits(cp as char, flags, d)),
{
    let c = match char_from_u32(cp) {
        Some(c) => c,
        None => {
            assert(false);
            ' '
        },
    };
    let mut blacklist: Vec<char> = Vec::new();
    blacklist.push(c);
    if flags & SRE_FLAG_IGNORECASE != 0 {
        let sw = char_swapcase(c);
        if sw != c {
            blacklist.push(sw);
        }
    }
    let ghost bl = blacklist@;
    let filter = CharFilter::NotIn(blacklist);
    let none: Option<StringAlphabet> = None;
    let r = gather_chars(table, &none, &filter);
    assert(gather_candidates(none) == range_chars(0, 0xFFFF));
    proof {
        assert forall|d: char| #[trigger] bl.contains(d) == !not_literal_admits(c, flags, d) by {
            if d == c {
                assert(bl[0] == d);
            }
            if flags & SRE_FLAG_IGNORECASE != 0 && spec_swapcase(c) != c && d == spec_swapcase(c) {
                assert(bl[1] == d);
            }
        }
        assert(c == cp as char);
        assert((|d: char| filter_holds(table.ranges@, filter, d)) =~= (|d: char| not_literal_admits(
            cp as char,
            flags,
            d,
        )));
    }
    r
}

} // verus!
