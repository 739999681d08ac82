//! The pattern tree and the recursive-descent parser that builds it.
//!
//! A pattern is parsed into a [`SubPattern`]: a sequence of operations,
//! each an opcode with its arguments, groups and repeats nesting further
//! sequences.

use vstd::prelude::*;

use super::constants::{AtCode, ChCode};
use crate::native::charutil::{char_from_u32, chars_to_string, decimal, decimal_digits, is_alphabetic, spec_is_alphabetic, str_to_chars};
use super::constants::{GLOBAL_FLAGS, MAXREPEAT, TYPE_FLAGS, MAXGROUPS, SRE_FLAG_ASCII, SRE_FLAG_DOTALL, SRE_FLAG_IGNORECASE, SRE_FLAG_LOCALE, SRE_FLAG_MULTILINE, SRE_FLAG_UNICODE, SRE_FLAG_VERBOSE};
use super::tokenizer::{bad_escape_at, python_identifier, tok_chars, tok_is, tok_len, token_at, Tok, Tokenizer};

verus! {

/// A single parsed operation.
pub enum OpCode {
    /// Match exactly this codepoint.
    Literal(u32),
    /// Match any codepoint except this one.
    NotLiteral(u32),
    /// Match any character (respecting DOTALL).
    Any,
    /// A zero-width position assertion.
    At(AtCode),
    /// A character class `[...]`.
    In(Vec<SetItem>),
    /// An alternation `a|b|c`.
    Branch(Vec<SubPattern>),
    /// A group `(...)`.
    Subpattern { group: Option<u32>, add_flags: u32, del_flags: u32, p: SubPattern },
    /// A back-reference to a previously captured group.
    GroupRef(u32),
    /// `(?(id)yes|no)`.
    GroupRefExists { cond_group: u32, yes: SubPattern, no: Option<SubPattern> },
    /// A positive lookahead (`direction == 1`) or lookbehind (`direction == -1`).
    Assert { direction: i32, p: SubPattern },
    /// A negative lookahead or lookbehind.
    AssertNot { direction: i32, p: SubPattern },
    /// `(?>...)`.
    AtomicGroup(SubPattern),
    /// Greedy repetition.
    MaxRepeat { min: u32, max: u32, item: SubPattern },
    /// Non-greedy repetition.
    MinRepeat { min: u32, max: u32, item: SubPattern },
    /// Possessive repetition.
    PossessiveRepeat { min: u32, max: u32, item: SubPattern },
    /// A position that never matches: the empty negative lookahead `(?!)`.
    Failure,
}

/// An item inside a character class `[...]`.
#[derive(Copy, Clone, Debug, PartialEq, Eq, Hash, Structural)]
pub enum SetItem {
    /// A single codepoint.
    Literal(u32),
    /// The negation marker; only ever the first item of a class.
    Negate,
    /// An inclusive codepoint range.
    Range(u32, u32),
    /// A category such as `\d`.
    Category(ChCode),
}

/// A sequence of operations.
pub struct SubPattern {
    pub data: Vec<OpCode>,
}

/// The largest Unicode codepoint.
pub open spec fn valid_cp(cp: u32) -> bool {
    cp <= 0x10FFFF
}

/// A well-formed class: negation only in front, at least one real item,
/// every codepoint in the Unicode range, every range ordered.
pub open spec fn wf_set(items: Seq<SetItem>) -> bool {
    &&& items.len() > 0
    &&& (items[0] is Negate ==> items.len() > 1)
    &&& forall|i: int|
        0 <= i < items.len() ==> match #[trigger] items[i] {
            SetItem::Negate => i == 0,
            SetItem::Literal(cp) => valid_cp(cp),
            SetItem::Range(lo, hi) => lo <= hi && valid_cp(hi),
            SetItem::Category(_) => true,
        }
}

/// A group number that a reference may name: a group that was opened
/// (`1 <= g < ngroups`), or, for a conditional, one of `extra`.
pub open spec fn wf_group(g: u32, ngroups: nat) -> bool {
    1 <= g && g < ngroups
}

/// A well-formed operation, given the number of groups opened so far and
/// the set of group numbers that conditionals may name ahead of their
/// definition.
pub open spec fn wf_op(op: OpCode, ngroups: nat, extra: Set<u32>) -> bool
    decreases op,
{
    match op {
        OpCode::Literal(cp) => valid_cp(cp),
        OpCode::NotLiteral(cp) => valid_cp(cp),
        OpCode::Any => true,
        OpCode::At(_) => true,
        OpCode::Failure => true,
        OpCode::In(items) => wf_set(items@),
        OpCode::Branch(alts) => {
            &&& alts@.len() >= 2
            &&& forall|i: int| 0 <= i < alts@.len() ==> wf_sub(#[trigger] alts@[i], ngroups, extra)
        },
        OpCode::Subpattern { group, p, .. } => {
            &&& (group matches Some(g) ==> wf_group(g, ngroups))
            &&& wf_sub(p, ngroups, extra)
        },
        OpCode::GroupRef(g) => wf_group(g, ngroups),
        OpCode::GroupRefExists { cond_group, yes, no } => {
            &&& (wf_group(cond_group, ngroups) || (cond_group >= 1 && extra.contains(cond_group)))
            &&& wf_sub(yes, ngroups, extra)
            &&& (no matches Some(n) ==> wf_sub(n, ngroups, extra))
        },
        OpCode::Assert { direction, p } => {
            &&& (direction == 1 || direction == -1)
            &&& wf_sub(p, ngroups, extra)
        },
        OpCode::AssertNot { direction, p } => {
            &&& (direction == 1 || direction == -1)
            &&& p.data@.len() > 0
            &&& wf_sub(p, ngroups, extra)
        },
        OpCode::AtomicGroup(p) => wf_sub(p, ngroups, extra),
        OpCode::MaxRepeat { min, max, item } => min <= max && wf_sub(item, ngroups, extra),
        OpCode::MinRepeat { min, max, item } => min <= max && wf_sub(item, ngroups, extra),
        OpCode::PossessiveRepeat { min, max, item } => min <= max && wf_sub(item, ngroups, extra),
    }
}

/// Every operation of the sequence is well formed.
pub open spec fn wf_sub(sp: SubPattern, ngroups: nat, extra: Set<u32>) -> bool
    decreases sp,
{
    forall|i: int| 0 <= i < sp.data@.len() ==> wf_op(#[trigger] sp.data@[i], ngroups, extra)
}

/// Well-formedness survives more groups and more forward references.
pub proof fn lemma_wf_op_mono(op: OpCode, n: nat, a: Set<u32>, m: nat, b: Set<u32>)
    requires
        wf_op(op, n, a),
        n <= m,
        a.subset_of(b),
    ensures
        wf_op(op, m, b),
    decreases op,
{
    match op {
        OpCode::Branch(alts) => {
            assert forall|i: int| 0 <= i < alts@.len() implies wf_sub(#[trigger] alts@[i], m, b) by {
                lemma_wf_sub_mono(alts@[i], n, a, m, b);
            }
        },
        OpCode::Subpattern { p, .. } => lemma_wf_sub_mono(p, n, a, m, b),
        OpCode::GroupRefExists { yes, no, .. } => {
            lemma_wf_sub_mono(yes, n, a, m, b);
            if let Some(x) = no {
                lemma_wf_sub_mono(x, n, a, m, b);
            }
        },
        OpCode::Assert { p, .. } => lemma_wf_sub_mono(p, n, a, m, b),
        OpCode::AssertNot { p, .. } => lemma_wf_sub_mono(p, n, a, m, b),
        OpCode::AtomicGroup(p) => lemma_wf_sub_mono(p, n, a, m, b),
        OpCode::MaxRepeat { item, .. } => lemma_wf_sub_mono(item, n, a, m, b),
        OpCode::MinRepeat { item, .. } => lemma_wf_sub_mono(item, n, a, m, b),
        OpCode::PossessiveRepeat { item, .. } => lemma_wf_sub_mono(item, n, a, m, b),
        _ => {},
    }
}

/// Well-formedness of sequences survives more groups and references.
pub proof fn lemma_wf_sub_mono(sp: SubPattern, n: nat, a: Set<u32>, m: nat, b: Set<u32>)
    requires
        wf_sub(sp, n, a),
        n <= m,
        a.subset_of(b),
    ensures
        wf_sub(sp, m, b),
    decreases sp,
{
    assert forall|i: int| 0 <= i < sp.data@.len() implies wf_op(#[trigger] sp.data@[i], m, b) by {
        lemma_wf_op_mono(sp.data@[i], n, a, m, b);
    }
}

} // verus!

verus! {

/// A parsing error: a message and an offset into the pattern.
pub struct ParseError {
    pub msg: String,
    pub pos: usize,
}

impl ParseError {
    /// An error with a literal message.
    pub fn from_str(msg: &str, pos: usize) -> (e: ParseError)
        ensures
            e.msg@ == msg@,
            e.pos == pos,
    {
        ParseError { msg: String::from_str(msg), pos }
    }
}

/// The parsed pattern plus the flag and group metadata the generator needs.
pub struct ParsedPattern {
    pub pattern: SubPattern,
    pub flags: u32,
    pub group_count: u32,
    /// The named groups, in the order they were opened.
    pub group_names: Vec<(String, u32)>,
}

impl ParsedPattern {
    /// The group number of the group named `name`, if there is one.
    pub fn group_index(&self, name: &str) -> (r: Option<u32>)
        ensures
            r matches Some(g) ==> exists|i: int|
                0 <= i < self.group_names@.len() && #[trigger] self.group_names@[i].0@ == name@
                    && self.group_names@[i].1 == g,
            r is None ==> forall|i: int|
                0 <= i < self.group_names@.len() ==> #[trigger] self.group_names@[i].0@ != name@,
    {
        let key = str_to_chars(name);
        let mut i: usize = 0;
        while i < self.group_names.len()
            invariant
                i <= self.group_names@.len(),
                key@ == name@,
                forall|j: int| 0 <= j < i ==> #[trigger] self.group_names@[j].0@ != name@,
            decreases self.group_names@.len() - i,
        {
            let cand = str_to_chars(self.group_names[i].0.as_str());
            if chars_equal(cand.as_slice(), key.as_slice()) {
                return Some(self.group_names[i].1);
            }
            i += 1;
        }
        None
    }
}

impl SubPattern {
    /// An empty sequence.
    pub fn new() -> (r: SubPattern)
        ensures
            r.data@.len() == 0,
    {
        SubPattern { data: Vec::new() }
    }

    pub fn is_empty(&self) -> (r: bool)
        ensures
            r == (self.data@.len() == 0),
    {
        self.data.len() == 0
    }

    pub fn len(&self) -> (r: usize)
        ensures
            r == self.data@.len(),
    {
        self.data.len()
    }

    pub fn push(&mut self, op: OpCode)
        ensures
            final(self).data@ == old(self).data@.push(op),
    {
        self.data.push(op);
    }

    pub fn last(&self) -> (r: Option<&OpCode>)
        ensures
            self.data@.len() == 0 ==> r is None,
            self.data@.len() > 0 ==> r == Some(&self.data@[self.data@.len() - 1]),
    {
        if self.data.len() == 0 {
            None
        } else {
            Some(&self.data[self.data.len() - 1])
        }
    }

    pub fn last_mut(&mut self) -> (r: Option<&mut OpCode>)
        ensures
            old(self).data@.len() == 0 ==> r is None && final(self).data@ == old(self).data@,
            old(self).data@.len() > 0 ==> (r matches Some(x) && *x == old(self).data@[old(self).data@.len() - 1]
                && final(self).data@ == old(self).data@.update(old(self).data@.len() - 1, *final(x))),
    {
        let n = self.data.len();
        if n == 0 {
            None
        } else {
            Some(&mut self.data[n - 1])
        }
    }
}

/// Whether two character sequences are equal.
pub fn chars_equal(a: &[char], b: &[char]) -> (r: bool)
    ensures
        r == (a@ == b@),
{
    if a.len() != b.len() {
        return false;
    }
    let mut i: usize = 0;
    while i < a.len()
        invariant
            a@.len() == b@.len(),
            i <= a@.len(),
            forall|j: int| 0 <= j < i ==> a@[j] == b@[j],
        decreases a@.len() - i,
    {
        if a[i] != b[i] {
            return false;
        }
        i += 1;
    }
    assert(a@ =~= b@);
    true
}

} // verus!

verus! {

/// Parser state shared by the recursive parsing functions.
pub struct State {
    pub flags: u32,
    /// Group names, in the order the groups were opened.
    pub groupdict: Vec<(Vec<char>, u32)>,
    /// `Some(width)` once a group has been closed, `None` while it is open.
    pub groupwidths: Vec<Option<(u64, u64)>>,
    pub lookbehindgroups: Option<u32>,
    /// Group numbers named by conditionals, with the position of the name.
    pub grouprefpos: Vec<(u32, usize)>,
}

/// The group numbers that conditionals named.
pub open spec fn ref_keys(refs: Seq<(u32, usize)>) -> Set<u32> {
    Set::new(|g: u32| exists|j: int| 0 <= j < refs.len() && #[trigger] refs[j].0 == g)
}

impl State {
    pub open spec fn inv(&self, len: nat) -> bool {
        &&& 1 <= self.groupwidths@.len() <= MAXGROUPS
        &&& forall|i: int|
            0 <= i < self.groupdict@.len() ==> wf_group(#[trigger] self.groupdict@[i].1, self.groupwidths@.len())
        &&& forall|i: int|
            0 <= i < self.groupdict@.len() ==> python_identifier(#[trigger] self.groupdict@[i].0@)
        &&& forall|i: int| 0 <= i < self.grouprefpos@.len() ==> (#[trigger] self.grouprefpos@[i]).1 <= len
        &&& forall|i: int| 0 <= i < self.grouprefpos@.len() ==> 1 <= (#[trigger] self.grouprefpos@[i]).0
    }

    pub open spec fn ngroups(&self) -> nat {
        self.groupwidths@.len()
    }

    pub open spec fn extra(&self) -> Set<u32> {
        ref_keys(self.grouprefpos@)
    }

    /// The state only ever gains groups and conditional references.
    pub open spec fn grows_to(&self, later: State) -> bool {
        &&& self.ngroups() <= later.ngroups()
        &&& self.extra().subset_of(later.extra())
    }

    pub fn new() -> (s: State)
        ensures
            s.inv(0),
            s.ngroups() == 1,
            s.extra() == Set::<u32>::empty(),
            s.flags == 0,
            s.groupdict@.len() == 0,
            s.grouprefpos@.len() == 0,
    {
        let s = State {
            flags: 0,
            groupdict: Vec::new(),
            groupwidths: vec![None],
            lookbehindgroups: None,
            grouprefpos: Vec::new(),
        };
        assert(s.extra() =~= Set::<u32>::empty());
        s
    }

    /// The number of groups opened so far, including the whole match.
    pub fn groups(&self) -> (r: u32)
        requires
            self.groupwidths@.len() <= MAXGROUPS,
        ensures
            r == self.ngroups(),
    {
        self.groupwidths.len() as u32
    }

    /// The group number of the group named `name`.
    pub fn lookup_name(&self, name: &[char]) -> (r: Option<u32>)
        ensures
            r matches Some(g) ==> exists|i: int|
                0 <= i < self.groupdict@.len() && #[trigger] self.groupdict@[i].1 == g
                    && self.groupdict@[i].0@ == name@,
            r is None <==> forall|i: int|
                0 <= i < self.groupdict@.len() ==> #[trigger] self.groupdict@[i].0@ != name@,
    {
        let mut i: usize = 0;
        while i < self.groupdict.len()
            invariant
                i <= self.groupdict@.len(),
                forall|j: int| 0 <= j < i ==> #[trigger] self.groupdict@[j].0@ != name@,
            decreases self.groupdict@.len() - i,
        {
            if chars_equal(self.groupdict[i].0.as_slice(), name) {
                return Some(self.groupdict[i].1);
            }
            i += 1;
        }
        None
    }

    /// Opens a new group, optionally named.
    pub fn opengroup(&mut self, name: Option<&[char]>, len: Ghost<nat>) -> (r: Result<u32, ParseError>)
        requires
            old(self).inv(len@),
            name matches Some(n) ==> python_identifier(n@),
        ensures
            r matches Ok(g) ==> {
                &&& final(self).inv(len@)
                &&& g == old(self).ngroups()
                &&& final(self).ngroups() == old(self).ngroups() + 1
                &&& final(self).extra() == old(self).extra()
                &&& final(self).flags == old(self).flags
                &&& final(self).lookbehindgroups == old(self).lookbehindgroups
            },
            r matches Err(e) ==> e.pos == 0,
            name is None && old(self).ngroups() < MAXGROUPS ==> r is Ok,
    {
        let gid = self.groups();
        self.groupwidths.push(None);
        if self.groupwidths.len() > MAXGROUPS as usize {
            return Err(ParseError::from_str("too many groups", 0));
        }
        if let Some(n) = name {
            if let Some(ogid) = self.lookup_name(n) {
                let mut m = String::from_str("redefinition of group name '");
                m.append(&chars_to_string(n));
                m.append("' as group ");
                m.append(&chars_to_string(decimal(gid as u128).as_slice()));
                m.append("; was group ");
                m.append(&chars_to_string(decimal(ogid as u128).as_slice()));
                return Err(ParseError { msg: m, pos: 0 });
            }
            let mut owned: Vec<char> = Vec::new();
            let mut k: usize = 0;
            while k < n.len()
                invariant
                    k <= n@.len(),
                    owned@ == n@.subrange(0, k as int),
                decreases n@.len() - k,
            {
                owned.push(n[k]);
                k += 1;
            }
            assert(owned@ =~= n@);
            self.groupdict.push((owned, gid));
        }
        Ok(gid)
    }

    /// Marks a group closed.
    pub fn closegroup(&mut self, gid: u32)
        ensures
            final(self).groupwidths@.len() == old(self).groupwidths@.len(),
            final(self).groupwidths@ == if gid < old(self).groupwidths@.len() {
                old(self).groupwidths@.update(gid as int, Some((0u64, 0u64)))
            } else {
                old(self).groupwidths@
            },
            final(self).groupdict == old(self).groupdict,
            final(self).grouprefpos == old(self).grouprefpos,
            final(self).flags == old(self).flags,
            final(self).lookbehindgroups == old(self).lookbehindgroups,
    {
        if (gid as usize) < self.groupwidths.len() {
            self.groupwidths.set(gid as usize, Some((0, 0)));
        }
    }

    /// Whether group `gid` has been opened and closed.
    pub fn checkgroup(&self, gid: u32) -> (r: bool)
        ensures
            r ==> gid < self.ngroups(),
            r == (gid < self.ngroups() && self.groupwidths@[gid as int] is Some),
    {
        (gid as usize) < self.groupwidths.len() && self.groupwidths[gid as usize].is_some()
    }

    /// Inside a lookbehind, references must name groups closed before it.
    pub fn checklookbehindgroup(&self, gid: u32, tok: &Tokenizer) -> (r: Result<(), ParseError>)
        requires
            tok.inv(),
        ensures
            r matches Err(e) ==> e.pos <= tok.chars@.len(),
            r is Err <==> (self.lookbehindgroups matches Some(lb) && (!(gid < self.ngroups()
                && self.groupwidths@[gid as int] is Some) || gid >= lb)),
            r matches Err(e) ==> e.pos == tok.pos() && e.msg@ == if gid < self.ngroups()
                && self.groupwidths@[gid as int] is Some {
                "cannot refer to group defined in the same lookbehind subpattern"@
            } else {
                "cannot refer to an open group"@
            },
    {
        if let Some(lb) = self.lookbehindgroups {
            if !self.checkgroup(gid) {
                return Err(tok.error_str("cannot refer to an open group", 0));
            }
            if gid >= lb {
                return Err(tok.error_str("cannot refer to group defined in the same lookbehind subpattern", 0));
            }
        }
        Ok(())
    }
}

/// The literal that a simple escape `\c` stands for.
pub open spec fn spec_escape_literal(c: char) -> Option<u32> {
    if c == 'a' {
        Some(7)
    } else if c == 'b' {
        Some(8)
    } else if c == 'f' {
        Some(12)
    } else if c == 'n' {
        Some(10)
    } else if c == 'r' {
        Some(13)
    } else if c == 't' {
        Some(9)
    } else if c == 'v' {
        Some(11)
    } else if c == '\\' {
        Some(92)
    } else {
        None
    }
}

/// The codepoint of the simple escape `\c` (`\a \b \f \n \r \t \v \\`).
pub fn lookup_escape_literal(c: char) -> (r: Option<u32>)
    ensures
        r == spec_escape_literal(c),
{
    match c {
        'a' => Some(7),
        'b' => Some(8),
        'f' => Some(12),
        'n' => Some(10),
        'r' => Some(13),
        't' => Some(9),
        'v' => Some(11),
        '\\' => Some(92),
        _ => None,
    }
}

/// A simple escape stands for the control character that the same escape
/// denotes in a character literal: `\a` bell, `\b` backspace, `\f` form
/// feed, `\n` line feed, `\r` carriage return, `\t` tab, `\v` vertical tab,
/// `\\` the backslash itself. Every simple escape is a control character
/// or the backslash, and no two simple escapes stand for the same
/// character.
pub proof fn lemma_simple_escapes(c1: char, c2: char)
    ensures
        spec_escape_literal('a') == Some('\x07' as u32),
        spec_escape_literal('b') == Some('\x08' as u32),
        spec_escape_literal('f') == Some('\x0c' as u32),
        spec_escape_literal('n') == Some('\n' as u32),
        spec_escape_literal('r') == Some('\r' as u32),
        spec_escape_literal('t') == Some('\t' as u32),
        spec_escape_literal('v') == Some('\x0b' as u32),
        spec_escape_literal('\\') == Some('\\' as u32),
        spec_escape_literal(c1) matches Some(v) ==> v < 0x20 || v == '\\' as u32,
        spec_escape_literal(c1) is Some && spec_escape_literal(c1) == spec_escape_literal(c2) ==> c1 == c2,
{
}

/// An escape that stands for a position or a class category.
pub enum CategoryCode {
    At(AtCode),
    In(ChCode),
}

pub open spec fn spec_category(c: char) -> Option<CategoryCode> {
    if c == 'A' {
        Some(CategoryCode::At(AtCode::BeginningString))
    } else if c == 'b' {
        Some(CategoryCode::At(AtCode::Boundary))
    } else if c == 'B' {
        Some(CategoryCode::At(AtCode::NonBoundary))
    } else if c == 'd' {
        Some(CategoryCode::In(ChCode::Digit))
    } else if c == 'D' {
        Some(CategoryCode::In(ChCode::NotDigit))
    } else if c == 's' {
        Some(CategoryCode::In(ChCode::Space))
    } else if c == 'S' {
        Some(CategoryCode::In(ChCode::NotSpace))
    } else if c == 'w' {
        Some(CategoryCode::In(ChCode::Word))
    } else if c == 'W' {
        Some(CategoryCode::In(ChCode::NotWord))
    } else if c == 'z' || c == 'Z' {
        Some(CategoryCode::At(AtCode::EndString))
    } else {
        None
    }
}

/// The category escapes `\A \b \B \d \D \s \S \w \W \z \Z`.
pub fn lookup_category(c: char) -> (r: Option<CategoryCode>)
    ensures
        r == spec_category(c),
{
    match c {
        'A' => Some(CategoryCode::At(AtCode::BeginningString)),
        'b' => Some(CategoryCode::At(AtCode::Boundary)),
        'B' => Some(CategoryCode::At(AtCode::NonBoundary)),
        'd' => Some(CategoryCode::In(ChCode::Digit)),
        'D' => Some(CategoryCode::In(ChCode::NotDigit)),
        's' => Some(CategoryCode::In(ChCode::Space)),
        'S' => Some(CategoryCode::In(ChCode::NotSpace)),
        'w' => Some(CategoryCode::In(ChCode::Word)),
        'W' => Some(CategoryCode::In(ChCode::NotWord)),
        'z' => Some(CategoryCode::At(AtCode::EndString)),
        'Z' => Some(CategoryCode::At(AtCode::EndString)),
        _ => None,
    }
}

pub open spec fn spec_flag(c: char) -> Option<u32> {
    if c == 'i' {
        Some(SRE_FLAG_IGNORECASE)
    } else if c == 'L' {
        Some(SRE_FLAG_LOCALE)
    } else if c == 'm' {
        Some(SRE_FLAG_MULTILINE)
    } else if c == 's' {
        Some(SRE_FLAG_DOTALL)
    } else if c == 'x' {
        Some(SRE_FLAG_VERBOSE)
    } else if c == 'a' {
        Some(SRE_FLAG_ASCII)
    } else if c == 'u' {
        Some(SRE_FLAG_UNICODE)
    } else {
        None
    }
}

/// The flag an inline flag letter sets.
pub fn flag_for_char(c: char) -> (r: Option<u32>)
    ensures
        r == spec_flag(c),
{
    match c {
        'i' => Some(SRE_FLAG_IGNORECASE),
        'L' => Some(SRE_FLAG_LOCALE),
        'm' => Some(SRE_FLAG_MULTILINE),
        's' => Some(SRE_FLAG_DOTALL),
        'x' => Some(SRE_FLAG_VERBOSE),
        'a' => Some(SRE_FLAG_ASCII),
        'u' => Some(SRE_FLAG_UNICODE),
        _ => None,
    }
}

pub open spec fn is_digit(c: char) -> bool {
    '0' <= c && c <= '9'
}

pub open spec fn is_octdigit(c: char) -> bool {
    '0' <= c && c <= '7'
}

pub open spec fn is_hexdigit(c: char) -> bool {
    ('0' <= c && c <= '9') || ('a' <= c && c <= 'f') || ('A' <= c && c <= 'F')
}

/// The value of one digit (hexadecimal digits included).
pub open spec fn digit_val(c: char) -> nat {
    if '0' <= c && c <= '9' {
        (c as nat - '0' as nat) as nat
    } else if 'a' <= c && c <= 'f' {
        (c as nat - 'a' as nat + 10) as nat
    } else {
        (c as nat - 'A' as nat + 10) as nat
    }
}

/// The value of a digit string in the given radix.
pub open spec fn digits_value(s: Seq<char>, radix: nat) -> nat
    decreases s.len(),
{
    if s.len() == 0 {
        0
    } else {
        digits_value(s.drop_last(), radix) * radix + digit_val(s.last())
    }
}

pub open spec fn all_digits_of(s: Seq<char>, radix: nat) -> bool {
    forall|i: int|
        0 <= i < s.len() ==> (if radix == 8 {
            is_octdigit(#[trigger] s[i])
        } else if radix == 10 {
            is_digit(s[i])
        } else {
            is_hexdigit(s[i])
        })
}

proof fn lemma_digits_value_mono(s: Seq<char>, radix: nat, k: int)
    requires
        0 <= k <= s.len(),
        radix >= 1,
    ensures
        digits_value(s.subrange(0, k), radix) <= digits_value(s, radix),
    decreases s.len() - k,
{
    if k < s.len() {
        lemma_digits_value_mono(s, radix, k + 1);
        let t = s.subrange(0, k + 1);
        assert(t.drop_last() =~= s.subrange(0, k));
        assert(digits_value(t, radix) == digits_value(s.subrange(0, k), radix) * radix + digit_val(t.last()));
        assert(digits_value(s.subrange(0, k), radix) * radix >= digits_value(s.subrange(0, k), radix)) by (nonlinear_arith)
            requires radix >= 1;
    } else {
        assert(s.subrange(0, k) =~= s);
    }
}

/// The value of a digit string, or `None` when it does not fit in 64 bits.
pub fn digits_to_u64(s: &[char], radix: u64) -> (r: Option<u64>)
    requires
        radix == 8 || radix == 10 || radix == 16,
        all_digits_of(s@, radix as nat),
    ensures
        r matches Some(v) ==> v == digits_value(s@, radix as nat),
        r is None ==> digits_value(s@, radix as nat) > u64::MAX,
{
    let mut v: u64 = 0;
    let mut i: usize = 0;
    while i < s.len()
        invariant
            i <= s@.len(),
            radix == 8 || radix == 10 || radix == 16,
            all_digits_of(s@, radix as nat),
            v == digits_value(s@.subrange(0, i as int), radix as nat),
        decreases s@.len() - i,
    {
        let c = s[i];
        let d: u64 = if '0' <= c && c <= '9' {
            (c as u64) - ('0' as u64)
        } else if 'a' <= c && c <= 'f' {
            (c as u64) - ('a' as u64) + 10
        } else {
            (c as u64) - ('A' as u64) + 10
        };
        proof {
            let t = s@.subrange(0, i + 1);
            assert(t.drop_last() =~= s@.subrange(0, i as int));
            assert(t.last() == c);
            assert(d == digit_val(c));
        }
        let m = match v.checked_mul(radix) {
            Some(m) => m,
            None => {
                proof {
                    lemma_digits_value_mono(s@, radix as nat, i + 1);
                }
                return None;
            },
        };
        let nv = match m.checked_add(d) {
            Some(x) => x,
            None => {
                proof {
                    lemma_digits_value_mono(s@, radix as nat, i + 1);
                }
                return None;
            },
        };
        v = nv;
        i += 1;
    }
    assert(s@.subrange(0, s@.len() as int) =~= s@);
    Some(v)
}

/// What a class escape stands for.
pub enum ClassEscapeResult {
    Literal(u32),
    Category(ChCode),
}

/// `\` followed by `escape` so far, plus digits read by `getwhile`.
fn escape_with(c: char, more: &Vec<char>) -> (r: Vec<char>)
    ensures
        r@ == seq!['\\', c] + more@,
{
    let mut e: Vec<char> = vec!['\\', c];
    let mut k: usize = 0;
    while k < more.len()
        invariant
            k <= more@.len(),
            e@ == seq!['\\', c] + more@.subrange(0, k as int),
        decreases more@.len() - k,
    {
        e.push(more[k]);
        k += 1;
        assert(e@ =~= seq!['\\', c] + more@.subrange(0, k as int));
    }
    assert(more@.subrange(0, more@.len() as int) =~= more@);
    e
}

/// The message `prefix` followed by the escape text.
fn escape_msg(prefix: &str, escape: &Vec<char>) -> (s: String)
    ensures
        s@ == prefix@ + escape@,
{
    let mut m = String::from_str(prefix);
    m.append(&chars_to_string(escape.as_slice()));
    m
}

const HEXDIGITS: [char; 22] = ['0', '1', '2', '3', '4', '5', '6', '7', '8', '9', 'a', 'b', 'c', 'd', 'e', 'f', 'A', 'B', 'C', 'D', 'E', 'F'];

const OCTDIGITS: [char; 8] = ['0', '1', '2', '3', '4', '5', '6', '7'];

proof fn lemma_hex_charset(c: char)
    requires
        HEXDIGITS@.contains(c),
    ensures
        is_hexdigit(c),
{
    let i = choose|i: int| 0 <= i < HEXDIGITS@.len() && HEXDIGITS@[i] == c;
}

/// The `n` characters that start at the tokenizer's position.
pub open spec fn chars_ahead(t: Tokenizer, n: int) -> Seq<char> {
    t.chars@.subrange(t.pos(), t.pos() + n)
}

proof fn lemma_hexdigit_listed(c: char)
    requires
        is_hexdigit(c),
    ensures
        HEXDIGITS@.contains(c),
{
    if '0' <= c && c <= '9' {
        assert(HEXDIGITS@[c as int - '0' as int] == c);
    } else if 'a' <= c && c <= 'f' {
        assert(HEXDIGITS@[c as int - 'a' as int + 10] == c);
    } else {
        assert(HEXDIGITS@[c as int - 'A' as int + 16] == c);
    }
}

proof fn lemma_oct_charset(c: char)
    requires
        OCTDIGITS@.contains(c),
    ensures
        is_octdigit(c),
{
    let i = choose|i: int| 0 <= i < OCTDIGITS@.len() && OCTDIGITS@[i] == c;
}

/// Reads the hexadecimal digits of a `\x`, `\u` or `\U` escape (`n` of them)
/// and returns their value together with the text of the whole escape.
fn hex_escape(source: &mut Tokenizer, c: char, n: usize) -> (r: Result<(u32, Vec<char>), ParseError>)
    requires
        old(source).inv(),
        n == 2 || n == 4 || n == 8,
    ensures
        final(source).same_input(*old(source)),
        r matches Err(e) ==> e.pos <= old(source).chars@.len(),
        r matches Ok((v, esc)) ==> {
            &&& final(source).inv()
            &&& final(source).rem() <= old(source).rem()
            &&& old(source).pos() + n <= old(source).chars@.len()
            &&& final(source).pos() == old(source).pos() + n
            &&& all_digits_of(chars_ahead(*old(source), n as int), 16)
            &&& esc@ == seq!['\\', c] + chars_ahead(*old(source), n as int)
            &&& v == digits_value(chars_ahead(*old(source), n as int), 16)
            &&& (n == 2 ==> v <= 0xff)
            &&& (n == 4 ==> v <= 0xffff)
        },
        old(source).pos() + n <= old(source).chars@.len() && all_digits_of(chars_ahead(*old(source), n as int), 16)
            && !bad_escape_at(old(source).chars@, old(source).pos() + n) ==> r is Ok,
{
    let got = source.getwhile(n, &HEXDIGITS);
    let digits = match got {
        Ok(d) => d,
        Err(e) => {
            proof {
                let p = old(source).pos();
                let k = choose|k: int| 1 <= k <= n && #[trigger] bad_escape_at(old(source).chars@, p + k);
                if p + n <= old(source).chars@.len() && all_digits_of(chars_ahead(*old(source), n as int), 16)
                    && k < n {
                    assert(chars_ahead(*old(source), n as int)[k] == old(source).chars@[p + k]);
                    assert(is_hexdigit(chars_ahead(*old(source), n as int)[k]));
                }
            }
            return Err(e);
        },
    };
    proof {
        let p = old(source).pos();
        if p + n <= old(source).chars@.len() && all_digits_of(chars_ahead(*old(source), n as int), 16)
            && digits@.len() < n {
            let q = p + digits@.len();
            let d = old(source).chars@[q];
            assert(d == chars_ahead(*old(source), n as int)[q - p]);
            assert(is_hexdigit(d));
            lemma_hexdigit_listed(d);
            assert(source.next == Some(Tok::Char(d)));
        }
    }
    let escape = escape_with(c, &digits);
    if digits.len() != n {
        return Err(source.error(escape_msg("incomplete escape ", &escape), escape.len()));
    }
    proof {
        assert forall|i: int| 0 <= i < digits@.len() implies is_hexdigit(#[trigger] digits@[i]) by {
            lemma_hex_charset(digits@[i]);
        }
    }
    let v = digits_to_u64(digits.as_slice(), 16);
    match v {
        Some(x) => {
            proof {
                lemma_hex_bound(digits@);
                reveal_with_fuel(pow16, 9);
                assert(pow16(2) == 256);
                assert(pow16(4) == 65536);
                assert(pow16(8) == 0x1_0000_0000);
            }
            Ok((x as u32, escape))
        },
        None => {
            proof {
                lemma_hex_bound(digits@);
                reveal_with_fuel(pow16, 9);
                assert(pow16(8) == 0x1_0000_0000);
            }
            Err(source.error(escape_msg("bad escape ", &escape), escape.len()))
        },
    }
}

/// Reads up to two more octal digits after `\c` and returns the value of
/// the digits together with the text of the escape.
fn octal_escape(source: &mut Tokenizer, c: char) -> (r: Result<(u32, Vec<char>), ParseError>)
    requires
        old(source).inv(),
        is_octdigit(c),
    ensures
        final(source).same_input(*old(source)),
        r matches Err(e) ==> e.pos <= old(source).chars@.len(),
        r matches Ok((v, esc)) ==> {
            &&& final(source).inv()
            &&& final(source).rem() <= old(source).rem()
            &&& v <= 0o777
            &&& (c == '0' ==> v <= 0o77)
            &&& esc@.len() >= 2
            &&& final(source).pos() == old(source).pos() + oct_count(old(source).chars@, old(source).pos(), 2)
            &&& v == octal_value(c, old(source).chars@, old(source).pos())
        },
{
    let digits = source.getwhile(2, &OCTDIGITS)?;
    proof {
        assert forall|i: int| 0 <= i < digits@.len() implies is_octdigit(#[trigger] digits@[i]) by {
            lemma_oct_charset(digits@[i]);
        }
        let sc = old(source).chars@;
        let p = old(source).pos();
        if digits@.len() < 2 && p + digits@.len() < sc.len() && is_octdigit(sc[p + digits@.len()]) {
            lemma_octdigit_listed(sc[p + digits@.len()]);
        }
        lemma_oct_count(sc, p, digits@);
    }
    let mut all: Vec<char> = vec![c];
    let mut k: usize = 0;
    while k < digits.len()
        invariant
            k <= digits@.len(),
            all@ == seq![c] + digits@.subrange(0, k as int),
        decreases digits@.len() - k,
    {
        all.push(digits[k]);
        k += 1;
        assert(all@ =~= seq![c] + digits@.subrange(0, k as int));
    }
    assert(digits@.subrange(0, digits@.len() as int) =~= digits@);
    let escape = escape_with(c, &digits);
    proof {
        assert(all_digits_of(all@, 8));
        lemma_oct_bound(all@);
        reveal_with_fuel(pow8, 4);
        if c == '0' {
            lemma_leading_zero(all@);
            let t = all@.subrange(1, all@.len() as int);
            assert(all_digits_of(t, 8)) by {
                assert forall|i: int| 0 <= i < t.len() implies is_octdigit(#[trigger] t[i]) by {
                    assert(t[i] == all@[i + 1]);
                }
            }
            lemma_oct_bound(t);
            reveal_with_fuel(pow8, 3);
        }
    }
    let v = digits_to_u64(all.as_slice(), 8);
    match v {
        Some(x) => {
            assert(all@ == seq![c] + old(source).chars@.subrange(
                old(source).pos(),
                old(source).pos() + oct_count(old(source).chars@, old(source).pos(), 2),
            ));
            Ok((x as u32, escape))
        },
        None => Err(source.error(escape_msg("bad escape ", &escape), escape.len())),
    }
}

/// The number of octal digits (at most `n`) that start at `i`.
pub open spec fn oct_count(s: Seq<char>, i: int, n: nat) -> nat
    decreases n,
{
    if n > 0 && 0 <= i < s.len() && is_octdigit(s[i]) {
        1 + oct_count(s, i + 1, (n - 1) as nat)
    } else {
        0
    }
}

/// The value of the octal escape `\c` followed by the (up to two) octal
/// digits at `p`.
pub open spec fn octal_value(c: char, s: Seq<char>, p: int) -> nat {
    digits_value(seq![c] + s.subrange(p, p + oct_count(s, p, 2)), 8)
}

proof fn lemma_octdigit_listed(c: char)
    requires
        is_octdigit(c),
    ensures
        OCTDIGITS@.contains(c),
{
    assert(OCTDIGITS@[c as int - '0' as int] == c);
}

/// What `getwhile(2, OCTDIGITS)` read at `p` is the octal run there.
proof fn lemma_oct_count(s: Seq<char>, p: int, d: Seq<char>)
    requires
        0 <= p,
        d.len() <= 2,
        p + d.len() <= s.len(),
        d == s.subrange(p, p + d.len()),
        forall|i: int| 0 <= i < d.len() ==> is_octdigit(#[trigger] d[i]),
        d.len() == 2 || p + d.len() == s.len() || !is_octdigit(s[p + d.len()]),
    ensures
        oct_count(s, p, 2) == d.len(),
{
    reveal_with_fuel(oct_count, 3);
    if d.len() >= 1 {
        assert(is_octdigit(d[0]) && d[0] == s[p]);
    }
    if d.len() == 2 {
        assert(is_octdigit(d[1]) && d[1] == s[p + 1]);
        assert(oct_count(s, p + 2, 0) == 0);
    }
    if d.len() == 1 {
        assert(oct_count(s, p + 1, 1) == 0);
    }
}

/// A leading zero digit does not change the value.
proof fn lemma_leading_zero(s: Seq<char>)
    requires
        s.len() >= 1,
        s[0] == '0',
    ensures
        digits_value(s, 8) == digits_value(s.subrange(1, s.len() as int), 8),
    decreases s.len(),
{
    if s.len() == 1 {
        assert(digit_val('0') == 0);
        assert(digits_value(s.drop_last(), 8) == 0);
        assert(digits_value(s, 8) == digits_value(s.drop_last(), 8) * 8 + digit_val(s.last()));
        assert(digits_value(s.subrange(1, 1), 8) == 0);
    } else {
        let t = s.drop_last();
        assert(t[0] == '0');
        lemma_leading_zero(t);
        let u = s.subrange(1, s.len() as int);
        assert(u.drop_last() =~= t.subrange(1, t.len() as int));
        assert(u.last() == s.last());
        assert(digits_value(u, 8) == digits_value(u.drop_last(), 8) * 8 + digit_val(u.last()));
        assert(digits_value(s, 8) == digits_value(t, 8) * 8 + digit_val(s.last()));
    }
}

pub open spec fn pow8(n: nat) -> nat
    decreases n,
{
    if n == 0 { 1 } else { 8 * pow8((n - 1) as nat) }
}

proof fn lemma_oct_bound(s: Seq<char>)
    requires
        all_digits_of(s, 8),
    ensures
        digits_value(s, 8) < pow8(s.len()),
    decreases s.len(),
{
    if s.len() > 0 {
        let t = s.drop_last();
        assert(all_digits_of(t, 8)) by {
            assert forall|i: int| 0 <= i < t.len() implies is_octdigit(#[trigger] t[i]) by {
                assert(t[i] == s[i]);
            }
        }
        lemma_oct_bound(t);
        assert(is_octdigit(s[s.len() - 1]));
        assert(digit_val(s.last()) < 8);
        let a = digits_value(t, 8);
        let p = pow8(t.len());
        assert(a * 8 + digit_val(s.last()) < p * 8) by (nonlinear_arith)
            requires a < p, digit_val(s.last()) < 8;
    }
}

proof fn lemma_hex_bound(s: Seq<char>)
    requires
        all_digits_of(s, 16),
    ensures
        digits_value(s, 16) < pow16(s.len()),
    decreases s.len(),
{
    if s.len() > 0 {
        let t = s.drop_last();
        assert(all_digits_of(t, 16)) by {
            assert forall|i: int| 0 <= i < t.len() implies is_hexdigit(#[trigger] t[i]) by {
                assert(t[i] == s[i]);
            }
        }
        lemma_hex_bound(t);
        assert(is_hexdigit(s[s.len() - 1]));
        assert(digit_val(s.last()) < 16);
        let a = digits_value(t, 16);
        let p = pow16(t.len());
        assert(a * 16 + digit_val(s.last()) < p * 16) by (nonlinear_arith)
            requires a < p, digit_val(s.last()) < 16;
    }
}

pub open spec fn pow16(n: nat) -> nat
    decreases n,
{
    if n == 0 { 1 } else { 16 * pow16((n - 1) as nat) }
}

} // verus!

verus! {

/// `bad escape \c` at the escape just read.
fn bad_escape(source: &Tokenizer, escape: &Vec<char>) -> (e: ParseError)
    requires
        source.inv(),
    ensures
        e.pos <= source.chars@.len(),
        e.msg@ == "bad escape "@ + escape@,
        e.pos == if source.pos() >= escape@.len() { source.pos() - escape@.len() } else { 0 },
{
    source.error(escape_msg("bad escape ", escape), escape.len())
}

/// The escape `\c` inside a character class.
fn class_escape(source: &mut Tokenizer, c: char) -> (r: Result<ClassEscapeResult, ParseError>)
    requires
        old(source).inv(),
    ensures
        final(source).same_input(*old(source)),
        r matches Err(e) ==> e.pos <= old(source).chars@.len(),
        r is Ok ==> final(source).inv() && final(source).rem() <= old(source).rem(),
        r matches Ok(ClassEscapeResult::Literal(cp)) ==> valid_cp(cp),
        spec_escape_literal(c) matches Some(cp) ==> r == Ok::<ClassEscapeResult, ParseError>(ClassEscapeResult::Literal(cp)),
        spec_escape_literal(c) is None ==> (spec_category(c) matches Some(CategoryCode::In(x)) ==> r == Ok::<
            ClassEscapeResult,
            ParseError,
        >(ClassEscapeResult::Category(x)) && *final(source) == *old(source)),
        hex_escape_len(c, old(source).istext) > 0 ==> {
            let n = hex_escape_len(c, old(source).istext);
            &&& (r matches Ok(res) ==> res == ClassEscapeResult::Literal(
                digits_value(chars_ahead(*old(source), n), 16) as u32,
            ) && final(source).pos() == old(source).pos() + n)
            &&& (n < 8 && old(source).pos() + n <= old(source).chars@.len() && all_digits_of(
                chars_ahead(*old(source), n),
                16,
            ) && !bad_escape_at(old(source).chars@, old(source).pos() + n) ==> r is Ok)
        },
        is_octdigit(c) ==> {
            let v = octal_value(c, old(source).chars@, old(source).pos());
            &&& (r matches Ok(res) ==> res == ClassEscapeResult::Literal(v as u32) && v <= 0o377)
            &&& (v > 0o377 ==> r is Err)
        },
        (c == '8' || c == '9' || class_plain_letter(c, old(source).istext)) ==> {
            &&& r matches Err(e)
            &&& e.msg@ == "bad escape "@ + seq!['\\', c]
            &&& e.pos == if old(source).pos() >= 2 { old(source).pos() - 2 } else { 0 }
        },
        !is_ascii_alnum(c) && c != '\\' ==> r == Ok::<ClassEscapeResult, ParseError>(
            ClassEscapeResult::Literal(c as u32),
        ) && *final(source) == *old(source),
{
    if let Some(cp) = lookup_escape_literal(c) {
        return Ok(ClassEscapeResult::Literal(cp));
    }
    if let Some(CategoryCode::In(cat)) = lookup_category(c) {
        return Ok(ClassEscapeResult::Category(cat));
    }
    let escape: Vec<char> = vec!['\\', c];
    if c == 'x' {
        let (n, _) = hex_escape(source, c, 2)?;
        Ok(ClassEscapeResult::Literal(n))
    } else if c == 'u' && source.istext {
        let (n, _) = hex_escape(source, c, 4)?;
        Ok(ClassEscapeResult::Literal(n))
    } else if c == 'U' && source.istext {
        let (n, esc) = hex_escape(source, c, 8)?;
        if char_from_u32(n).is_none() {
            return Err(bad_escape(source, &esc));
        }
        Ok(ClassEscapeResult::Literal(n))
    } else if c == 'N' && source.istext {
        Err(source.error_str("\\N{...} named unicode escapes not yet supported in native regex parser", 0))
    } else if '0' <= c && c <= '7' {
        let (n, esc) = octal_escape(source, c)?;
        if n > 0o377 {
            let mut m = String::from_str("octal escape value ");
            m.append(&chars_to_string(esc.as_slice()));
            m.append(" outside of range 0-0o377");
            return Err(source.error(m, esc.len()));
        }
        Ok(ClassEscapeResult::Literal(n))
    } else if '0' <= c && c <= '9' {
        Err(bad_escape(source, &escape))
    } else if ('a' <= c && c <= 'z') || ('A' <= c && c <= 'Z') {
        Err(bad_escape(source, &escape))
    } else {
        Ok(ClassEscapeResult::Literal(c as u32))
    }
}

/// The number of hexadecimal digits that the escape `\c` takes (`\x`, and in
/// a text pattern `\u` and `\U`), or 0.
pub open spec fn hex_escape_len(c: char, istext: bool) -> int {
    if c == 'x' {
        2
    } else if c == 'u' && istext {
        4
    } else if c == 'U' && istext {
        8
    } else {
        0
    }
}

pub open spec fn is_ascii_alnum(c: char) -> bool {
    ('0' <= c && c <= '9') || ('a' <= c && c <= 'z') || ('A' <= c && c <= 'Z')
}

/// An ASCII letter that names no escape: `\c` is refused.
pub open spec fn plain_letter_escape(c: char, istext: bool) -> bool {
    &&& (('a' <= c && c <= 'z') || ('A' <= c && c <= 'Z'))
    &&& spec_category(c) is None
    &&& spec_escape_literal(c) is None
    &&& hex_escape_len(c, istext) == 0
    &&& !(c == 'N' && istext)
}

/// Whether a decimal digit follows at `p`.
pub open spec fn second_digit(s: Seq<char>, p: int) -> bool {
    0 <= p < s.len() && is_digit(s[p])
}

/// Whether `\c` and the two characters at `p` are three octal digits.
pub open spec fn octal_triple(c: char, s: Seq<char>, p: int) -> bool {
    is_octdigit(c) && 0 <= p && p + 1 < s.len() && is_octdigit(s[p]) && is_octdigit(s[p + 1])
}

/// The value of the three octal digits `c`, `s[p]`, `s[p + 1]`.
pub open spec fn octal3_value(c: char, s: Seq<char>, p: int) -> int {
    (c as int - 48) * 64 + (s[p] as int - 48) * 8 + (s[p + 1] as int - 48)
}

/// The group a backreference `\c` names: one digit, or two where a digit
/// follows.
pub open spec fn backref_number(c: char, s: Seq<char>, p: int) -> int {
    if second_digit(s, p) {
        10 * (c as int - 48) + (s[p] as int - 48)
    } else {
        c as int - 48
    }
}

/// An ASCII letter that names nothing inside a class: `\c` is refused
/// there (position escapes such as `\A` included).
pub open spec fn class_plain_letter(c: char, istext: bool) -> bool {
    &&& (('a' <= c && c <= 'z') || ('A' <= c && c <= 'Z'))
    &&& !(spec_category(c) matches Some(CategoryCode::In(_)))
    &&& spec_escape_literal(c) is None
    &&& hex_escape_len(c, istext) == 0
    &&& !(c == 'N' && istext)
}

/// What an escape outside a character class stands for.
pub enum EscapeResult {
    Literal(u32),
    At(AtCode),
    InCategory(ChCode),
    GroupRef(u32),
}

/// The escape `\c` outside a character class.
fn escape_code(source: &mut Tokenizer, c: char, state: &State) -> (r: Result<EscapeResult, ParseError>)
    requires
        old(source).inv(),
        state.inv(old(source).chars@.len()),
    ensures
        final(source).same_input(*old(source)),
        r matches Err(e) ==> e.pos <= old(source).chars@.len(),
        r is Ok ==> final(source).inv() && final(source).rem() <= old(source).rem(),
        r matches Ok(EscapeResult::Literal(cp)) ==> valid_cp(cp),
        r matches Ok(EscapeResult::GroupRef(g)) ==> wf_group(g, state.ngroups()),
        spec_category(c) matches Some(CategoryCode::At(a)) ==> r == Ok::<EscapeResult, ParseError>(
            EscapeResult::At(a),
        ) && *final(source) == *old(source),
        spec_category(c) matches Some(CategoryCode::In(x)) ==> r == Ok::<EscapeResult, ParseError>(
            EscapeResult::InCategory(x),
        ) && *final(source) == *old(source),
        spec_category(c) is None ==> (spec_escape_literal(c) matches Some(cp) ==> r == Ok::<
            EscapeResult,
            ParseError,
        >(EscapeResult::Literal(cp)) && *final(source) == *old(source)),
        hex_escape_len(c, old(source).istext) > 0 ==> {
            let n = hex_escape_len(c, old(source).istext);
            &&& (r matches Ok(res) ==> res == EscapeResult::Literal(
                digits_value(chars_ahead(*old(source), n), 16) as u32,
            ) && final(source).pos() == old(source).pos() + n)
            &&& (n < 8 && old(source).pos() + n <= old(source).chars@.len() && all_digits_of(
                chars_ahead(*old(source), n),
                16,
            ) && !bad_escape_at(old(source).chars@, old(source).pos() + n) ==> r is Ok)
        },
        plain_letter_escape(c, old(source).istext) ==> {
            &&& r matches Err(e)
            &&& e.msg@ == "bad escape "@ + seq!['\\', c]
            &&& e.pos == if old(source).pos() >= 2 { old(source).pos() - 2 } else { 0 }
        },
        !is_ascii_alnum(c) && c != '\\' ==> r == Ok::<EscapeResult, ParseError>(
            EscapeResult::Literal(c as u32),
        ) && *final(source) == *old(source),
        c == '0' ==> (r matches Ok(res) ==> res == EscapeResult::Literal(
            octal_value(c, old(source).chars@, old(source).pos()) as u32,
        )),
        ('1' <= c && c <= '9') && octal_triple(c, old(source).chars@, old(source).pos()) ==> {
            let v = octal3_value(c, old(source).chars@, old(source).pos());
            &&& (r matches Ok(res) ==> res == EscapeResult::Literal(v as u32) && v <= 0o377)
            &&& (v > 0o377 ==> r is Err)
        },
        ('1' <= c && c <= '9') && !octal_triple(c, old(source).chars@, old(source).pos()) ==> {
            let g = backref_number(c, old(source).chars@, old(source).pos());
            let ok_read = !second_digit(old(source).chars@, old(source).pos()) || !bad_escape_at(
                old(source).chars@,
                old(source).pos() + 1,
            );
            &&& (r matches Ok(res) ==> res == EscapeResult::GroupRef(g as u32))
            &&& (ok_read && g >= state.ngroups() ==> (r matches Err(e) && e.msg@ == "invalid group reference "@
                + decimal_digits(g as nat) && e.pos == if old(source).pos() >= 1 {
                old(source).pos() - 1
            } else {
                0
            }))
            &&& (ok_read && g < state.ngroups() && state.groupwidths@[g] is None ==> (r matches Err(e) && e.msg@
                == "cannot refer to an open group"@))
            &&& (ok_read && g < state.ngroups() && state.groupwidths@[g] is Some && (state.lookbehindgroups is Some
                ==> g < state.lookbehindgroups->0) ==> r is Ok)
        },
{
    if let Some(cat) = lookup_category(c) {
        return Ok(
            match cat {
                CategoryCode::At(a) => EscapeResult::At(a),
                CategoryCode::In(x) => EscapeResult::InCategory(x),
            },
        );
    }
    if let Some(cp) = lookup_escape_literal(c) {
        return Ok(EscapeResult::Literal(cp));
    }
    let escape: Vec<char> = vec!['\\', c];
    if c == 'x' {
        let (n, _) = hex_escape(source, c, 2)?;
        Ok(EscapeResult::Literal(n))
    } else if c == 'u' && source.istext {
        let (n, _) = hex_escape(source, c, 4)?;
        Ok(EscapeResult::Literal(n))
    } else if c == 'U' && source.istext {
        let (n, esc) = hex_escape(source, c, 8)?;
        if char_from_u32(n).is_none() {
            return Err(bad_escape(source, &esc));
        }
        Ok(EscapeResult::Literal(n))
    } else if c == 'N' && source.istext {
        Err(source.error_str("\\N{...} named unicode escapes not yet supported in native regex parser", 0))
    } else if c == '0' {
        let (n, _) = octal_escape(source, c)?;
        Ok(EscapeResult::Literal(n))
    } else if '0' <= c && c <= '9' {
        let ghost sc = old(source).chars@;
        let ghost p = old(source).pos();
        let mut esc: Vec<char> = vec!['\\', c];
        let mut value: u32 = (c as u32) - ('0' as u32);
        proof {
            if second_digit(sc, p) {
                assert(source.next == Some(Tok::Char(sc[p])));
            }
        }
        if let Some(n2) = source.peek_next_char() {
            if '0' <= n2 && n2 <= '9' {
                proof {
                    assert(source.next == Some(Tok::Char(n2)));
                    assert(sc[p] == n2 && second_digit(sc, p));
                }
                let _ = source.get()?;
                esc.push(n2);
                value = value * 10 + ((n2 as u32) - ('0' as u32));
                let third = source.peek_next_char();
                let third_oct = match third {
                    Some(t) => '0' <= t && t <= '7',
                    None => false,
                };
                proof {
                    assert(source.pos() == p + 1);
                    if p + 1 < sc.len() && is_octdigit(sc[p + 1]) {
                        assert(source.next == Some(Tok::Char(sc[p + 1])));
                    }
                }
                if '0' <= c && c <= '7' && '0' <= n2 && n2 <= '7' && third_oct {
                    let t = third.unwrap();
                    proof {
                        assert(source.next == Some(Tok::Char(t)));
                        assert(sc[p + 1] == t);
                    }
                    let _ = source.get()?;
                    esc.push(t);
                    let n = ((c as u32) - ('0' as u32)) * 64 + ((n2 as u32) - ('0' as u32)) * 8 + ((t as u32)
                        - ('0' as u32));
                    if n > 0o377 {
                        let mut m = String::from_str("octal escape value ");
                        m.append(&chars_to_string(esc.as_slice()));
                        m.append(" outside of range 0-0o377");
                        return Err(source.error(m, esc.len()));
                    }
                    return Ok(EscapeResult::Literal(n));
                }
            }
        }
        let group = value;
        if group < state.groups() {
            if !state.checkgroup(group) {
                return Err(source.error_str("cannot refer to an open group", esc.len()));
            }
            state.checklookbehindgroup(group, source)?;
            return Ok(EscapeResult::GroupRef(group));
        }
        let mut m = String::from_str("invalid group reference ");
        m.append(&chars_to_string(decimal(group as u128).as_slice()));
        Err(source.error(m, esc.len() - 1))
    } else if ('a' <= c && c <= 'z') || ('A' <= c && c <= 'Z') {
        Err(bad_escape(source, &escape))
    } else {
        Ok(EscapeResult::Literal(c as u32))
    }
}

} // verus!

verus! {

/// `s` without repeats, keeping the first occurrence of each item.
pub open spec fn dedup(s: Seq<SetItem>) -> Seq<SetItem>
    decreases s.len(),
{
    if s.len() == 0 {
        seq![]
    } else {
        let d = dedup(s.drop_last());
        if d.contains(s.last()) {
            d
        } else {
            d.push(s.last())
        }
    }
}

/// Deduplication keeps only items of the input, keeps every item, and
/// leaves a non-empty input non-empty.
pub proof fn lemma_dedup(s: Seq<SetItem>)
    ensures
        forall|i: int| 0 <= i < dedup(s).len() ==> s.contains(#[trigger] dedup(s)[i]),
        forall|i: int| 0 <= i < s.len() ==> dedup(s).contains(#[trigger] s[i]),
        s.len() > 0 ==> dedup(s).len() > 0,
        dedup(s).no_duplicates(),
    decreases s.len(),
{
    if s.len() > 0 {
        let t = s.drop_last();
        lemma_dedup(t);
        let d = dedup(t);
        assert forall|i: int| 0 <= i < dedup(s).len() implies s.contains(#[trigger] dedup(s)[i]) by {
            if i < d.len() {
                let j = choose|j: int| 0 <= j < t.len() && t[j] == d[i];
                assert(s[j] == t[j]);
            } else {
                assert(s[s.len() - 1] == s.last());
            }
        }
        assert forall|i: int| 0 <= i < s.len() implies dedup(s).contains(#[trigger] s[i]) by {
            if i < s.len() - 1 {
                assert(t[i] == s[i]);
                assert(d.contains(t[i]));
                if !d.contains(s.last()) {
                    let j = choose|j: int| 0 <= j < d.len() && d[j] == t[i];
                    assert(dedup(s)[j] == d[j]);
                }
            } else {
                if !d.contains(s.last()) {
                    assert(dedup(s)[d.len() as int] == s.last());
                }
            }
        }
    }
}

/// Removes repeated class items, keeping first occurrences in order.
pub fn uniq_set(items: Vec<SetItem>) -> (out: Vec<SetItem>)
    ensures
        out@ == dedup(items@),
{
    let mut out: Vec<SetItem> = Vec::new();
    let mut i: usize = 0;
    while i < items.len()
        invariant
            i <= items@.len(),
            out@ == dedup(items@.subrange(0, i as int)),
        decreases items@.len() - i,
    {
        let item = items[i];
        let mut seen = false;
        let mut j: usize = 0;
        while j < out.len()
            invariant
                j <= out@.len(),
                seen == out@.subrange(0, j as int).contains(item),
            decreases out@.len() - j,
        {
            if out[j] == item {
                seen = true;
            }
            proof {
                let a = out@.subrange(0, j as int);
                let b = out@.subrange(0, j + 1);
                assert(b =~= a.push(out@[j as int]));
                if out@[j as int] == item {
                    assert(b[j as int] == item);
                }
                if a.contains(item) {
                    let k = choose|k: int| 0 <= k < a.len() && a[k] == item;
                    assert(b[k] == item);
                }
                if b.contains(item) && !a.contains(item) {
                    let k = choose|k: int| 0 <= k < b.len() && b[k] == item;
                    if k < j {
                        assert(a[k] == item);
                    }
                }
            }
            j += 1;
        }
        assert(out@.subrange(0, out@.len() as int) =~= out@);
        proof {
            let t = items@.subrange(0, i + 1);
            assert(t.drop_last() =~= items@.subrange(0, i as int));
            assert(t.last() == item);
        }
        if !seen {
            out.push(item);
        }
        i += 1;
    }
    assert(items@.subrange(0, items@.len() as int) =~= items@);
    out
}

/// Whether `op` is a repetition.
pub fn is_repeat_opcode(op: &OpCode) -> (r: bool)
    ensures
        r == (op is MaxRepeat || op is MinRepeat || op is PossessiveRepeat),
{
    match op {
        OpCode::MinRepeat { .. } | OpCode::MaxRepeat { .. } | OpCode::PossessiveRepeat { .. } => true,
        _ => false,
    }
}

/// A class element: a plain character or the result of a class escape.
pub enum SetCode {
    Literal(u32),
    Class(ClassEscapeResult),
}

pub open spec fn set_code_item(code: SetCode) -> SetItem {
    match code {
        SetCode::Literal(cp) => SetItem::Literal(cp),
        SetCode::Class(ClassEscapeResult::Literal(cp)) => SetItem::Literal(cp),
        SetCode::Class(ClassEscapeResult::Category(cat)) => SetItem::Category(cat),
    }
}

/// Appends the item a class element stands for.
pub fn push_set_code(set: &mut Vec<SetItem>, code: SetCode)
    ensures
        final(set)@ == old(set)@.push(set_code_item(code)),
{
    match code {
        SetCode::Literal(cp) => set.push(SetItem::Literal(cp)),
        SetCode::Class(ClassEscapeResult::Literal(cp)) => set.push(SetItem::Literal(cp)),
        SetCode::Class(ClassEscapeResult::Category(cat)) => set.push(SetItem::Category(cat)),
    }
}

/// Whether a group node can be replaced by its contents: no group number
/// and no flags.
pub open spec fn is_trivial_group(op: OpCode) -> bool {
    op matches OpCode::Subpattern { group: None, add_flags: 0, del_flags: 0, .. }
}

pub open spec fn no_trivial_groups(s: Seq<OpCode>) -> bool {
    forall|i: int| 0 <= i < s.len() ==> !is_trivial_group(#[trigger] s[i])
}

/// A group node whose contents hold no trivial group at their top level.
pub open spec fn group_op_ok(op: OpCode) -> bool {
    op matches OpCode::Subpattern { p, .. } ==> no_trivial_groups(p.data@)
}

pub open spec fn group_ops_ok(s: Seq<OpCode>) -> bool {
    forall|i: int| 0 <= i < s.len() ==> group_op_ok(#[trigger] s[i])
}

/// The flags after the type flags have been settled.
pub open spec fn spec_fix_flags(istext: bool, flags: u32) -> Option<u32> {
    if istext {
        if flags & SRE_FLAG_LOCALE != 0 {
            None
        } else if flags & SRE_FLAG_ASCII == 0 {
            Some(flags | SRE_FLAG_UNICODE)
        } else if flags & SRE_FLAG_UNICODE != 0 {
            None
        } else {
            Some(flags)
        }
    } else {
        if flags & SRE_FLAG_UNICODE != 0 {
            None
        } else if flags & SRE_FLAG_LOCALE != 0 && flags & SRE_FLAG_ASCII != 0 {
            None
        } else {
            Some(flags)
        }
    }
}

/// Why `flags` cannot stand for a pattern of this kind.
pub open spec fn flags_error_msg(istext: bool, flags: u32) -> Seq<char> {
    if istext {
        if flags & SRE_FLAG_LOCALE != 0 {
            "cannot use LOCALE flag with a str pattern"@
        } else {
            "ASCII and UNICODE flags are incompatible"@
        }
    } else {
        if flags & SRE_FLAG_UNICODE != 0 {
            "cannot use UNICODE flag with a bytes pattern"@
        } else {
            "ASCII and LOCALE flags are incompatible"@
        }
    }
}

/// Settles the type flags: text patterns are Unicode unless ASCII is asked
/// for, and incompatible combinations are refused.
pub fn fix_flags(istext: bool, flags: u32) -> (r: Result<u32, ParseError>)
    ensures
        r matches Ok(f) ==> spec_fix_flags(istext, flags) == Some(f),
        r is Err ==> spec_fix_flags(istext, flags) is None,
        r matches Err(e) ==> e.pos == 0 && e.msg@ == flags_error_msg(istext, flags),
{
    let mut flags = flags;
    if istext {
        if flags & SRE_FLAG_LOCALE != 0 {
            return Err(ParseError::from_str("cannot use LOCALE flag with a str pattern", 0));
        }
        if flags & SRE_FLAG_ASCII == 0 {
            flags = flags | SRE_FLAG_UNICODE;
        } else if flags & SRE_FLAG_UNICODE != 0 {
            return Err(ParseError::from_str("ASCII and UNICODE flags are incompatible", 0));
        }
    } else {
        if flags & SRE_FLAG_UNICODE != 0 {
            return Err(ParseError::from_str("cannot use UNICODE flag with a bytes pattern", 0));
        }
        if flags & SRE_FLAG_LOCALE != 0 && flags & SRE_FLAG_ASCII != 0 {
            return Err(ParseError::from_str("ASCII and LOCALE flags are incompatible", 0));
        }
    }
    Ok(flags)
}

} // verus!

verus! {

/// A parsed class element or a literal character class result.
pub open spec fn set_op_ok(op: OpCode) -> bool {
    match op {
        OpCode::Literal(cp) => valid_cp(cp),
        OpCode::NotLiteral(cp) => valid_cp(cp),
        OpCode::In(items) => wf_set(items@),
        _ => false,
    }
}

pub open spec fn plain_item_ok(it: SetItem) -> bool {
    match it {
        SetItem::Negate => false,
        SetItem::Literal(cp) => valid_cp(cp),
        SetItem::Range(lo, hi) => lo <= hi && valid_cp(hi),
        SetItem::Category(_) => true,
    }
}

proof fn lemma_set_op_wf(op: OpCode, n: nat, e: Set<u32>)
    requires
        set_op_ok(op),
    ensures
        wf_op(op, n, e),
{
}

/// The characters of a token, for messages.
fn tok_text(t: Tok) -> (v: Vec<char>)
    ensures
        v@ == tok_chars(t),
{
    match t {
        Tok::Char(c) => vec![c],
        Tok::Escape(x) => vec!['\\', x],
    }
}

fn tok_count(t: Tok) -> (n: usize)
    ensures
        n == tok_len(Some(t)),
{
    match t {
        Tok::Char(_) => 1,
        Tok::Escape(_) => 2,
    }
}

/// `a - b`, or 0 when `b` is larger.
fn sub_or_zero(a: usize, b: usize) -> (r: usize)
    ensures
        r == if a >= b { a - b } else { 0 },
{
    if a >= b { a - b } else { 0 }
}

/// `a + b`, capped at `usize::MAX`.
fn add_capped(a: usize, b: usize) -> (r: usize)
    ensures
        r == if a + b <= usize::MAX { a + b } else { usize::MAX as int },
{
    if a <= usize::MAX - b { a + b } else { usize::MAX }
}

fn bad_range(source: &Tokenizer, cur: Tok, that: Tok) -> (e: ParseError)
    requires
        source.inv(),
    ensures
        e.pos <= source.chars@.len(),
        e.msg@ == "bad character range "@ + tok_chars(cur) + "-"@ + tok_chars(that),
        e.pos == {
            let off = tok_len(Some(cur)) + 1 + tok_len(Some(that));
            if source.pos() >= off { source.pos() - off } else { 0 }
        },
{
    let mut m = String::from_str("bad character range ");
    m.append(&chars_to_string(tok_text(cur).as_slice()));
    m.append("-");
    m.append(&chars_to_string(tok_text(that).as_slice()));
    let off = add_capped(tok_count(cur) + 1, tok_count(that));
    source.error(m, off)
}

/// Where the items of a class whose `[` ends just before `p` start: after
/// a `^` that negates it.
pub open spec fn class_body_start(s: Seq<char>, p: int) -> int {
    if 0 <= p < s.len() && s[p] == '^' {
        p + 1
    } else {
        p
    }
}

/// A class of one plain character: `[c]` or `[^c]`, where `c` is no
/// backslash (and no lone backslash ends the pattern right after it).
pub open spec fn one_char_class(s: Seq<char>, p: int) -> bool {
    let q = class_body_start(s, p);
    &&& 0 <= p
    &&& q + 1 < s.len()
    &&& s[q] != '\\'
    &&& s[q + 1] == ']'
    &&& !bad_escape_at(s, q + 2)
}

/// The body of a character class, after its `[`.
fn parse_set(source: &mut Tokenizer) -> (r: Result<OpCode, ParseError>)
    requires
        old(source).inv(),
        old(source).pos() >= 1,
    ensures
        final(source).same_input(*old(source)),
        r matches Err(e) ==> e.pos <= old(source).chars@.len(),
        r matches Ok(op) ==> {
            &&& final(source).inv()
            &&& final(source).rem() < old(source).rem()
            &&& set_op_ok(op)
        },
        one_char_class(old(source).chars@, old(source).pos()) ==> {
            let q = class_body_start(old(source).chars@, old(source).pos());
            let c = old(source).chars@[q];
            &&& r == Ok::<OpCode, ParseError>(
                if q > old(source).pos() {
                    OpCode::NotLiteral(c as u32)
                } else {
                    OpCode::Literal(c as u32)
                },
            )
            &&& final(source).pos() == q + 2
        },
{
    let ghost sc = old(source).chars@;
    let ghost p0 = old(source).pos();
    let ghost simple = one_char_class(sc, p0);
    let ghost q = class_body_start(sc, p0);
    let here = source.tell() - 1;
    let mut set: Vec<SetItem> = Vec::new();
    let negate = source.take_match('^')?;
    proof {
        if simple {
            assert(negate == (q > p0));
            assert(source.pos() == q);
        }
    }
    loop
        invariant_except_break
            simple ==> (set@.len() == 0 && source.pos() == q) || (set@ == seq![SetItem::Literal(sc[q] as u32)]
                && source.pos() == q + 1),
        invariant
            source.inv(),
            source.same_input(*old(source)),
            source.rem() <= old(source).rem(),
            here < source.pos(),
            forall|i: int| 0 <= i < set@.len() ==> plain_item_ok(#[trigger] set@[i]),
            sc == old(source).chars@,
            p0 == old(source).pos(),
            simple == one_char_class(sc, p0),
            q == class_body_start(sc, p0),
            simple ==> negate == (q > p0),
        ensures
            source.inv(),
            source.same_input(*old(source)),
            source.rem() < old(source).rem(),
            set@.len() > 0,
            forall|i: int| 0 <= i < set@.len() ==> plain_item_ok(#[trigger] set@[i]),
            simple ==> set@ == seq![SetItem::Literal(sc[q] as u32)] && source.pos() == q + 2,
        decreases source.rem(),
    {
        proof {
            if simple {
                if set@.len() == 0 {
                    assert(source.next == Some(Tok::Char(sc[q])));
                    assert(source.index == q + 1);
                    assert(!bad_escape_at(sc, q + 1));
                } else {
                    assert(source.next == Some(Tok::Char(']')));
                    assert(source.index == q + 2);
                }
                assert(!bad_escape_at(source.chars@, source.index as int));
            }
        }
        let got = match source.get() {
            Ok(g) => g,
            Err(e) => {
                assert(!simple);
                return Err(e);
            },
        };
        proof {
            if simple && set@.len() == 0 {
                assert(source.pos() == q + 1);
                assert(source.next == Some(Tok::Char(']')));
            }
        }
        let cur = match got {
            None => {
                let off = sub_or_zero(source.tell(), here);
                return Err(source.error_str("unterminated character set", off));
            },
            Some(t) => t,
        };
        if cur == Tok::Char(']') && set.len() > 0 {
            break;
        }
        let code1 = match cur {
            Tok::Escape(x) => SetCode::Class(class_escape(source, x)?),
            Tok::Char(ch) => SetCode::Literal(ch as u32),
        };
        if source.take_match('-')? {
            let got_that = source.get()?;
            let that = match got_that {
                None => {
                    let off = sub_or_zero(source.tell(), here);
                    return Err(source.error_str("unterminated character set", off));
                },
                Some(t) => t,
            };
            if that == Tok::Char(']') {
                push_set_code(&mut set, code1);
                set.push(SetItem::Literal('-' as u32));
                break;
            }
            let code2 = match that {
                Tok::Escape(x) => SetCode::Class(class_escape(source, x)?),
                Tok::Char(ch) => SetCode::Literal(ch as u32),
            };
            let (lo, hi) = match (&code1, &code2) {
                (SetCode::Literal(l), SetCode::Literal(h)) => (*l, *h),
                _ => {
                    return Err(bad_range(source, cur, that));
                },
            };
            if hi < lo {
                return Err(bad_range(source, cur, that));
            }
            set.push(SetItem::Range(lo, hi));
        } else {
            push_set_code(&mut set, code1);
        }
    }
    let ghost pre = set@;
    let set = uniq_set(set);
    proof {
        if simple {
            reveal_with_fuel(dedup, 2);
            assert(pre.drop_last() =~= Seq::<SetItem>::empty());
            assert(set@ =~= pre);
        }
        lemma_dedup(pre);
        assert forall|i: int| 0 <= i < set@.len() implies plain_item_ok(#[trigger] set@[i]) by {
            assert(pre.contains(set@[i]));
            let j = choose|j: int| 0 <= j < pre.len() && pre[j] == set@[i];
            assert(plain_item_ok(pre[j]));
        }
    }
    if set.len() == 1 {
        if let SetItem::Literal(cp) = set[0] {
            if negate {
                return Ok(OpCode::NotLiteral(cp));
            } else {
                return Ok(OpCode::Literal(cp));
            }
        }
    }
    let mut final_set = set;
    if negate {
        final_set.insert(0, SetItem::Negate);
    }
    Ok(OpCode::In(final_set))
}

} // verus!

verus! {

/// Reads a run of decimal digits.
fn read_digits(source: &mut Tokenizer) -> (r: Result<Vec<char>, ParseError>)
    requires
        old(source).inv(),
    ensures
        final(source).same_input(*old(source)),
        r matches Err(e) ==> e.pos <= old(source).chars@.len(),
        r matches Ok(d) ==> {
            &&& final(source).inv()
            &&& final(source).rem() <= old(source).rem()
            &&& all_digits_of(d@, 10)
            &&& final(source).pos() == old(source).pos() + d@.len()
            &&& d@ == chars_ahead(*old(source), d@.len() as int)
            &&& !(final(source).next matches Some(Tok::Char(c)) && is_digit(c))
        },
        !old(source).chars@.contains('\\') ==> r is Ok,
{
    let mut d: Vec<char> = Vec::new();
    loop
        invariant
            source.inv(),
            source.same_input(*old(source)),
            old(source).inv(),
            source.rem() <= old(source).rem(),
            all_digits_of(d@, 10),
            source.pos() == old(source).pos() + d@.len(),
            d@ == chars_ahead(*old(source), d@.len() as int),
        ensures
            !(source.next matches Some(Tok::Char(c)) && is_digit(c)),
        decreases source.rem(),
    {
        let c = match source.next {
            Some(Tok::Char(c)) => c,
            _ => break,
        };
        if !('0' <= c && c <= '9') {
            break;
        }
        let ghost before = *source;
        proof {
            if bad_escape_at(source.chars@, source.index as int) {
                assert(old(source).chars@.contains(source.chars@[source.index as int]));
            }
        }
        let _ = source.get()?;
        d.push(c);
        proof {
            assert(token_at(before.chars@, before.pos()) == Some(Tok::Char(c)));
            assert(d@ =~= chars_ahead(*old(source), d@.len() as int));
        }
    }
    Ok(d)
}

/// The value of a repetition bound, refusing bounds of `MAXREPEAT` or more.
fn repeat_bound(source: &Tokenizer, digits: &Vec<char>) -> (r: Result<u32, ParseError>)
    requires
        source.inv(),
        all_digits_of(digits@, 10),
    ensures
        r matches Ok(v) ==> v == digits_value(digits@, 10) && v < MAXREPEAT,
        r matches Err(e) ==> e.pos <= source.chars@.len(),
        digits_value(digits@, 10) < MAXREPEAT ==> r is Ok,
{
    match digits_to_u64(digits.as_slice(), 10) {
        Some(v) => {
            if v >= MAXREPEAT as u64 {
                return Err(source.error_str("the repetition number is too large", 0));
            }
            Ok(v as u32)
        },
        None => Err(source.error_str("the repetition number is too large", 0)),
    }
}

/// The length of the run of decimal digits that starts at `i`.
pub open spec fn digit_run(s: Seq<char>, i: int) -> nat
    decreases s.len() - i,
{
    if 0 <= i < s.len() && is_digit(s[i]) {
        1 + digit_run(s, i + 1)
    } else {
        0
    }
}

/// What `read_digits` read from `p` is the digit run there, and the token
/// after it is where the run ends.
proof fn lemma_read_run(s: Seq<char>, p: int, d: Seq<char>, next: Option<Tok>)
    requires
        0 <= p,
        p + d.len() <= s.len(),
        d == s.subrange(p, p + d.len()),
        all_digits_of(d, 10),
        next == token_at(s, p + d.len()),
        !(next matches Some(Tok::Char(c)) && is_digit(c)),
    ensures
        digit_run(s, p) == d.len(),
{
    assert forall|i: int| 0 <= i < d.len() implies is_digit(#[trigger] s[p + i]) by {
        assert(d[i] == s[p + i]);
    }
    lemma_digit_run(s, p, d.len() as int);
}

/// A digit run of length `n` at `p` that nothing more extends.
proof fn lemma_digit_run(s: Seq<char>, p: int, n: int)
    requires
        0 <= p,
        0 <= n,
        p + n <= s.len(),
        forall|i: int| 0 <= i < n ==> is_digit(#[trigger] s[p + i]),
        p + n == s.len() || !is_digit(s[p + n]),
    ensures
        digit_run(s, p) == n,
    decreases n,
{
    if n > 0 {
        assert(is_digit(s[p + 0]));
        assert forall|i: int| 0 <= i < n - 1 implies is_digit(#[trigger] s[(p + 1) + i]) by {
            assert(is_digit(s[p + (i + 1)]));
        }
        lemma_digit_run(s, p + 1, n - 1);
    }
}

/// Where the lower bound of `{m,n}` (read from `p`, just after the `{`)
/// ends.
pub open spec fn brace_lo_end(s: Seq<char>, p: int) -> int {
    p + digit_run(s, p)
}

pub open spec fn brace_has_comma(s: Seq<char>, p: int) -> bool {
    brace_lo_end(s, p) < s.len() && s[brace_lo_end(s, p)] == ','
}

/// Where the closing `}` of the braces has to stand.
pub open spec fn brace_close(s: Seq<char>, p: int) -> int {
    if brace_has_comma(s, p) {
        brace_lo_end(s, p) + 1 + digit_run(s, brace_lo_end(s, p) + 1)
    } else {
        brace_lo_end(s, p)
    }
}

/// Whether the text after `{` makes a repetition: `m}`, `m,}`, `,n}`,
/// `m,n}` or `,}` (and not `}`).
pub open spec fn brace_repeats(s: Seq<char>, p: int) -> bool {
    &&& brace_close(s, p) < s.len()
    &&& s[brace_close(s, p)] == '}'
    &&& brace_close(s, p) != p
}

pub open spec fn brace_min(s: Seq<char>, p: int) -> int {
    if digit_run(s, p) > 0 {
        digits_value(s.subrange(p, brace_lo_end(s, p)), 10) as int
    } else {
        0
    }
}

pub open spec fn brace_max(s: Seq<char>, p: int) -> int {
    let h = brace_lo_end(s, p) + 1;
    if brace_has_comma(s, p) {
        if digit_run(s, h) > 0 {
            digits_value(s.subrange(h, h + digit_run(s, h)), 10) as int
        } else {
            MAXREPEAT as int
        }
    } else if digit_run(s, p) > 0 {
        brace_min(s, p)
    } else {
        MAXREPEAT as int
    }
}

/// Whether the numbers of the braces after `p` are acceptable bounds: each
/// given one below `MAXREPEAT`, and a given upper bound no smaller than
/// the lower one.
pub open spec fn brace_ok(s: Seq<char>, p: int) -> bool {
    &&& digit_run(s, p) > 0 ==> brace_min(s, p) < MAXREPEAT
    &&& brace_has_comma(s, p) && digit_run(s, brace_lo_end(s, p) + 1) > 0 ==> brace_max(s, p) < MAXREPEAT
        && brace_min(s, p) <= brace_max(s, p)
}

/// Where the text of the repetition `this` ends, its character having
/// ended at `p`: after the closing brace for `{`, else at `p`.
pub open spec fn suffix_end(s: Seq<char>, p: int, this: char) -> int {
    if this == '{' {
        brace_close(s, p) + 1
    } else {
        p
    }
}

/// Whether a repetition is made lazy (`?`) or possessive (`+`) by the
/// character at `e`.
pub open spec fn repeat_modifier_at(s: Seq<char>, e: int) -> bool {
    0 <= e < s.len() && (s[e] == '?' || s[e] == '+')
}

/// The bounds of the repetition `this`, whose text follows from `p`.
pub open spec fn repeat_bounds(this: char, s: Seq<char>, p: int) -> (int, int) {
    if this == '?' {
        (0, 1)
    } else if this == '*' {
        (0, MAXREPEAT as int)
    } else if this == '+' {
        (1, MAXREPEAT as int)
    } else {
        (brace_min(s, p), brace_max(s, p))
    }
}

pub open spec fn is_repeat_op(op: OpCode) -> bool {
    op is MaxRepeat || op is MinRepeat || op is PossessiveRepeat
}

/// Whether `op` repeats `item` between `bounds.0` and `bounds.1` times
/// (greedily, lazily or possessively).
pub open spec fn repeats_with(op: OpCode, bounds: (int, int), item: SubPattern) -> bool {
    match op {
        OpCode::MaxRepeat { min, max, item: i } => min == bounds.0 && max == bounds.1 && i == item,
        OpCode::MinRepeat { min, max, item: i } => min == bounds.0 && max == bounds.1 && i == item,
        OpCode::PossessiveRepeat { min, max, item: i } => min == bounds.0 && max == bounds.1 && i == item,
        _ => false,
    }
}

/// Whether `item` is what a repetition of `last` repeats: the body of a
/// plain non-capturing group, else `last` alone.
pub open spec fn repeated_item(last: OpCode, item: SubPattern) -> bool {
    match last {
        OpCode::Subpattern { group: None, add_flags: 0, del_flags: 0, p } => item == p,
        _ => item.data@ == seq![last],
    }
}

/// Applies the repetition `this` (one of `? * + {`), whose character has
/// just been read, to the last operation of `subpattern`.
fn parse_repeat(
    source: &mut Tokenizer,
    subpattern: &mut SubPattern,
    this: char,
    ng: Ghost<nat>,
    extra: Ghost<Set<u32>>,
) -> (r: Result<(), ParseError>)
    requires
        old(source).inv(),
        this == '?' || this == '*' || this == '+' || this == '{',
        wf_sub(*old(subpattern), ng@, extra@),
        group_ops_ok(old(subpattern).data@),
    ensures
        final(source).same_input(*old(source)),
        r matches Err(e) ==> e.pos <= old(source).chars@.len(),
        r is Ok ==> {
            &&& final(source).inv()
            &&& final(source).rem() <= old(source).rem()
            &&& wf_sub(*final(subpattern), ng@, extra@)
            &&& group_ops_ok(final(subpattern).data@)
        },
        this != '{' && (old(subpattern).data@.len() == 0 || old(subpattern).data@.last() is At) ==> {
            &&& r matches Err(e)
            &&& e.msg@ == "nothing to repeat"@
            &&& e.pos == if old(source).pos() >= 1 {
                old(source).pos() - 1
            } else {
                0
            }
        },
        this != '{' && old(subpattern).data@.len() > 0 && is_repeat_op(old(subpattern).data@.last()) ==> {
            &&& r matches Err(e)
            &&& e.msg@ == "multiple repeat"@
            &&& e.pos == if old(source).pos() >= 1 {
                old(source).pos() - 1
            } else {
                0
            }
        },
        r is Ok && (this != '{' || brace_repeats(old(source).chars@, old(source).pos())) ==> {
            &&& final(subpattern).data@.len() == old(subpattern).data@.len()
            &&& final(subpattern).data@.drop_last() == old(subpattern).data@.drop_last()
            &&& exists|item: SubPattern|
                #[trigger] repeated_item(old(subpattern).data@.last(), item) && repeats_with(
                    final(subpattern).data@.last(),
                    repeat_bounds(this, old(source).chars@, old(source).pos()),
                    item,
                )
        },
        r is Ok && this == '{' && !brace_repeats(old(source).chars@, old(source).pos()) ==> {
            &&& final(subpattern).data@ == old(subpattern).data@.push(OpCode::Literal('{' as u32))
            &&& final(source).pos() == old(source).pos()
        },
        r is Ok && (this != '{' || brace_repeats(old(source).chars@, old(source).pos())) ==> {
            let e = suffix_end(old(source).chars@, old(source).pos(), this);
            &&& final(source).pos() == e + if repeat_modifier_at(old(source).chars@, e) { 1int } else { 0int }
            &&& (final(subpattern).data@.last() is MaxRepeat <==> !repeat_modifier_at(old(source).chars@, e))
        },
        !old(source).chars@.contains('\\') && old(subpattern).data@.len() > 0 && !(old(subpattern).data@.last() is At)
            && !is_repeat_op(old(subpattern).data@.last()) && (this == '{' ==> brace_repeats(
            old(source).chars@,
            old(source).pos(),
        ) && brace_ok(old(source).chars@, old(source).pos())) ==> r is Ok,
{
    let ghost sc = old(source).chars@;
    let ghost p = old(source).pos();
    let here = source.tell();
    let mut min: u32;
    let mut max: u32;
    if this == '?' {
        min = 0;
        max = 1;
    } else if this == '*' {
        min = 0;
        max = MAXREPEAT;
    } else if this == '+' {
        min = 1;
        max = MAXREPEAT;
    } else {
        if source.peek_next_char() == Some('}') {
            subpattern.push(OpCode::Literal('{' as u32));
            return Ok(());
        }
        min = 0;
        max = MAXREPEAT;
        let lo = read_digits(source)?;
        proof {
            lemma_read_run(sc, p, lo@, source.next);
        }
        let ghost lo_end = source.pos();
        let has_comma = source.take_match(',')?;
        proof {
            assert(has_comma == brace_has_comma(sc, p));
        }
        let hi = if has_comma {
            let h = read_digits(source)?;
            proof {
                lemma_read_run(sc, lo_end + 1, h@, source.next);
            }
            h
        } else {
            Vec::new()
        };
        let closed = source.take_match('}')?;
        proof {
            assert(closed <==> (brace_close(sc, p) < sc.len() && sc[brace_close(sc, p)] == '}'));
        }
        if !closed {
            subpattern.push(OpCode::Literal('{' as u32));
            source.seek(here)?;
            return Ok(());
        }
        if lo.len() > 0 {
            min = repeat_bound(source, &lo)?;
        }
        if has_comma {
            if hi.len() > 0 {
                max = repeat_bound(source, &hi)?;
                if max < min {
                    let off = sub_or_zero(source.tell(), here);
                    return Err(source.error_str("min repeat greater than max repeat", off));
                }
            }
        } else if lo.len() > 0 {
            max = min;
        }
        assert(brace_repeats(sc, p));
    }
    assert(min == repeat_bounds(this, sc, p).0 && max == repeat_bounds(this, sc, p).1);
    let n = subpattern.data.len();
    if n == 0 {
        let off = add_capped(sub_or_zero(source.tell(), here), 1);
        return Err(source.error_str("nothing to repeat", off));
    }
    if let OpCode::At(_) = &subpattern.data[n - 1] {
        let off = add_capped(sub_or_zero(source.tell(), here), 1);
        return Err(source.error_str("nothing to repeat", off));
    }
    if is_repeat_opcode(&subpattern.data[n - 1]) {
        let off = add_capped(sub_or_zero(source.tell(), here), 1);
        return Err(source.error_str("multiple repeat", off));
    }
    let ghost before = subpattern.data@;
    let item_op = subpattern.data.pop().unwrap();
    assert(wf_op(item_op, ng@, extra@));
    let inner = match item_op {
        OpCode::Subpattern { group: None, add_flags: 0, del_flags: 0, p } => p,
        other => {
            let ghost o = other;
            let mut sp = SubPattern::new();
            sp.push(other);
            assert(sp.data@ =~= seq![o]);
            sp
        },
    };
    let ghost inner_g = inner;
    proof {
        assert(before == old(subpattern).data@);
        assert(repeated_item(before.last(), inner_g));
    }
    let repeat = if source.take_match('?')? {
        OpCode::MinRepeat { min, max, item: inner }
    } else if source.take_match('+')? {
        OpCode::PossessiveRepeat { min, max, item: inner }
    } else {
        OpCode::MaxRepeat { min, max, item: inner }
    };
    subpattern.push(repeat);
    proof {
        assert(repeats_with(subpattern.data@.last(), repeat_bounds(this, sc, p), inner_g));
        assert(subpattern.data@.drop_last() =~= before.drop_last());
        assert forall|i: int| 0 <= i < subpattern.data@.len() implies wf_op(#[trigger] subpattern.data@[i], ng@, extra@) by {
            if i < n - 1 {
                assert(subpattern.data@[i] == before[i]);
            }
        }
        assert forall|i: int| 0 <= i < subpattern.data@.len() implies group_op_ok(#[trigger] subpattern.data@[i]) by {
            if i < n - 1 {
                assert(subpattern.data@[i] == before[i]);
            }
        }
    }
    Ok(())
}

/// The first character of a token.
fn tok_first(t: Tok) -> (c: char)
    ensures
        c == match t {
            Tok::Char(x) => x,
            Tok::Escape(_) => '\\',
        },
{
    match t {
        Tok::Char(x) => x,
        Tok::Escape(_) => '\\',
    }
}

pub open spec fn tok_first_spec(t: Tok) -> char {
    match t {
        Tok::Char(x) => x,
        Tok::Escape(_) => '\\',
    }
}

/// An error about an unexpected flag token: "unknown flag" for letters,
/// `otherwise` for anything else.
fn flag_error(source: &Tokenizer, t: Tok, otherwise: &str) -> (e: ParseError)
    requires
        source.inv(),
    ensures
        e.pos <= source.chars@.len(),
        e.msg@ == if spec_is_alphabetic(tok_first_spec(t)) { "unknown flag"@ } else { otherwise@ },
        e.pos == if source.pos() >= tok_len(Some(t)) { source.pos() - tok_len(Some(t)) } else { 0 },
{
    let msg = if is_alphabetic(tok_first(t)) { "unknown flag" } else { otherwise };
    source.error_str(msg, tok_count(t))
}

/// The inline flags of `(?aiLmsux-imsx:...)` or `(?aiLmsux)`, starting at
/// `first_ch`. `Ok(None)` means global flags, which have been added to
/// `flags`.
fn parse_flags(source: &mut Tokenizer, flags: &mut u32, first_ch: char) -> (r: Result<Option<(u32, u32)>, ParseError>)
    requires
        old(source).inv(),
        spec_flag(first_ch) is Some || first_ch == '-',
    ensures
        final(source).same_input(*old(source)),
        r matches Err(e) ==> e.pos <= old(source).chars@.len(),
        r is Ok ==> final(source).inv() && final(source).rem() <= old(source).rem(),
        r matches Ok(Some((a, d))) ==> a & d == 0 && *final(flags) == *old(flags),
        r matches Ok(None) ==> *final(flags) & *old(flags) == *old(flags),
{
    let mut add_flags: u32 = 0;
    let mut del_flags: u32 = 0;
    let mut ch: Tok = Tok::Char(first_ch);
    if first_ch != '-' {
        loop
            invariant_except_break
                ch matches Tok::Char(c) && spec_flag(c) is Some,
            invariant
                source.inv(),
                source.same_input(*old(source)),
                source.rem() <= old(source).rem(),
                *flags == *old(flags),
            ensures
                source.inv(),
                source.same_input(*old(source)),
                source.rem() <= old(source).rem(),
                ch == Tok::Char(')') || ch == Tok::Char('-') || ch == Tok::Char(':'),
                *flags == *old(flags),
            decreases source.rem(),
        {
            let c = tok_first(ch);
            let flag = flag_for_char(c).unwrap();
            if source.istext && c == 'L' {
                return Err(source.error_str("bad inline flags: cannot use 'L' flag with a str pattern", 0));
            }
            if !source.istext && c == 'u' {
                return Err(source.error_str("bad inline flags: cannot use 'u' flag with a bytes pattern", 0));
            }
            add_flags = add_flags | flag;
            if flag & TYPE_FLAGS != 0 && (add_flags & TYPE_FLAGS) != flag {
                return Err(source.error_str("bad inline flags: flags 'a', 'u' and 'L' are incompatible", 0));
            }
            let got = source.get()?;
            let n = match got {
                None => {
                    return Err(source.error_str("missing -, : or )", 0));
                },
                Some(n) => n,
            };
            ch = n;
            if ch == Tok::Char(')') || ch == Tok::Char('-') || ch == Tok::Char(':') {
                break;
            }
            if flag_for_char(tok_first(ch)).is_none() {
                return Err(flag_error(source, ch, "missing -, : or )"));
            }
        }
    }
    if ch == Tok::Char(')') {
        let before = *flags;
        *flags = before | add_flags;
        assert((before | add_flags) & before == before) by (bit_vector);
        return Ok(None);
    }
    if add_flags & GLOBAL_FLAGS != 0 {
        return Err(source.error_str("bad inline flags: cannot turn on global flag", 1));
    }
    if ch == Tok::Char('-') {
        let got = source.get()?;
        let n = match got {
            None => {
                return Err(source.error_str("missing flag", 0));
            },
            Some(n) => n,
        };
        ch = n;
        if flag_for_char(tok_first(ch)).is_none() {
            return Err(flag_error(source, ch, "missing flag"));
        }
        loop
            invariant_except_break
                spec_flag(tok_first_spec(ch)) is Some,
            invariant
                source.inv(),
                source.same_input(*old(source)),
                source.rem() <= old(source).rem(),
            ensures
                source.inv(),
                source.same_input(*old(source)),
                source.rem() <= old(source).rem(),
            decreases source.rem(),
        {
            let flag = flag_for_char(tok_first(ch)).unwrap();
            if flag & TYPE_FLAGS != 0 {
                return Err(source.error_str("bad inline flags: cannot turn off flags 'a', 'u' and 'L'", 0));
            }
            del_flags = del_flags | flag;
            let got = source.get()?;
            let n = match got {
                None => {
                    return Err(source.error_str("missing :", 0));
                },
                Some(n) => n,
            };
            ch = n;
            if ch == Tok::Char(':') {
                break;
            }
            if flag_for_char(tok_first(ch)).is_none() {
                return Err(flag_error(source, ch, "missing :"));
            }
        }
    }
    if del_flags & GLOBAL_FLAGS != 0 {
        return Err(source.error_str("bad inline flags: cannot turn off global flag", 1));
    }
    if add_flags & del_flags != 0 {
        return Err(source.error_str("bad inline flags: flag turned on and off", 1));
    }
    Ok(Some((add_flags, del_flags)))
}

} // verus!

verus! {

/// Structural equality of operations.
pub open spec fn op_same(a: OpCode, b: OpCode) -> bool
    decreases a,
{
    match a {
        OpCode::Literal(x) => b == OpCode::Literal(x),
        OpCode::NotLiteral(x) => b == OpCode::NotLiteral(x),
        OpCode::Any => b is Any,
        OpCode::At(x) => b == OpCode::At(x),
        OpCode::Failure => b is Failure,
        OpCode::GroupRef(x) => b == OpCode::GroupRef(x),
        OpCode::In(x) => b matches OpCode::In(y) && x@ == y@,
        OpCode::Branch(x) => b matches OpCode::Branch(y) && x@.len() == y@.len() && forall|i: int|
            0 <= i < x@.len() ==> sub_same(#[trigger] x@[i], y@[i]),
        OpCode::Subpattern { group, add_flags, del_flags, p } => b matches OpCode::Subpattern {
            group: g2,
            add_flags: a2,
            del_flags: d2,
            p: p2,
        } && group == g2 && add_flags == a2 && del_flags == d2 && sub_same(p, p2),
        OpCode::GroupRefExists { cond_group, yes, no } => b matches OpCode::GroupRefExists {
            cond_group: c2,
            yes: y2,
            no: n2,
        } && cond_group == c2 && sub_same(yes, y2) && match no {
            None => n2 is None,
            Some(n) => n2 matches Some(m) && sub_same(n, m),
        },
        OpCode::Assert { direction, p } => b matches OpCode::Assert { direction: d2, p: p2 } && direction
            == d2 && sub_same(p, p2),
        OpCode::AssertNot { direction, p } => b matches OpCode::AssertNot { direction: d2, p: p2 }
            && direction == d2 && sub_same(p, p2),
        OpCode::AtomicGroup(p) => b matches OpCode::AtomicGroup(p2) && sub_same(p, p2),
        OpCode::MaxRepeat { min, max, item } => b matches OpCode::MaxRepeat { min: m2, max: x2, item: i2 }
            && min == m2 && max == x2 && sub_same(item, i2),
        OpCode::MinRepeat { min, max, item } => b matches OpCode::MinRepeat { min: m2, max: x2, item: i2 }
            && min == m2 && max == x2 && sub_same(item, i2),
        OpCode::PossessiveRepeat { min, max, item } => b matches OpCode::PossessiveRepeat {
            min: m2,
            max: x2,
            item: i2,
        } && min == m2 && max == x2 && sub_same(item, i2),
    }
}

/// Structural equality of operation sequences.
pub open spec fn sub_same(a: SubPattern, b: SubPattern) -> bool
    decreases a,
{
    a.data@.len() == b.data@.len() && forall|i: int|
        0 <= i < a.data@.len() ==> op_same(#[trigger] a.data@[i], b.data@[i])
}

fn set_items_equal(a: &Vec<SetItem>, b: &Vec<SetItem>) -> (r: bool)
    ensures
        r == (a@ == b@),
{
    if a.len() != b.len() {
        return false;
    }
    let mut i: usize = 0;
    while i < a.len()
        invariant
            a@.len() == b@.len(),
            i <= a@.len(),
            forall|j: int| 0 <= j < i ==> a@[j] == b@[j],
        decreases a@.len() - i,
    {
        if a[i] != b[i] {
            return false;
        }
        i += 1;
    }
    assert(a@ =~= b@);
    true
}

/// Whether two operations are structurally equal.
pub fn op_eq(a: &OpCode, b: &OpCode) -> (r: bool)
    ensures
        r == op_same(*a, *b),
    decreases *a,
{
    match (a, b) {
        (OpCode::Literal(x), OpCode::Literal(y)) => *x == *y,
        (OpCode::NotLiteral(x), OpCode::NotLiteral(y)) => *x == *y,
        (OpCode::Any, OpCode::Any) => true,
        (OpCode::At(x), OpCode::At(y)) => *x == *y,
        (OpCode::Failure, OpCode::Failure) => true,
        (OpCode::GroupRef(x), OpCode::GroupRef(y)) => *x == *y,
        (OpCode::In(x), OpCode::In(y)) => set_items_equal(x, y),
        (OpCode::Branch(x), OpCode::Branch(y)) => {
            if x.len() != y.len() {
                return false;
            }
            let mut i: usize = 0;
            while i < x.len()
                invariant
                    *a == OpCode::Branch(*x),
                    *b == OpCode::Branch(*y),
                    x@.len() == y@.len(),
                    i <= x@.len(),
                    forall|j: int| 0 <= j < i ==> sub_same(#[trigger] x@[j], y@[j]),
                decreases x@.len() - i,
            {
                proof {
                    assert(decreases_to!(*a => (*a)->Branch_0));
                    assert((*a)->Branch_0 == *x);
                    assert(decreases_to!(*x => x@));
                    assert(decreases_to!(x@ => x@[i as int]));
                    assert(decreases_to!(*a => x@[i as int]));
                }
                if !sub_eq(&x[i], &y[i]) {
                    return false;
                }
                i += 1;
            }
            true
        },
        (
            OpCode::Subpattern { group, add_flags, del_flags, p },
            OpCode::Subpattern { group: g2, add_flags: a2, del_flags: d2, p: p2 },
        ) => *group == *g2 && *add_flags == *a2 && *del_flags == *d2 && sub_eq(p, p2),
        (
            OpCode::GroupRefExists { cond_group, yes, no },
            OpCode::GroupRefExists { cond_group: c2, yes: y2, no: n2 },
        ) => {
            if *cond_group != *c2 || !sub_eq(yes, y2) {
                return false;
            }
            match (no, n2) {
                (None, None) => true,
                (Some(n), Some(m)) => sub_eq(n, m),
                _ => false,
            }
        },
        (OpCode::Assert { direction, p }, OpCode::Assert { direction: d2, p: p2 }) => *direction == *d2
            && sub_eq(p, p2),
        (OpCode::AssertNot { direction, p }, OpCode::AssertNot { direction: d2, p: p2 }) => *direction
            == *d2 && sub_eq(p, p2),
        (OpCode::AtomicGroup(p), OpCode::AtomicGroup(p2)) => sub_eq(p, p2),
        (OpCode::MaxRepeat { min, max, item }, OpCode::MaxRepeat { min: m2, max: x2, item: i2 }) => *min
            == *m2 && *max == *x2 && sub_eq(item, i2),
        (OpCode::MinRepeat { min, max, item }, OpCode::MinRepeat { min: m2, max: x2, item: i2 }) => *min
            == *m2 && *max == *x2 && sub_eq(item, i2),
        (
            OpCode::PossessiveRepeat { min, max, item },
            OpCode::PossessiveRepeat { min: m2, max: x2, item: i2 },
        ) => *min == *m2 && *max == *x2 && sub_eq(item, i2),
        _ => false,
    }
}

/// Whether two operation sequences are structurally equal.
pub fn sub_eq(a: &SubPattern, b: &SubPattern) -> (r: bool)
    ensures
        r == sub_same(*a, *b),
    decreases *a,
{
    if a.data.len() != b.data.len() {
        return false;
    }
    let mut i: usize = 0;
    while i < a.data.len()
        invariant
            a.data@.len() == b.data@.len(),
            i <= a.data@.len(),
            forall|j: int| 0 <= j < i ==> op_same(#[trigger] a.data@[j], b.data@[j]),
        decreases a.data@.len() - i,
    {
        proof {
            assert(decreases_to!(*a => a.data@[i as int]));
        }
        if !op_eq(&a.data[i], &b.data[i]) {
            return false;
        }
        i += 1;
    }
    true
}

} // verus!

verus! {

/// What parsing after an opening parenthesis produced.
pub enum GroupOutcome {
    /// An operation to append.
    Op(OpCode),
    /// A comment: nothing to append.
    Skip,
    /// Global inline flags, now in the state's flags.
    GlobalFlags,
}

/// The common postcondition of the parsing functions that succeed.
pub open spec fn parse_ok(old_src: Tokenizer, src: Tokenizer, old_st: State, st: State) -> bool {
    &&& src.same_input(old_src)
    &&& src.inv()
    &&& src.rem() <= old_src.rem()
    &&& st.inv(old_src.chars@.len())
    &&& old_st.grows_to(st)
}

pub open spec fn is_special(c: char) -> bool {
    c == '.' || c == '\\' || c == '[' || c == '{' || c == '(' || c == ')' || c == '*' || c == '+' || c == '?'
        || c == '^' || c == '$' || c == '|'
}

fn is_special_char(c: char) -> (r: bool)
    ensures
        r == is_special(c),
{
    c == '.' || c == '\\' || c == '[' || c == '{' || c == '(' || c == ')' || c == '*' || c == '+' || c == '?'
        || c == '^' || c == '$' || c == '|'
}

/// Whether `c` is one item of a pattern on its own outside verbose mode: a
/// character that is not a metacharacter (it stands for itself), `.`, `^`
/// or `$`.
pub open spec fn is_atom_char(c: char) -> bool {
    !is_special(c) || c == '.' || c == '^' || c == '$'
}

/// Whether every character of `s` is an item on its own: no backslash,
/// class, group, repeat or alternation.
pub open spec fn atom_text(s: Seq<char>) -> bool {
    forall|i: int| 0 <= i < s.len() ==> is_atom_char(#[trigger] s[i])
}

/// The item that an atom character stands for.
pub open spec fn atom_op(c: char) -> OpCode {
    if c == '.' {
        OpCode::Any
    } else if c == '^' {
        OpCode::At(AtCode::Beginning)
    } else if c == '$' {
        OpCode::At(AtCode::End)
    } else {
        OpCode::Literal(c as u32)
    }
}

/// The items that the atom characters of `s` stand for, in order.
pub open spec fn atoms(s: Seq<char>) -> Seq<OpCode> {
    s.map_values(|c: char| atom_op(c))
}

/// Whether `s` starts with `k` atom characters followed by the end of `s`
/// or a closing parenthesis.
pub open spec fn atoms_until_close(s: Seq<char>, k: int) -> bool {
    &&& 0 <= k <= s.len()
    &&& atom_text(s.take(k))
    &&& (k < s.len() ==> s[k] == ')')
}

/// Whether `s` starts with `k` atom characters followed by the end of `s`,
/// a closing parenthesis or a `|`: one alternative of plain text.
pub open spec fn atoms_until_end(s: Seq<char>, k: int) -> bool {
    &&& 0 <= k <= s.len()
    &&& atom_text(s.take(k))
    &&& (k < s.len() ==> s[k] == ')' || s[k] == '|')
}

/// Whether `s` starts with exactly `k` atom characters: the first `k` are
/// atoms and the next one, if any, is not.
pub open spec fn atoms_then(s: Seq<char>, k: int) -> bool {
    &&& 0 <= k <= s.len()
    &&& atom_text(s.take(k))
    &&& (k < s.len() ==> !is_atom_char(s[k]))
}

/// Whether `s` starts with `k` atom characters and then a repeat (`*`, `+`
/// or `?`) with nothing to repeat: at the very start, or after an anchor
/// (and the repeat is not followed by a lone backslash at the very end,
/// which is refused first).
pub open spec fn nothing_to_repeat_at(s: Seq<char>, k: int) -> bool {
    &&& atoms_then(s, k)
    &&& k < s.len()
    &&& (s[k] == '*' || s[k] == '+' || s[k] == '?')
    &&& (k == 0 || s[k - 1] == '^' || s[k - 1] == '$')
    &&& !(k + 2 == s.len() && s[k + 1] == '\\')
}

/// Every sequence starts with some number of atom characters.
proof fn lemma_atoms_then_exists(s: Seq<char>)
    ensures
        exists|k: int| atoms_then(s, k),
    decreases s.len(),
{
    if s.len() == 0 {
        assert(atoms_then(s, 0));
    } else {
        lemma_atoms_then_exists(s.drop_last());
        let t = s.drop_last();
        let k = choose|k: int| atoms_then(t, k);
        if k < t.len() {
            assert(s.take(k) =~= t.take(k));
            assert(s[k] == t[k]);
            assert(atoms_then(s, k));
        } else if is_atom_char(s.last()) {
            assert forall|i: int| 0 <= i < s.len() implies is_atom_char(#[trigger] s.take(s.len() as int)[i]) by {
                if i < t.len() {
                    assert(t.take(k)[i] == s[i]);
                }
            }
            assert(atoms_then(s, s.len() as int));
        } else {
            assert(s.take(k) =~= t.take(k));
            assert(atoms_then(s, k));
        }
    }
}

/// A sequence starts with one number of atom characters only.
proof fn lemma_atoms_then_unique(s: Seq<char>, k1: int, k2: int)
    requires
        atoms_then(s, k1),
        atoms_then(s, k2),
    ensures
        k1 == k2,
{
    if k1 < k2 {
        assert(s.take(k2)[k1] == s[k1]);
        assert(is_atom_char(s.take(k2)[k1]));
    } else if k2 < k1 {
        assert(s.take(k1)[k2] == s[k2]);
        assert(is_atom_char(s.take(k1)[k2]));
    }
}

/// At most one length of atoms is followed by the end or a closing
/// parenthesis (which is no atom).
proof fn lemma_atoms_until_close_unique(s: Seq<char>, k1: int, k2: int)
    requires
        atoms_until_close(s, k1),
        atoms_until_close(s, k2),
    ensures
        k1 == k2,
{
    lemma_atoms_then_unique(s, k1, k2);
}

pub open spec fn is_verbose_space(c: char) -> bool {
    c == ' ' || c == '\t' || c == '\n' || c == '\r' || c == '\x0b' || c == '\x0c'
}

fn is_whitespace(c: char) -> (r: bool)
    ensures
        r == is_verbose_space(c),
{
    c == ' ' || c == '\t' || c == '\n' || c == '\r' || c == '\x0b' || c == '\x0c'
}

/// `prefix` followed by some characters and `suffix`.
fn msg3(prefix: &str, mid: &Vec<char>, suffix: &str) -> (s: String)
    ensures
        s@ == prefix@ + mid@ + suffix@,
{
    let mut m = String::from_str(prefix);
    m.append(&chars_to_string(mid.as_slice()));
    m.append(suffix);
    m
}

/// Whether every character is an ASCII digit.
fn all_ascii_digits(s: &Vec<char>) -> (r: bool)
    ensures
        r == all_digits_of(s@, 10),
{
    let mut i: usize = 0;
    while i < s.len()
        invariant
            i <= s@.len(),
            forall|j: int| 0 <= j < i ==> is_digit(#[trigger] s@[j]),
        decreases s@.len() - i,
    {
        if !('0' <= s[i] && s[i] <= '9') {
            return false;
        }
        i += 1;
    }
    true
}

/// Whether a conditional has already named group `g`.
fn has_ref(refs: &Vec<(u32, usize)>, g: u32) -> (r: bool)
    ensures
        r == ref_keys(refs@).contains(g),
{
    let mut i: usize = 0;
    while i < refs.len()
        invariant
            i <= refs@.len(),
            forall|j: int| 0 <= j < i ==> (#[trigger] refs@[j]).0 != g,
        decreases refs@.len() - i,
    {
        if refs[i].0 == g {
            assert(refs@[i as int].0 == g);
            return true;
        }
        i += 1;
    }
    false
}

/// An alternation, `a|b|c`.
/// How many atom characters `s` starts with.
pub open spec fn alt_len(s: Seq<char>) -> int {
    choose|k: int| atoms_then(s, k)
}

/// Whether `s` is alternatives of atom characters separated by `|`, up to
/// its end or a closing parenthesis.
pub open spec fn plain_alts(s: Seq<char>) -> bool
    decreases s.len(),
{
    let k = alt_len(s);
    if 0 <= k < s.len() && s[k] == '|' {
        plain_alts(s.skip(k + 1))
    } else {
        k == s.len() || (0 <= k < s.len() && s[k] == ')')
    }
}

/// The text of each of those alternatives.
pub open spec fn alts(s: Seq<char>) -> Seq<Seq<char>>
    decreases s.len(),
{
    let k = alt_len(s);
    if 0 <= k < s.len() && s[k] == '|' {
        seq![s.take(k)] + alts(s.skip(k + 1))
    } else {
        seq![s.take(k)]
    }
}

/// Where those alternatives end.
pub open spec fn alts_end(s: Seq<char>) -> int
    decreases s.len(),
{
    let k = alt_len(s);
    if 0 <= k < s.len() && s[k] == '|' {
        k + 1 + alts_end(s.skip(k + 1))
    } else {
        k
    }
}

/// The operations of alternatives of atom characters.
pub open spec fn atom_alts(parts: Seq<Seq<char>>) -> Seq<Seq<OpCode>> {
    parts.map_values(|a: Seq<char>| atoms(a))
}

/// Alternatives of plain text do not start with a backslash.
proof fn lemma_plain_alts_first(s: Seq<char>)
    requires
        plain_alts(s),
        s.len() > 0,
    ensures
        s[0] != '\\',
{
    lemma_atoms_then_exists(s);
    let k = alt_len(s);
    if k > 0 {
        assert(s.take(k)[0] == s[0]);
    }
}

/// The operations of each alternative.
pub open spec fn datas(items: Seq<SubPattern>) -> Seq<Seq<OpCode>> {
    items.map_values(|sp: SubPattern| sp.data@)
}

/// Each alternative without its first operation.
pub open spec fn tails(its: Seq<Seq<OpCode>>) -> Seq<Seq<OpCode>> {
    its.map_values(|x: Seq<OpCode>| x.drop_first())
}

/// Whether every alternative starts with the same operation as the first.
pub open spec fn all_share_first(its: Seq<Seq<OpCode>>) -> bool {
    &&& its.len() > 0
    &&& its[0].len() > 0
    &&& forall|i: int| 1 <= i < its.len() ==> (#[trigger] its[i]).len() > 0 && op_same(its[i][0], its[0][0])
}

/// The operations that all alternatives start with, hoisted out in front.
pub open spec fn common_prefix(its: Seq<Seq<OpCode>>) -> Seq<OpCode>
    decreases (if its.len() > 0 { its[0].len() } else { 0 }),
{
    if all_share_first(its) {
        seq![its[0][0]] + common_prefix(tails(its))
    } else {
        Seq::empty()
    }
}

/// What remains of the alternatives once their common prefix is hoisted.
pub open spec fn after_prefix(its: Seq<Seq<OpCode>>) -> Seq<Seq<OpCode>>
    decreases (if its.len() > 0 { its[0].len() } else { 0 }),
{
    if all_share_first(its) {
        after_prefix(tails(its))
    } else {
        its
    }
}

/// The set items an alternative of one operation contributes to a
/// character set: a literal, or the items of a class that is not negated.
pub open spec fn set_part(x: Seq<OpCode>) -> Option<Seq<SetItem>> {
    if x.len() != 1 {
        None
    } else {
        match x[0] {
            OpCode::Literal(cp) => Some(seq![SetItem::Literal(cp)]),
            OpCode::In(inner) => if inner@.len() > 0 && inner@[0] is Negate {
                None
            } else {
                Some(inner@)
            },
            _ => None,
        }
    }
}

/// The set items of alternatives that are all single characters or
/// classes, in order; `None` when one is not.
pub open spec fn flatten_alts(its: Seq<Seq<OpCode>>) -> Option<Seq<SetItem>>
    decreases its.len(),
{
    if its.len() == 0 {
        Some(Seq::empty())
    } else {
        match (flatten_alts(its.drop_last()), set_part(its.last())) {
            (Some(a), Some(b)) => Some(a + b),
            _ => None,
        }
    }
}

/// Whether `data` is how alternatives `its` are joined: their common
/// prefix, then one character set when what remains of each is a single
/// character or class, else a branch over what remains.
pub open spec fn joined(data: Seq<OpCode>, its: Seq<Seq<OpCode>>) -> bool {
    let pre = common_prefix(its);
    let alts = after_prefix(its);
    &&& data.len() == pre.len() + 1
    &&& data.take(pre.len() as int) == pre
    &&& match flatten_alts(alts) {
        Some(set) => data.last() matches OpCode::In(u) && u@ == dedup(set),
        None => data.last() matches OpCode::Branch(bs) && bs@.len() == alts.len() && forall|i: int|
            0 <= i < alts.len() ==> #[trigger] bs@[i].data@ == alts[i],
    }
}

/// A failed prefix fails the whole.
proof fn lemma_flatten_none(its: Seq<Seq<OpCode>>, k: int)
    requires
        0 <= k <= its.len(),
        flatten_alts(its.take(k)) is None,
    ensures
        flatten_alts(its) is None,
    decreases its.len() - k,
{
    if k < its.len() {
        assert(its.take(k + 1).drop_last() =~= its.take(k));
        lemma_flatten_none(its, k + 1);
    } else {
        assert(its.take(k) =~= its);
    }
}

fn parse_sub(source: &mut Tokenizer, state: &mut State, verbose_at_start: bool, nested: u32) -> (r: Result<
    SubPattern,
    ParseError,
>)
    requires
        old(source).inv(),
        old(state).inv(old(source).chars@.len()),
    ensures
        final(source).same_input(*old(source)),
        r matches Err(e) ==> e.pos <= old(source).chars@.len(),
        r matches Ok(sp) ==> {
            &&& parse_ok(*old(source), *final(source), *old(state), *final(state))
            &&& wf_sub(sp, final(state).ngroups(), final(state).extra())
            &&& no_trivial_groups(sp.data@)
            &&& (final(source).next is None || final(source).next == Some(Tok::Char(')')))
        },
        forall|k: int|
            !verbose_at_start && #[trigger] atoms_until_close(old(source).chars@.skip(old(source).pos()), k) ==> {
                &&& r matches Ok(sp) && sp.data@ == atoms(old(source).chars@.skip(old(source).pos()).take(k))
                &&& final(source).pos() == old(source).pos() + k
                &&& *final(state) == *old(state)
            },
        forall|k: int|
            !verbose_at_start && #[trigger] nothing_to_repeat_at(old(source).chars@.skip(old(source).pos()), k) ==> {
                &&& r matches Err(e)
                &&& e.msg@ == "nothing to repeat"@
                &&& e.pos == old(source).pos() + k
            },
        forall|k: int|
            !verbose_at_start && #[trigger] one_repeat_until_close(old(source).chars@, old(source).pos(), k) ==> {
                let sc = old(source).chars@;
                let p0 = old(source).pos();
                let c = sc.skip(p0)[k];
                &&& r matches Ok(sp) && atoms_then_repeat(
                    sp.data@,
                    sc.skip(p0),
                    k,
                    repeat_bounds(c, sc, p0 + k + 1),
                )
                &&& final(source).pos() == suffix_end(sc, p0 + k + 1, c)
                &&& *final(state) == *old(state)
            },
        forall|k: int|
            !verbose_at_start && #[trigger] repeat_repeated(old(source).chars@, old(source).pos(), k) ==> {
                &&& r matches Err(e)
                &&& e.msg@ == "multiple repeat"@
                &&& e.pos == old(source).pos() + k + 1
            },
        !verbose_at_start && old(state).ngroups() < MAXGROUPS && unterminated_group(
            old(source).chars@.skip(old(source).pos()),
        ) ==> {
            &&& r matches Err(e)
            &&& e.msg@ == "missing ), unterminated subpattern"@
            &&& e.pos == old(source).pos()
        },
        ({
            let rest = old(source).chars@.skip(old(source).pos());
            !verbose_at_start && (nested > 0 || old(state).flags & SRE_FLAG_VERBOSE == 0) && plain_alts(rest)
                && alts(rest).len() >= 2
        }) ==> {
            let rest = old(source).chars@.skip(old(source).pos());
            &&& r matches Ok(sp) && joined(sp.data@, atom_alts(alts(rest)))
            &&& final(source).pos() == old(source).pos() + alts_end(rest)
            &&& *final(state) == *old(state)
        },
    decreases old(source).rem(), 1int,
{
    let ghost start = source.pos();
    let ghost rest = source.chars@.skip(start);
    proof {
        lemma_atoms_then_exists(rest);
    }
    let ghost k = choose|k: int| atoms_then(rest, k);
    let ghost plain_in = !verbose_at_start && (atoms_until_close(rest, k) || nothing_to_repeat_at(rest, k));
    proof {
        assert forall|k2: int| #[trigger] atoms_until_close(rest, k2) implies k2 == k && (plain_in
            || verbose_at_start) by {
            lemma_atoms_then_unique(rest, k, k2);
        }
        assert forall|k2: int| #[trigger] nothing_to_repeat_at(rest, k2) implies k2 == k && (plain_in
            || verbose_at_start) by {
            lemma_atoms_then_unique(rest, k, k2);
        }
    }
    let ghost sc = old(source).chars@;
    let ghost rep_in = !verbose_at_start && one_repeat_until_close(sc, start, k);
    let ghost rr_in = !verbose_at_start && repeat_repeated(sc, start, k);
    let ghost grp_in = !verbose_at_start && old(state).ngroups() < MAXGROUPS && unterminated_group(rest);
    let ghost rep_end = suffix_end(sc, start + k + 1, rest[k]);
    let ghost rep_b = repeat_bounds(rest[k], sc, start + k + 1);
    proof {
        assert forall|k2: int| #[trigger] one_repeat_until_close(sc, start, k2) implies k2 == k && (rep_in
            || verbose_at_start) by {
            lemma_atoms_then_unique(rest, k, k2);
        }
        assert forall|k2: int| #[trigger] repeat_repeated(sc, start, k2) implies k2 == k && (rr_in
            || verbose_at_start) by {
            lemma_atoms_then_unique(rest, k, k2);
        }
    }
    let ghost alts_in = !verbose_at_start && (nested > 0 || old(state).flags & SRE_FLAG_VERBOSE == 0)
        && plain_alts(rest);
    let ghost mut cur: int = 0;
    let ghost mut done: Seq<Seq<char>> = Seq::empty();
    proof {
        assert(rest.skip(0) =~= rest);
        assert(done + alts(rest) =~= alts(rest));
        assert(0 <= start <= sc.len());
    }
    let mut items: Vec<SubPattern> = Vec::new();
    let mut verbose = verbose_at_start;
    loop
        invariant_except_break
            plain_in ==> items@.len() == 0 && *source == *old(source) && *state == *old(state) && !verbose,
            rep_in ==> items@.len() == 0 && *source == *old(source) && *state == *old(state) && !verbose,
            rr_in ==> items@.len() == 0 && *source == *old(source) && *state == *old(state) && !verbose,
            grp_in ==> items@.len() == 0 && *source == *old(source) && *state == *old(state) && !verbose,
            alts_in ==> {
                &&& !verbose
                &&& *state == *old(state)
                &&& 0 <= cur <= rest.len()
                &&& source.pos() == start + cur
                &&& plain_alts(rest.skip(cur))
                &&& alts(rest) == done + alts(rest.skip(cur))
                &&& alts_end(rest) == cur + alts_end(rest.skip(cur))
                &&& datas(items@) == atom_alts(done)
            },
        invariant
            0 <= start <= sc.len(),
            alts_in == (!verbose_at_start && (nested > 0 || old(state).flags & SRE_FLAG_VERBOSE == 0)
                && plain_alts(rest)),
            rr_in == (!verbose_at_start && repeat_repeated(sc, start, k)),
            forall|k2: int| #[trigger] repeat_repeated(sc, start, k2) ==> k2 == k && (rr_in || verbose_at_start),
            grp_in == (!verbose_at_start && old(state).ngroups() < MAXGROUPS && unterminated_group(rest)),
            sc == old(source).chars@,
            rep_in == (!verbose_at_start && one_repeat_until_close(sc, start, k)),
            rep_end == suffix_end(sc, start + k + 1, rest[k]),
            rep_b == repeat_bounds(rest[k], sc, start + k + 1),
            forall|k2: int| #[trigger] one_repeat_until_close(sc, start, k2) ==> k2 == k && (rep_in
                || verbose_at_start),
            parse_ok(*old(source), *source, *old(state), *state),
            forall|i: int| 0 <= i < items@.len() ==> wf_sub(#[trigger] items@[i], state.ngroups(), state.extra()),
            forall|i: int| 0 <= i < items@.len() ==> no_trivial_groups(#[trigger] items@[i].data@),
            start == old(source).pos(),
            rest == old(source).chars@.skip(start),
            atoms_then(rest, k),
            plain_in == (!verbose_at_start && (atoms_until_close(rest, k) || nothing_to_repeat_at(rest, k))),
            forall|k2: int| #[trigger] atoms_until_close(rest, k2) ==> k2 == k && (plain_in || verbose_at_start),
            forall|k2: int| #[trigger] nothing_to_repeat_at(rest, k2) ==> k2 == k && (plain_in || verbose_at_start),
        ensures
            parse_ok(*old(source), *source, *old(state), *state),
            items@.len() >= 1,
            forall|i: int| 0 <= i < items@.len() ==> wf_sub(#[trigger] items@[i], state.ngroups(), state.extra()),
            forall|i: int| 0 <= i < items@.len() ==> no_trivial_groups(#[trigger] items@[i].data@),
            source.next is None || source.next == Some(Tok::Char(')')),
            plain_in ==> {
                &&& atoms_until_close(rest, k)
                &&& items@.len() == 1
                &&& items@[0].data@ == atoms(rest.take(k))
                &&& source.pos() == start + k
                &&& *state == *old(state)
            },
            !rr_in,
            !grp_in,
            alts_in ==> {
                &&& datas(items@) == atom_alts(alts(rest))
                &&& source.pos() == start + alts_end(rest)
                &&& *state == *old(state)
            },
            rep_in ==> {
                &&& items@.len() == 1
                &&& atoms_then_repeat(items@[0].data@, rest, k, rep_b)
                &&& source.pos() == rep_end
                &&& *state == *old(state)
            },
        decreases source.rem(),
    {
        let ghost rs = rest.skip(cur);
        let ghost ka = alt_len(rs);
        proof {
            if alts_in {
                lemma_atoms_then_exists(rs);
                assert(atoms_then(rs, ka));
                assert(source.chars@ == old(source).chars@);
                assert(0 <= start <= sc.len());
                assert(rest.len() == sc.len() - start);
                assert(rs.len() == sc.len() - start - cur);
                assert forall|i: int| 0 <= i < rs.len() implies #[trigger] rs[i] == source.chars@.skip(source.pos())[i] by {
                    assert(rs[i] == rest[cur + i]);
                    assert(rest[cur + i] == sc[start + cur + i]);
                }
                assert(source.chars@.skip(source.pos()) =~= rs);
                assert(atoms_until_end(source.chars@.skip(source.pos()), ka));
            }
            if plain_in && atoms_until_close(rest, k) {
                assert(atoms_until_end(source.chars@.skip(source.pos()), k));
            }
            if rep_in {
                assert(one_repeat_until_close(source.chars@, source.pos(), k));
            }
            if rr_in {
                assert(repeat_repeated(source.chars@, source.pos(), k));
            }
        }
        let first = nested == 0 && items.len() == 0;
        let ghost st0 = *state;
        let item = parse(source, state, verbose, nested.saturating_add(1), first)?;
        proof {
            assert forall|i: int| 0 <= i < items@.len() implies wf_sub(#[trigger] items@[i], state.ngroups(), state.extra()) by {
                lemma_wf_sub_mono(items@[i], st0.ngroups(), st0.extra(), state.ngroups(), state.extra());
            }
        }
        let ghost items0 = items@;
        let ghost item_g = item;
        items.push(item);
        proof {
            assert(items@[items0.len() as int] == item_g);
            assert forall|i: int| 0 <= i < items@.len() implies no_trivial_groups(#[trigger] items@[i].data@) by {
                if i < items0.len() {
                    assert(items@[i] == items0[i]);
                }
            }
        }
        proof {
            if alts_in {
                assert(item_g.data@ == atoms(rs.take(ka)));
                assert(datas(items@) =~= datas(items0).push(item_g.data@));
                assert(atom_alts(done.push(rs.take(ka))) =~= atom_alts(done).push(atoms(rs.take(ka))));
                assert(source.pos() == start + cur + ka);
                if ka < rs.len() {
                    assert(rs[ka] == source.chars@[start + cur + ka]);
                    assert(rs[ka] == '|' || rs[ka] == ')');
                    if rs[ka] == '|' && start + cur + ka + 1 < source.chars@.len() {
                        assert(rs.skip(ka + 1)[0] == source.chars@[start + cur + ka + 1]);
                        lemma_plain_alts_first(rs.skip(ka + 1));
                    }
                }
            }
            if rep_in {
                assert(source.pos() == rep_end);
                if bad_escape_at(source.chars@, source.index as int) {
                    assert(sc.contains(source.chars@[source.index as int]));
                }
                if rep_end < sc.len() {
                    assert(sc[rep_end] != '\\') by {
                        assert(sc.contains(sc[rep_end]));
                    }
                }
            }
        }
        let matched = source.take_match('|')?;
        proof {
            if alts_in {
                let old_done = done;
                done = done.push(rs.take(ka));
                assert(alts(rest) == old_done + alts(rs));
                if matched {
                    assert(ka < rs.len() && rs[ka] == '|');
                    assert(alts(rs) == seq![rs.take(ka)] + alts(rs.skip(ka + 1)));
                    assert(rest.skip(cur + ka + 1) =~= rs.skip(ka + 1));
                    assert(alts(rest) =~= done + alts(rest.skip(cur + ka + 1)));
                    assert(alts_end(rs) == ka + 1 + alts_end(rs.skip(ka + 1)));
                    cur = cur + ka + 1;
                } else {
                    assert(alts(rs) == seq![rs.take(ka)]);
                    assert(alts(rest) =~= done);
                    assert(alts_end(rs) == ka);
                }
            }
        }
        if !matched {
            break;
        }
        if nested == 0 {
            verbose = state.flags & SRE_FLAG_VERBOSE != 0;
        }
    }
    if items.len() == 1 {
        let only = items.pop().unwrap();
        return Ok(only);
    }
    let n = items.len();
    let mut subpattern = SubPattern::new();
    let ghost its0 = datas(items@);
    loop
        invariant
            items@.len() == n,
            n >= 2,
            forall|i: int| 0 <= i < items@.len() ==> wf_sub(#[trigger] items@[i], state.ngroups(), state.extra()),
            forall|i: int| 0 <= i < items@.len() ==> no_trivial_groups(#[trigger] items@[i].data@),
            wf_sub(subpattern, state.ngroups(), state.extra()),
            no_trivial_groups(subpattern.data@),
            common_prefix(its0) == subpattern.data@ + common_prefix(datas(items@)),
            after_prefix(its0) == after_prefix(datas(items@)),
        ensures
            items@.len() == n,
            forall|i: int| 0 <= i < items@.len() ==> wf_sub(#[trigger] items@[i], state.ngroups(), state.extra()),
            forall|i: int| 0 <= i < items@.len() ==> no_trivial_groups(#[trigger] items@[i].data@),
            wf_sub(subpattern, state.ngroups(), state.extra()),
            no_trivial_groups(subpattern.data@),
            common_prefix(its0) == subpattern.data@,
            after_prefix(its0) == datas(items@),
        decreases items@[0].data@.len(),
    {
        if items[0].data.len() == 0 {
            proof {
                assert(!all_share_first(datas(items@)));
                assert(subpattern.data@ + Seq::<OpCode>::empty() =~= subpattern.data@);
            }
            break;
        }
        let mut all_share = true;
        let mut k: usize = 1;
        while k < n
            invariant
                items@.len() == n,
                1 <= k <= n,
                items@[0].data@.len() > 0,
                all_share ==> forall|j: int| 1 <= j < k ==> (#[trigger] items@[j]).data@.len() > 0 && op_same(
                    items@[j].data@[0],
                    items@[0].data@[0],
                ),
                !all_share ==> !all_share_first(datas(items@)),
            ensures
                all_share ==> forall|j: int| 1 <= j < n ==> (#[trigger] items@[j]).data@.len() > 0 && op_same(
                    items@[j].data@[0],
                    items@[0].data@[0],
                ),
                !all_share ==> !all_share_first(datas(items@)),
            decreases n - k,
        {
            if items[k].data.len() == 0 || !op_eq(&items[k].data[0], &items[0].data[0]) {
                all_share = false;
                proof {
                    assert(datas(items@)[k as int] == items@[k as int].data@);
                    assert(datas(items@)[0] == items@[0].data@);
                }
                break;
            }
            k += 1;
        }
        if !all_share {
            proof {
                assert(subpattern.data@ + Seq::<OpCode>::empty() =~= subpattern.data@);
            }
            break;
        }
        proof {
            assert forall|j: int| 1 <= j < datas(items@).len() implies (#[trigger] datas(items@)[j]).len() > 0 && op_same(
                datas(items@)[j][0],
                datas(items@)[0][0],
            ) by {
                assert(datas(items@)[j] == items@[j].data@);
            }
            assert(all_share_first(datas(items@)));
        }
        let ghost before = items@;
        let mut rest: Vec<SubPattern> = Vec::new();
        let mut prefix: Option<OpCode> = None;
        let mut k: usize = 0;
        while k < n
            invariant
                items@.len() == n - k,
                rest@.len() == k,
                k <= n,
                before.len() == n,
                before[0].data@.len() > 0,
                forall|i: int| 0 <= i < items@.len() ==> #[trigger] items@[i] == before[i + k],
                forall|i: int| 0 <= i < n ==> wf_sub(#[trigger] before[i], state.ngroups(), state.extra()),
                forall|i: int| 0 <= i < n ==> no_trivial_groups(#[trigger] before[i].data@),
                forall|i: int| 0 <= i < k ==> wf_sub(#[trigger] rest@[i], state.ngroups(), state.extra()),
                forall|i: int| 0 <= i < k ==> no_trivial_groups(#[trigger] rest@[i].data@),
                forall|i: int| 0 <= i < k ==> (#[trigger] rest@[i]).data@.len() + 1 == before[i].data@.len()
                    || before[i].data@.len() == 0,
                forall|i: int| 0 <= i < k && before[i].data@.len() > 0 ==> (#[trigger] rest@[i]).data@
                    == before[i].data@.drop_first(),
                k >= 1 ==> prefix == Some(before[0].data@[0]),
                k >= 1 ==> (prefix matches Some(p) && wf_op(p, state.ngroups(), state.extra()) && !is_trivial_group(p)),
            decreases n - k,
        {
            let mut it = items.remove(0);
            assert(it == before[k as int]);
            if it.data.len() > 0 {
                let ghost d = it.data@;
                let op = it.data.remove(0);
                assert(it.data@ =~= d.drop_first());
                assert(wf_op(d[0], state.ngroups(), state.extra()));
                assert(!is_trivial_group(d[0]));
                proof {
                    assert forall|i: int| 0 <= i < it.data@.len() implies wf_op(#[trigger] it.data@[i], state.ngroups(), state.extra()) by {
                        assert(it.data@[i] == d[i + 1]);
                    }
                    assert forall|i: int| 0 <= i < it.data@.len() implies !is_trivial_group(#[trigger] it.data@[i]) by {
                        assert(it.data@[i] == d[i + 1]);
                    }
                }
                if k == 0 {
                    prefix = Some(op);
                }
            }
            rest.push(it);
            k += 1;
        }
        let ghost b = datas(before);
        proof {
            assert forall|j: int| 1 <= j < b.len() implies (#[trigger] b[j]).len() > 0 by {
                assert(b[j] == before[j].data@);
            }
            assert(datas(rest@) =~= tails(b)) by {
                assert forall|j: int| 0 <= j < n implies #[trigger] datas(rest@)[j] == tails(b)[j] by {
                    assert(b[j] == before[j].data@);
                    assert(before[j].data@.len() > 0) by {
                        if j > 0 {
                            assert(b[j].len() > 0);
                        }
                    }
                }
            }
            assert(b[0] == before[0].data@);
        }
        let ghost sp_before = subpattern.data@;
        items = rest;
        let p = prefix.unwrap();
        subpattern.push(p);
        proof {
            assert(common_prefix(b) == seq![b[0][0]] + common_prefix(tails(b)));
            assert(sp_before + common_prefix(b) =~= subpattern.data@ + common_prefix(datas(items@)));
        }
    }
    let mut set: Vec<SetItem> = Vec::new();
    let mut flatten_ok = true;
    let mut k: usize = 0;
    let ghost fin = datas(items@);
    proof {
        assert(fin.take(0) =~= Seq::<Seq<OpCode>>::empty());
    }
    while k < n
        invariant_except_break
            flatten_ok,
        invariant
            items@.len() == n,
            n >= 2,
            k <= n,
            forall|i: int| 0 <= i < items@.len() ==> wf_sub(#[trigger] items@[i], state.ngroups(), state.extra()),
            forall|i: int| 0 <= i < set@.len() ==> plain_item_ok(#[trigger] set@[i]),
            flatten_ok ==> set@.len() >= k,
            fin == datas(items@),
            flatten_ok ==> flatten_alts(fin.take(k as int)) == Some(set@),
            fin.len() == n,
        ensures
            items@.len() == n,
            forall|i: int| 0 <= i < items@.len() ==> wf_sub(#[trigger] items@[i], state.ngroups(), state.extra()),
            forall|i: int| 0 <= i < set@.len() ==> plain_item_ok(#[trigger] set@[i]),
            flatten_ok ==> set@.len() >= n,
            flatten_ok ==> flatten_alts(fin.take(n as int)) == Some(set@),
            !flatten_ok ==> flatten_alts(fin) is None,
            fin.len() == n,
        decreases n - k,
    {
        proof {
            assert(fin.take(k + 1).drop_last() =~= fin.take(k as int));
            assert(fin.take(k + 1).last() == fin[k as int]);
            assert(fin[k as int] == items@[k as int].data@);
        }
        if items[k].data.len() != 1 {
            flatten_ok = false;
            proof {
                lemma_flatten_none(fin, k + 1);
            }
            break;
        }
        assert(wf_op(items@[k as int].data@[0], state.ngroups(), state.extra()));
        match &items[k].data[0] {
            OpCode::Literal(cp) => {
                let ghost set0 = set@;
                set.push(SetItem::Literal(*cp));
                proof {
                    assert(set@ =~= set0 + seq![SetItem::Literal(*cp)]);
                }
            },
            OpCode::In(inner) => {
                if inner.len() > 0 && inner[0] == SetItem::Negate {
                    flatten_ok = false;
                    proof {
                        lemma_flatten_none(fin, k + 1);
                    }
                    break;
                }
                let mut j: usize = 0;
                let ghost set0 = set@;
                while j < inner.len()
                    invariant
                        j <= inner@.len(),
                        wf_set(inner@),
                        !(inner@[0] is Negate),
                        set@.len() == set0.len() + j,
                        set@ == set0 + inner@.take(j as int),
                        forall|i: int| 0 <= i < set@.len() ==> plain_item_ok(#[trigger] set@[i]),
                    decreases inner@.len() - j,
                {
                    let x = inner[j];
                    assert(plain_item_ok(x)) by {
                        assert(inner@[j as int] == x);
                    }
                    set.push(x);
                    proof {
                        assert(inner@.take(j + 1) =~= inner@.take(j as int).push(x));
                    }
                    j += 1;
                }
                proof {
                    assert(inner@.take(j as int) =~= inner@);
                }
            },
            _ => {
                flatten_ok = false;
                proof {
                    lemma_flatten_none(fin, k + 1);
                }
                break;
            },
        }
        k += 1;
    }
    proof {
        if flatten_ok {
            assert(fin.take(n as int) =~= fin);
        }
    }
    if flatten_ok {
        let ghost pre = set@;
        let uniq = uniq_set(set);
        proof {
            lemma_dedup(pre);
            assert forall|i: int| 0 <= i < uniq@.len() implies plain_item_ok(#[trigger] uniq@[i]) by {
                assert(pre.contains(uniq@[i]));
                let j = choose|j: int| 0 <= j < pre.len() && pre[j] == uniq@[i];
                assert(plain_item_ok(pre[j]));
            }
            assert(pre.len() >= 2);
            assert(uniq@.len() > 0);
            assert(wf_set(uniq@));
        }
        let ghost sp0 = subpattern.data@;
        let op = OpCode::In(uniq);
        assert(wf_op(op, state.ngroups(), state.extra()));
        subpattern.push(op);
        proof {
            assert forall|i: int| 0 <= i < subpattern.data@.len() implies wf_op(#[trigger] subpattern.data@[i], state.ngroups(), state.extra()) by {
                if i < sp0.len() {
                    assert(subpattern.data@[i] == sp0[i]);
                }
            }
            assert(subpattern.data@.take(sp0.len() as int) =~= sp0);
            assert(joined(subpattern.data@, its0));
        }
        return Ok(subpattern);
    }
    let ghost sp1 = subpattern.data@;
    let ghost its_fin = items@;
    subpattern.push(OpCode::Branch(items));
    proof {
        assert(subpattern.data@.take(sp1.len() as int) =~= sp1);
        assert forall|i: int| 0 <= i < its_fin.len() implies #[trigger] its_fin[i].data@ == after_prefix(its0)[i] by {
            assert(datas(its_fin)[i] == its_fin[i].data@);
        }
        assert(joined(subpattern.data@, its0));
    }
    Ok(subpattern)
}


/// A repetition character: `*`, `+`, `?` or `{`.
pub open spec fn is_repeat_char(c: char) -> bool {
    c == '*' || c == '+' || c == '?' || c == '{'
}

/// Whether the pattern `s`, from `p0` on, is `k` atom characters whose last
/// is no anchor, then a repetition of that last atom (`*`, `+`, `?`, or
/// braces that make a repetition with acceptable bounds); and `s` holds no
/// backslash.
pub open spec fn first_repeat(s: Seq<char>, p0: int, k: int) -> bool {
    let rest = s.skip(p0);
    &&& 0 <= p0 <= s.len()
    &&& atoms_then(rest, k)
    &&& 1 <= k < rest.len()
    &&& is_repeat_char(rest[k])
    &&& rest[k - 1] != '^' && rest[k - 1] != '$'
    &&& !s.contains('\\')
    &&& (rest[k] == '{' ==> brace_repeats(s, p0 + k + 1) && brace_ok(s, p0 + k + 1))
}

/// A first repetition followed by the end or a closing parenthesis.
pub open spec fn one_repeat_until_close(s: Seq<char>, p0: int, k: int) -> bool {
    let e = suffix_end(s, p0 + k + 1, s.skip(p0)[k]);
    &&& first_repeat(s, p0, k)
    &&& (e == s.len() || (e < s.len() && s[e] == ')'))
}

/// A first repetition by `*`, `+` or `?` followed by another `*`.
pub open spec fn repeat_repeated(s: Seq<char>, p0: int, k: int) -> bool {
    let rest = s.skip(p0);
    &&& first_repeat(s, p0, k)
    &&& rest[k] != '{'
    &&& k + 1 < rest.len()
    &&& rest[k + 1] == '*'
}

/// Whether `rest` opens a group with `(` and then holds only atom
/// characters, so the group is never closed.
pub open spec fn unterminated_group(rest: Seq<char>) -> bool {
    &&& rest.len() >= 1
    &&& rest[0] == '('
    &&& atom_text(rest.drop_first())
}

/// Whether `data` is the first `k - 1` atoms of `rest` and then the greedy
/// repetition, between `b.0` and `b.1` times, of its `k`-th atom.
pub open spec fn atoms_then_repeat(data: Seq<OpCode>, rest: Seq<char>, k: int, b: (int, int)) -> bool {
    &&& data.len() == k
    &&& data.take(k - 1) == atoms(rest.take(k - 1))
    &&& data[k - 1] matches OpCode::MaxRepeat { min, max, item } && min == b.0 && max == b.1 && item.data@ == seq![
        atom_op(rest[k - 1]),
    ]
}

/// One simple pattern: a sequence without top-level `|`.
fn parse(source: &mut Tokenizer, state: &mut State, verbose_at_start: bool, nested: u32, first: bool) -> (r: Result<
    SubPattern,
    ParseError,
>)
    requires
        old(source).inv(),
        old(state).inv(old(source).chars@.len()),
    ensures
        final(source).same_input(*old(source)),
        r matches Err(e) ==> e.pos <= old(source).chars@.len(),
        r matches Ok(sp) ==> {
            &&& parse_ok(*old(source), *final(source), *old(state), *final(state))
            &&& wf_sub(sp, final(state).ngroups(), final(state).extra())
            &&& no_trivial_groups(sp.data@)
            &&& (final(source).next is None || final(source).next == Some(Tok::Char(')'))
                || final(source).next == Some(Tok::Char('|')))
        },
        forall|k: int|
            !verbose_at_start && #[trigger] atoms_until_end(old(source).chars@.skip(old(source).pos()), k) ==> {
                &&& r matches Ok(sp) && sp.data@ == atoms(old(source).chars@.skip(old(source).pos()).take(k))
                &&& final(source).pos() == old(source).pos() + k
                &&& *final(state) == *old(state)
            },
        forall|k: int|
            !verbose_at_start && #[trigger] nothing_to_repeat_at(old(source).chars@.skip(old(source).pos()), k) ==> {
                &&& r matches Err(e)
                &&& e.msg@ == "nothing to repeat"@
                &&& e.pos == old(source).pos() + k
            },
        forall|k: int|
            !verbose_at_start && #[trigger] one_repeat_until_close(old(source).chars@, old(source).pos(), k) ==> {
                let sc = old(source).chars@;
                let p0 = old(source).pos();
                let c = sc.skip(p0)[k];
                &&& r matches Ok(sp) && atoms_then_repeat(
                    sp.data@,
                    sc.skip(p0),
                    k,
                    repeat_bounds(c, sc, p0 + k + 1),
                )
                &&& final(source).pos() == suffix_end(sc, p0 + k + 1, c)
                &&& *final(state) == *old(state)
            },
        forall|k: int|
            !verbose_at_start && #[trigger] repeat_repeated(old(source).chars@, old(source).pos(), k) ==> {
                &&& r matches Err(e)
                &&& e.msg@ == "multiple repeat"@
                &&& e.pos == old(source).pos() + k + 1
            },
        !verbose_at_start && old(state).ngroups() < MAXGROUPS && unterminated_group(
            old(source).chars@.skip(old(source).pos()),
        ) ==> {
            &&& r matches Err(e)
            &&& e.msg@ == "missing ), unterminated subpattern"@
            &&& e.pos == old(source).pos()
        },
    decreases old(source).rem(), 0int,
{
    let ghost start = source.pos();
    let ghost rest = source.chars@.skip(start);
    proof {
        lemma_atoms_then_exists(rest);
    }
    let ghost k = choose|k: int| atoms_then(rest, k);
    let ghost plain_in = !verbose_at_start && (atoms_until_end(rest, k) || nothing_to_repeat_at(rest, k));
    proof {
        assert forall|k2: int| #[trigger] atoms_until_end(rest, k2) implies k2 == k && (plain_in
            || verbose_at_start) by {
            lemma_atoms_then_unique(rest, k, k2);
        }
        assert forall|k2: int| #[trigger] nothing_to_repeat_at(rest, k2) implies k2 == k && (plain_in
            || verbose_at_start) by {
            lemma_atoms_then_unique(rest, k, k2);
        }
    }
    let ghost sc = old(source).chars@;
    let ghost rep_in = !verbose_at_start && one_repeat_until_close(sc, start, k);
    let ghost rr_in = !verbose_at_start && repeat_repeated(sc, start, k);
    let ghost fr_in = rep_in || rr_in;
    let ghost grp_in = !verbose_at_start && old(state).ngroups() < MAXGROUPS && unterminated_group(rest);
    let ghost rep_end = suffix_end(sc, start + k + 1, rest[k]);
    let ghost rep_b = repeat_bounds(rest[k], sc, start + k + 1);
    proof {
        assert forall|k2: int| #[trigger] one_repeat_until_close(sc, start, k2) implies k2 == k && (rep_in
            || verbose_at_start) by {
            lemma_atoms_then_unique(rest, k, k2);
        }
        assert forall|k2: int| #[trigger] repeat_repeated(sc, start, k2) implies k2 == k && (rr_in
            || verbose_at_start) by {
            lemma_atoms_then_unique(rest, k, k2);
        }
        if rep_in {
            assert(!plain_in);
        }
        if grp_in {
            if k > 0 {
                assert(rest.take(k)[0] == rest[0]);
            }
            assert(k == 0);
            assert(!plain_in && !fr_in);
        }
    }
    let mut subpattern = SubPattern::new();
    let mut verbose = verbose_at_start;
    proof {
        assert(source.chars@.subrange(start, start) =~= Seq::<char>::empty());
        assert(atoms(Seq::<char>::empty()) =~= Seq::<OpCode>::empty());
    }
    loop
        invariant
            parse_ok(*old(source), *source, *old(state), *state),
            wf_sub(subpattern, state.ngroups(), state.extra()),
            group_ops_ok(subpattern.data@),
            start == old(source).pos(),
            0 <= start,
            rest == old(source).chars@.skip(start),
            atoms_then(rest, k),
            plain_in == (!verbose_at_start && (atoms_until_end(rest, k) || nothing_to_repeat_at(rest, k))),
            forall|k2: int| #[trigger] atoms_until_end(rest, k2) ==> k2 == k && (plain_in || verbose_at_start),
            forall|k2: int| #[trigger] nothing_to_repeat_at(rest, k2) ==> k2 == k && (plain_in || verbose_at_start),
            plain_in ==> {
                &&& !verbose
                &&& *state == *old(state)
                &&& start <= source.pos() <= start + k
                &&& subpattern.data@ == atoms(source.chars@.subrange(start, source.pos()))
            },
            sc == old(source).chars@,
            rep_in == (!verbose_at_start && one_repeat_until_close(sc, start, k)),
            forall|k2: int| #[trigger] one_repeat_until_close(sc, start, k2) ==> k2 == k && (rep_in
                || verbose_at_start),
            rr_in == (!verbose_at_start && repeat_repeated(sc, start, k)),
            forall|k2: int| #[trigger] repeat_repeated(sc, start, k2) ==> k2 == k && (rr_in || verbose_at_start),
            fr_in == (rep_in || rr_in),
            grp_in == (!verbose_at_start && old(state).ngroups() < MAXGROUPS && unterminated_group(rest)),
            grp_in ==> !verbose && *state == *old(state) && source.pos() == start,
            rep_end == suffix_end(sc, start + k + 1, rest[k]),
            rep_b == repeat_bounds(rest[k], sc, start + k + 1),
            fr_in ==> {
                &&& !verbose
                &&& *state == *old(state)
                &&& start <= source.pos()
                &&& (source.pos() <= start + k ==> subpattern.data@ == atoms(
                    source.chars@.subrange(start, source.pos()),
                ))
                &&& (source.pos() > start + k ==> source.pos() == rep_end && atoms_then_repeat(
                    subpattern.data@,
                    rest,
                    k,
                    rep_b,
                ))
            },
        ensures
            parse_ok(*old(source), *source, *old(state), *state),
            wf_sub(subpattern, state.ngroups(), state.extra()),
            group_ops_ok(subpattern.data@),
            source.next is None || source.next == Some(Tok::Char(')')) || source.next == Some(Tok::Char('|')),
            plain_in ==> {
                &&& atoms_until_end(rest, k)
                &&& *state == *old(state)
                &&& source.pos() == start + k
                &&& subpattern.data@ == atoms(rest.take(k))
            },
            rep_in ==> {
                &&& *state == *old(state)
                &&& source.pos() == rep_end
                &&& atoms_then_repeat(subpattern.data@, rest, k, rep_b)
            },
            !rr_in,
            !grp_in,
        decreases source.rem(),
    {
        let ghost pos0 = source.pos();
        proof {
            if plain_in {
                if pos0 < start + k {
                    assert(rest.take(k)[pos0 - start] == source.chars@[pos0]);
                    assert(is_atom_char(source.chars@[pos0]));
                } else {
                    assert(source.chars@.subrange(start, source.pos()) =~= rest.take(k));
                    if k < rest.len() {
                        assert(rest[k] == source.chars@[pos0]);
                    }
                }
            }
        }
        proof {
            if grp_in {
                assert(rest[0] == sc[pos0]);
                assert(source.next == Some(Tok::Char('(')));
            }
            if fr_in {
                if pos0 < start + k {
                    assert(rest.take(k)[pos0 - start] == sc[pos0]);
                    assert(rest[pos0 - start] == sc[pos0]);
                    assert(is_atom_char(sc[pos0]));
                } else if pos0 == start + k {
                    assert(rest[k] == sc[pos0]);
                } else if rr_in {
                    assert(rest[k + 1] == sc[pos0]);
                }
                if pos0 < sc.len() {
                    assert(sc[pos0] != '\\') by {
                        assert(sc.contains(sc[pos0]));
                    }
                    assert(source.next == Some(Tok::Char(sc[pos0])));
                }
            }
        }
        let this = match source.next {
            None => break,
            Some(t) => t,
        };
        if this == Tok::Char('|') || this == Tok::Char(')') {
            break;
        }
        proof {
            if plain_in && (source.index as int) < source.chars@.len() {
                if source.index < start + k {
                    assert(rest.take(k)[source.index - start] == source.chars@[source.index as int]);
                } else if source.index == start + k {
                    assert(rest[k] == source.chars@[source.index as int]);
                } else {
                    assert(rest[k + 1] == source.chars@[source.index as int]);
                }
            }
        }
        proof {
            if fr_in && bad_escape_at(source.chars@, source.index as int) {
                assert(sc.contains(source.chars@[source.index as int]));
            }
            if grp_in {
                if (source.index as int) < sc.len() {
                    assert(rest.drop_first()[0] == sc[source.index as int]);
                    assert(is_atom_char(sc[source.index as int]));
                }
            }
            if fr_in {
                assert(pos0 <= start + k || (rr_in && pos0 == start + k + 1));
                assert(this == Tok::Char(sc[pos0]));
                if pos0 < start + k {
                    assert(is_atom_char(sc[pos0]));
                } else if pos0 == start + k {
                    assert(is_repeat_char(sc[pos0]));
                } else {
                    assert(sc[pos0] == '*');
                }
            }
        }
        source.advance()?;
        if verbose {
            if let Tok::Char(c) = this {
                if is_whitespace(c) {
                    continue;
                }
                if c == '#' {
                    let ghost r0 = source.rem();
                    loop
                        invariant
                            parse_ok(*old(source), *source, *old(state), *state),
                            source.rem() <= r0,
                            !plain_in,
                            start == old(source).pos(),
                            rest == old(source).chars@.skip(start),
                            plain_in == (!verbose_at_start && (atoms_until_end(rest, k) || nothing_to_repeat_at(
                                rest,
                                k,
                            ))),
                            forall|k2: int| #[trigger] atoms_until_end(rest, k2) ==> k2 == k && (plain_in
                                || verbose_at_start),
                            forall|k2: int| #[trigger] nothing_to_repeat_at(rest, k2) ==> k2 == k && (plain_in
                                || verbose_at_start),
                            sc == old(source).chars@,
                            !rep_in,
                            !rr_in,
                            !grp_in,
                            rep_in == (!verbose_at_start && one_repeat_until_close(sc, start, k)),
                            forall|k2: int| #[trigger] one_repeat_until_close(sc, start, k2) ==> k2 == k && (rep_in
                                || verbose_at_start),
                            rr_in == (!verbose_at_start && repeat_repeated(sc, start, k)),
                            forall|k2: int| #[trigger] repeat_repeated(sc, start, k2) ==> k2 == k && (rr_in
                                || verbose_at_start),
                            grp_in == (!verbose_at_start && old(state).ngroups() < MAXGROUPS && unterminated_group(
                                rest,
                            )),
                        decreases source.rem(),
                    {
                        let got = source.get()?;
                        match got {
                            None => break,
                            Some(Tok::Char('\n')) => break,
                            _ => {},
                        }
                    }
                    continue;
                }
            }
        }
        let ghost st0 = *state;
        let ghost d0 = subpattern.data@;
        match this {
            Tok::Escape(c) => {
                match escape_code(source, c, state)? {
                    EscapeResult::Literal(cp) => subpattern.push(OpCode::Literal(cp)),
                    EscapeResult::At(a) => subpattern.push(OpCode::At(a)),
                    EscapeResult::InCategory(cat) => {
                        let items: Vec<SetItem> = vec![SetItem::Category(cat)];
                        subpattern.push(OpCode::In(items));
                    },
                    EscapeResult::GroupRef(g) => subpattern.push(OpCode::GroupRef(g)),
                }
            },
            Tok::Char(c) => {
                if !is_special_char(c) {
                    subpattern.push(OpCode::Literal(c as u32));
                } else if c == '[' {
                    let op = parse_set(source)?;
                    proof {
                        lemma_set_op_wf(op, state.ngroups(), state.extra());
                    }
                    subpattern.push(op);
                } else if c == '?' || c == '*' || c == '+' || c == '{' {
                    proof {
                        if rr_in && pos0 == start + k + 1 {
                            assert(subpattern.data@.last() == subpattern.data@[k - 1]);
                            assert(is_repeat_op(subpattern.data@.last()));
                            assert(source.pos() == start + k + 2);
                        }
                        if fr_in && pos0 == start + k {
                            assert(source.pos() == start + k + 1);
                            assert(source.chars@.subrange(start, pos0) =~= rest.take(k));
                            assert(rest.take(k)[k - 1] == rest[k - 1]);
                            assert(subpattern.data@.last() == atom_op(rest[k - 1]));
                        }
                        if plain_in {
                            assert(source.chars@.subrange(start, pos0) =~= rest.take(k));
                            if k > 0 {
                                assert(rest.take(k)[k - 1] == rest[k - 1]);
                                assert(subpattern.data@.last() == atom_op(rest[k - 1]));
                            }
                        }
                    }
                    let ghost before_rep = subpattern.data@;
                    parse_repeat(source, &mut subpattern, c, Ghost(state.ngroups()), Ghost(state.extra()))?;
                    proof {
                        if fr_in && pos0 == start + k {
                            assert(!repeat_modifier_at(sc, rep_end));
                            let item = choose|item: SubPattern|
                                #[trigger] repeated_item(before_rep.last(), item) && repeats_with(
                                    subpattern.data@.last(),
                                    repeat_bounds(c, sc, start + k + 1),
                                    item,
                                );
                            assert(item.data@ == seq![atom_op(rest[k - 1])]);
                            assert(rest.take(k).drop_last() =~= rest.take(k - 1));
                            assert(atoms(rest.take(k)).drop_last() =~= atoms(rest.take(k - 1)));
                            assert(subpattern.data@.take(k - 1) =~= subpattern.data@.drop_last());
                            assert(subpattern.data@[k - 1] == subpattern.data@.last());
                            assert(atoms_then_repeat(subpattern.data@, rest, k, rep_b));
                        }
                    }
                } else if c == '.' {
                    subpattern.push(OpCode::Any);
                } else if c == '(' {
                    proof {
                        if grp_in {
                            assert(source.pos() == start + 1);
                            assert(source.chars@.skip(source.pos()) =~= rest.drop_first());
                            if start + 1 < sc.len() {
                                assert(rest.drop_first()[0] == sc[start + 1]);
                                assert(is_atom_char(sc[start + 1]));
                            }
                            assert(group_head(*source) is None);
                        }
                    }
                    let empty = subpattern.data.len() == 0;
                    let outcome = parse_group(source, state, verbose, nested, first, empty)?;
                    proof {
                        lemma_wf_sub_mono(subpattern, st0.ngroups(), st0.extra(), state.ngroups(), state.extra());
                    }
                    match outcome {
                        GroupOutcome::Op(op) => subpattern.push(op),
                        GroupOutcome::Skip => {},
                        GroupOutcome::GlobalFlags => {
                            verbose = state.flags & SRE_FLAG_VERBOSE != 0;
                        },
                    }
                } else if c == '^' {
                    subpattern.push(OpCode::At(AtCode::Beginning));
                } else {
                    subpattern.push(OpCode::At(AtCode::End));
                }
            },
        }
        proof {
            if plain_in || (fr_in && pos0 < start + k) {
                let c = source.chars@[pos0];
                assert(source.chars@.subrange(start, source.pos()) =~= source.chars@.subrange(start, pos0).push(c));
                assert(atoms(source.chars@.subrange(start, source.pos())) =~= d0.push(atom_op(c)));
            }
        }
    }
    // Unpack the groups that have neither a number nor flags.
    let ghost lits = subpattern.data@;
    let ghost simple = plain_in || rep_in;
    let mut data = subpattern.data;
    let mut out: Vec<OpCode> = Vec::new();
    proof {
        if simple {
            assert(out@ + data@ =~= lits);
            assert forall|i: int| 0 <= i < data@.len() implies !(#[trigger] data@[i] is Subpattern) by {
                assert(data@[i] == lits[i]);
                if rep_in && i < k - 1 {
                    assert(lits.take(k - 1)[i] == lits[i]);
                    assert(atoms(rest.take(k - 1))[i] == atom_op(rest.take(k - 1)[i]));
                }
            }
        }
    }
    while data.len() > 0
        invariant
            forall|i: int| 0 <= i < data@.len() ==> wf_op(#[trigger] data@[i], state.ngroups(), state.extra()),
            group_ops_ok(data@),
            forall|i: int| 0 <= i < out@.len() ==> wf_op(#[trigger] out@[i], state.ngroups(), state.extra()),
            no_trivial_groups(out@),
            simple ==> out@ + data@ == lits,
            simple ==> forall|i: int| 0 <= i < data@.len() ==> !(#[trigger] data@[i] is Subpattern),
        decreases data@.len(),
    {
        let ghost d = data@;
        let op = data.remove(0);
        assert(op == d[0]);
        assert(wf_op(op, state.ngroups(), state.extra()));
        proof {
            assert forall|i: int| 0 <= i < data@.len() implies wf_op(#[trigger] data@[i], state.ngroups(), state.extra()) by {
                assert(data@[i] == d[i + 1]);
            }
            assert forall|i: int| 0 <= i < data@.len() implies group_op_ok(#[trigger] data@[i]) by {
                assert(data@[i] == d[i + 1]);
            }
        }
        match op {
            OpCode::Subpattern { group: None, add_flags: 0, del_flags: 0, p } => {
                let mut inner = p.data;
                while inner.len() > 0
                    invariant
                        forall|i: int| 0 <= i < inner@.len() ==> wf_op(#[trigger] inner@[i], state.ngroups(), state.extra()),
                        no_trivial_groups(inner@),
                        forall|i: int| 0 <= i < out@.len() ==> wf_op(#[trigger] out@[i], state.ngroups(), state.extra()),
                        no_trivial_groups(out@),
                    decreases inner@.len(),
                {
                    let ghost e = inner@;
                    let x = inner.remove(0);
                    assert(x == e[0]);
                    proof {
                        assert forall|i: int| 0 <= i < inner@.len() implies wf_op(#[trigger] inner@[i], state.ngroups(), state.extra()) by {
                            assert(inner@[i] == e[i + 1]);
                        }
                        assert forall|i: int| 0 <= i < inner@.len() implies !is_trivial_group(#[trigger] inner@[i]) by {
                            assert(inner@[i] == e[i + 1]);
                        }
                    }
                    out.push(x);
                }
            },
            other => {
                let ghost o0 = out@;
                out.push(other);
                proof {
                    if simple {
                        assert(out@ + data@ =~= o0 + d);
                        assert forall|i: int| 0 <= i < data@.len() implies !(#[trigger] data@[i] is Subpattern) by {
                            assert(data@[i] == d[i + 1]);
                        }
                    }
                }
            },
        }
    }
    Ok(SubPattern { data: out })
}

/// The token after `(?`, where the group starts with `?`.
pub open spec fn group_head(source: Tokenizer) -> Option<Tok> {
    if tok_is(source.next, '?') {
        match token_at(source.chars@, source.pos() + 1) {
            Some(t) => Some(t),
            None => Some(Tok::Char(')')),
        }
    } else {
        None
    }
}

/// A token after `(?` that starts no extension.
pub open spec fn unknown_extension(t: Tok) -> bool {
    !(t == Tok::Char('P') || t == Tok::Char(':') || t == Tok::Char('#') || t == Tok::Char('=') || t
        == Tok::Char('!') || t == Tok::Char('<') || t == Tok::Char('(') || t == Tok::Char('>') || t
        == Tok::Char('-') || (t matches Tok::Char(c) && spec_flag(c) is Some))
}

/// Whether the reference `(?P=name)` read from `before` to `after` names
/// group `g`: `name` is the text before the `)` it read, and `g` the group
/// that was given that name.
pub open spec fn named_ref_read(state: State, before: Tokenizer, after: Tokenizer, g: u32) -> bool {
    &&& closes_at_paren(before, after)
    &&& exists|i: int|
        0 <= i < state.groupdict@.len() && #[trigger] state.groupdict@[i].0@ == before.chars@.subrange(
            before.pos() + 3,
            after.pos() - 1,
        ) && state.groupdict@[i].1 == g
}

/// What a group read from `before` to `after` gives, by how it starts:
/// `(` opens the next capturing group, as does `(?P<name>`; `(?:` a
/// non-capturing one; `(?>` an atomic one; `(?#` a comment; `(?=`, `(?!`,
/// `(?<=` and `(?<!` lookarounds; `(?(` a conditional; `(?P=name)` a
/// reference to the named group. Every group but global flags ends at a
/// `)` it read.
pub open spec fn group_read(state: State, before: Tokenizer, after: Tokenizer, out: GroupOutcome) -> bool {
    &&& (!(out is GlobalFlags) ==> closes_at_paren(before, after))
    &&& match group_head(before) {
        None => out matches GroupOutcome::Op(OpCode::Subpattern { group: Some(g), add_flags, del_flags, .. })
            && g == state.ngroups() && add_flags == 0 && del_flags == 0,
        Some(t) => if t == Tok::Char(':') {
            out matches GroupOutcome::Op(OpCode::Subpattern { group: None, add_flags, del_flags, .. })
                && add_flags == 0 && del_flags == 0
        } else if t == Tok::Char('>') {
            out matches GroupOutcome::Op(OpCode::AtomicGroup(_))
        } else if t == Tok::Char('#') {
            out is Skip
        } else if t == Tok::Char('=') || t == Tok::Char('!') {
            out matches GroupOutcome::Op(op) && lookaround_op(op, t, 1i32)
        } else if t == Tok::Char('<') {
            out matches GroupOutcome::Op(op) && lookaround_op(
                op,
                match token_at(before.chars@, before.pos() + 2) {
                    Some(m) => m,
                    None => t,
                },
                -1i32,
            )
        } else if t == Tok::Char('(') {
            out matches GroupOutcome::Op(op) && op is GroupRefExists
        } else if t == Tok::Char('P') && token_at(before.chars@, before.pos() + 2) == Some(Tok::Char('=')) {
            out matches GroupOutcome::Op(OpCode::GroupRef(g)) && named_ref_read(state, before, after, g)
        } else if t == Tok::Char('P') && token_at(before.chars@, before.pos() + 2) == Some(Tok::Char('<')) {
            out matches GroupOutcome::Op(OpCode::Subpattern { group: Some(g), add_flags, del_flags, .. })
                && g == state.ngroups() && add_flags == 0 && del_flags == 0
        } else {
            true
        },
    }
}

/// What follows an opening parenthesis, up to and including the closing one.
fn parse_group(
    source: &mut Tokenizer,
    state: &mut State,
    verbose: bool,
    nested: u32,
    first: bool,
    sub_empty: bool,
) -> (r: Result<GroupOutcome, ParseError>)
    requires
        old(source).inv(),
        old(source).pos() >= 1,
        old(state).inv(old(source).chars@.len()),
    ensures
        final(source).same_input(*old(source)),
        r matches Err(e) ==> e.pos <= old(source).chars@.len(),
        r is Ok ==> parse_ok(*old(source), *final(source), *old(state), *final(state)),
        r matches Ok(GroupOutcome::Op(op)) ==> wf_op(op, final(state).ngroups(), final(state).extra())
            && group_op_ok(op),
        r matches Ok(out) ==> group_read(*old(state), *old(source), *final(source), out),
        group_head(*old(source)) matches Some(t) && unknown_extension(t) ==> r is Err,
        group_head(*old(source)) is None && !verbose && old(state).ngroups() < MAXGROUPS && atom_text(
            old(source).chars@.skip(old(source).pos()),
        ) ==> {
            &&& r matches Err(e)
            &&& e.msg@ == "missing ), unterminated subpattern"@
            &&& e.pos == old(source).pos() - 1
        },
    decreases old(source).rem(), 2int,
{
    let start = source.tell() - 1;
    let mut capture = true;
    let mut atomic = false;
    let mut name: Option<Vec<char>> = None;
    let mut add_flags: u32 = 0;
    let mut del_flags: u32 = 0;
    if source.take_match('?')? {
        let got = source.get()?;
        let ch = match got {
            None => {
                return Err(source.error_str("unexpected end of pattern", 0));
            },
            Some(t) => t,
        };
        if ch == Tok::Char('P') {
            if source.take_match('<')? {
                let n = source.getuntil('>', "group name")?;
                source.checkgroupname(n.as_slice(), 1)?;
                name = Some(n);
            } else if source.take_match('=')? {
                let n = source.getuntil(')', "group name")?;
                source.checkgroupname(n.as_slice(), 1)?;
                let off = add_capped(n.len(), 1);
                let gid = match state.lookup_name(n.as_slice()) {
                    None => {
                        return Err(source.error(msg3("unknown group name '", &n, "'"), off));
                    },
                    Some(g) => g,
                };
                if !state.checkgroup(gid) {
                    return Err(source.error_str("cannot refer to an open group", off));
                }
                state.checklookbehindgroup(gid, source)?;
                return Ok(GroupOutcome::Op(OpCode::GroupRef(gid)));
            } else {
                let got2 = source.get()?;
                let ch2 = match got2 {
                    None => {
                        return Err(source.error_str("unexpected end of pattern", 0));
                    },
                    Some(t) => t,
                };
                return Err(source.error(msg3("unknown extension ?P", &tok_text(ch2), ""), tok_count(ch2) + 2));
            }
        } else if ch == Tok::Char(':') {
            capture = false;
        } else if ch == Tok::Char('#') {
            loop
                invariant
                    source.inv(),
                    source.same_input(*old(source)),
                    source.rem() <= old(source).rem(),
                    group_head(*old(source)) is Some,
                ensures
                    source.pos() >= 1 && old(source).chars@[source.pos() - 1] == ')',
                decreases source.rem(),
            {
                if source.next.is_none() {
                    let off = sub_or_zero(source.tell(), start);
                    return Err(source.error_str("missing ), unterminated comment", off));
                }
                let ghost before = *source;
                let got = source.get()?;
                if got == Some(Tok::Char(')')) {
                    assert(token_at(before.chars@, before.pos()) == Some(Tok::Char(')')));
                    break;
                }
            }
            return Ok(GroupOutcome::Skip);
        } else if ch == Tok::Char('=') || ch == Tok::Char('!') || ch == Tok::Char('<') {
            let op = parse_lookaround(source, state, verbose, nested, ch, start)?;
            return Ok(GroupOutcome::Op(op));
        } else if ch == Tok::Char('(') {
            let op = parse_conditional(source, state, verbose, nested, start)?;
            return Ok(GroupOutcome::Op(op));
        } else if ch == Tok::Char('>') {
            capture = false;
            atomic = true;
        } else if flag_for_char(tok_first(ch)).is_some() || ch == Tok::Char('-') {
            let flags = parse_flags(source, &mut state.flags, tok_first(ch))?;
            match flags {
                None => {
                    if !first || !sub_empty {
                        let off = sub_or_zero(source.tell(), start);
                        return Err(source.error_str("global flags not at the start of the expression", off));
                    }
                    return Ok(GroupOutcome::GlobalFlags);
                },
                Some((af, df)) => {
                    add_flags = af;
                    del_flags = df;
                    capture = false;
                },
            }
        } else {
            return Err(source.error(msg3("unknown extension ?", &tok_text(ch), ""), tok_count(ch) + 1));
        }
    }
    let ghost len = old(source).chars@.len();
    let group: Option<u32> = if capture {
        let g = match &name {
            Some(n) => state.opengroup(Some(n.as_slice()), Ghost(len))?,
            None => state.opengroup(None, Ghost(len))?,
        };
        Some(g)
    } else {
        None
    };
    let ghost st1 = *state;
    let sub_verbose = (verbose || (add_flags & SRE_FLAG_VERBOSE) != 0) && (del_flags & SRE_FLAG_VERBOSE) == 0;
    proof {
        let rest = source.chars@.skip(source.pos());
        if group_head(*old(source)) is None && !verbose && atom_text(rest) {
            assert(rest.take(rest.len() as int) =~= rest);
            assert(atoms_until_close(rest, rest.len() as int));
        }
    }
    let p = parse_sub(source, state, sub_verbose, nested.saturating_add(1))?;
    if !source.take_match(')')? {
        let off = sub_or_zero(source.tell(), start);
        return Err(source.error_str("missing ), unterminated subpattern", off));
    }
    if let Some(g) = group {
        state.closegroup(g);
    }
    assert(state.ngroups() >= st1.ngroups());
    if atomic {
        Ok(GroupOutcome::Op(OpCode::AtomicGroup(p)))
    } else {
        Ok(GroupOutcome::Op(OpCode::Subpattern { group, add_flags, del_flags, p }))
    }
}

/// Whether the parse from `before` to `after` ended by consuming a `)`.
pub open spec fn closes_at_paren(before: Tokenizer, after: Tokenizer) -> bool {
    &&& after.pos() >= 1
    &&& before.chars@[after.pos() - 1] == ')'
}

/// The token that decides a lookaround's kind: `ch` itself, or after `(?<`
/// the token that follows.
pub open spec fn lookaround_marker(source: Tokenizer, ch: Tok) -> Tok {
    if ch == Tok::Char('<') {
        match token_at(source.chars@, source.pos()) {
            Some(t) => t,
            None => ch,
        }
    } else {
        ch
    }
}

/// A lookaround with marker `=` asserts; any other negates, or never
/// matches where its body is empty.
pub open spec fn lookaround_op(op: OpCode, marker: Tok, dir: i32) -> bool {
    if marker == Tok::Char('=') {
        op matches OpCode::Assert { direction, .. } && direction == dir
    } else {
        ||| (op matches OpCode::AssertNot { direction, p } && direction == dir && p.data@.len() > 0)
        ||| op is Failure
    }
}

/// A lookahead or lookbehind assertion, after `(?=`, `(?!` or `(?<`.
fn parse_lookaround(
    source: &mut Tokenizer,
    state: &mut State,
    verbose: bool,
    nested: u32,
    ch: Tok,
    start: usize,
) -> (r: Result<OpCode, ParseError>)
    requires
        old(source).inv(),
        old(state).inv(old(source).chars@.len()),
        start <= old(source).pos(),
    ensures
        final(source).same_input(*old(source)),
        r matches Err(e) ==> e.pos <= old(source).chars@.len(),
        r matches Ok(op) ==> {
            &&& parse_ok(*old(source), *final(source), *old(state), *final(state))
            &&& wf_op(op, final(state).ngroups(), final(state).extra())
            &&& !(op is Subpattern)
            &&& closes_at_paren(*old(source), *final(source))
            &&& lookaround_op(op, lookaround_marker(*old(source), ch), if ch == Tok::Char('<') { -1i32 } else { 1i32 })
        },
        ch == Tok::Char('<') && !(lookaround_marker(*old(source), ch) == Tok::Char('=')
            || lookaround_marker(*old(source), ch) == Tok::Char('!')) ==> r is Err,
    decreases old(source).rem(), 2int,
{
    let mut dir: i32 = 1;
    let mut marker = ch;
    let mut saved: Option<Option<u32>> = None;
    if ch == Tok::Char('<') {
        let got = source.get()?;
        let lookch = match got {
            None => {
                return Err(source.error_str("unexpected end of pattern", 0));
            },
            Some(t) => t,
        };
        if lookch != Tok::Char('=') && lookch != Tok::Char('!') {
            return Err(source.error(msg3("unknown extension ?<", &tok_text(lookch), ""), tok_count(lookch) + 2));
        }
        dir = -1;
        saved = Some(state.lookbehindgroups);
        if state.lookbehindgroups.is_none() {
            state.lookbehindgroups = Some(state.groups());
        }
        marker = lookch;
    }
    let p = parse_sub(source, state, verbose, nested.saturating_add(1))?;
    if dir < 0 {
        if let Some(s) = saved {
            if s.is_none() {
                state.lookbehindgroups = None;
            }
        }
    }
    if !source.take_match(')')? {
        let off = sub_or_zero(source.tell(), start);
        return Err(source.error_str("missing ), unterminated subpattern", off));
    }
    if marker == Tok::Char('=') {
        Ok(OpCode::Assert { direction: dir, p })
    } else if p.data.len() > 0 {
        Ok(OpCode::AssertNot { direction: dir, p })
    } else {
        Ok(OpCode::Failure)
    }
}

/// Whether the condition `name` of a conditional names group `g`: a
/// number names its group, any other name the group it was given to.
pub open spec fn cond_names(state: State, name: Seq<char>, g: u32) -> bool {
    if all_digits_of(name, 10) {
        g == digits_value(name, 10)
    } else {
        exists|i: int| 0 <= i < state.groupdict@.len() && #[trigger] state.groupdict@[i].0@ == name
            && state.groupdict@[i].1 == g
    }
}

/// Whether the conditional read from `before` to `after` names group `g`
/// by the text before a `)` that it read.
pub open spec fn cond_read(state: State, before: Tokenizer, after: Tokenizer, g: u32) -> bool {
    exists|k: int|
        before.pos() < k < after.pos() && before.chars@[k] == ')' && #[trigger] cond_names(
            state,
            before.chars@.subrange(before.pos(), k),
            g,
        )
}

/// A conditional `(?(id)yes|no)`, after `(?(`.
fn parse_conditional(source: &mut Tokenizer, state: &mut State, verbose: bool, nested: u32, start: usize) -> (r:
    Result<OpCode, ParseError>)
    requires
        old(source).inv(),
        old(state).inv(old(source).chars@.len()),
        start <= old(source).pos(),
    ensures
        final(source).same_input(*old(source)),
        r matches Err(e) ==> e.pos <= old(source).chars@.len(),
        r matches Ok(op) ==> {
            &&& parse_ok(*old(source), *final(source), *old(state), *final(state))
            &&& wf_op(op, final(state).ngroups(), final(state).extra())
            &&& !(op is Subpattern)
            &&& closes_at_paren(*old(source), *final(source))
            &&& op is GroupRefExists
            &&& cond_read(*old(state), *old(source), *final(source), op->cond_group)
        },
    decreases old(source).rem(), 2int,
{
    let ghost len = old(source).chars@.len();
    let ghost p0 = source.pos();
    let condname = source.getuntil(')', "group name")?;
    let off = add_capped(condname.len(), 1);
    let condgroup: u32;
    if !all_ascii_digits(&condname) {
        source.checkgroupname(condname.as_slice(), 1)?;
        condgroup = match state.lookup_name(condname.as_slice()) {
            None => {
                return Err(source.error(msg3("unknown group name '", &condname, "'"), off));
            },
            Some(g) => g,
        };
    } else {
        let parsed = match digits_to_u64(condname.as_slice(), 10) {
            Some(v) => {
                if v > 0xffff_ffff {
                    return Err(source.error(msg3("invalid group reference ", &condname, ""), off));
                }
                v as u32
            },
            None => {
                return Err(source.error(msg3("invalid group reference ", &condname, ""), off));
            },
        };
        if parsed == 0 {
            return Err(source.error_str("bad group number", off));
        }
        if parsed >= MAXGROUPS {
            let mut m = String::from_str("invalid group reference ");
            m.append(&chars_to_string(decimal(parsed as u128).as_slice()));
            return Err(source.error(m, off));
        }
        condgroup = parsed;
        if !has_ref(&state.grouprefpos, condgroup) {
            let pos = sub_or_zero(source.tell(), off);
            let ghost old_refs = state.grouprefpos@;
            state.grouprefpos.push((condgroup, pos));
            proof {
                assert(state.grouprefpos@[old_refs.len() as int].0 == condgroup);
                assert forall|g: u32| ref_keys(old_refs).contains(g) implies ref_keys(state.grouprefpos@).contains(g) by {
                    let j = choose|j: int| 0 <= j < old_refs.len() && #[trigger] old_refs[j].0 == g;
                    assert(state.grouprefpos@[j].0 == g);
                }
            }
        }
    }
    let ghost st1 = *state;
    let ghost k = source.pos() - 1;
    assert(cond_names(*old(state), old(source).chars@.subrange(p0, k), condgroup));
    state.checklookbehindgroup(condgroup, source)?;
    let item_yes = parse(source, state, verbose, nested.saturating_add(1), false)?;
    let ghost st2 = *state;
    let item_no = if source.take_match('|')? {
        let no = parse(source, state, verbose, nested.saturating_add(1), false)?;
        if source.peek_next_char() == Some('|') {
            return Err(source.error_str("conditional backref with more than two branches", 0));
        }
        Some(no)
    } else {
        None
    };
    if !source.take_match(')')? {
        let off2 = sub_or_zero(source.tell(), start);
        return Err(source.error_str("missing ), unterminated subpattern", off2));
    }
    proof {
        lemma_wf_sub_mono(item_yes, st2.ngroups(), st2.extra(), state.ngroups(), state.extra());
        assert(old(source).pos() < k < source.pos());
        assert(old(source).chars@[k] == ')');
        assert(cond_names(*old(state), old(source).chars@.subrange(old(source).pos(), k), condgroup));
        assert(cond_read(*old(state), *old(source), *source, condgroup));
    }
    Ok(OpCode::GroupRefExists { cond_group: condgroup, yes: item_yes, no: item_no })
}

} // verus!

verus! {

/// Every group number that a conditional named ahead of time was opened.
pub open spec fn refs_resolved(extra: Set<u32>, ngroups: nat) -> bool {
    forall|g: u32| #[trigger] extra.contains(g) ==> wf_group(g, ngroups)
}

/// Once every forward reference is resolved, none needs to be allowed.
pub proof fn lemma_wf_op_closed(op: OpCode, n: nat, extra: Set<u32>)
    requires
        wf_op(op, n, extra),
        refs_resolved(extra, n),
    ensures
        wf_op(op, n, Set::empty()),
    decreases op,
{
    match op {
        OpCode::Branch(alts) => {
            assert forall|i: int| 0 <= i < alts@.len() implies wf_sub(#[trigger] alts@[i], n, Set::empty()) by {
                lemma_wf_sub_closed(alts@[i], n, extra);
            }
        },
        OpCode::Subpattern { p, .. } => lemma_wf_sub_closed(p, n, extra),
        OpCode::GroupRefExists { yes, no, .. } => {
            lemma_wf_sub_closed(yes, n, extra);
            if let Some(x) = no {
                lemma_wf_sub_closed(x, n, extra);
            }
        },
        OpCode::Assert { p, .. } => lemma_wf_sub_closed(p, n, extra),
        OpCode::AssertNot { p, .. } => lemma_wf_sub_closed(p, n, extra),
        OpCode::AtomicGroup(p) => lemma_wf_sub_closed(p, n, extra),
        OpCode::MaxRepeat { item, .. } => lemma_wf_sub_closed(item, n, extra),
        OpCode::MinRepeat { item, .. } => lemma_wf_sub_closed(item, n, extra),
        OpCode::PossessiveRepeat { item, .. } => lemma_wf_sub_closed(item, n, extra),
        _ => {},
    }
}

/// The sequence form of [`lemma_wf_op_closed`].
pub proof fn lemma_wf_sub_closed(sp: SubPattern, n: nat, extra: Set<u32>)
    requires
        wf_sub(sp, n, extra),
        refs_resolved(extra, n),
    ensures
        wf_sub(sp, n, Set::empty()),
    decreases sp,
{
    assert forall|i: int| 0 <= i < sp.data@.len() implies wf_op(#[trigger] sp.data@[i], n, Set::empty()) by {
        lemma_wf_op_closed(sp.data@[i], n, extra);
    }
}

/// The named groups as strings.
fn group_name_list(dict: &Vec<(Vec<char>, u32)>) -> (out: Vec<(String, u32)>)
    ensures
        out@.len() == dict@.len(),
        forall|i: int| 0 <= i < dict@.len() ==> (#[trigger] out@[i]).0@ == dict@[i].0@ && out@[i].1 == dict@[i].1,
{
    let mut out: Vec<(String, u32)> = Vec::new();
    let mut i: usize = 0;
    while i < dict.len()
        invariant
            i <= dict@.len(),
            out@.len() == i,
            forall|j: int| 0 <= j < i ==> (#[trigger] out@[j]).0@ == dict@[j].0@ && out@[j].1 == dict@[j].1,
        decreases dict@.len() - i,
    {
        out.push((chars_to_string(dict[i].0.as_slice()), dict[i].1));
        i += 1;
    }
    out
}

/// Parses a regular expression over text.
///
/// On success the pattern tree is well formed for its group count: every
/// backreference and every conditional names a group that the pattern
/// opens, every codepoint is a Unicode scalar value, every repeat has
/// `min <= max`, and every class range is ordered. On failure the error
/// offset lies within the pattern. A pattern made only of characters that
/// stand for themselves and of `.`, `^` and `$`, parsed with valid flags
/// outside verbose mode, always succeeds: it is the sequence of those items,
/// with one group (the whole match) and no names. When such characters are
/// followed by a closing parenthesis, the pattern is refused as unbalanced
/// at that parenthesis; followed by a repeat with nothing to repeat (at the
/// start, or after an anchor), it is refused at that repeat.
pub fn parse_pattern(pattern: &str, flags: u32) -> (r: Result<ParsedPattern, ParseError>)
    ensures
        r matches Err(e) ==> e.pos <= pattern@.len(),
        forall|k: int|
            flags & SRE_FLAG_VERBOSE == 0 && #[trigger] nothing_to_repeat_at(pattern@, k) ==> {
                &&& r matches Err(e)
                &&& e.pos == k
                &&& e.msg@ == "nothing to repeat"@
            },
        forall|k: int|
            #![trigger pattern@.take(k)]
            flags & SRE_FLAG_VERBOSE == 0 && spec_fix_flags(true, flags) is Some && 0 <= k < pattern@.len()
                && atom_text(pattern@.take(k)) && pattern@[k] == ')' ==> {
                &&& r matches Err(e)
                &&& e.pos == k
                &&& e.msg@ == "unbalanced parenthesis"@
            },
        atom_text(pattern@) && flags & SRE_FLAG_VERBOSE == 0 && spec_fix_flags(true, flags) is None ==> {
            &&& r matches Err(e)
            &&& e.pos == 0
            &&& e.msg@ == flags_error_msg(true, flags)
        },
        atom_text(pattern@) && flags & SRE_FLAG_VERBOSE == 0 && spec_fix_flags(true, flags) is Some ==> {
            &&& r matches Ok(pp)
            &&& pp.pattern.data@ == atoms(pattern@)
            &&& pp.group_count == 1
            &&& pp.flags == spec_fix_flags(true, flags)->0
            &&& pp.group_names@.len() == 0
        },
        forall|k: int|
            flags & SRE_FLAG_VERBOSE == 0 && spec_fix_flags(true, flags) is Some && #[trigger] one_repeat_until_close(
                pattern@,
                0,
                k,
            ) && suffix_end(pattern@, k + 1, pattern@[k]) == pattern@.len() ==> {
                &&& r matches Ok(pp) && atoms_then_repeat(
                    pp.pattern.data@,
                    pattern@,
                    k,
                    repeat_bounds(pattern@[k], pattern@, k + 1),
                )
                &&& r matches Ok(pp) && pp.group_count == 1 && pp.flags == spec_fix_flags(true, flags)->0
                    && pp.group_names@.len() == 0
            },
        forall|k: int|
            flags & SRE_FLAG_VERBOSE == 0 && #[trigger] repeat_repeated(pattern@, 0, k) ==> {
                &&& r matches Err(e)
                &&& e.msg@ == "multiple repeat"@
                &&& e.pos == k + 1
            },
        flags & SRE_FLAG_VERBOSE == 0 && unterminated_group(pattern@) ==> {
            &&& r matches Err(e)
            &&& e.msg@ == "missing ), unterminated subpattern"@
            &&& e.pos == 0
        },
        flags & SRE_FLAG_VERBOSE == 0 && spec_fix_flags(true, flags) is Some && plain_alts(pattern@) && alts_end(
            pattern@,
        ) == pattern@.len() && alts(pattern@).len() >= 2 ==> {
            &&& r matches Ok(pp) && joined(pp.pattern.data@, atom_alts(alts(pattern@)))
            &&& r matches Ok(pp) && pp.group_count == 1 && pp.flags == spec_fix_flags(true, flags)->0
                && pp.group_names@.len() == 0
        },
        r matches Ok(pp) ==> {
            &&& 1 <= pp.group_count <= MAXGROUPS
            &&& wf_sub(pp.pattern, pp.group_count as nat, Set::empty())
            &&& exists|f: u32| spec_fix_flags(true, f) == Some(pp.flags)
            &&& forall|i: int| 0 <= i < pp.group_names@.len() ==> {
                &&& python_identifier((#[trigger] pp.group_names@[i]).0@)
                &&& wf_group(pp.group_names@[i].1, pp.group_count as nat)
            }
        },
{
    let chars = str_to_chars(pattern);
    let ghost plain = atom_text(pattern@) && flags & SRE_FLAG_VERBOSE == 0 && spec_fix_flags(true, flags) is Some;
    let ghost simple = flags & SRE_FLAG_VERBOSE == 0 && spec_fix_flags(true, flags) is Some;
    let ghost k = choose|k: int| atoms_until_close(pattern@, k);
    proof {
        if atom_text(pattern@) && flags & SRE_FLAG_VERBOSE == 0 {
            assert(pattern@.take(pattern@.len() as int) =~= pattern@);
            assert(atoms_until_close(pattern@, pattern@.len() as int));
            lemma_atoms_until_close_unique(pattern@, k, pattern@.len() as int);
        }
        assert forall|k2: int|
            #![trigger pattern@.take(k2)]
            0 <= k2 < pattern@.len() && atom_text(pattern@.take(k2)) && pattern@[k2] == ')' implies k2 == k by {
            assert(atoms_until_close(pattern@, k2));
            lemma_atoms_until_close_unique(pattern@, k, k2);
        }
        if atoms_until_close(pattern@, k) && chars@.len() > 0 {
            if k > 0 {
                assert(pattern@.take(k)[0] == chars@[0]);
                assert(is_atom_char(chars@[0]));
            }
        }
        assert forall|k2: int| #[trigger] nothing_to_repeat_at(pattern@, k2) implies !bad_escape_at(chars@, 0) by {
            if k2 > 0 {
                assert(pattern@.take(k2)[0] == chars@[0]);
                assert(is_atom_char(chars@[0]));
            }
        }
    }
    let ghost alt_case = flags & SRE_FLAG_VERBOSE == 0 && spec_fix_flags(true, flags) is Some && plain_alts(
        pattern@,
    ) && alts_end(pattern@) == pattern@.len() && alts(pattern@).len() >= 2;
    proof {
        if alt_case && pattern@.len() > 0 {
            lemma_plain_alts_first(pattern@);
        }
    }
    let ghost rk = choose|k: int| one_repeat_until_close(pattern@, 0, k);
    let ghost rep = flags & SRE_FLAG_VERBOSE == 0 && spec_fix_flags(true, flags) is Some && one_repeat_until_close(
        pattern@,
        0,
        rk,
    ) && suffix_end(pattern@, rk + 1, pattern@[rk]) == pattern@.len();
    proof {
        assert(pattern@.skip(0) =~= pattern@);
        assert forall|k2: int| #[trigger] one_repeat_until_close(pattern@, 0, k2) implies k2 == rk by {
            lemma_atoms_then_unique(pattern@.skip(0), rk, k2);
        }
        if rep {
            assert(chars@[0] != '\\') by {
                assert(pattern@.contains(pattern@[0]));
            }
        }
        assert forall|k2: int| #[trigger] repeat_repeated(pattern@, 0, k2) implies chars@[0] != '\\' by {
            assert(pattern@.contains(pattern@[0]));
        }
    }
    let mut source = Tokenizer::new(chars, true)?;
    let mut state = State::new();
    state.flags = flags;
    let ghost st0 = state;
    proof {
        assert(source.chars@.skip(0) =~= pattern@);
    }
    let ghost src0 = source;
    proof {
        if atom_text(pattern@) && flags & SRE_FLAG_VERBOSE == 0 {
            assert(atoms_until_close(src0.chars@.skip(src0.pos()), pattern@.len() as int));
        }
    }
    proof {
        if rep {
            assert(one_repeat_until_close(src0.chars@, src0.pos(), rk));
        }
        assert forall|k2: int| #[trigger] repeat_repeated(pattern@, 0, k2) implies repeat_repeated(
            src0.chars@,
            src0.pos(),
            k2,
        ) by {}
        assert(unterminated_group(pattern@) ==> unterminated_group(src0.chars@.skip(src0.pos())));
        assert(state.ngroups() < MAXGROUPS);
    }
    let p = parse_sub(&mut source, &mut state, flags & SRE_FLAG_VERBOSE != 0, 0)?;
    proof {
        if atom_text(pattern@) && flags & SRE_FLAG_VERBOSE == 0 {
            assert(state == st0);
            assert(state.flags == flags);
        }
        if rep {
            assert(state == st0);
            assert(state.flags == flags);
            assert(source.pos() == pattern@.len());
            assert(atoms_then_repeat(p.data@, pattern@, rk, repeat_bounds(pattern@[rk], pattern@, rk + 1)));
        }
        if alt_case {
            assert(state == st0);
            assert(state.flags == flags);
            assert(source.pos() == pattern@.len());
            assert(joined(p.data@, atom_alts(alts(pattern@))));
        }
    }
    state.flags = fix_flags(true, state.flags)?;
    proof {
        if simple && atoms_until_close(pattern@, k) {
            assert(source.pos() == k);
            if k < pattern@.len() {
                assert(source.next == Some(Tok::Char(')')));
            }
        }
    }
    if source.next.is_some() {
        return Err(source.error_str("unbalanced parenthesis", 0));
    }
    let groups = state.groups();
    let mut i: usize = 0;
    while i < state.grouprefpos.len()
        invariant
            i <= state.grouprefpos@.len(),
            groups == state.ngroups(),
            state.inv(pattern@.len()),
            forall|j: int| 0 <= j < i ==> (#[trigger] state.grouprefpos@[j]).0 < groups,
            plain ==> state.grouprefpos@.len() == 0,
            rep ==> state.grouprefpos@.len() == 0,
            alt_case ==> state.grouprefpos@.len() == 0,
            alt_case == (flags & SRE_FLAG_VERBOSE == 0 && spec_fix_flags(true, flags) is Some && plain_alts(
                pattern@,
            ) && alts_end(pattern@) == pattern@.len() && alts(pattern@).len() >= 2),
            rep == (flags & SRE_FLAG_VERBOSE == 0 && spec_fix_flags(true, flags) is Some && one_repeat_until_close(
                pattern@,
                0,
                rk,
            ) && suffix_end(pattern@, rk + 1, pattern@[rk]) == pattern@.len()),
            forall|k2: int| #[trigger] one_repeat_until_close(pattern@, 0, k2) ==> k2 == rk,
            forall|k2: int| !(flags & SRE_FLAG_VERBOSE == 0 && #[trigger] repeat_repeated(pattern@, 0, k2)),
            !(flags & SRE_FLAG_VERBOSE == 0 && unterminated_group(pattern@)),
            !(atom_text(pattern@) && flags & SRE_FLAG_VERBOSE == 0 && spec_fix_flags(true, flags) is None),
            plain == (atom_text(pattern@) && flags & SRE_FLAG_VERBOSE == 0 && spec_fix_flags(true, flags) is Some),
            forall|k2: int|
                #![trigger pattern@.take(k2)]
                !(flags & SRE_FLAG_VERBOSE == 0 && spec_fix_flags(true, flags) is Some && 0 <= k2 < pattern@.len()
                    && atom_text(pattern@.take(k2)) && pattern@[k2] == ')'),
            forall|k2: int| !(flags & SRE_FLAG_VERBOSE == 0 && #[trigger] nothing_to_repeat_at(pattern@, k2)),
        decreases state.grouprefpos@.len() - i,
    {
        let (g, pos) = state.grouprefpos[i];
        if g >= groups {
            let mut m = String::from_str("invalid group reference ");
            m.append(&chars_to_string(decimal(g as u128).as_slice()));
            return Err(ParseError { msg: m, pos });
        }
        i += 1;
    }
    proof {
        assert forall|g: u32| #[trigger] state.extra().contains(g) implies wf_group(g, state.ngroups()) by {
            let j = choose|j: int| 0 <= j < state.grouprefpos@.len() && #[trigger] state.grouprefpos@[j].0 == g;
            assert(state.grouprefpos@[j].0 < groups);
        }
        lemma_wf_sub_closed(p, state.ngroups(), state.extra());
    }
    let names = group_name_list(&state.groupdict);
    Ok(ParsedPattern { pattern: p, flags: state.flags, group_count: groups, group_names: names })
}

} // verus!
