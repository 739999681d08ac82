//! The character-level tokenizer of the pattern parser.
//!
//! A backslash and the character after it form one logical token; every
//! other character is a token of its own.

use vstd::prelude::*;

use super::parser::ParseError;
use crate::native::charutil::{chars_to_string, is_alphabetic, is_alphanumeric, spec_is_alphabetic, spec_is_alphanumeric};

verus! {

/// One logical token: a plain character, or a backslash escape `\x`.
#[derive(Copy, Clone, PartialEq, Eq, Structural)]
pub enum Tok {
    Char(char),
    Escape(char),
}

/// The number of pattern characters a token spans.
pub open spec fn tok_len(t: Option<Tok>) -> int {
    match t {
        None => 0,
        Some(Tok::Char(_)) => 1,
        Some(Tok::Escape(_)) => 2,
    }
}

/// The token that starts at position `i` of `chars` (a backslash at the very
/// end has no token: reading it is an error).
pub open spec fn token_at(chars: Seq<char>, i: int) -> Option<Tok> {
    if i >= chars.len() {
        None
    } else if chars[i] == '\\' {
        if i + 1 < chars.len() {
            Some(Tok::Escape(chars[i + 1]))
        } else {
            None
        }
    } else {
        Some(Tok::Char(chars[i]))
    }
}

/// Whether reading a token at `i` fails: a lone backslash at the end.
pub open spec fn bad_escape_at(chars: Seq<char>, i: int) -> bool {
    0 <= i < chars.len() && chars[i] == '\\' && i + 1 == chars.len()
}

/// The characters a token stands for.
pub open spec fn tok_chars(t: Tok) -> Seq<char> {
    match t {
        Tok::Char(c) => seq![c],
        Tok::Escape(x) => seq!['\\', x],
    }
}

pub open spec fn tok_is(t: Option<Tok>, c: char) -> bool {
    t == Some(Tok::Char(c))
}

/// The tokenizer: the pattern, whether it is a text pattern, the index just
/// past the lookahead token, and that lookahead token.
pub struct Tokenizer {
    pub chars: Vec<char>,
    pub istext: bool,
    pub index: usize,
    pub next: Option<Tok>,
}

impl Tokenizer {
    /// The lookahead token is the token that ends at `index`.
    pub open spec fn inv(&self) -> bool {
        &&& self.index <= self.chars@.len()
        &&& self.index - tok_len(self.next) >= 0
        &&& self.next == token_at(self.chars@, self.index - tok_len(self.next))
        &&& (self.next is None ==> self.index == self.chars@.len())
    }

    /// The position where the lookahead token starts.
    pub open spec fn pos(&self) -> int {
        self.index - tok_len(self.next)
    }

    /// How much of the pattern is not consumed yet.
    pub open spec fn rem(&self) -> int {
        self.chars@.len() - self.pos()
    }

    pub open spec fn same_input(&self, other: Tokenizer) -> bool {
        self.chars@ == other.chars@ && self.istext == other.istext
    }

    /// Builds the tokenizer and reads the first token.
    pub fn new(chars: Vec<char>, istext: bool) -> (r: Result<Tokenizer, ParseError>)
        ensures
            r matches Ok(t) ==> t.inv() && t.chars@ == chars@ && t.istext == istext && t.pos() == 0,
            r is Err <==> bad_escape_at(chars@, 0),
            r matches Err(e) ==> e.pos <= chars@.len(),
    {
        let mut tok = Tokenizer { chars, istext, index: 0, next: None };
        tok.advance()?;
        Ok(tok)
    }

    /// Reads the token at `index` into the lookahead.
    pub fn advance(&mut self) -> (r: Result<(), ParseError>)
        requires
            old(self).index <= old(self).chars@.len(),
        ensures
            final(self).same_input(*old(self)),
            r is Err <==> bad_escape_at(old(self).chars@, old(self).index as int),
            r matches Err(e) ==> e.pos <= old(self).chars@.len(),
            r is Ok ==> {
                &&& final(self).inv()
                &&& final(self).pos() == old(self).index
                &&& final(self).next == token_at(old(self).chars@, old(self).index as int)
            },
    {
        let index = self.index;
        if index >= self.chars.len() {
            self.next = None;
            return Ok(());
        }
        let ch = self.chars[index];
        if ch == '\\' {
            if index + 1 >= self.chars.len() {
                return Err(ParseError::from_str("bad escape (end of pattern)", self.chars.len() - 1));
            }
            let nx = self.chars[index + 1];
            self.next = Some(Tok::Escape(nx));
            self.index = index + 2;
        } else {
            self.next = Some(Tok::Char(ch));
            self.index = index + 1;
        }
        Ok(())
    }

    /// The first character of the lookahead token.
    pub fn peek_next_char(&self) -> (r: Option<char>)
        ensures
            r == match self.next {
                None => None,
                Some(Tok::Char(c)) => Some(c),
                Some(Tok::Escape(_)) => Some('\\'),
            },
    {
        match self.next {
            None => None,
            Some(Tok::Char(c)) => Some(c),
            Some(Tok::Escape(_)) => Some('\\'),
        }
    }

    /// Consumes the lookahead token if it is the plain character `ch`.
    pub fn take_match(&mut self, ch: char) -> (r: Result<bool, ParseError>)
        requires
            old(self).inv(),
        ensures
            final(self).same_input(*old(self)),
            r matches Err(e) ==> e.pos <= old(self).chars@.len(),
            r is Err ==> tok_is(old(self).next, ch),
            r is Err <==> tok_is(old(self).next, ch) && bad_escape_at(old(self).chars@, old(self).index as int),
            r matches Ok(b) ==> {
                &&& b == tok_is(old(self).next, ch)
                &&& final(self).inv()
                &&& (b ==> final(self).rem() == old(self).rem() - 1)
                &&& (!b ==> *final(self) == *old(self))
            },
    {
        if self.next == Some(Tok::Char(ch)) {
            self.advance()?;
            Ok(true)
        } else {
            Ok(false)
        }
    }

    /// Consumes and returns the lookahead token.
    pub fn get(&mut self) -> (r: Result<Option<Tok>, ParseError>)
        requires
            old(self).inv(),
        ensures
            final(self).same_input(*old(self)),
            r matches Err(e) ==> e.pos <= old(self).chars@.len(),
            r is Err ==> old(self).next is Some,
            r is Err <==> bad_escape_at(old(self).chars@, old(self).index as int),
            r matches Ok(t) ==> {
                &&& t == old(self).next
                &&& final(self).inv()
                &&& final(self).rem() == old(self).rem() - tok_len(t)
            },
    {
        let this = self.next;
        self.advance()?;
        Ok(this)
    }

    /// Consumes up to `n` plain tokens whose characters are in `charset`,
    /// returning their characters.
    pub fn getwhile(&mut self, n: usize, charset: &[char]) -> (r: Result<Vec<char>, ParseError>)
        requires
            old(self).inv(),
        ensures
            final(self).same_input(*old(self)),
            r matches Err(e) ==> e.pos <= old(self).chars@.len(),
            r is Err ==> exists|k: int| 1 <= k <= n && #[trigger] bad_escape_at(old(self).chars@, old(self).pos() + k),
            r matches Ok(s) ==> {
                &&& final(self).inv()
                &&& s@.len() <= n
                &&& final(self).rem() == old(self).rem() - s@.len()
                &&& s@ == old(self).chars@.subrange(old(self).pos(), old(self).pos() + s@.len())
                &&& forall|i: int| 0 <= i < s@.len() ==> charset@.contains(#[trigger] s@[i])
                &&& forall|i: int| 0 <= i < s@.len() ==> #[trigger] s@[i] != '\\'
                &&& (s@.len() == n || !(final(self).next matches Some(Tok::Char(c)) && charset@.contains(c)))
            },
    {
        let mut result: Vec<char> = Vec::new();
        let mut k: usize = 0;
        while k < n
            invariant_except_break
                self.inv(),
                self.same_input(*old(self)),
                k <= n,
                result@.len() == k,
                self.rem() == old(self).rem() - k,
                result@ == old(self).chars@.subrange(old(self).pos(), old(self).pos() + k),
                forall|i: int| 0 <= i < result@.len() ==> charset@.contains(#[trigger] result@[i]),
                forall|i: int| 0 <= i < result@.len() ==> #[trigger] result@[i] != '\\',
            invariant
                self.same_input(*old(self)),
                old(self).inv(),
            ensures
                self.inv(),
                k <= n,
                result@.len() == k,
                self.rem() == old(self).rem() - k,
                result@ == old(self).chars@.subrange(old(self).pos(), old(self).pos() + k),
                forall|i: int| 0 <= i < result@.len() ==> charset@.contains(#[trigger] result@[i]),
                forall|i: int| 0 <= i < result@.len() ==> #[trigger] result@[i] != '\\',
                k == n || !(self.next matches Some(Tok::Char(c)) && charset@.contains(c)),
            decreases n - k,
        {
            let c = match self.next {
                Some(Tok::Char(c)) => c,
                _ => break,
            };
            if !contains_char(charset, c) {
                break;
            }
            let ghost before = *self;
            result.push(c);
            let adv = self.advance();
            if adv.is_err() {
                proof {
                    assert(before.index == old(self).pos() + k + 1);
                    assert(bad_escape_at(old(self).chars@, old(self).pos() + (k + 1)));
                }
                return Err(adv.unwrap_err());
            }
            k += 1;
            proof {
                assert(before.pos() == old(self).pos() + k - 1);
                assert(token_at(before.chars@, before.pos()) == Some(Tok::Char(c)));
                assert(before.chars@[before.pos()] == c);
                assert(result@ =~= old(self).chars@.subrange(old(self).pos(), old(self).pos() + k));
            }
        }
        Ok(result)
    }

    /// The position where the lookahead token starts.
    pub fn tell(&self) -> (r: usize)
        requires
            self.inv(),
        ensures
            r == self.pos(),
    {
        match self.next {
            None => self.index,
            Some(Tok::Char(_)) => self.index - 1,
            Some(Tok::Escape(_)) => self.index - 2,
        }
    }

    /// Moves to `index` and reads the token there.
    pub fn seek(&mut self, index: usize) -> (r: Result<(), ParseError>)
        requires
            old(self).inv(),
            index <= old(self).chars@.len(),
        ensures
            final(self).same_input(*old(self)),
            r matches Err(e) ==> e.pos <= old(self).chars@.len(),
            r is Ok ==> final(self).inv() && final(self).pos() == index,
    {
        self.index = index;
        self.advance()
    }

    /// An error at `offset` characters before the lookahead token.
    pub fn error(&self, msg: String, offset: usize) -> (e: ParseError)
        requires
            self.inv(),
        ensures
            e.pos <= self.chars@.len(),
            e.pos == if self.pos() >= offset { self.pos() - offset } else { 0 },
            e.msg@ == msg@,
    {
        let here = self.tell();
        let pos = if here >= offset { here - offset } else { 0 };
        ParseError { msg, pos }
    }

    /// [`Self::error`] with a message given as a literal.
    pub fn error_str(&self, msg: &str, offset: usize) -> (e: ParseError)
        requires
            self.inv(),
        ensures
            e.pos <= self.chars@.len(),
            e.pos == if self.pos() >= offset { self.pos() - offset } else { 0 },
            e.msg@ == msg@,
    {
        self.error(String::from_str(msg), offset)
    }

    /// Reads tokens up to `terminator`, returning the characters before it.
    pub fn getuntil(&mut self, terminator: char, name: &str) -> (r: Result<Vec<char>, ParseError>)
        requires
            old(self).inv(),
        ensures
            final(self).same_input(*old(self)),
            r matches Err(e) ==> e.pos <= old(self).chars@.len(),
            r matches Ok(s) ==> {
                &&& final(self).inv()
                &&& s@.len() > 0
                &&& final(self).rem() < old(self).rem()
                &&& s@ == old(self).chars@.subrange(old(self).pos(), final(self).pos() - 1)
                &&& old(self).chars@[final(self).pos() - 1] == terminator
            },
    {
        let mut result: Vec<char> = Vec::new();
        loop
            invariant
                self.inv(),
                self.same_input(*old(self)),
                old(self).inv(),
                self.rem() <= old(self).rem() - result@.len(),
                old(self).pos() <= self.pos(),
                result@ == old(self).chars@.subrange(old(self).pos(), self.pos()),
            decreases self.rem(),
        {
            let c = self.next;
            let ghost before = *self;
            self.advance()?;
            proof {
                assert(c == token_at(before.chars@, before.pos()));
            }
            match c {
                None => {
                    if result.len() == 0 {
                        let mut m = String::from_str("missing ");
                        m.append(name);
                        return Err(self.error(m, 0));
                    }
                    let mut m = String::from_str("missing ");
                    m.append(&char_to_string(terminator));
                    m.append(", unterminated name");
                    return Err(self.error(m, result.len()));
                },
                Some(Tok::Char(t)) if t == terminator => {
                    if result.len() == 0 {
                        let mut m = String::from_str("missing ");
                        m.append(name);
                        return Err(self.error(m, 1));
                    }
                    return Ok(result);
                },
                Some(Tok::Char(x)) => {
                    result.push(x);
                    proof {
                        assert(result@ =~= old(self).chars@.subrange(old(self).pos(), self.pos()));
                    }
                },
                Some(Tok::Escape(x)) => {
                    result.push('\\');
                    result.push(x);
                    proof {
                        assert(result@ =~= old(self).chars@.subrange(old(self).pos(), self.pos()));
                    }
                },
            }
        }
    }

    /// Checks that a group name is a valid identifier.
    pub fn checkgroupname(&self, name: &[char], offset: usize) -> (r: Result<(), ParseError>)
        requires
            self.inv(),
        ensures
            r is Ok <==> ((self.istext || all_ascii(name@)) && python_identifier(name@)),
            r matches Err(e) ==> e.pos <= self.chars@.len(),
    {
        if !self.istext && !is_ascii_chars(name) {
            return Err(self.bad_group_name(name, offset));
        }
        if !is_python_identifier(name) {
            return Err(self.bad_group_name(name, offset));
        }
        Ok(())
    }

    fn bad_group_name(&self, name: &[char], offset: usize) -> (e: ParseError)
        requires
            self.inv(),
        ensures
            e.pos <= self.chars@.len(),
            e.msg@ == "bad character in group name '"@ + name@ + "'"@,
            e.pos == if self.pos() >= name@.len() + offset { self.pos() - (name@.len() + offset) } else { 0 },
    {
        let mut m = String::from_str("bad character in group name '");
        m.append(&chars_to_string(name));
        m.append("'");
        let off = if name.len() <= usize::MAX - offset { name.len() + offset } else { usize::MAX };
        self.error(m, off)
    }
}

/// Whether `c` occurs in `set`.
pub fn contains_char(set: &[char], c: char) -> (r: bool)
    ensures
        r == set@.contains(c),
{
    let mut i: usize = 0;
    while i < set.len()
        invariant
            i <= set@.len(),
            forall|j: int| 0 <= j < i ==> set@[j] != c,
        decreases set@.len() - i,
    {
        if set[i] == c {
            return true;
        }
        i += 1;
    }
    false
}

pub open spec fn all_ascii(s: Seq<char>) -> bool {
    forall|i: int| 0 <= i < s.len() ==> (#[trigger] s[i] as u32) < 128
}

/// Whether every character is ASCII.
pub fn is_ascii_chars(s: &[char]) -> (r: bool)
    ensures
        r == all_ascii(s@),
{
    let mut i: usize = 0;
    while i < s.len()
        invariant
            i <= s@.len(),
            forall|j: int| 0 <= j < i ==> (#[trigger] s@[j] as u32) < 128,
        decreases s@.len() - i,
    {
        if (s[i] as u32) >= 128 {
            return false;
        }
        i += 1;
    }
    true
}

pub open spec fn id_start(c: char) -> bool {
    c == '_' || spec_is_alphabetic(c)
}

pub open spec fn id_continue(c: char) -> bool {
    c == '_' || spec_is_alphanumeric(c)
}

/// A Python identifier: a start character followed by continue characters.
pub open spec fn python_identifier(s: Seq<char>) -> bool {
    &&& s.len() > 0
    &&& id_start(s[0])
    &&& forall|i: int| 1 <= i < s.len() ==> id_continue(#[trigger] s[i])
}

/// `_` or an alphabetic character.
pub fn is_id_start(c: char) -> (r: bool)
    ensures
        r == id_start(c),
{
    c == '_' || is_alphabetic(c)
}

/// `_` or an alphanumeric character.
pub fn is_id_continue(c: char) -> (r: bool)
    ensures
        r == id_continue(c),
{
    c == '_' || is_alphanumeric(c)
}

/// Whether `s` is a valid identifier in the sense of `str.isidentifier`,
/// approximated by the `Alphabetic` / `Alphanumeric` properties.
pub fn is_python_identifier(s: &[char]) -> (r: bool)
    ensures
        r == python_identifier(s@),
{
    if s.len() == 0 {
        return false;
    }
    if !is_id_start(s[0]) {
        return false;
    }
    let mut i: usize = 1;
    while i < s.len()
        invariant
            1 <= i <= s@.len(),
            forall|j: int| 1 <= j < i ==> id_continue(#[trigger] s@[j]),
        decreases s@.len() - i,
    {
        if !is_id_continue(s[i]) {
            return false;
        }
        i += 1;
    }
    true
}

/// The one-character string `c`.
pub fn char_to_string(c: char) -> (s: String)
    ensures
        s@ == seq![c],
{
    let v: Vec<char> = vec![c];
    chars_to_string(v.as_slice())
}

} // verus!
