//! Flag bits and the position / category codes used by the parser.

use vstd::prelude::*;

verus! {

/// The largest repetition bound; `*` and `+` use it as "unbounded".
pub const MAXREPEAT: u32 = 0xffff_ffff;

/// The largest number of groups a pattern may open.
pub const MAXGROUPS: u32 = 500;

pub const SRE_FLAG_IGNORECASE: u32 = 2;

pub const SRE_FLAG_LOCALE: u32 = 4;

pub const SRE_FLAG_MULTILINE: u32 = 8;

pub const SRE_FLAG_DOTALL: u32 = 16;

pub const SRE_FLAG_UNICODE: u32 = 32;

pub const SRE_FLAG_VERBOSE: u32 = 64;

/// The debug flag: the one global flag; no inline flag letter sets it.
pub const SRE_FLAG_DEBUG: u32 = 128;

pub const SRE_FLAG_ASCII: u32 = 256;

/// The flags that select how character classes are interpreted.
pub const TYPE_FLAGS: u32 = 292;

/// The flags that may only be set for the whole pattern.
pub const GLOBAL_FLAGS: u32 = 128;

/// Position assertion codes: the subset the parser emits.
#[derive(Copy, Clone, Debug, PartialEq, Eq, Structural)]
pub enum AtCode {
    Beginning,
    BeginningString,
    Boundary,
    NonBoundary,
    End,
    EndString,
}

/// Character-class category codes: the subset the parser emits.
#[derive(Copy, Clone, Debug, PartialEq, Eq, Hash, Structural)]
pub enum ChCode {
    Digit,
    NotDigit,
    Space,
    NotSpace,
    Word,
    NotWord,
}

/// `TYPE_FLAGS` is the union of the ASCII, LOCALE and UNICODE flags.
pub proof fn lemma_type_flags()
    ensures
        TYPE_FLAGS == SRE_FLAG_ASCII | SRE_FLAG_LOCALE | SRE_FLAG_UNICODE,
        GLOBAL_FLAGS == SRE_FLAG_DEBUG,
{
    assert(256u32 | 4u32 | 32u32 == 292u32) by (bit_vector);
}

} // verus!
