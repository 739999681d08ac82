//! Interpreting schemas: codepoint ranges without surrogates, approximate
//! category membership, the alphabet that a string schema draws from, and
//! (in the submodules) text categories, dates and times, and the matcher
//! that checks regex lookaround assertions.

pub mod regex;
pub mod special;
pub mod text;

use vstd::prelude::*;

use crate::native::charutil::{
    char_from_u32, chars_are1, chars_are2, is_alphabetic, is_alphanumeric, is_ascii_digit,
    is_ascii_punctuation, is_control, is_lowercase, is_numeric, is_scalar, is_uppercase,
    is_whitespace, spec_is_alphabetic, spec_is_alphanumeric, spec_is_ascii_digit,
    spec_is_ascii_punctuation, spec_is_control, spec_is_lowercase, spec_is_numeric,
    spec_is_uppercase, spec_is_whitespace, str_to_chars,
};
use crate::native::re::parser::chars_equal;
use crate::native::re::tokenizer::contains_char;

verus! {

/// A UTF-16 surrogate codepoint, `0xD800..=0xDFFF`.
pub open spec fn surrogate(cp: int) -> bool {
    0xD800 <= cp && cp <= 0xDFFF
}

/// The number of integers in `[a, b]`.
pub open spec fn interval_len(a: int, b: int) -> int {
    if a <= b {
        b - a + 1
    } else {
        0
    }
}

/// The number of codepoints in `[min, max]` that are not surrogates: the
/// whole range less its overlap with the surrogate block.
pub open spec fn valid_codepoint_count(min: int, max: int) -> int {
    interval_len(min, max) - interval_len(
        if min < 0xD800 {
            0xD800
        } else {
            min
        },
        if max < 0xDFFF {
            max
        } else {
            0xDFFF
        },
    )
}

/// Counts the codepoints in `[min, max]` that are not surrogates.
pub fn count_valid_codepoints(min: u32, max: u32) -> (r: u32)
    requires
        min <= max ==> max - min < u32::MAX,
    ensures
        r == valid_codepoint_count(min as int, max as int),
{
    if min > max {
        return 0;
    }
    let total = max - min + 1;
    let overlap_lo = if min < 0xD800 {
        0xD800
    } else {
        min
    };
    let overlap_hi = if max < 0xDFFF {
        max
    } else {
        0xDFFF
    };
    if overlap_lo <= overlap_hi {
        total - (overlap_hi - overlap_lo + 1)
    } else {
        total
    }
}

/// The `idx`-th codepoint of `[min, max]` that is not a surrogate,
/// counting from 0.
pub fn codepoint_at_index(min: u32, max: u32, idx: u32) -> (r: char)
    requires
        max <= 0x10FFFF,
        idx < valid_codepoint_count(min as int, max as int),
    ensures
        min <= r as u32 <= max,
        !surrogate(r as int),
        valid_codepoint_count(min as int, r as int - 1) == idx,
{
    let pre_max = if max < 0xD7FF {
        max
    } else {
        0xD7FF
    };
    let pre_count = if min <= pre_max {
        pre_max - min + 1
    } else {
        0
    };
    let cp = if idx < pre_count {
        min + idx
    } else {
        let post_start = if min < 0xE000 {
            0xE000
        } else {
            min
        };
        post_start + (idx - pre_count)
    };
    match char_from_u32(cp) {
        Some(c) => c,
        None => {
            assert(false);
            ' '
        },
    }
}

/// Whether `c` is a surrogate (never, for a `char`).
pub fn is_surrogate(c: char) -> (r: bool)
    ensures
        r == surrogate(c as int),
        !r,
{
    is_surrogate_cp(c as u32)
}

/// Whether `cp` is a surrogate codepoint.
pub fn is_surrogate_cp(cp: u32) -> (r: bool)
    ensures
        r == surrogate(cp as int),
{
    0xD800 <= cp && cp <= 0xDFFF
}

/// Approximate membership of `c` in the general category named `cat`,
/// from the character properties the standard library answers: letters
/// by case, ASCII digits and punctuation, whitespace, control characters,
/// and a few single characters. Unknown names (and `Cs`) hold nothing.
pub open spec fn spec_char_in_category(c: char, cat: Seq<char>) -> bool {
    if cat == seq!['L', 'u'] || cat == seq!['L', 't'] {
        spec_is_alphabetic(c) && spec_is_uppercase(c)
    } else if cat == seq!['L', 'l'] {
        spec_is_alphabetic(c) && spec_is_lowercase(c)
    } else if cat == seq!['L'] || cat == seq!['L', 'C'] {
        spec_is_alphabetic(c)
    } else if cat == seq!['L', 'm'] || cat == seq!['L', 'o'] {
        spec_is_alphabetic(c) && !spec_is_uppercase(c) && !spec_is_lowercase(c)
    } else if cat == seq!['N', 'd'] {
        spec_is_ascii_digit(c)
    } else if cat == seq!['N', 'o'] || cat == seq!['N', 'l'] || cat == seq!['N'] {
        spec_is_numeric(c)
    } else if cat == seq!['Z', 's'] {
        c == ' '
    } else if cat == seq!['Z'] {
        spec_is_whitespace(c)
    } else if cat == seq!['P', 'c'] {
        c == '_'
    } else if cat == seq!['P', 'd'] {
        c == '-'
    } else if cat == seq!['P'] || cat == seq!['P', 'o'] || cat == seq!['P', 'e'] || cat == seq![
        'P',
        'f',
    ] || cat == seq!['P', 'i'] || cat == seq!['P', 's'] {
        spec_is_ascii_punctuation(c)
    } else if cat == seq!['S', 'm'] {
        c == '+' || c == '<' || c == '=' || c == '>' || c == '|' || c == '~'
    } else if cat == seq!['S'] || cat == seq!['S', 'c'] || cat == seq!['S', 'k'] || cat == seq![
        'S',
        'o',
    ] {
        !spec_is_alphanumeric(c) && !spec_is_whitespace(c) && !spec_is_control(c)
    } else if cat == seq!['C', 'c'] || cat == seq!['C'] {
        spec_is_control(c)
    } else {
        false
    }
}

/// Whether `c` belongs to the general category named `category`, as far as
/// the standard library's character properties tell.
pub fn char_in_category(c: char, category: &str) -> (r: bool)
    ensures
        r == spec_char_in_category(c, category@),
{
    let k = str_to_chars(category);
    if chars_are2(&k, 'L', 'u') || chars_are2(&k, 'L', 't') {
        is_alphabetic(c) && is_uppercase(c)
    } else if chars_are2(&k, 'L', 'l') {
        is_alphabetic(c) && is_lowercase(c)
    } else if chars_are1(&k, 'L') || chars_are2(&k, 'L', 'C') {
        is_alphabetic(c)
    } else if chars_are2(&k, 'L', 'm') || chars_are2(&k, 'L', 'o') {
        is_alphabetic(c) && !is_uppercase(c) && !is_lowercase(c)
    } else if chars_are2(&k, 'N', 'd') {
        is_ascii_digit(c)
    } else if chars_are2(&k, 'N', 'o') || chars_are2(&k, 'N', 'l') || chars_are1(&k, 'N') {
        is_numeric(c)
    } else if chars_are2(&k, 'Z', 's') {
        c == ' '
    } else if chars_are1(&k, 'Z') {
        is_whitespace(c)
    } else if chars_are2(&k, 'P', 'c') {
        c == '_'
    } else if chars_are2(&k, 'P', 'd') {
        c == '-'
    } else if chars_are1(&k, 'P') || chars_are2(&k, 'P', 'o') || chars_are2(&k, 'P', 'e')
        || chars_are2(&k, 'P', 'f') || chars_are2(&k, 'P', 'i') || chars_are2(&k, 'P', 's') {
        is_ascii_punctuation(c)
    } else if chars_are2(&k, 'S', 'm') {
        c == '+' || c == '<' || c == '=' || c == '>' || c == '|' || c == '~'
    } else if chars_are1(&k, 'S') || chars_are2(&k, 'S', 'c') || chars_are2(&k, 'S', 'k')
        || chars_are2(&k, 'S', 'o') {
        !is_alphanumeric(c) && !is_whitespace(c) && !is_control(c)
    } else if chars_are2(&k, 'C', 'c') || chars_are1(&k, 'C') {
        is_control(c)
    } else {
        false
    }
}


/// The string constraints of a schema, as plain values: the codec, the
/// codepoint bounds, the category filters and the characters to include
/// or exclude.
pub struct StringSchema {
    pub codec: Option<String>,
    pub min_codepoint: Option<u64>,
    pub max_codepoint: Option<u64>,
    pub categories: Option<Vec<String>>,
    pub exclude_categories: Option<Vec<String>>,
    pub include_characters: Option<String>,
    pub exclude_characters: Option<String>,
}

/// The characters a string is drawn from.
pub enum StringAlphabet {
    /// Every codepoint of `[min, max]` that is not a surrogate.
    Range { min: u32, max: u32 },
    /// Exactly these characters, in this order.
    Explicit(Vec<char>),
}

/// The number of characters in an alphabet.
pub open spec fn alphabet_len(a: &StringAlphabet) -> int {
    match a {
        StringAlphabet::Range { min, max } => valid_codepoint_count(*min as int, *max as int),
        StringAlphabet::Explicit(v) => v@.len() as int,
    }
}

/// Whether an alphabet can be indexed: a range stays within Unicode.
pub open spec fn alphabet_wf(a: &StringAlphabet) -> bool {
    match a {
        StringAlphabet::Range { max, .. } => *max <= 0x10FFFF,
        StringAlphabet::Explicit(_) => true,
    }
}

impl StringAlphabet {
    /// The number of characters.
    pub fn len(&self) -> (r: usize)
        requires
            alphabet_wf(self),
        ensures
            r == alphabet_len(self),
    {
        match self {
            StringAlphabet::Range { min, max } => count_valid_codepoints(*min, *max) as usize,
            StringAlphabet::Explicit(v) => v.len(),
        }
    }

    /// The character at `idx`: for a range, its `idx`-th codepoint that is
    /// not a surrogate.
    pub fn char_at(&self, idx: usize) -> (r: char)
        requires
            alphabet_wf(self),
            idx < alphabet_len(self),
        ensures
            self matches StringAlphabet::Explicit(v) ==> r == v@[idx as int],
            self matches StringAlphabet::Range { min, max } ==> {
                &&& *min <= r as u32 <= *max
                &&& !surrogate(r as int)
                &&& valid_codepoint_count(*min as int, r as int - 1) == idx
            },
    {
        match self {
            StringAlphabet::Range { min, max } => codepoint_at_index(*min, *max, idx as u32),
            StringAlphabet::Explicit(v) => v[idx],
        }
    }
}

/// Whether `codec` names the codec `name`.
pub open spec fn codec_is(codec: Option<String>, name: Seq<char>) -> bool {
    codec matches Some(c) && c@ == name
}

/// The codecs a string schema may name (or none, which means UTF-8).
pub open spec fn valid_codec(codec: Option<String>) -> bool {
    ||| codec is None
    ||| codec_is(codec, "ascii"@)
    ||| codec_is(codec, "latin-1"@)
    ||| codec_is(codec, "iso-8859-1"@)
    ||| codec_is(codec, "utf-8"@)
}

/// The largest codepoint a codec encodes.
pub open spec fn codec_max(codec: Option<String>) -> u32 {
    if codec_is(codec, "ascii"@) {
        127
    } else if codec_is(codec, "latin-1"@) || codec_is(codec, "iso-8859-1"@) {
        255
    } else {
        0x10FFFF
    }
}

/// The smallest codepoint the alphabet may hold.
pub open spec fn alphabet_min(s: &StringSchema) -> u32 {
    match s.min_codepoint {
        Some(m) => m as u32,
        None => 0,
    }
}

/// The largest codepoint the alphabet may hold.
pub open spec fn alphabet_max(s: &StringSchema) -> u32 {
    match s.max_codepoint {
        Some(m) => if (m as u32) < codec_max(s.codec) {
            m as u32
        } else {
            codec_max(s.codec)
        },
        None => codec_max(s.codec),
    }
}

/// Whether `c` falls in one of the categories named in `cats`.
pub open spec fn in_any_category(c: char, cats: Seq<String>) -> bool {
    exists|i: int| 0 <= i < cats.len() && spec_char_in_category(c, #[trigger] cats[i]@)
}

/// Whether `c` falls in one of the categories named in `cats` other than
/// the surrogates, `Cs`.
pub open spec fn in_excluded_category(c: char, cats: Seq<String>) -> bool {
    exists|i: int| 0 <= i < cats.len() && (#[trigger] cats[i])@ != "Cs"@ && spec_char_in_category(c, cats[i]@)
}

/// Whether every name in `cats` is `Cs`.
pub open spec fn only_surrogate_names(cats: Seq<String>) -> bool {
    forall|i: int| 0 <= i < cats.len() ==> (#[trigger] cats[i])@ == "Cs"@
}

/// Whether the schema filters by category (excluding only surrogates does
/// not count: they are never in an alphabet).
pub open spec fn needs_category_filter(s: &StringSchema) -> bool {
    s.categories is Some || (s.exclude_categories matches Some(ec) && !only_surrogate_names(ec@))
}

/// Whether the schema names characters to include or exclude.
pub open spec fn needs_char_filter(s: &StringSchema) -> bool {
    s.include_characters is Some || s.exclude_characters is Some
}

/// Whether `c` passes the category filters.
pub open spec fn category_ok(s: &StringSchema, c: char) -> bool {
    match s.categories {
        Some(cats) => in_any_category(c, cats@),
        None => match s.exclude_categories {
            Some(ex) => !in_excluded_category(c, ex@),
            None => true,
        },
    }
}

/// Whether `c` is not among the excluded characters.
pub open spec fn not_excluded(s: &StringSchema, c: char) -> bool {
    match s.exclude_characters {
        Some(e) => !e@.contains(c),
        None => true,
    }
}

/// Whether scanning keeps the codepoint `cp`.
pub open spec fn scan_keeps(s: &StringSchema, cp: int) -> bool {
    !surrogate(cp) && category_ok(s, cp as char) && not_excluded(s, cp as char)
}

/// The characters of `[lo, hi]` that scanning keeps, in codepoint order.
pub open spec fn scanned(s: &StringSchema, lo: int, hi: int) -> Seq<char>
    decreases hi - lo + 1,
{
    if hi < lo {
        Seq::empty()
    } else {
        let prev = scanned(s, lo, hi - 1);
        if scan_keeps(s, hi) {
            prev.push(hi as char)
        } else {
            prev
        }
    }
}

/// Where scanning stops: category filtering looks at the Basic
/// Multilingual Plane only.
pub open spec fn scan_top(s: &StringSchema) -> int {
    if needs_category_filter(s) && alphabet_max(s) > 0xFFFF {
        0xFFFF
    } else {
        alphabet_max(s) as int
    }
}

/// Whether `c` lies within the schema's codepoint bounds.
pub open spec fn in_bounds(s: &StringSchema, c: char) -> bool {
    alphabet_min(s) <= c as int <= alphabet_max(s) && !surrogate(c as int)
}

/// The characters to include, in order (none when the schema names none).
pub open spec fn include_seq(s: &StringSchema) -> Seq<char> {
    match s.include_characters {
        Some(t) => t@,
        None => Seq::empty(),
    }
}

/// `alpha` followed by each character of `incl` that is within bounds and
/// not there yet.
pub open spec fn with_includes(s: &StringSchema, alpha: Seq<char>, incl: Seq<char>) -> Seq<char>
    decreases incl.len(),
{
    if incl.len() == 0 {
        alpha
    } else {
        let a = with_includes(s, alpha, incl.drop_last());
        let c = incl.last();
        if in_bounds(s, c) && !a.contains(c) {
            a.push(c)
        } else {
            a
        }
    }
}

/// The characters of `incl` that are within bounds and not excluded.
pub open spec fn includes_only(s: &StringSchema, incl: Seq<char>) -> Seq<char>
    decreases incl.len(),
{
    if incl.len() == 0 {
        Seq::empty()
    } else {
        let a = includes_only(s, incl.drop_last());
        let c = incl.last();
        if in_bounds(s, c) && not_excluded(s, c) {
            a.push(c)
        } else {
            a
        }
    }
}

/// Whether the schema asks for an alphabet of its included characters
/// only: an empty list of categories.
pub open spec fn include_only_alphabet(s: &StringSchema) -> bool {
    s.categories matches Some(c) && c@.len() == 0
}

/// Whether the text `t` is `name`.
pub(crate) fn text_is(t: &str, name: &str) -> (r: bool)
    ensures
        r == (t@ == name@),
{
    let a = str_to_chars(t);
    let b = str_to_chars(name);
    chars_equal(a.as_slice(), b.as_slice())
}

/// Whether `c` falls in one of the categories named in `cats`.
fn any_category(c: char, cats: &Vec<String>) -> (r: bool)
    ensures
        r == in_any_category(c, cats@),
{
    let mut i: usize = 0;
    while i < cats.len()
        invariant
            i <= cats@.len(),
            forall|j: int| 0 <= j < i ==> !spec_char_in_category(c, #[trigger] cats@[j]@),
        decreases cats@.len() - i,
    {
        if char_in_category(c, cats[i].as_str()) {
            return true;
        }
        i += 1;
    }
    false
}

/// Whether `c` falls in one of the categories named in `cats` other than
/// `Cs`.
fn any_excluded_category(c: char, cats: &Vec<String>) -> (r: bool)
    ensures
        r == in_excluded_category(c, cats@),
{
    let mut i: usize = 0;
    while i < cats.len()
        invariant
            i <= cats@.len(),
            forall|j: int| 0 <= j < i ==> !((#[trigger] cats@[j])@ != "Cs"@ && spec_char_in_category(c, cats@[j]@)),
        decreases cats@.len() - i,
    {
        if !text_is(cats[i].as_str(), "Cs") && char_in_category(c, cats[i].as_str()) {
            return true;
        }
        i += 1;
    }
    false
}

/// Whether every name in `cats` is `Cs`.
pub(crate) fn all_surrogate_names(cats: &Vec<String>) -> (r: bool)
    ensures
        r == only_surrogate_names(cats@),
{
    let mut i: usize = 0;
    while i < cats.len()
        invariant
            i <= cats@.len(),
            forall|j: int| 0 <= j < i ==> (#[trigger] cats@[j])@ == "Cs"@,
        decreases cats@.len() - i,
    {
        if !text_is(cats[i].as_str(), "Cs") {
            return false;
        }
        i += 1;
    }
    true
}


/// The codepoint of `c`.
pub(crate) fn char_code(c: char) -> (r: u32)
    ensures
        r == c as u32,
        r as int == c as int,
        r <= 0x10FFFF,
        !surrogate(r as int),
{
    c as u32
}

/// Whether `c` is not in the excluded characters `excl` (when there are any).
fn not_in(excl: &Option<Vec<char>>, c: char) -> (r: bool)
    ensures
        r == match excl {
            Some(e) => !e@.contains(c),
            None => true,
        },
{
    match excl {
        Some(e) => !contains_char(e.as_slice(), c),
        None => true,
    }
}

/// Whether `c` passes the schema's category filters.
fn passes_categories(schema: &StringSchema, c: char) -> (r: bool)
    ensures
        r == category_ok(schema, c),
{
    match &schema.categories {
        Some(cats) => any_category(c, cats),
        None => match &schema.exclude_categories {
            Some(ex) => !any_excluded_category(c, ex),
            None => true,
        },
    }
}

/// The characters of a text, or none.
pub(crate) fn optional_chars(t: &Option<String>) -> (r: Vec<char>)
    ensures
        r@ == match t {
            Some(x) => x@,
            None => Seq::<char>::empty(),
        },
{
    match t {
        Some(x) => str_to_chars(x.as_str()),
        None => Vec::new(),
    }
}

/// The codepoint bounds of a string schema: the codec's range narrowed by
/// `min_codepoint` and `max_codepoint`.
pub(crate) fn codepoint_bounds(schema: &StringSchema) -> (r: (u32, u32))
    ensures
        r.0 == alphabet_min(schema),
        r.1 == alphabet_max(schema),
{
    let mut cp_max: u32 = 0x10FFFF;
    match &schema.codec {
        Some(c) => {
            if text_is(c.as_str(), "ascii") {
                cp_max = 127;
            } else if text_is(c.as_str(), "latin-1") || text_is(c.as_str(), "iso-8859-1") {
                cp_max = 255;
            }
        },
        None => {},
    }
    let mut cp_min: u32 = 0;
    if let Some(m) = schema.min_codepoint {
        cp_min = m as u32;
    }
    if let Some(m) = schema.max_codepoint {
        let m32 = m as u32;
        if m32 < cp_max {
            cp_max = m32;
        }
    }
    (cp_min, cp_max)
}

/// Whether the alphabet `a` holds the character `c`.
pub open spec fn alphabet_holds(a: &StringAlphabet, c: char) -> bool {
    match a {
        StringAlphabet::Range { min, max } => *min as int <= c as int <= *max as int && !surrogate(c as int),
        StringAlphabet::Explicit(v) => v@.contains(c),
    }
}

/// What scanning keeps lies within the scanned range and is no surrogate.
proof fn lemma_scanned_member(s: &StringSchema, lo: int, hi: int, c: char)
    requires
        scanned(s, lo, hi).contains(c),
        0 <= lo,
        hi <= 0x10FFFF,
    ensures
        lo <= c as int <= hi,
        !surrogate(c as int),
    decreases hi - lo + 1,
{
    if hi >= lo {
        let prev = scanned(s, lo, hi - 1);
        if prev.contains(c) {
            lemma_scanned_member(s, lo, hi - 1, c);
        } else {
            assert(scan_keeps(s, hi));
            let j = choose|j: int| 0 <= j < scanned(s, lo, hi).len() && scanned(s, lo, hi)[j] == c;
            assert(j == prev.len());
            assert(c == hi as char);
            assert(!surrogate(hi));
            assert((hi as char) as int == hi);
        }
    }
}

/// Adding included characters adds only characters within bounds.
proof fn lemma_with_includes_member(s: &StringSchema, alpha: Seq<char>, incl: Seq<char>, c: char)
    requires
        with_includes(s, alpha, incl).contains(c),
    ensures
        alpha.contains(c) || in_bounds(s, c),
    decreases incl.len(),
{
    if incl.len() > 0 {
        let a = with_includes(s, alpha, incl.drop_last());
        if a.contains(c) {
            lemma_with_includes_member(s, alpha, incl.drop_last(), c);
        } else {
            let w = with_includes(s, alpha, incl);
            let j = choose|j: int| 0 <= j < w.len() && w[j] == c;
            assert(j == a.len());
        }
    }
}

/// Keeping only included characters keeps only characters within bounds.
proof fn lemma_includes_only_member(s: &StringSchema, incl: Seq<char>, c: char)
    requires
        includes_only(s, incl).contains(c),
    ensures
        in_bounds(s, c),
    decreases incl.len(),
{
    if incl.len() > 0 {
        let a = includes_only(s, incl.drop_last());
        if a.contains(c) {
            lemma_includes_only_member(s, incl.drop_last(), c);
        } else {
            let w = includes_only(s, incl);
            let j = choose|j: int| 0 <= j < w.len() && w[j] == c;
            assert(j == a.len());
        }
    }
}

/// The codec bounds the characters: a schema whose codec is `latin-1` or
/// its alias `iso-8859-1` allows no codepoint above 255, and `ascii` none
/// above 127, whatever its other bounds; `iso-8859-1` allows exactly what
/// `latin-1` allows under the same bounds; and without a codec or bounds
/// every codepoint but the surrogates is allowed.
pub proof fn lemma_codec_bounds(s: &StringSchema, t: &StringSchema, c: char)
    ensures
        (codec_is(s.codec, "latin-1"@) || codec_is(s.codec, "iso-8859-1"@)) && in_bounds(s, c) ==> c as u32 <= 255,
        codec_is(s.codec, "ascii"@) && in_bounds(s, c) ==> c as u32 <= 127,
        codec_is(s.codec, "iso-8859-1"@) && codec_is(t.codec, "latin-1"@) && s.min_codepoint == t.min_codepoint
            && s.max_codepoint == t.max_codepoint ==> alphabet_max(s) == alphabet_max(t) && in_bounds(s, c)
            == in_bounds(t, c),
        s.codec is None && s.min_codepoint is None && s.max_codepoint is None ==> (in_bounds(s, c) <==> !surrogate(
            c as int,
        )),
{
    reveal_strlit("latin-1");
    reveal_strlit("iso-8859-1");
    reveal_strlit("ascii");
    assert("ascii"@.len() == 5);
    assert("latin-1"@.len() == 7);
    assert("iso-8859-1"@.len() == 10);
    if codec_is(s.codec, "iso-8859-1"@) {
        assert(!codec_is(s.codec, "ascii"@));
        assert(codec_max(s.codec) == 255);
    }
    if codec_is(t.codec, "latin-1"@) {
        assert(!codec_is(t.codec, "ascii"@));
        assert(codec_max(t.codec) == 255);
    }
}

/// The alphabet a string schema draws from.
///
/// The codec bounds the codepoints (`ascii` to 127, `latin-1` and
/// `iso-8859-1` to 255, `utf-8` or none to the whole of Unicode), and
/// `min_codepoint` / `max_codepoint` narrow the bounds. An empty list of
/// categories asks for the included characters only: those within bounds
/// that are not excluded. Without category or character filters the
/// alphabet is the range of bounds less the surrogates. Otherwise it is
/// every codepoint from the lower bound up (to the end of the Basic
/// Multilingual Plane when filtering by category) that passes the category
/// filters and is not excluded, followed by each included character within
/// bounds that is not there yet.
pub fn build_string_alphabet(schema: &StringSchema) -> (r: StringAlphabet)
    requires
        valid_codec(schema.codec),
    ensures
        alphabet_wf(&r),
        forall|c: char| #[trigger] alphabet_holds(&r, c) ==> in_bounds(schema, c),
        include_only_alphabet(schema) ==> (r matches StringAlphabet::Explicit(v) && v@ == includes_only(
            schema,
            include_seq(schema),
        )),
        !include_only_alphabet(schema) && !needs_category_filter(schema) && !needs_char_filter(schema) ==> (
        r matches StringAlphabet::Range { min, max } && min == alphabet_min(schema) && max == alphabet_max(
            schema,
        )),
        !include_only_alphabet(schema) && (needs_category_filter(schema) || needs_char_filter(schema)) ==> (
        r matches StringAlphabet::Explicit(v) && v@ == with_includes(
            schema,
            scanned(schema, alphabet_min(schema) as int, scan_top(schema)),
            include_seq(schema),
        )),
{
    let (cp_min, cp_max) = codepoint_bounds(schema);
    let incl = optional_chars(&schema.include_characters);
    let excl: Option<Vec<char>> = match &schema.exclude_characters {
        Some(t) => Some(str_to_chars(t.as_str())),
        None => None,
    };
    assert(incl@ == include_seq(schema));
    let include_only = match &schema.categories {
        Some(cats) => cats.len() == 0,
        None => false,
    };
    if include_only {
        let mut v: Vec<char> = Vec::new();
        let mut k: usize = 0;
        while k < incl.len()
            invariant
                k <= incl@.len(),
                cp_min == alphabet_min(schema),
                cp_max == alphabet_max(schema),
                excl matches Some(e) ==> schema.exclude_characters matches Some(t) && e@ == t@,
                excl is None ==> schema.exclude_characters is None,
                v@ == includes_only(schema, incl@.take(k as int)),
            decreases incl@.len() - k,
        {
            let c = incl[k];
            let cp = char_code(c);
            let ghost v0 = v@;
            if cp >= cp_min && cp <= cp_max && !is_surrogate(c) && not_in(&excl, c) {
                v.push(c);
            }
            proof {
                let t = incl@.take(k + 1);
                assert(t.drop_last() =~= incl@.take(k as int));
                assert(t.last() == c);
                assert(not_excluded(schema, c) == match excl {
                    Some(e) => !e@.contains(c),
                    None => true,
                });
                assert(includes_only(schema, t) == (if in_bounds(schema, c) && not_excluded(schema, c) {
                    v0.push(c)
                } else {
                    v0
                }));
            }
            k += 1;
        }
        assert(incl@.take(incl@.len() as int) =~= incl@);
        proof {
            assert forall|c: char| #[trigger] alphabet_holds(&StringAlphabet::Explicit(v), c) implies in_bounds(
                schema,
                c,
            ) by {
                lemma_includes_only_member(schema, incl@, c);
            }
        }
        return StringAlphabet::Explicit(v);
    }
    let needs_cat = schema.categories.is_some() || match &schema.exclude_categories {
        Some(ec) => !all_surrogate_names(ec),
        None => false,
    };
    let needs_char = schema.include_characters.is_some() || schema.exclude_characters.is_some();
    if !needs_cat && !needs_char {
        return StringAlphabet::Range { min: cp_min, max: cp_max };
    }
    let scan_max = if needs_cat && cp_max > 0xFFFF {
        0xFFFF
    } else {
        cp_max
    };
    let mut alphabet: Vec<char> = Vec::new();
    let mut cp: u32 = cp_min;
    while cp <= scan_max
        invariant
            scan_max <= 0x10FFFF,
            cp_min <= cp,
            cp <= scan_max + 1 || cp == cp_min,
            excl matches Some(e) ==> schema.exclude_characters matches Some(t) && e@ == t@,
            excl is None ==> schema.exclude_characters is None,
            alphabet@ == scanned(schema, cp_min as int, cp - 1),
        decreases scan_max + 1 - cp,
    {
        if !is_surrogate_cp(cp) {
            match char_from_u32(cp) {
                Some(c) => {
                    if passes_categories(schema, c) && not_in(&excl, c) {
                        alphabet.push(c);
                    }
                },
                None => {},
            }
        }
        cp += 1;
    }
    proof {
        if cp_min > scan_max {
            assert(scanned(schema, cp_min as int, cp - 1) =~= Seq::<char>::empty());
            assert(scanned(schema, cp_min as int, scan_max as int) =~= Seq::<char>::empty());
        }
    }
    let ghost scanned_all = alphabet@;
    assert(scanned_all == scanned(schema, cp_min as int, scan_top(schema)));
    let mut k: usize = 0;
    while k < incl.len()
        invariant
            k <= incl@.len(),
            cp_min == alphabet_min(schema),
            cp_max == alphabet_max(schema),
            alphabet@ == with_includes(schema, scanned_all, incl@.take(k as int)),
        decreases incl@.len() - k,
    {
        let c = incl[k];
        let cp = char_code(c);
        let ghost a0 = alphabet@;
        if cp >= cp_min && cp <= cp_max && !is_surrogate(c) && !contains_char(alphabet.as_slice(), c) {
            alphabet.push(c);
        }
        proof {
            let t = incl@.take(k + 1);
            assert(t.drop_last() =~= incl@.take(k as int));
            assert(t.last() == c);
            assert(with_includes(schema, scanned_all, t) == (if in_bounds(schema, c) && !a0.contains(c) {
                a0.push(c)
            } else {
                a0
            }));
        }
        k += 1;
    }
    assert(incl@.take(incl@.len() as int) =~= incl@);
    proof {
        assert forall|c: char| #[trigger] alphabet_holds(&StringAlphabet::Explicit(alphabet), c) implies in_bounds(
            schema,
            c,
        ) by {
            lemma_with_includes_member(schema, scanned_all, incl@, c);
            if scanned_all.contains(c) {
                lemma_scanned_member(schema, cp_min as int, scan_top(schema), c);
            }
        }
    }
    StringAlphabet::Explicit(alphabet)
}

} // verus!
