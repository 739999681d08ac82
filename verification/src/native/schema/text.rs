//! Text schemas: surrogates, general-category names, and the codepoint
//! intervals a string schema allows.

use vstd::prelude::*;

use crate::native::charutil::str_to_chars;
use crate::native::re::tokenizer::contains_char;
use crate::native::schema::{
    all_surrogate_names, alphabet_max, alphabet_min, char_code, codec_is, codec_max, codepoint_bounds, is_surrogate_cp,
    only_surrogate_names, optional_chars, surrogate, text_is, valid_codec, StringSchema,
};
use crate::native::unicodedata::{
    category_code, category_from_code, general_category, is_in_group, is_major_class, spec_general_category,
    Category, CategoryTable,
};

verus! {

/// Whether `c` is a surrogate (never, for a `char`).
pub fn is_surrogate(c: char) -> (r: bool)
    ensures
        r == (0xD800 <= c as u32 && c as u32 <= 0xDFFF),
        !r,
{
    let cp = c as u32;
    0xD800 <= cp && cp <= 0xDFFF
}

/// A general-category name: one of the seven single-letter major classes,
/// or one of the two-letter category codes.
pub open spec fn valid_category_name(cat: Seq<char>) -> bool {
    (cat.len() == 1 && is_major_class(cat[0])) || exists|c: Category| category_code(c) == cat
}

/// Whether `cat` is a valid general-category name.
pub fn is_valid_category(cat: &str) -> (r: bool)
    ensures
        r == valid_category_name(cat@),
{
    let k = str_to_chars(cat);
    if k.len() == 1 {
        let c = k[0];
        proof {
            assert forall|g: Category| category_code(g) != cat@ by {
                assert(category_code(g).len() == 2) by {
                    match g {
                        _ => {},
                    }
                }
            }
        }
        c == 'L' || c == 'M' || c == 'N' || c == 'P' || c == 'S' || c == 'Z' || c == 'C'
    } else if k.len() == 2 {
        let found = category_from_code(k[0], k[1]);
        proof {
            assert(k@ =~= seq![k@[0], k@[1]]);
        }
        found.is_some()
    } else {
        proof {
            assert forall|g: Category| category_code(g) != cat@ by {
                assert(category_code(g).len() == 2) by {
                    match g {
                        _ => {},
                    }
                }
            }
        }
        false
    }
}


/// Whether codepoint `cp` belongs to the group named `group` (a category
/// code or a major class) according to the table.
pub open spec fn in_group(table: Seq<(u32, Category)>, cp: int, group: Seq<char>) -> bool {
    let code = category_code(spec_general_category(table, cp as u32));
    group == code || (group.len() == 1 && group[0] == code[0] && is_major_class(group[0]))
}

/// Whether `cp` is in the union of the named categories, which covers the
/// Basic Multilingual Plane only, surrogates left out.
pub open spec fn in_category_union(table: Seq<(u32, Category)>, cats: Seq<String>, cp: int) -> bool {
    0 <= cp <= 0xFFFF && !surrogate(cp) && exists|i: int| 0 <= i < cats.len() && in_group(table, cp, #[trigger] cats[i]@)
}

/// Whether `cp` is in the union of the named categories other than `Cs`.
pub open spec fn in_excluded_union(table: Seq<(u32, Category)>, cats: Seq<String>, cp: int) -> bool {
    0 <= cp <= 0xFFFF && !surrogate(cp) && exists|i: int|
        0 <= i < cats.len() && (#[trigger] cats[i])@ != "Cs"@ && in_group(table, cp, cats[i]@)
}

/// Whether some character of `s` has the codepoint `cp`.
pub open spec fn has_code(s: Seq<char>, cp: int) -> bool {
    exists|i: int| 0 <= i < s.len() && (#[trigger] s[i]) as u32 == cp
}

/// The characters of an optional text.
pub open spec fn text_chars(t: Option<String>) -> Seq<char> {
    match t {
        Some(x) => x@,
        None => Seq::empty(),
    }
}

/// Whether the schema's intervals hold `cp`: within the codec and codepoint
/// bounds, not a surrogate, passing the category filters and not an
/// excluded character; or one of the included characters.
pub open spec fn interval_member(s: &StringSchema, table: Seq<(u32, Category)>, cp: int) -> bool {
    let in_base = alphabet_min(s) <= cp <= alphabet_max(s) && !surrogate(cp);
    let filtered = match s.categories {
        Some(cats) => cats@.len() > 0 && in_base && in_category_union(table, cats@, cp),
        None => match s.exclude_categories {
            Some(ex) => if only_surrogate_names(ex@) {
                in_base
            } else {
                in_base && !in_excluded_union(table, ex@, cp)
            },
            None => in_base,
        },
    };
    (filtered && !has_code(text_chars(s.exclude_characters), cp)) || has_code(text_chars(s.include_characters), cp)
}

/// The codec bounds the runs of a text schema: under `latin-1` or its alias
/// `iso-8859-1` no codepoint above 255 is allowed other than an included
/// character, under `ascii` none above 127; and `iso-8859-1` allows exactly
/// what `latin-1` allows with the same other settings.
pub proof fn lemma_interval_codec_bounds(s: &StringSchema, t: &StringSchema, table: Seq<(u32, Category)>, cp: int)
    ensures
        (codec_is(s.codec, "latin-1"@) || codec_is(s.codec, "iso-8859-1"@)) && interval_member(s, table, cp)
            && !has_code(text_chars(s.include_characters), cp) ==> cp <= 255,
        codec_is(s.codec, "ascii"@) && interval_member(s, table, cp) && !has_code(
            text_chars(s.include_characters),
            cp,
        ) ==> cp <= 127,
        codec_is(s.codec, "iso-8859-1"@) && codec_is(t.codec, "latin-1"@) && s.min_codepoint == t.min_codepoint
            && s.max_codepoint == t.max_codepoint && s.categories == t.categories && s.exclude_categories
            == t.exclude_categories && s.include_characters == t.include_characters && s.exclude_characters
            == t.exclude_characters ==> (interval_member(s, table, cp) <==> interval_member(t, table, cp)),
{
    reveal_strlit("latin-1");
    reveal_strlit("iso-8859-1");
    reveal_strlit("ascii");
    assert("ascii"@.len() == 5);
    assert("latin-1"@.len() == 7);
    assert("iso-8859-1"@.len() == 10);
    if codec_is(s.codec, "iso-8859-1"@) || codec_is(s.codec, "latin-1"@) {
        assert(!codec_is(s.codec, "ascii"@));
        assert(codec_max(s.codec) == 255);
    }
    if codec_is(t.codec, "latin-1"@) {
        assert(!codec_is(t.codec, "ascii"@));
        assert(codec_max(t.codec) == 255);
    }
}

/// A table of the codepoints of the characters of `s`.
fn code_marks(s: &[char]) -> (r: Vec<bool>)
    ensures
        r@.len() == 0x110000,
        forall|j: int| 0 <= j < 0x110000 ==> r@[j] == has_code(s@, j),
{
    let mut bits: Vec<bool> = vec![false; 0x110000];
    let mut k: usize = 0;
    while k < s.len()
        invariant
            k <= s@.len(),
            bits@.len() == 0x110000,
            forall|j: int| 0 <= j < 0x110000 ==> bits@[j] == has_code(s@.take(k as int), j),
        decreases s@.len() - k,
    {
        let c = s[k];
        let cp = char_code(c);
        let ghost b0 = bits@;
        bits.set(cp as usize, true);
        proof {
            let t = s@.take(k + 1);
            assert forall|j: int| 0 <= j < 0x110000 implies bits@[j] == has_code(t, j) by {
                assert(t[k as int] == c);
                if j == cp as int {
                    assert(t[k as int] as u32 == j);
                } else {
                    assert(bits@[j] == b0[j]);
                    if has_code(t, j) {
                        let i = choose|i: int| 0 <= i < t.len() && (#[trigger] t[i]) as u32 == j;
                        assert(i < k);
                        assert(s@.take(k as int)[i] == t[i]);
                    }
                    if has_code(s@.take(k as int), j) {
                        let i = choose|i: int| 0 <= i < k && (#[trigger] s@.take(k as int)[i]) as u32 == j;
                        assert(t[i] == s@.take(k as int)[i]);
                    }
                }
            }
        }
        k += 1;
    }
    assert(s@.take(s@.len() as int) =~= s@);
    bits
}

/// Whether `cp` is in one of the groups named in `cats`.
fn any_group(table: &CategoryTable, cats: &Vec<String>, cp: u32, skip_surrogate_name: bool) -> (r: bool)
    requires
        table.wf(),
        cp <= 0x10FFFF,
    ensures
        !skip_surrogate_name ==> r == exists|i: int| 0 <= i < cats@.len() && in_group(table.ranges@, cp as int, #[trigger] cats@[i]@),
        skip_surrogate_name ==> r == exists|i: int|
            0 <= i < cats@.len() && (#[trigger] cats@[i])@ != "Cs"@ && in_group(table.ranges@, cp as int, cats@[i]@),
{
    let cat = general_category(table, cp);
    let mut i: usize = 0;
    while i < cats.len()
        invariant
            i <= cats@.len(),
            cat == spec_general_category(table.ranges@, cp),
            !skip_surrogate_name ==> forall|j: int| 0 <= j < i ==> !in_group(table.ranges@, cp as int, #[trigger] cats@[j]@),
            skip_surrogate_name ==> forall|j: int|
                0 <= j < i ==> !((#[trigger] cats@[j])@ != "Cs"@ && in_group(table.ranges@, cp as int, cats@[j]@)),
        decreases cats@.len() - i,
    {
        let name = cats[i].as_str();
        if !(skip_surrogate_name && text_is(name, "Cs")) && is_in_group(cat, name) {
            return true;
        }
        i += 1;
    }
    false
}


/// Whether the schema's intervals hold `cp`, given tables of the included
/// and excluded codepoints.
fn is_member(
    schema: &StringSchema,
    table: &CategoryTable,
    cp: u32,
    cp_min: u32,
    cp_max: u32,
    included: &Vec<bool>,
    excluded: &Vec<bool>,
) -> (r: bool)
    requires
        table.wf(),
        cp <= 0x10FFFF,
        cp_min == alphabet_min(schema),
        cp_max == alphabet_max(schema),
        included@.len() == 0x110000,
        excluded@.len() == 0x110000,
        forall|j: int| 0 <= j < 0x110000 ==> included@[j] == has_code(text_chars(schema.include_characters), j),
        forall|j: int| 0 <= j < 0x110000 ==> excluded@[j] == has_code(text_chars(schema.exclude_characters), j),
    ensures
        r == interval_member(schema, table.ranges@, cp as int),
{
    let in_base = cp_min <= cp && cp <= cp_max && !is_surrogate_cp(cp);
    let filtered = match &schema.categories {
        Some(cats) => cats.len() > 0 && in_base && cp <= 0xFFFF && any_group(table, cats, cp, false),
        None => match &schema.exclude_categories {
            Some(ex) => if all_surrogate_names(ex) {
                in_base
            } else {
                in_base && !(cp <= 0xFFFF && !is_surrogate_cp(cp) && any_group(table, ex, cp, true))
            },
            None => in_base,
        },
    };
    (filtered && !excluded[cp as usize]) || included[cp as usize]
}

/// The maximal runs of codepoints below `n` that the schema's intervals
/// hold, as they are found scanning upwards.
pub open spec fn runs_upto(s: &StringSchema, table: Seq<(u32, Category)>, n: int) -> Seq<(u32, u32)>
    decreases n,
{
    if n <= 0 {
        Seq::empty()
    } else {
        let prev = runs_upto(s, table, n - 1);
        let x = n - 1;
        if !interval_member(s, table, x) {
            prev
        } else if prev.len() > 0 && prev.last().1 as int == x - 1 {
            prev.update(prev.len() - 1, (prev.last().0, x as u32))
        } else {
            prev.push((x as u32, x as u32))
        }
    }
}

/// Runs in ascending order, each within Unicode, with a gap between any
/// two.
pub open spec fn runs_wf(runs: Seq<(u32, u32)>) -> bool {
    &&& forall|i: int| 0 <= i < runs.len() ==> (#[trigger] runs[i]).0 <= runs[i].1 <= 0x10FFFF
    &&& forall|i: int, j: int| 0 <= i < j < runs.len() ==> (#[trigger] runs[i]).1 + 1 < (#[trigger] runs[j]).0
}

/// Whether one of the runs holds `cp`.
pub open spec fn covered(runs: Seq<(u32, u32)>, cp: int) -> bool {
    exists|i: int| 0 <= i < runs.len() && (#[trigger] runs[i]).0 <= cp <= runs[i].1
}

/// The runs found below `n` are ascending, separated, and hold exactly the
/// codepoints below `n` that the schema's intervals hold.
pub proof fn lemma_runs_upto(s: &StringSchema, table: Seq<(u32, Category)>, n: int)
    requires
        0 <= n <= 0x110000,
    ensures
        runs_wf(runs_upto(s, table, n)),
        forall|i: int| 0 <= i < runs_upto(s, table, n).len() ==> (#[trigger] runs_upto(s, table, n)[i]).1 < n,
        forall|cp: int| 0 <= cp < n ==> (interval_member(s, table, cp) <==> covered(runs_upto(s, table, n), cp)),
    decreases n,
{
    if n > 0 {
        lemma_runs_upto(s, table, n - 1);
        let prev = runs_upto(s, table, n - 1);
        let x = n - 1;
        let cur = runs_upto(s, table, n);
        if !interval_member(s, table, x) {
            assert forall|cp: int| 0 <= cp < n implies (interval_member(s, table, cp) <==> covered(cur, cp)) by {
                if cp == x && covered(cur, cp) {
                    let i = choose|i: int| 0 <= i < cur.len() && (#[trigger] cur[i]).0 <= cp <= cur[i].1;
                    assert(cur[i].1 < n - 1);
                }
            }
        } else if prev.len() > 0 && prev.last().1 as int == x - 1 {
            let last = prev.len() - 1;
            assert forall|i: int, j: int| 0 <= i < j < cur.len() implies (#[trigger] cur[i]).1 + 1 < (#[trigger] cur[j]).0 by {
                assert(prev[i].1 + 1 < prev[j].0);
            }
            assert forall|cp: int| 0 <= cp < n implies (interval_member(s, table, cp) <==> covered(cur, cp)) by {
                if cp == x {
                    assert(cur[last].0 <= cp <= cur[last].1);
                } else {
                    if covered(prev, cp) {
                        let i = choose|i: int| 0 <= i < prev.len() && (#[trigger] prev[i]).0 <= cp <= prev[i].1;
                        assert(cur[i].0 <= cp <= cur[i].1);
                    }
                    if covered(cur, cp) {
                        let i = choose|i: int| 0 <= i < cur.len() && (#[trigger] cur[i]).0 <= cp <= cur[i].1;
                        assert(prev[i].0 <= cp <= prev[i].1);
                    }
                }
            }
        } else {
            let last = prev.len() as int;
            assert forall|i: int, j: int| 0 <= i < j < cur.len() implies (#[trigger] cur[i]).1 + 1 < (#[trigger] cur[j]).0 by {
                if j == last {
                    assert(prev[i].1 < x);
                    if i == last - 1 {
                        assert(prev.last().1 as int != x - 1);
                    } else {
                        assert(prev[i].1 + 1 < prev[last - 1].0);
                    }
                } else {
                    assert(prev[i].1 + 1 < prev[j].0);
                }
            }
            assert forall|cp: int| 0 <= cp < n implies (interval_member(s, table, cp) <==> covered(cur, cp)) by {
                if cp == x {
                    assert(cur[last].0 <= cp <= cur[last].1);
                } else {
                    if covered(prev, cp) {
                        let i = choose|i: int| 0 <= i < prev.len() && (#[trigger] prev[i]).0 <= cp <= prev[i].1;
                        assert(cur[i].0 <= cp <= cur[i].1);
                    }
                    if covered(cur, cp) {
                        let i = choose|i: int| 0 <= i < cur.len() && (#[trigger] cur[i]).0 <= cp <= cur[i].1;
                        if i < last {
                            assert(prev[i].0 <= cp <= prev[i].1);
                        }
                    }
                }
            }
        }
    }
}


/// What makes a text schema invalid.
#[derive(Clone, Copy, Debug, PartialEq, Eq, Structural)]
pub enum TextSchemaError {
    /// A codec other than `ascii`, `latin-1`, `iso-8859-1` or `utf-8`.
    InvalidCodec,
    /// A category name that is not a general category or major class.
    InvalidCategory,
    /// A character both included and excluded.
    Overlap,
}

/// Whether every name in an optional list is a general-category name.
pub open spec fn category_names_valid(cats: Option<Vec<String>>) -> bool {
    match cats {
        Some(c) => forall|i: int| 0 <= i < c@.len() ==> valid_category_name((#[trigger] c@[i])@),
        None => true,
    }
}

/// Whether some character is both included and excluded.
pub open spec fn includes_overlap_excludes(s: &StringSchema) -> bool {
    exists|c: char|
        text_chars(s.include_characters).contains(c) && #[trigger] text_chars(s.exclude_characters).contains(c)
}

/// A text schema that names a known codec and valid categories and does
/// not both include and exclude a character.
pub open spec fn text_schema_valid(s: &StringSchema) -> bool {
    &&& valid_codec(s.codec)
    &&& category_names_valid(s.categories)
    &&& category_names_valid(s.exclude_categories)
    &&& !includes_overlap_excludes(s)
}

/// Whether every name in an optional list is a general-category name.
fn names_valid(cats: &Option<Vec<String>>) -> (r: bool)
    ensures
        r == category_names_valid(*cats),
{
    match cats {
        Some(c) => {
            let mut i: usize = 0;
            while i < c.len()
                invariant
                    i <= c@.len(),
                    *cats == Some(*c),
                    forall|j: int| 0 <= j < i ==> valid_category_name((#[trigger] c@[j])@),
                decreases c@.len() - i,
            {
                if !is_valid_category(c[i].as_str()) {
                    assert(!valid_category_name(c@[i as int]@));
                    assert(!(forall|j: int| 0 <= j < c@.len() ==> valid_category_name((#[trigger] c@[j])@)));
                    assert(*cats matches Some(v) && v@ == c@);
                    return false;
                }
                i += 1;
            }
            true
        },
        None => true,
    }
}

/// Checks a text schema as its intervals are built: the codec, then the
/// category names (included, then excluded), then that no character is
/// both included and excluded.
pub fn validate_text_schema(schema: &StringSchema) -> (r: Result<(), TextSchemaError>)
    ensures
        r is Ok <==> text_schema_valid(schema),
        r == Err::<(), TextSchemaError>(TextSchemaError::InvalidCodec) <==> !valid_codec(schema.codec),
        r == Err::<(), TextSchemaError>(TextSchemaError::InvalidCategory) <==> valid_codec(schema.codec) && !(
        category_names_valid(schema.categories) && category_names_valid(schema.exclude_categories)),
        r == Err::<(), TextSchemaError>(TextSchemaError::Overlap) <==> valid_codec(schema.codec)
            && category_names_valid(schema.categories) && category_names_valid(schema.exclude_categories)
            && includes_overlap_excludes(schema),
{
    let known = match &schema.codec {
        Some(c) => {
            let t = c.as_str();
            text_is(t, "ascii") || text_is(t, "latin-1") || text_is(t, "iso-8859-1") || text_is(t, "utf-8")
        },
        None => true,
    };
    if !known {
        return Err(TextSchemaError::InvalidCodec);
    }
    if !names_valid(&schema.categories) || !names_valid(&schema.exclude_categories) {
        return Err(TextSchemaError::InvalidCategory);
    }
    let incl = optional_chars(&schema.include_characters);
    let excl = optional_chars(&schema.exclude_characters);
    let mut i: usize = 0;
    while i < incl.len()
        invariant
            i <= incl@.len(),
            incl@ == text_chars(schema.include_characters),
            excl@ == text_chars(schema.exclude_characters),
            valid_codec(schema.codec),
            category_names_valid(schema.categories),
            category_names_valid(schema.exclude_categories),
            forall|j: int| 0 <= j < i ==> !excl@.contains(#[trigger] incl@[j]),
        decreases incl@.len() - i,
    {
        if contains_char(excl.as_slice(), incl[i]) {
            proof {
                assert(text_chars(schema.include_characters).contains(incl@[i as int]));
            }
            return Err(TextSchemaError::Overlap);
        }
        i += 1;
    }
    proof {
        if includes_overlap_excludes(schema) {
            let c = choose|c: char|
                text_chars(schema.include_characters).contains(c) && #[trigger] text_chars(
                    schema.exclude_characters,
                ).contains(c);
            let j = choose|j: int| 0 <= j < incl@.len() && incl@[j] == c;
            assert(!excl@.contains(incl@[j]));
        }
    }
    Ok(())
}

/// The codepoints a text schema allows, as maximal runs: the codec and
/// codepoint bounds less the surrogates, narrowed to the union of the named
/// categories (an empty list allows none of the range) or less the union of
/// the excluded ones (categories filter the Basic Multilingual Plane only),
/// less the excluded characters, plus the included characters.
pub fn build_intervals(schema: &StringSchema, table: &CategoryTable) -> (r: Vec<(u32, u32)>)
    requires
        table.wf(),
        text_schema_valid(schema),
    ensures
        runs_wf(r@),
        forall|cp: int| 0 <= cp <= 0x10FFFF ==> (interval_member(schema, table.ranges@, cp) <==> covered(r@, cp)),
{
    let (cp_min, cp_max) = codepoint_bounds(schema);
    let incl = optional_chars(&schema.include_characters);
    let excl = optional_chars(&schema.exclude_characters);
    let included = code_marks(incl.as_slice());
    let excluded = code_marks(excl.as_slice());
    let mut runs: Vec<(u32, u32)> = Vec::new();
    let mut cp: u32 = 0;
    while cp < 0x110000
        invariant
            table.wf(),
            cp <= 0x110000,
            cp_min == alphabet_min(schema),
            cp_max == alphabet_max(schema),
            included@.len() == 0x110000,
            excluded@.len() == 0x110000,
            forall|j: int| 0 <= j < 0x110000 ==> included@[j] == has_code(text_chars(schema.include_characters), j),
            forall|j: int| 0 <= j < 0x110000 ==> excluded@[j] == has_code(text_chars(schema.exclude_characters), j),
            runs@ == runs_upto(schema, table.ranges@, cp as int),
        decreases 0x110000 - cp,
    {
        if is_member(schema, table, cp, cp_min, cp_max, &included, &excluded) {
            let n = runs.len();
            if n > 0 && cp > 0 && runs[n - 1].1 == cp - 1 {
                let start = runs[n - 1].0;
                runs.set(n - 1, (start, cp));
            } else {
                runs.push((cp, cp));
            }
        }
        cp += 1;
    }
    proof {
        lemma_runs_upto(schema, table.ranges@, 0x110000);
    }
    runs
}

} // verus!
