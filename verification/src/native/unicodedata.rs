//! Unicode general categories, as Python's `unicodedata.category` names
//! them.

use vstd::prelude::*;

use crate::native::charutil::str_to_chars;

verus! {

/// Unicode General Category.
#[allow(non_camel_case_types)]
#[derive(Clone, Copy, Debug, PartialEq, Eq, Structural)]
pub enum Category {
    Lu,
    Ll,
    Lt,
    Lm,
    Lo,
    Mn,
    Mc,
    Me,
    Nd,
    Nl,
    No,
    Pc,
    Pd,
    Ps,
    Pe,
    Pi,
    Pf,
    Po,
    Sm,
    Sc,
    Sk,
    So,
    Zs,
    Zl,
    Zp,
    Cc,
    Cf,
    Cs,
    Co,
    Cn,
}

/// The two-character code of a category, e.g. `Lu` or `Cn`.
pub open spec fn category_code(c: Category) -> Seq<char> {
    match c {
        Category::Lu => seq!['L', 'u'],
        Category::Ll => seq!['L', 'l'],
        Category::Lt => seq!['L', 't'],
        Category::Lm => seq!['L', 'm'],
        Category::Lo => seq!['L', 'o'],
        Category::Mn => seq!['M', 'n'],
        Category::Mc => seq!['M', 'c'],
        Category::Me => seq!['M', 'e'],
        Category::Nd => seq!['N', 'd'],
        Category::Nl => seq!['N', 'l'],
        Category::No => seq!['N', 'o'],
        Category::Pc => seq!['P', 'c'],
        Category::Pd => seq!['P', 'd'],
        Category::Ps => seq!['P', 's'],
        Category::Pe => seq!['P', 'e'],
        Category::Pi => seq!['P', 'i'],
        Category::Pf => seq!['P', 'f'],
        Category::Po => seq!['P', 'o'],
        Category::Sm => seq!['S', 'm'],
        Category::Sc => seq!['S', 'c'],
        Category::Sk => seq!['S', 'k'],
        Category::So => seq!['S', 'o'],
        Category::Zs => seq!['Z', 's'],
        Category::Zl => seq!['Z', 'l'],
        Category::Zp => seq!['Z', 'p'],
        Category::Cc => seq!['C', 'c'],
        Category::Cf => seq!['C', 'f'],
        Category::Cs => seq!['C', 's'],
        Category::Co => seq!['C', 'o'],
        Category::Cn => seq!['C', 'n'],
    }
}

/// The major classes: the first letters of the category codes.
pub open spec fn is_major_class(c: char) -> bool {
    c == 'L' || c == 'M' || c == 'N' || c == 'P' || c == 'S' || c == 'Z' || c == 'C'
}

impl Category {
    /// The two-character category code, as Python's `unicodedata.category`
    /// returns it.
    pub fn as_str(self) -> (r: &'static str)
        ensures
            r@ == category_code(self),
    {
        let r = match self {
            Category::Lu => "Lu",
            Category::Ll => "Ll",
            Category::Lt => "Lt",
            Category::Lm => "Lm",
            Category::Lo => "Lo",
            Category::Mn => "Mn",
            Category::Mc => "Mc",
            Category::Me => "Me",
            Category::Nd => "Nd",
            Category::Nl => "Nl",
            Category::No => "No",
            Category::Pc => "Pc",
            Category::Pd => "Pd",
            Category::Ps => "Ps",
            Category::Pe => "Pe",
            Category::Pi => "Pi",
            Category::Pf => "Pf",
            Category::Po => "Po",
            Category::Sm => "Sm",
            Category::Sc => "Sc",
            Category::Sk => "Sk",
            Category::So => "So",
            Category::Zs => "Zs",
            Category::Zl => "Zl",
            Category::Zp => "Zp",
            Category::Cc => "Cc",
            Category::Cf => "Cf",
            Category::Cs => "Cs",
            Category::Co => "Co",
            Category::Cn => "Cn",
        };
        proof {
            reveal_strlit("Lu");
            reveal_strlit("Ll");
            reveal_strlit("Lt");
            reveal_strlit("Lm");
            reveal_strlit("Lo");
            reveal_strlit("Mn");
            reveal_strlit("Mc");
            reveal_strlit("Me");
            reveal_strlit("Nd");
            reveal_strlit("Nl");
            reveal_strlit("No");
            reveal_strlit("Pc");
            reveal_strlit("Pd");
            reveal_strlit("Ps");
            reveal_strlit("Pe");
            reveal_strlit("Pi");
            reveal_strlit("Pf");
            reveal_strlit("Po");
            reveal_strlit("Sm");
            reveal_strlit("Sc");
            reveal_strlit("Sk");
            reveal_strlit("So");
            reveal_strlit("Zs");
            reveal_strlit("Zl");
            reveal_strlit("Zp");
            reveal_strlit("Cc");
            reveal_strlit("Cf");
            reveal_strlit("Cs");
            reveal_strlit("Co");
            reveal_strlit("Cn");
        }
        r
    }
}

/// The category whose two-character code is `a`, `b`, if there is one.
pub fn category_from_code(a: char, b: char) -> (r: Option<Category>)
    ensures
        r matches Some(c) ==> category_code(c) == seq![a, b],
        r is None ==> forall|c: Category| category_code(c) != seq![a, b],
{
    if a == 'L' && b == 'u' {
        Some(Category::Lu)
    } else if a == 'L' && b == 'l' {
        Some(Category::Ll)
    } else if a == 'L' && b == 't' {
        Some(Category::Lt)
    } else if a == 'L' && b == 'm' {
        Some(Category::Lm)
    } else if a == 'L' && b == 'o' {
        Some(Category::Lo)
    } else if a == 'M' && b == 'n' {
        Some(Category::Mn)
    } else if a == 'M' && b == 'c' {
        Some(Category::Mc)
    } else if a == 'M' && b == 'e' {
        Some(Category::Me)
    } else if a == 'N' && b == 'd' {
        Some(Category::Nd)
    } else if a == 'N' && b == 'l' {
        Some(Category::Nl)
    } else if a == 'N' && b == 'o' {
        Some(Category::No)
    } else if a == 'P' && b == 'c' {
        Some(Category::Pc)
    } else if a == 'P' && b == 'd' {
        Some(Category::Pd)
    } else if a == 'P' && b == 's' {
        Some(Category::Ps)
    } else if a == 'P' && b == 'e' {
        Some(Category::Pe)
    } else if a == 'P' && b == 'i' {
        Some(Category::Pi)
    } else if a == 'P' && b == 'f' {
        Some(Category::Pf)
    } else if a == 'P' && b == 'o' {
        Some(Category::Po)
    } else if a == 'S' && b == 'm' {
        Some(Category::Sm)
    } else if a == 'S' && b == 'c' {
        Some(Category::Sc)
    } else if a == 'S' && b == 'k' {
        Some(Category::Sk)
    } else if a == 'S' && b == 'o' {
        Some(Category::So)
    } else if a == 'Z' && b == 's' {
        Some(Category::Zs)
    } else if a == 'Z' && b == 'l' {
        Some(Category::Zl)
    } else if a == 'Z' && b == 'p' {
        Some(Category::Zp)
    } else if a == 'C' && b == 'c' {
        Some(Category::Cc)
    } else if a == 'C' && b == 'f' {
        Some(Category::Cf)
    } else if a == 'C' && b == 's' {
        Some(Category::Cs)
    } else if a == 'C' && b == 'o' {
        Some(Category::Co)
    } else if a == 'C' && b == 'n' {
        Some(Category::Cn)
    } else {
        proof {
            assert forall|c: Category| category_code(c) != seq![a, b] by {
                match c {
                    Category::Lu => {
                        assert(category_code(c)[0] == 'L' && category_code(c)[1] == 'u');
                        assert(seq![a, b][0] == a && seq![a, b][1] == b);
                    },
                    Category::Ll => {
                        assert(category_code(c)[0] == 'L' && category_code(c)[1] == 'l');
                        assert(seq![a, b][0] == a && seq![a, b][1] == b);
                    },
                    Category::Lt => {
                        assert(category_code(c)[0] == 'L' && category_code(c)[1] == 't');
                        assert(seq![a, b][0] == a && seq![a, b][1] == b);
                    },
                    Category::Lm => {
                        assert(category_code(c)[0] == 'L' && category_code(c)[1] == 'm');
                        assert(seq![a, b][0] == a && seq![a, b][1] == b);
                    },
                    Category::Lo => {
                        assert(category_code(c)[0] == 'L' && category_code(c)[1] == 'o');
                        assert(seq![a, b][0] == a && seq![a, b][1] == b);
                    },
                    Category::Mn => {
                        assert(category_code(c)[0] == 'M' && category_code(c)[1] == 'n');
                        assert(seq![a, b][0] == a && seq![a, b][1] == b);
                    },
                    Category::Mc => {
                        assert(category_code(c)[0] == 'M' && category_code(c)[1] == 'c');
                        assert(seq![a, b][0] == a && seq![a, b][1] == b);
                    },
                    Category::Me => {
                        assert(category_code(c)[0] == 'M' && category_code(c)[1] == 'e');
                        assert(seq![a, b][0] == a && seq![a, b][1] == b);
                    },
                    Category::Nd => {
                        assert(category_code(c)[0] == 'N' && category_code(c)[1] == 'd');
                        assert(seq![a, b][0] == a && seq![a, b][1] == b);
                    },
                    Category::Nl => {
                        assert(category_code(c)[0] == 'N' && category_code(c)[1] == 'l');
                        assert(seq![a, b][0] == a && seq![a, b][1] == b);
                    },
                    Category::No => {
                        assert(category_code(c)[0] == 'N' && category_code(c)[1] == 'o');
                        assert(seq![a, b][0] == a && seq![a, b][1] == b);
                    },
                    Category::Pc => {
                        assert(category_code(c)[0] == 'P' && category_code(c)[1] == 'c');
                        assert(seq![a, b][0] == a && seq![a, b][1] == b);
                    },
                    Category::Pd => {
                        assert(category_code(c)[0] == 'P' && category_code(c)[1] == 'd');
                        assert(seq![a, b][0] == a && seq![a, b][1] == b);
                    },
                    Category::Ps => {
                        assert(category_code(c)[0] == 'P' && category_code(c)[1] == 's');
                        assert(seq![a, b][0] == a && seq![a, b][1] == b);
                    },
                    Category::Pe => {
                        assert(category_code(c)[0] == 'P' && category_code(c)[1] == 'e');
                        assert(seq![a, b][0] == a && seq![a, b][1] == b);
                    },
                    Category::Pi => {
                        assert(category_code(c)[0] == 'P' && category_code(c)[1] == 'i');
                        assert(seq![a, b][0] == a && seq![a, b][1] == b);
                    },
                    Category::Pf => {
                        assert(category_code(c)[0] == 'P' && category_code(c)[1] == 'f');
                        assert(seq![a, b][0] == a && seq![a, b][1] == b);
                    },
                    Category::Po => {
                        assert(category_code(c)[0] == 'P' && category_code(c)[1] == 'o');
                        assert(seq![a, b][0] == a && seq![a, b][1] == b);
                    },
                    Category::Sm => {
                        assert(category_code(c)[0] == 'S' && category_code(c)[1] == 'm');
                        assert(seq![a, b][0] == a && seq![a, b][1] == b);
                    },
                    Category::Sc => {
                        assert(category_code(c)[0] == 'S' && category_code(c)[1] == 'c');
                        assert(seq![a, b][0] == a && seq![a, b][1] == b);
                    },
                    Category::Sk => {
                        assert(category_code(c)[0] == 'S' && category_code(c)[1] == 'k');
                        assert(seq![a, b][0] == a && seq![a, b][1] == b);
                    },
                    Category::So => {
                        assert(category_code(c)[0] == 'S' && category_code(c)[1] == 'o');
                        assert(seq![a, b][0] == a && seq![a, b][1] == b);
                    },
                    Category::Zs => {
                        assert(category_code(c)[0] == 'Z' && category_code(c)[1] == 's');
                        assert(seq![a, b][0] == a && seq![a, b][1] == b);
                    },
                    Category::Zl => {
                        assert(category_code(c)[0] == 'Z' && category_code(c)[1] == 'l');
                        assert(seq![a, b][0] == a && seq![a, b][1] == b);
                    },
                    Category::Zp => {
                        assert(category_code(c)[0] == 'Z' && category_code(c)[1] == 'p');
                        assert(seq![a, b][0] == a && seq![a, b][1] == b);
                    },
                    Category::Cc => {
                        assert(category_code(c)[0] == 'C' && category_code(c)[1] == 'c');
                        assert(seq![a, b][0] == a && seq![a, b][1] == b);
                    },
                    Category::Cf => {
                        assert(category_code(c)[0] == 'C' && category_code(c)[1] == 'f');
                        assert(seq![a, b][0] == a && seq![a, b][1] == b);
                    },
                    Category::Cs => {
                        assert(category_code(c)[0] == 'C' && category_code(c)[1] == 's');
                        assert(seq![a, b][0] == a && seq![a, b][1] == b);
                    },
                    Category::Co => {
                        assert(category_code(c)[0] == 'C' && category_code(c)[1] == 'o');
                        assert(seq![a, b][0] == a && seq![a, b][1] == b);
                    },
                    Category::Cn => {
                        assert(category_code(c)[0] == 'C' && category_code(c)[1] == 'n');
                        assert(seq![a, b][0] == a && seq![a, b][1] == b);
                    },
                }
            }
        }
        None
    }
}

/// Whether a codepoint of category `category` belongs to `group`: either a
/// full two-character code (`"Lu"`) or a single-letter major class (`"L"`),
/// which takes in every category with that first letter. Any other group
/// matches nothing.
pub fn is_in_group(category: Category, group: &str) -> (r: bool)
    ensures
        r == (group@ == category_code(category) || (group@.len() == 1 && group@[0] == category_code(category)[0]
            && is_major_class(group@[0]))),
{
    let code = str_to_chars(category.as_str());
    let g = str_to_chars(group);
    if g.len() == 2 {
        let same = g[0] == code[0] && g[1] == code[1];
        proof {
            if same {
                assert(g@ =~= code@);
            }
        }
        same
    } else if g.len() == 1 {
        let c = g[0];
        c == code[0] && (c == 'L' || c == 'M' || c == 'N' || c == 'P' || c == 'S' || c == 'Z' || c == 'C')
    } else {
        false
    }
}

/// A run-length table of general categories: each entry holds the last
/// codepoint of a run and the category of that run. The runs are contiguous
/// and sorted, and the last one ends at `0x10FFFF`.
pub struct CategoryTable {
    pub ranges: Vec<(u32, Category)>,
}

impl CategoryTable {
    pub open spec fn wf(&self) -> bool {
        &&& self.ranges@.len() > 0
        &&& self.ranges@.last().0 == 0x10FFFF
        &&& forall|i: int, j: int| 0 <= i < j < self.ranges@.len() ==> self.ranges@[i].0 < self.ranges@[j].0
    }

    /// Whether the table is well formed: non-empty, strictly increasing run
    /// ends, the last at `0x10FFFF`.
    pub fn is_wf(&self) -> (r: bool)
        ensures
            r == self.wf(),
    {
        let n = self.ranges.len();
        if n == 0 {
            return false;
        }
        if self.ranges[n - 1].0 != 0x10FFFF {
            return false;
        }
        let mut i: usize = 1;
        while i < n
            invariant
                1 <= i <= n,
                n == self.ranges@.len(),
                forall|a: int, b: int| 0 <= a < b < i ==> self.ranges@[a].0 < self.ranges@[b].0,
            decreases n - i,
        {
            if self.ranges[i - 1].0 >= self.ranges[i].0 {
                return false;
            }
            proof {
                assert forall|a: int, b: int| 0 <= a < b < i + 1 implies self.ranges@[a].0 < self.ranges@[b].0 by {
                    if b == i && a < i - 1 {
                        assert(self.ranges@[a].0 < self.ranges@[i - 1].0);
                    }
                }
            }
            i += 1;
        }
        true
    }
}

/// Run `i` is the one holding `cp`: the first run whose end is at least
/// `cp`.
pub open spec fn holds_codepoint(ranges: Seq<(u32, Category)>, cp: u32, i: int) -> bool {
    &&& 0 <= i < ranges.len()
    &&& ranges[i].0 >= cp
    &&& (i == 0 || ranges[i - 1].0 < cp)
}

/// The category of the run that holds `cp`.
pub open spec fn spec_general_category(ranges: Seq<(u32, Category)>, cp: u32) -> Category {
    ranges[choose|i: int| holds_codepoint(ranges, cp, i)].1
}

/// The Unicode general category of `cp` according to `table`, found by a
/// binary search for the first run that ends at or after `cp`.
pub fn general_category(table: &CategoryTable, cp: u32) -> (r: Category)
    requires
        table.wf(),
        cp <= 0x10FFFF,
    ensures
        r == spec_general_category(table.ranges@, cp),
        exists|i: int| holds_codepoint(table.ranges@, cp, i) && r == table.ranges@[i].1,
{
    let ranges = &table.ranges;
    let mut lo: usize = 0;
    let mut hi: usize = ranges.len() - 1;
    while lo < hi
        invariant
            table.wf(),
            ranges == &table.ranges,
            lo <= hi < ranges@.len(),
            ranges@[hi as int].0 >= cp,
            lo == 0 || ranges@[lo - 1].0 < cp,
        decreases hi - lo,
    {
        let mid = lo + (hi - lo) / 2;
        if ranges[mid].0 < cp {
            lo = mid + 1;
        } else {
            hi = mid;
        }
    }
    proof {
        assert(holds_codepoint(ranges@, cp, lo as int));
        let k = choose|i: int| holds_codepoint(ranges@, cp, i);
        if k < lo {
            assert(ranges@[k].0 <= ranges@[lo - 1].0);
        } else if k > lo {
            assert(ranges@[lo as int].0 <= ranges@[k - 1].0);
        }
    }
    ranges[lo].1
}

} // verus!
