//! Values that describe their own printed representation.
//!
//! [`PrettyPrintable`] is the protocol a value uses to print itself through
//! a [`PrettyPrinter`], in Rust-expression syntax: integers and `bool` as
//! they display, strings and characters as quoted literals, and
//! containers as groups whose elements are separated by `","` and a break
//! point, so that large values wrap readably.

use vstd::prelude::*;

use crate::native::charutil::{chars_to_string, decimal, decimal_digits, str_to_chars};
use crate::pretty::printer::{
    extended, item_separator, lemma_separator_count, open_count, print_separator, text_layout, LayoutKind,
    PrettyPrinter,
};

verus! {

broadcast use crate::pretty::printer::group_open_count;

/// A value that can print its own representation.
pub trait PrettyPrintable {
    /// The layout operations that print this value.
    spec fn print_layout(&self) -> Seq<(LayoutKind, int, Seq<char>)>;

    /// Prints this value's representation to `printer`.
    fn pretty_print(&self, printer: &mut PrettyPrinter)
        ensures
            final(printer).document() == extended(old(printer).document(), self.print_layout()),
            final(printer).width() == old(printer).width(),
            open_count(self.print_layout()) == 0,
    ;
}

/// An integer as `Display` writes it: a minus sign when negative, then the
/// decimal digits.
pub open spec fn display_int(n: int) -> Seq<char> {
    (if n < 0 {
        seq!['-']
    } else {
        Seq::<char>::empty()
    }) + decimal_digits((if n < 0 {
        -n
    } else {
        n
    }) as nat)
}

/// An integer as `Display` writes it.
pub fn int_text(n: i128) -> (r: String)
    ensures
        r@ == display_int(n as int),
{
    let mag: u128 = if n < 0 {
        (-(n + 1)) as u128 + 1
    } else {
        n as u128
    };
    let digits = decimal(mag);
    let mut out: Vec<char> = Vec::new();
    if n < 0 {
        out.push('-');
    }
    let ghost mid = out@;
    let mut j: usize = 0;
    while j < digits.len()
        invariant
            j <= digits@.len(),
            out@ == mid + digits@.take(j as int),
        decreases digits@.len() - j,
    {
        out.push(digits[j]);
        j += 1;
        proof {
            assert(out@ =~= mid + digits@.take(j as int));
        }
    }
    proof {
        assert(digits@.take(j as int) =~= digits@);
        assert(out@ =~= display_int(n as int));
    }
    chars_to_string(out.as_slice())
}

/// What `Debug` writes for a string: the string quoted and escaped.
pub uninterp spec fn spec_debug_str(s: Seq<char>) -> Seq<char>;

/// `<str as Debug>::fmt`, through `format!("{:?}")`.
#[verifier::external_body]
fn debug_str(s: &str) -> (r: String)
    ensures
        r@ == spec_debug_str(s@),
{
    format!("{:?}", s)
}

/// What `Debug` writes for a character: the character quoted and escaped.
pub uninterp spec fn spec_debug_char(c: char) -> Seq<char>;

/// `<char as Debug>::fmt`, through `format!("{:?}")`.
#[verifier::external_body]
fn debug_char(c: char) -> (r: String)
    ensures
        r@ == spec_debug_char(c),
{
    format!("{:?}", c)
}

/// Element layouts joined by the item separator.
pub open spec fn joined(parts: Seq<Seq<(LayoutKind, int, Seq<char>)>>) -> Seq<
    (LayoutKind, int, Seq<char>),
>
    decreases parts.len(),
{
    if parts.len() == 0 {
        Seq::empty()
    } else if parts.len() == 1 {
        parts[0]
    } else {
        parts[0] + item_separator() + joined(parts.drop_first())
    }
}

/// A delimited group of element layouts, indented by the width of `open`.
pub open spec fn group_layout(
    open: Seq<char>,
    close: Seq<char>,
    parts: Seq<Seq<(LayoutKind, int, Seq<char>)>>,
) -> Seq<(LayoutKind, int, Seq<char>)> {
    seq![(LayoutKind::BeginGroup, open.len() as int, open)] + joined(parts) + seq![
        (LayoutKind::EndGroup, close.len() as int, close),
    ]
}

/// The layouts of the elements of `items`.
pub open spec fn element_layouts<T: PrettyPrintable>(items: Seq<T>) -> Seq<
    Seq<(LayoutKind, int, Seq<char>)>,
> {
    items.map_values(|x: T| x.print_layout())
}

proof fn lemma_joined_push(
    parts: Seq<Seq<(LayoutKind, int, Seq<char>)>>,
    x: Seq<(LayoutKind, int, Seq<char>)>,
)
    ensures
        joined(parts.push(x)) == if parts.len() == 0 {
            x
        } else {
            joined(parts) + item_separator() + x
        },
    decreases parts.len(),
{
    if parts.len() == 1 {
        let t = parts.push(x).drop_first();
        assert(t =~= seq![x]);
        assert(joined(t) == x);
        assert(joined(parts.push(x)) =~= joined(parts) + item_separator() + x);
    } else if parts.len() > 1 {
        assert(parts.push(x).drop_first() =~= parts.drop_first().push(x));
        lemma_joined_push(parts.drop_first(), x);
        assert(joined(parts.push(x)) =~= joined(parts) + item_separator() + x);
    }
}

proof fn lemma_extend_twice(
    doc: Option<Seq<(LayoutKind, int, Seq<char>)>>,
    a: Seq<(LayoutKind, int, Seq<char>)>,
    b: Seq<(LayoutKind, int, Seq<char>)>,
)
    ensures
        extended(extended(doc, a), b) == extended(doc, a + b),
{
    if doc is Some {
        assert(doc->0 + a + b =~= doc->0 + (a + b));
    }
}

/// Prints `items` as a delimited, comma-separated group: inline when it
/// fits, one element per line (aligned just inside `open`) when it does
/// not.
pub fn pretty_seq<T: PrettyPrintable>(printer: &mut PrettyPrinter, open: &str, close: &str, items: &[T])
    ensures
        final(printer).document() == extended(
            old(printer).document(),
            group_layout(open@, close@, element_layouts(items@)),
        ),
        final(printer).width() == old(printer).width(),
        open_count(group_layout(open@, close@, element_layouts(items@))) == 0,
{
    let ghost start = printer.document();
    proof {
        use_type_invariant(&*printer);
        printer.lemma_well_nested();
        lemma_separator_count();
    }
    let open_width = str_to_chars(open).len();
    let close_width = str_to_chars(close).len();
    printer.begin_group(open_width, open);
    let ghost head = seq![(LayoutKind::BeginGroup, open@.len() as int, open@)];
    proof {
        assert(items@.take(0) =~= Seq::<T>::empty());
        assert(element_layouts(items@.take(0)) =~= Seq::<Seq<(LayoutKind, int, Seq<char>)>>::empty());
        assert(head + joined(element_layouts(items@.take(0))) =~= head);
    }
    let mut i: usize = 0;
    while i < items.len()
        invariant
            i <= items@.len(),
            printer.width() == old(printer).width(),
            printer.document() == extended(start, head + joined(element_layouts(items@.take(i as int)))),
            open_count(joined(element_layouts(items@.take(i as int)))) == 0,
            start matches Some(d) ==> open_count(d) >= 0,
            open_count(item_separator()) == 0,
        decreases items@.len() - i,
    {
        let ghost at_item = printer.document();
        if i > 0 {
            print_separator(printer);
        }
        let ghost at_elem = printer.document();
        items[i].pretty_print(printer);
        proof {
            let h = head + joined(element_layouts(items@.take(i as int)));
            let x = items@[i as int].print_layout();
            assert(items@.take(i + 1) =~= items@.take(i as int).push(items@[i as int]));
            assert(element_layouts(items@.take(i + 1)) =~= element_layouts(items@.take(i as int)).push(x));
            lemma_joined_push(element_layouts(items@.take(i as int)), x);
            if i == 0 {
                assert(element_layouts(items@.take(0)) =~= Seq::<Seq<(LayoutKind, int, Seq<char>)>>::empty());
                lemma_extend_twice(start, h, x);
                assert(h + x =~= head + joined(element_layouts(items@.take(i + 1))));
            } else {
                lemma_extend_twice(start, h, item_separator());
                lemma_extend_twice(start, h + item_separator(), x);
                assert(h + item_separator() + x =~= head + joined(element_layouts(items@.take(i + 1))));
            }
            assert(open_count(x) == 0);
            assert(open_count(joined(element_layouts(items@.take(i + 1)))) == 0);
        }
        i += 1;
    }
    proof {
        assert(open_count(head) == 1);
    }
    printer.end_group(close_width, close);
    proof {
        assert(items@.take(i as int) =~= items@);
        lemma_extend_twice(start, head + joined(element_layouts(items@)), seq![(LayoutKind::EndGroup, close@.len() as int, close@)]);
        assert(head + joined(element_layouts(items@)) + seq![(LayoutKind::EndGroup, close@.len() as int, close@)]
            =~= group_layout(open@, close@, element_layouts(items@)));
    }
}

impl PrettyPrintable for bool {
    open spec fn print_layout(&self) -> Seq<(LayoutKind, int, Seq<char>)> {
        text_layout(if *self {
            seq!['t', 'r', 'u', 'e']
        } else {
            seq!['f', 'a', 'l', 's', 'e']
        })
    }

    fn pretty_print(&self, printer: &mut PrettyPrinter) {
        if *self {
            printer.text("true");
            proof {
                reveal_strlit("true");
                assert("true"@ =~= seq!['t', 'r', 'u', 'e']);
            }
        } else {
            printer.text("false");
            proof {
                reveal_strlit("false");
                assert("false"@ =~= seq!['f', 'a', 'l', 's', 'e']);
            }
        }
    }
}

impl PrettyPrintable for () {
    open spec fn print_layout(&self) -> Seq<(LayoutKind, int, Seq<char>)> {
        text_layout(seq!['(', ')'])
    }

    fn pretty_print(&self, printer: &mut PrettyPrinter) {
        printer.text("()");
        proof {
            reveal_strlit("()");
            assert("()"@ =~= seq!['(', ')']);
        }
    }
}

impl PrettyPrintable for i128 {
    open spec fn print_layout(&self) -> Seq<(LayoutKind, int, Seq<char>)> {
        text_layout(display_int(*self as int))
    }

    fn pretty_print(&self, printer: &mut PrettyPrinter) {
        let s = int_text(*self);
        printer.text(s.as_str());
    }
}

impl PrettyPrintable for u128 {
    open spec fn print_layout(&self) -> Seq<(LayoutKind, int, Seq<char>)> {
        text_layout(decimal_digits(*self as nat))
    }

    fn pretty_print(&self, printer: &mut PrettyPrinter) {
        let digits = decimal(*self);
        let s = chars_to_string(digits.as_slice());
        printer.text(s.as_str());
    }
}

impl PrettyPrintable for i8 {
    open spec fn print_layout(&self) -> Seq<(LayoutKind, int, Seq<char>)> {
        text_layout(display_int(*self as int))
    }

    fn pretty_print(&self, printer: &mut PrettyPrinter) {
        let s = int_text(*self as i128);
        printer.text(s.as_str());
    }
}

impl PrettyPrintable for i16 {
    open spec fn print_layout(&self) -> Seq<(LayoutKind, int, Seq<char>)> {
        text_layout(display_int(*self as int))
    }

    fn pretty_print(&self, printer: &mut PrettyPrinter) {
        let s = int_text(*self as i128);
        printer.text(s.as_str());
    }
}

impl PrettyPrintable for i32 {
    open spec fn print_layout(&self) -> Seq<(LayoutKind, int, Seq<char>)> {
        text_layout(display_int(*self as int))
    }

    fn pretty_print(&self, printer: &mut PrettyPrinter) {
        let s = int_text(*self as i128);
        printer.text(s.as_str());
    }
}

impl PrettyPrintable for i64 {
    open spec fn print_layout(&self) -> Seq<(LayoutKind, int, Seq<char>)> {
        text_layout(display_int(*self as int))
    }

    fn pretty_print(&self, printer: &mut PrettyPrinter) {
        let s = int_text(*self as i128);
        printer.text(s.as_str());
    }
}

impl PrettyPrintable for isize {
    open spec fn print_layout(&self) -> Seq<(LayoutKind, int, Seq<char>)> {
        text_layout(display_int(*self as int))
    }

    fn pretty_print(&self, printer: &mut PrettyPrinter) {
        let s = int_text(*self as i128);
        printer.text(s.as_str());
    }
}

impl PrettyPrintable for u8 {
    open spec fn print_layout(&self) -> Seq<(LayoutKind, int, Seq<char>)> {
        text_layout(display_int(*self as int))
    }

    fn pretty_print(&self, printer: &mut PrettyPrinter) {
        let s = int_text(*self as i128);
        printer.text(s.as_str());
    }
}

impl PrettyPrintable for u16 {
    open spec fn print_layout(&self) -> Seq<(LayoutKind, int, Seq<char>)> {
        text_layout(display_int(*self as int))
    }

    fn pretty_print(&self, printer: &mut PrettyPrinter) {
        let s = int_text(*self as i128);
        printer.text(s.as_str());
    }
}

impl PrettyPrintable for u32 {
    open spec fn print_layout(&self) -> Seq<(LayoutKind, int, Seq<char>)> {
        text_layout(display_int(*self as int))
    }

    fn pretty_print(&self, printer: &mut PrettyPrinter) {
        let s = int_text(*self as i128);
        printer.text(s.as_str());
    }
}

impl PrettyPrintable for u64 {
    open spec fn print_layout(&self) -> Seq<(LayoutKind, int, Seq<char>)> {
        text_layout(display_int(*self as int))
    }

    fn pretty_print(&self, printer: &mut PrettyPrinter) {
        let s = int_text(*self as i128);
        printer.text(s.as_str());
    }
}

impl PrettyPrintable for usize {
    open spec fn print_layout(&self) -> Seq<(LayoutKind, int, Seq<char>)> {
        text_layout(display_int(*self as int))
    }

    fn pretty_print(&self, printer: &mut PrettyPrinter) {
        let s = int_text(*self as i128);
        printer.text(s.as_str());
    }
}

impl PrettyPrintable for char {
    open spec fn print_layout(&self) -> Seq<(LayoutKind, int, Seq<char>)> {
        text_layout(spec_debug_char(*self))
    }

    fn pretty_print(&self, printer: &mut PrettyPrinter) {
        let s = debug_char(*self);
        printer.text(s.as_str());
    }
}

impl PrettyPrintable for str {
    open spec fn print_layout(&self) -> Seq<(LayoutKind, int, Seq<char>)> {
        text_layout(spec_debug_str(self@))
    }

    fn pretty_print(&self, printer: &mut PrettyPrinter) {
        let s = debug_str(self);
        printer.text(s.as_str());
    }
}

impl PrettyPrintable for String {
    open spec fn print_layout(&self) -> Seq<(LayoutKind, int, Seq<char>)> {
        text_layout(spec_debug_str(self@))
    }

    fn pretty_print(&self, printer: &mut PrettyPrinter) {
        self.as_str().pretty_print(printer);
    }
}

impl<T: PrettyPrintable> PrettyPrintable for Vec<T> {
    open spec fn print_layout(&self) -> Seq<(LayoutKind, int, Seq<char>)> {
        group_layout(seq!['['], seq![']'], element_layouts(self@))
    }

    fn pretty_print(&self, printer: &mut PrettyPrinter) {
        pretty_seq(printer, "[", "]", self.as_slice());
        proof {
            reveal_strlit("[");
            reveal_strlit("]");
            assert("["@ =~= seq!['[']);
            assert("]"@ =~= seq![']']);
        }
    }
}

impl<T: PrettyPrintable> PrettyPrintable for Box<T> {
    open spec fn print_layout(&self) -> Seq<(LayoutKind, int, Seq<char>)> {
        (**self).print_layout()
    }

    fn pretty_print(&self, printer: &mut PrettyPrinter) {
        (**self).pretty_print(printer);
    }
}

/// A value printed inside a group with the given opening and closing text.
pub open spec fn wrapped(open: Seq<char>, close: Seq<char>, inner: Seq<(LayoutKind, int, Seq<char>)>) -> Seq<
    (LayoutKind, int, Seq<char>),
> {
    seq![(LayoutKind::BeginGroup, open.len() as int, open)] + inner + seq![
        (LayoutKind::EndGroup, open.len() as int, close),
    ]
}

/// Prints `value` inside a group opened by `open` and closed by `close`,
/// indented by the width of `open`.
fn print_wrapped<T: PrettyPrintable>(printer: &mut PrettyPrinter, open: &str, close: &str, value: &T)
    ensures
        final(printer).document() == extended(
            old(printer).document(),
            wrapped(open@, close@, value.print_layout()),
        ),
        final(printer).width() == old(printer).width(),
        open_count(value.print_layout()) == 0,
        open_count(wrapped(open@, close@, value.print_layout())) == 0,
{
    let ghost start = printer.document();
    proof {
        use_type_invariant(&*printer);
        printer.lemma_well_nested();
        lemma_separator_count();
    }
    let width = str_to_chars(open).len();
    printer.begin_group(width, open);
    value.pretty_print(printer);
    printer.end_group(width, close);
    proof {
        let b = seq![(LayoutKind::BeginGroup, open@.len() as int, open@)];
        let e = seq![(LayoutKind::EndGroup, open@.len() as int, close@)];
        lemma_extend_twice(start, b, value.print_layout());
        lemma_extend_twice(start, b + value.print_layout(), e);
    }
}

impl<T: PrettyPrintable> PrettyPrintable for Option<T> {
    open spec fn print_layout(&self) -> Seq<(LayoutKind, int, Seq<char>)> {
        match self {
            None => text_layout(seq!['N', 'o', 'n', 'e']),
            Some(v) => wrapped(seq!['S', 'o', 'm', 'e', '('], seq![')'], v.print_layout()),
        }
    }

    fn pretty_print(&self, printer: &mut PrettyPrinter) {
        match self {
            None => {
                proof {
                    crate::pretty::printer::lemma_text_layout_count(seq!['N', 'o', 'n', 'e']);
                }
                printer.text("None");
                proof {
                    reveal_strlit("None");
                    assert("None"@ =~= seq!['N', 'o', 'n', 'e']);
                }
            },
            Some(value) => {
                print_wrapped(printer, "Some(", ")", value);
                proof {
                    reveal_strlit("Some(");
                    reveal_strlit(")");
                    assert("Some("@ =~= seq!['S', 'o', 'm', 'e', '(']);
                    assert(")"@ =~= seq![')']);
                }
            },
        }
    }
}

impl<T: PrettyPrintable, E: PrettyPrintable> PrettyPrintable for Result<T, E> {
    open spec fn print_layout(&self) -> Seq<(LayoutKind, int, Seq<char>)> {
        match self {
            Ok(v) => wrapped(seq!['O', 'k', '('], seq![')'], v.print_layout()),
            Err(e) => wrapped(seq!['E', 'r', 'r', '('], seq![')'], e.print_layout()),
        }
    }

    fn pretty_print(&self, printer: &mut PrettyPrinter) {
        match self {
            Ok(value) => {
                print_wrapped(printer, "Ok(", ")", value);
                proof {
                    reveal_strlit("Ok(");
                    reveal_strlit(")");
                    assert("Ok("@ =~= seq!['O', 'k', '(']);
                    assert(")"@ =~= seq![')']);
                }
            },
            Err(error) => {
                print_wrapped(printer, "Err(", ")", error);
                proof {
                    reveal_strlit("Err(");
                    reveal_strlit(")");
                    assert("Err("@ =~= seq!['E', 'r', 'r', '(']);
                    assert(")"@ =~= seq![')']);
                }
            },
        }
    }
}

impl<A: PrettyPrintable> PrettyPrintable for (A,) {
    open spec fn print_layout(&self) -> Seq<(LayoutKind, int, Seq<char>)> {
        seq![(LayoutKind::BeginGroup, 1int, seq!['('])] + self.0.print_layout() + seq![
            (LayoutKind::EndGroup, 1int, seq![',', ')']),
        ]
    }

    fn pretty_print(&self, printer: &mut PrettyPrinter) {
        let ghost start = printer.document();
        proof {
            use_type_invariant(&*printer);
            printer.lemma_well_nested();
            lemma_separator_count();
        }
    proof {
        use_type_invariant(&*printer);
        printer.lemma_well_nested();
        lemma_separator_count();
    }
        printer.begin_group(1, "(");
        self.0.pretty_print(printer);
        printer.end_group(1, ",)");
        proof {
            reveal_strlit("(");
            reveal_strlit(",)");
            assert("("@ =~= seq!['(']);
            assert(",)"@ =~= seq![',', ')']);
            let b = seq![(LayoutKind::BeginGroup, 1int, seq!['('])];
            let e = seq![(LayoutKind::EndGroup, 1int, seq![',', ')'])];
            lemma_extend_twice(start, b, self.0.print_layout());
            lemma_extend_twice(start, b + self.0.print_layout(), e);
        }
    }
}

impl<A: PrettyPrintable, B: PrettyPrintable> PrettyPrintable for (A, B) {
    open spec fn print_layout(&self) -> Seq<(LayoutKind, int, Seq<char>)> {
        seq![(LayoutKind::BeginGroup, 1int, seq!['('])] + self.0.print_layout() + item_separator()
            + self.1.print_layout() + seq![(LayoutKind::EndGroup, 1int, seq![')'])]
    }

    fn pretty_print(&self, printer: &mut PrettyPrinter) {
        let ghost start = printer.document();
        proof {
            use_type_invariant(&*printer);
            printer.lemma_well_nested();
            lemma_separator_count();
        }
    proof {
        use_type_invariant(&*printer);
        printer.lemma_well_nested();
        lemma_separator_count();
    }
        printer.begin_group(1, "(");
        self.0.pretty_print(printer);
        print_separator(printer);
        self.1.pretty_print(printer);
        printer.end_group(1, ")");
        proof {
            reveal_strlit("(");
            reveal_strlit(")");
            assert("("@ =~= seq!['(']);
            assert(")"@ =~= seq![')']);
            let b = seq![(LayoutKind::BeginGroup, 1int, seq!['('])];
            let e = seq![(LayoutKind::EndGroup, 1int, seq![')'])];
            let l0 = self.0.print_layout();
            let l1 = self.1.print_layout();
            lemma_extend_twice(start, b, l0);
            lemma_extend_twice(start, b + l0, item_separator());
            lemma_extend_twice(start, b + l0 + item_separator(), l1);
            lemma_extend_twice(start, b + l0 + item_separator() + l1, e);
        }
    }
}

impl<A: PrettyPrintable, B: PrettyPrintable, C: PrettyPrintable> PrettyPrintable for (A, B, C) {
    open spec fn print_layout(&self) -> Seq<(LayoutKind, int, Seq<char>)> {
        seq![(LayoutKind::BeginGroup, 1int, seq!['('])] + self.0.print_layout() + item_separator()
            + self.1.print_layout() + item_separator() + self.2.print_layout() + seq![
            (LayoutKind::EndGroup, 1int, seq![')']),
        ]
    }

    fn pretty_print(&self, printer: &mut PrettyPrinter) {
        let ghost start = printer.document();
        proof {
            use_type_invariant(&*printer);
            printer.lemma_well_nested();
            lemma_separator_count();
        }
    proof {
        use_type_invariant(&*printer);
        printer.lemma_well_nested();
        lemma_separator_count();
    }
        printer.begin_group(1, "(");
        self.0.pretty_print(printer);
        print_separator(printer);
        self.1.pretty_print(printer);
        print_separator(printer);
        self.2.pretty_print(printer);
        printer.end_group(1, ")");
        proof {
            reveal_strlit("(");
            reveal_strlit(")");
            assert("("@ =~= seq!['(']);
            assert(")"@ =~= seq![')']);
            let b = seq![(LayoutKind::BeginGroup, 1int, seq!['('])];
            let e = seq![(LayoutKind::EndGroup, 1int, seq![')'])];
            let s = item_separator();
            let l0 = self.0.print_layout();
            let l1 = self.1.print_layout();
            let l2 = self.2.print_layout();
            lemma_extend_twice(start, b, l0);
            lemma_extend_twice(start, b + l0, s);
            lemma_extend_twice(start, b + l0 + s, l1);
            lemma_extend_twice(start, b + l0 + s + l1, s);
            lemma_extend_twice(start, b + l0 + s + l1 + s, l2);
            lemma_extend_twice(start, b + l0 + s + l1 + s + l2, e);
        }
    }
}


impl<T: PrettyPrintable + ?Sized> PrettyPrintable for &T {
    open spec fn print_layout(&self) -> Seq<(LayoutKind, int, Seq<char>)> {
        (**self).print_layout()
    }

    fn pretty_print(&self, printer: &mut PrettyPrinter) {
        (**self).pretty_print(printer);
    }
}

impl<T: PrettyPrintable + ?Sized> PrettyPrintable for &mut T {
    open spec fn print_layout(&self) -> Seq<(LayoutKind, int, Seq<char>)> {
        (**self).print_layout()
    }

    fn pretty_print(&self, printer: &mut PrettyPrinter) {
        (**self).pretty_print(printer);
    }
}

impl<T: PrettyPrintable> PrettyPrintable for std::rc::Rc<T> {
    open spec fn print_layout(&self) -> Seq<(LayoutKind, int, Seq<char>)> {
        (**self).print_layout()
    }

    fn pretty_print(&self, printer: &mut PrettyPrinter) {
        (**self).pretty_print(printer);
    }
}

impl<T: PrettyPrintable> PrettyPrintable for std::sync::Arc<T> {
    open spec fn print_layout(&self) -> Seq<(LayoutKind, int, Seq<char>)> {
        (**self).print_layout()
    }

    fn pretty_print(&self, printer: &mut PrettyPrinter) {
        (**self).pretty_print(printer);
    }
}

impl<T: PrettyPrintable> PrettyPrintable for [T] {
    open spec fn print_layout(&self) -> Seq<(LayoutKind, int, Seq<char>)> {
        group_layout(seq!['['], seq![']'], element_layouts(self@))
    }

    fn pretty_print(&self, printer: &mut PrettyPrinter) {
        pretty_seq(printer, "[", "]", self);
        proof {
            reveal_strlit("[");
            reveal_strlit("]");
            assert("["@ =~= seq!['[']);
            assert("]"@ =~= seq![']']);
        }
    }
}

impl<T: PrettyPrintable, const N: usize> PrettyPrintable for [T; N] {
    open spec fn print_layout(&self) -> Seq<(LayoutKind, int, Seq<char>)> {
        group_layout(seq!['['], seq![']'], element_layouts(self@))
    }

    fn pretty_print(&self, printer: &mut PrettyPrinter) {
        pretty_seq(printer, "[", "]", self.as_slice());
        proof {
            reveal_strlit("[");
            reveal_strlit("]");
            assert("["@ =~= seq!['[']);
            assert("]"@ =~= seq![']']);
        }
    }
}

impl<A: PrettyPrintable, B: PrettyPrintable, C: PrettyPrintable, D: PrettyPrintable> PrettyPrintable for (A, B, C, D) {
    open spec fn print_layout(&self) -> Seq<(LayoutKind, int, Seq<char>)> {
        seq![(LayoutKind::BeginGroup, 1int, seq!['('])] + self.0.print_layout() + item_separator() + self.1.print_layout() + item_separator() + self.2.print_layout() + item_separator() + self.3.print_layout() + seq![
            (LayoutKind::EndGroup, 1int, seq![')']),
        ]
    }

    fn pretty_print(&self, printer: &mut PrettyPrinter) {
        let ghost start = printer.document();
        proof {
            use_type_invariant(&*printer);
            printer.lemma_well_nested();
            lemma_separator_count();
        }
    proof {
        use_type_invariant(&*printer);
        printer.lemma_well_nested();
        lemma_separator_count();
    }
        printer.begin_group(1, "(");
        self.0.pretty_print(printer);
        print_separator(printer);
        self.1.pretty_print(printer);
        print_separator(printer);
        self.2.pretty_print(printer);
        print_separator(printer);
        self.3.pretty_print(printer);
        printer.end_group(1, ")");
        proof {
            reveal_strlit("(");
            reveal_strlit(")");
            assert("("@ =~= seq!['(']);
            assert(")"@ =~= seq![')']);
            let s = item_separator();
            let a0 = seq![(LayoutKind::BeginGroup, 1int, seq!['('])];
            lemma_extend_twice(start, a0, self.0.print_layout());
            let a1 = a0 + self.0.print_layout();
            lemma_extend_twice(start, a1, s);
            let a2 = a1 + s;
            lemma_extend_twice(start, a2, self.1.print_layout());
            let a3 = a2 + self.1.print_layout();
            lemma_extend_twice(start, a3, s);
            let a4 = a3 + s;
            lemma_extend_twice(start, a4, self.2.print_layout());
            let a5 = a4 + self.2.print_layout();
            lemma_extend_twice(start, a5, s);
            let a6 = a5 + s;
            lemma_extend_twice(start, a6, self.3.print_layout());
            let a7 = a6 + self.3.print_layout();
            lemma_extend_twice(start, a7, seq![(LayoutKind::EndGroup, 1int, seq![')'])]);
        }
    }
}

impl<A: PrettyPrintable, B: PrettyPrintable, C: PrettyPrintable, D: PrettyPrintable, E: PrettyPrintable> PrettyPrintable for (A, B, C, D, E) {
    open spec fn print_layout(&self) -> Seq<(LayoutKind, int, Seq<char>)> {
        seq![(LayoutKind::BeginGroup, 1int, seq!['('])] + self.0.print_layout() + item_separator() + self.1.print_layout() + item_separator() + self.2.print_layout() + item_separator() + self.3.print_layout() + item_separator() + self.4.print_layout() + seq![
            (LayoutKind::EndGroup, 1int, seq![')']),
        ]
    }

    fn pretty_print(&self, printer: &mut PrettyPrinter) {
        let ghost start = printer.document();
        proof {
            use_type_invariant(&*printer);
            printer.lemma_well_nested();
            lemma_separator_count();
        }
    proof {
        use_type_invariant(&*printer);
        printer.lemma_well_nested();
        lemma_separator_count();
    }
        printer.begin_group(1, "(");
        self.0.pretty_print(printer);
        print_separator(printer);
        self.1.pretty_print(printer);
        print_separator(printer);
        self.2.pretty_print(printer);
        print_separator(printer);
        self.3.pretty_print(printer);
        print_separator(printer);
        self.4.pretty_print(printer);
        printer.end_group(1, ")");
        proof {
            reveal_strlit("(");
            reveal_strlit(")");
            assert("("@ =~= seq!['(']);
            assert(")"@ =~= seq![')']);
            let s = item_separator();
            let a0 = seq![(LayoutKind::BeginGroup, 1int, seq!['('])];
            lemma_extend_twice(start, a0, self.0.print_layout());
            let a1 = a0 + self.0.print_layout();
            lemma_extend_twice(start, a1, s);
            let a2 = a1 + s;
            lemma_extend_twice(start, a2, self.1.print_layout());
            let a3 = a2 + self.1.print_layout();
            lemma_extend_twice(start, a3, s);
            let a4 = a3 + s;
            lemma_extend_twice(start, a4, self.2.print_layout());
            let a5 = a4 + self.2.print_layout();
            lemma_extend_twice(start, a5, s);
            let a6 = a5 + s;
            lemma_extend_twice(start, a6, self.3.print_layout());
            let a7 = a6 + self.3.print_layout();
            lemma_extend_twice(start, a7, s);
            let a8 = a7 + s;
            lemma_extend_twice(start, a8, self.4.print_layout());
            let a9 = a8 + self.4.print_layout();
            lemma_extend_twice(start, a9, seq![(LayoutKind::EndGroup, 1int, seq![')'])]);
        }
    }
}

impl<A: PrettyPrintable, B: PrettyPrintable, C: PrettyPrintable, D: PrettyPrintable, E: PrettyPrintable, F: PrettyPrintable> PrettyPrintable for (A, B, C, D, E, F) {
    open spec fn print_layout(&self) -> Seq<(LayoutKind, int, Seq<char>)> {
        seq![(LayoutKind::BeginGroup, 1int, seq!['('])] + self.0.print_layout() + item_separator() + self.1.print_layout() + item_separator() + self.2.print_layout() + item_separator() + self.3.print_layout() + item_separator() + self.4.print_layout() + item_separator() + self.5.print_layout() + seq![
            (LayoutKind::EndGroup, 1int, seq![')']),
        ]
    }

    fn pretty_print(&self, printer: &mut PrettyPrinter) {
        let ghost start = printer.document();
        proof {
            use_type_invariant(&*printer);
            printer.lemma_well_nested();
            lemma_separator_count();
        }
    proof {
        use_type_invariant(&*printer);
        printer.lemma_well_nested();
        lemma_separator_count();
    }
        printer.begin_group(1, "(");
        self.0.pretty_print(printer);
        print_separator(printer);
        self.1.pretty_print(printer);
        print_separator(printer);
        self.2.pretty_print(printer);
        print_separator(printer);
        self.3.pretty_print(printer);
        print_separator(printer);
        self.4.pretty_print(printer);
        print_separator(printer);
        self.5.pretty_print(printer);
        printer.end_group(1, ")");
        proof {
            reveal_strlit("(");
            reveal_strlit(")");
            assert("("@ =~= seq!['(']);
            assert(")"@ =~= seq![')']);
            let s = item_separator();
            let a0 = seq![(LayoutKind::BeginGroup, 1int, seq!['('])];
            lemma_extend_twice(start, a0, self.0.print_layout());
            let a1 = a0 + self.0.print_layout();
            lemma_extend_twice(start, a1, s);
            let a2 = a1 + s;
            lemma_extend_twice(start, a2, self.1.print_layout());
            let a3 = a2 + self.1.print_layout();
            lemma_extend_twice(start, a3, s);
            let a4 = a3 + s;
            lemma_extend_twice(start, a4, self.2.print_layout());
            let a5 = a4 + self.2.print_layout();
            lemma_extend_twice(start, a5, s);
            let a6 = a5 + s;
            lemma_extend_twice(start, a6, self.3.print_layout());
            let a7 = a6 + self.3.print_layout();
            lemma_extend_twice(start, a7, s);
            let a8 = a7 + s;
            lemma_extend_twice(start, a8, self.4.print_layout());
            let a9 = a8 + self.4.print_layout();
            lemma_extend_twice(start, a9, s);
            let a10 = a9 + s;
            lemma_extend_twice(start, a10, self.5.print_layout());
            let a11 = a10 + self.5.print_layout();
            lemma_extend_twice(start, a11, seq![(LayoutKind::EndGroup, 1int, seq![')'])]);
        }
    }
}

impl<A: PrettyPrintable, B: PrettyPrintable, C: PrettyPrintable, D: PrettyPrintable, E: PrettyPrintable, F: PrettyPrintable, G: PrettyPrintable> PrettyPrintable for (A, B, C, D, E, F, G) {
    open spec fn print_layout(&self) -> Seq<(LayoutKind, int, Seq<char>)> {
        seq![(LayoutKind::BeginGroup, 1int, seq!['('])] + self.0.print_layout() + item_separator() + self.1.print_layout() + item_separator() + self.2.print_layout() + item_separator() + self.3.print_layout() + item_separator() + self.4.print_layout() + item_separator() + self.5.print_layout() + item_separator() + self.6.print_layout() + seq![
            (LayoutKind::EndGroup, 1int, seq![')']),
        ]
    }

    fn pretty_print(&self, printer: &mut PrettyPrinter) {
        let ghost start = printer.document();
        proof {
            use_type_invariant(&*printer);
            printer.lemma_well_nested();
            lemma_separator_count();
        }
    proof {
        use_type_invariant(&*printer);
        printer.lemma_well_nested();
        lemma_separator_count();
    }
        printer.begin_group(1, "(");
        self.0.pretty_print(printer);
        print_separator(printer);
        self.1.pretty_print(printer);
        print_separator(printer);
        self.2.pretty_print(printer);
        print_separator(printer);
        self.3.pretty_print(printer);
        print_separator(printer);
        self.4.pretty_print(printer);
        print_separator(printer);
        self.5.pretty_print(printer);
        print_separator(printer);
        self.6.pretty_print(printer);
        printer.end_group(1, ")");
        proof {
            reveal_strlit("(");
            reveal_strlit(")");
            assert("("@ =~= seq!['(']);
            assert(")"@ =~= seq![')']);
            let s = item_separator();
            let a0 = seq![(LayoutKind::BeginGroup, 1int, seq!['('])];
            lemma_extend_twice(start, a0, self.0.print_layout());
            let a1 = a0 + self.0.print_layout();
            lemma_extend_twice(start, a1, s);
            let a2 = a1 + s;
            lemma_extend_twice(start, a2, self.1.print_layout());
            let a3 = a2 + self.1.print_layout();
            lemma_extend_twice(start, a3, s);
            let a4 = a3 + s;
            lemma_extend_twice(start, a4, self.2.print_layout());
            let a5 = a4 + self.2.print_layout();
            lemma_extend_twice(start, a5, s);
            let a6 = a5 + s;
            lemma_extend_twice(start, a6, self.3.print_layout());
            let a7 = a6 + self.3.print_layout();
            lemma_extend_twice(start, a7, s);
            let a8 = a7 + s;
            lemma_extend_twice(start, a8, self.4.print_layout());
            let a9 = a8 + self.4.print_layout();
            lemma_extend_twice(start, a9, s);
            let a10 = a9 + s;
            lemma_extend_twice(start, a10, self.5.print_layout());
            let a11 = a10 + self.5.print_layout();
            lemma_extend_twice(start, a11, s);
            let a12 = a11 + s;
            lemma_extend_twice(start, a12, self.6.print_layout());
            let a13 = a12 + self.6.print_layout();
            lemma_extend_twice(start, a13, seq![(LayoutKind::EndGroup, 1int, seq![')'])]);
        }
    }
}

impl<A: PrettyPrintable, B: PrettyPrintable, C: PrettyPrintable, D: PrettyPrintable, E: PrettyPrintable, F: PrettyPrintable, G: PrettyPrintable, H: PrettyPrintable> PrettyPrintable for (A, B, C, D, E, F, G, H) {
    open spec fn print_layout(&self) -> Seq<(LayoutKind, int, Seq<char>)> {
        seq![(LayoutKind::BeginGroup, 1int, seq!['('])] + self.0.print_layout() + item_separator() + self.1.print_layout() + item_separator() + self.2.print_layout() + item_separator() + self.3.print_layout() + item_separator() + self.4.print_layout() + item_separator() + self.5.print_layout() + item_separator() + self.6.print_layout() + item_separator() + self.7.print_layout() + seq![
            (LayoutKind::EndGroup, 1int, seq![')']),
        ]
    }

    fn pretty_print(&self, printer: &mut PrettyPrinter) {
        let ghost start = printer.document();
        proof {
            use_type_invariant(&*printer);
            printer.lemma_well_nested();
            lemma_separator_count();
        }
    proof {
        use_type_invariant(&*printer);
        printer.lemma_well_nested();
        lemma_separator_count();
    }
        printer.begin_group(1, "(");
        self.0.pretty_print(printer);
        print_separator(printer);
        self.1.pretty_print(printer);
        print_separator(printer);
        self.2.pretty_print(printer);
        print_separator(printer);
        self.3.pretty_print(printer);
        print_separator(printer);
        self.4.pretty_print(printer);
        print_separator(printer);
        self.5.pretty_print(printer);
        print_separator(printer);
        self.6.pretty_print(printer);
        print_separator(printer);
        self.7.pretty_print(printer);
        printer.end_group(1, ")");
        proof {
            reveal_strlit("(");
            reveal_strlit(")");
            assert("("@ =~= seq!['(']);
            assert(")"@ =~= seq![')']);
            let s = item_separator();
            let a0 = seq![(LayoutKind::BeginGroup, 1int, seq!['('])];
            lemma_extend_twice(start, a0, self.0.print_layout());
            let a1 = a0 + self.0.print_layout();
            lemma_extend_twice(start, a1, s);
            let a2 = a1 + s;
            lemma_extend_twice(start, a2, self.1.print_layout());
            let a3 = a2 + self.1.print_layout();
            lemma_extend_twice(start, a3, s);
            let a4 = a3 + s;
            lemma_extend_twice(start, a4, self.2.print_layout());
            let a5 = a4 + self.2.print_layout();
            lemma_extend_twice(start, a5, s);
            let a6 = a5 + s;
            lemma_extend_twice(start, a6, self.3.print_layout());
            let a7 = a6 + self.3.print_layout();
            lemma_extend_twice(start, a7, s);
            let a8 = a7 + s;
            lemma_extend_twice(start, a8, self.4.print_layout());
            let a9 = a8 + self.4.print_layout();
            lemma_extend_twice(start, a9, s);
            let a10 = a9 + s;
            lemma_extend_twice(start, a10, self.5.print_layout());
            let a11 = a10 + self.5.print_layout();
            lemma_extend_twice(start, a11, s);
            let a12 = a11 + s;
            lemma_extend_twice(start, a12, self.6.print_layout());
            let a13 = a12 + self.6.print_layout();
            lemma_extend_twice(start, a13, s);
            let a14 = a13 + s;
            lemma_extend_twice(start, a14, self.7.print_layout());
            let a15 = a14 + self.7.print_layout();
            lemma_extend_twice(start, a15, seq![(LayoutKind::EndGroup, 1int, seq![')'])]);
        }
    }
}

impl<A: PrettyPrintable, B: PrettyPrintable, C: PrettyPrintable, D: PrettyPrintable, E: PrettyPrintable, F: PrettyPrintable, G: PrettyPrintable, H: PrettyPrintable, I: PrettyPrintable> PrettyPrintable for (A, B, C, D, E, F, G, H, I) {
    open spec fn print_layout(&self) -> Seq<(LayoutKind, int, Seq<char>)> {
        seq![(LayoutKind::BeginGroup, 1int, seq!['('])] + self.0.print_layout() + item_separator() + self.1.print_layout() + item_separator() + self.2.print_layout() + item_separator() + self.3.print_layout() + item_separator() + self.4.print_layout() + item_separator() + self.5.print_layout() + item_separator() + self.6.print_layout() + item_separator() + self.7.print_layout() + item_separator() + self.8.print_layout() + seq![
            (LayoutKind::EndGroup, 1int, seq![')']),
        ]
    }

    fn pretty_print(&self, printer: &mut PrettyPrinter) {
        let ghost start = printer.document();
        proof {
            use_type_invariant(&*printer);
            printer.lemma_well_nested();
            lemma_separator_count();
        }
    proof {
        use_type_invariant(&*printer);
        printer.lemma_well_nested();
        lemma_separator_count();
    }
        printer.begin_group(1, "(");
        self.0.pretty_print(printer);
        print_separator(printer);
        self.1.pretty_print(printer);
        print_separator(printer);
        self.2.pretty_print(printer);
        print_separator(printer);
        self.3.pretty_print(printer);
        print_separator(printer);
        self.4.pretty_print(printer);
        print_separator(printer);
        self.5.pretty_print(printer);
        print_separator(printer);
        self.6.pretty_print(printer);
        print_separator(printer);
        self.7.pretty_print(printer);
        print_separator(printer);
        self.8.pretty_print(printer);
        printer.end_group(1, ")");
        proof {
            reveal_strlit("(");
            reveal_strlit(")");
            assert("("@ =~= seq!['(']);
            assert(")"@ =~= seq![')']);
            let s = item_separator();
            let a0 = seq![(LayoutKind::BeginGroup, 1int, seq!['('])];
            lemma_extend_twice(start, a0, self.0.print_layout());
            let a1 = a0 + self.0.print_layout();
            lemma_extend_twice(start, a1, s);
            let a2 = a1 + s;
            lemma_extend_twice(start, a2, self.1.print_layout());
            let a3 = a2 + self.1.print_layout();
            lemma_extend_twice(start, a3, s);
            let a4 = a3 + s;
            lemma_extend_twice(start, a4, self.2.print_layout());
            let a5 = a4 + self.2.print_layout();
            lemma_extend_twice(start, a5, s);
            let a6 = a5 + s;
            lemma_extend_twice(start, a6, self.3.print_layout());
            let a7 = a6 + self.3.print_layout();
            lemma_extend_twice(start, a7, s);
            let a8 = a7 + s;
            lemma_extend_twice(start, a8, self.4.print_layout());
            let a9 = a8 + self.4.print_layout();
            lemma_extend_twice(start, a9, s);
            let a10 = a9 + s;
            lemma_extend_twice(start, a10, self.5.print_layout());
            let a11 = a10 + self.5.print_layout();
            lemma_extend_twice(start, a11, s);
            let a12 = a11 + s;
            lemma_extend_twice(start, a12, self.6.print_layout());
            let a13 = a12 + self.6.print_layout();
            lemma_extend_twice(start, a13, s);
            let a14 = a13 + s;
            lemma_extend_twice(start, a14, self.7.print_layout());
            let a15 = a14 + self.7.print_layout();
            lemma_extend_twice(start, a15, s);
            let a16 = a15 + s;
            lemma_extend_twice(start, a16, self.8.print_layout());
            let a17 = a16 + self.8.print_layout();
            lemma_extend_twice(start, a17, seq![(LayoutKind::EndGroup, 1int, seq![')'])]);
        }
    }
}

impl<A: PrettyPrintable, B: PrettyPrintable, C: PrettyPrintable, D: PrettyPrintable, E: PrettyPrintable, F: PrettyPrintable, G: PrettyPrintable, H: PrettyPrintable, I: PrettyPrintable, J: PrettyPrintable> PrettyPrintable for (A, B, C, D, E, F, G, H, I, J) {
    open spec fn print_layout(&self) -> Seq<(LayoutKind, int, Seq<char>)> {
        seq![(LayoutKind::BeginGroup, 1int, seq!['('])] + self.0.print_layout() + item_separator() + self.1.print_layout() + item_separator() + self.2.print_layout() + item_separator() + self.3.print_layout() + item_separator() + self.4.print_layout() + item_separator() + self.5.print_layout() + item_separator() + self.6.print_layout() + item_separator() + self.7.print_layout() + item_separator() + self.8.print_layout() + item_separator() + self.9.print_layout() + seq![
            (LayoutKind::EndGroup, 1int, seq![')']),
        ]
    }

    fn pretty_print(&self, printer: &mut PrettyPrinter) {
        let ghost start = printer.document();
        proof {
            use_type_invariant(&*printer);
            printer.lemma_well_nested();
            lemma_separator_count();
        }
    proof {
        use_type_invariant(&*printer);
        printer.lemma_well_nested();
        lemma_separator_count();
    }
        printer.begin_group(1, "(");
        self.0.pretty_print(printer);
        print_separator(printer);
        self.1.pretty_print(printer);
        print_separator(printer);
        self.2.pretty_print(printer);
        print_separator(printer);
        self.3.pretty_print(printer);
        print_separator(printer);
        self.4.pretty_print(printer);
        print_separator(printer);
        self.5.pretty_print(printer);
        print_separator(printer);
        self.6.pretty_print(printer);
        print_separator(printer);
        self.7.pretty_print(printer);
        print_separator(printer);
        self.8.pretty_print(printer);
        print_separator(printer);
        self.9.pretty_print(printer);
        printer.end_group(1, ")");
        proof {
            reveal_strlit("(");
            reveal_strlit(")");
            assert("("@ =~= seq!['(']);
            assert(")"@ =~= seq![')']);
            let s = item_separator();
            let a0 = seq![(LayoutKind::BeginGroup, 1int, seq!['('])];
            lemma_extend_twice(start, a0, self.0.print_layout());
            let a1 = a0 + self.0.print_layout();
            lemma_extend_twice(start, a1, s);
            let a2 = a1 + s;
            lemma_extend_twice(start, a2, self.1.print_layout());
            let a3 = a2 + self.1.print_layout();
            lemma_extend_twice(start, a3, s);
            let a4 = a3 + s;
            lemma_extend_twice(start, a4, self.2.print_layout());
            let a5 = a4 + self.2.print_layout();
            lemma_extend_twice(start, a5, s);
            let a6 = a5 + s;
            lemma_extend_twice(start, a6, self.3.print_layout());
            let a7 = a6 + self.3.print_layout();
            lemma_extend_twice(start, a7, s);
            let a8 = a7 + s;
            lemma_extend_twice(start, a8, self.4.print_layout());
            let a9 = a8 + self.4.print_layout();
            lemma_extend_twice(start, a9, s);
            let a10 = a9 + s;
            lemma_extend_twice(start, a10, self.5.print_layout());
            let a11 = a10 + self.5.print_layout();
            lemma_extend_twice(start, a11, s);
            let a12 = a11 + s;
            lemma_extend_twice(start, a12, self.6.print_layout());
            let a13 = a12 + self.6.print_layout();
            lemma_extend_twice(start, a13, s);
            let a14 = a13 + s;
            lemma_extend_twice(start, a14, self.7.print_layout());
            let a15 = a14 + self.7.print_layout();
            lemma_extend_twice(start, a15, s);
            let a16 = a15 + s;
            lemma_extend_twice(start, a16, self.8.print_layout());
            let a17 = a16 + self.8.print_layout();
            lemma_extend_twice(start, a17, s);
            let a18 = a17 + s;
            lemma_extend_twice(start, a18, self.9.print_layout());
            let a19 = a18 + self.9.print_layout();
            lemma_extend_twice(start, a19, seq![(LayoutKind::EndGroup, 1int, seq![')'])]);
        }
    }
}

impl<A: PrettyPrintable, B: PrettyPrintable, C: PrettyPrintable, D: PrettyPrintable, E: PrettyPrintable, F: PrettyPrintable, G: PrettyPrintable, H: PrettyPrintable, I: PrettyPrintable, J: PrettyPrintable, K: PrettyPrintable> PrettyPrintable for (A, B, C, D, E, F, G, H, I, J, K) {
    open spec fn print_layout(&self) -> Seq<(LayoutKind, int, Seq<char>)> {
        seq![(LayoutKind::BeginGroup, 1int, seq!['('])] + self.0.print_layout() + item_separator() + self.1.print_layout() + item_separator() + self.2.print_layout() + item_separator() + self.3.print_layout() + item_separator() + self.4.print_layout() + item_separator() + self.5.print_layout() + item_separator() + self.6.print_layout() + item_separator() + self.7.print_layout() + item_separator() + self.8.print_layout() + item_separator() + self.9.print_layout() + item_separator() + self.10.print_layout() + seq![
            (LayoutKind::EndGroup, 1int, seq![')']),
        ]
    }

    fn pretty_print(&self, printer: &mut PrettyPrinter) {
        let ghost start = printer.document();
        proof {
            use_type_invariant(&*printer);
            printer.lemma_well_nested();
            lemma_separator_count();
        }
    proof {
        use_type_invariant(&*printer);
        printer.lemma_well_nested();
        lemma_separator_count();
    }
        printer.begin_group(1, "(");
        self.0.pretty_print(printer);
        print_separator(printer);
        self.1.pretty_print(printer);
        print_separator(printer);
        self.2.pretty_print(printer);
        print_separator(printer);
        self.3.pretty_print(printer);
        print_separator(printer);
        self.4.pretty_print(printer);
        print_separator(printer);
        self.5.pretty_print(printer);
        print_separator(printer);
        self.6.pretty_print(printer);
        print_separator(printer);
        self.7.pretty_print(printer);
        print_separator(printer);
        self.8.pretty_print(printer);
        print_separator(printer);
        self.9.pretty_print(printer);
        print_separator(printer);
        self.10.pretty_print(printer);
        printer.end_group(1, ")");
        proof {
            reveal_strlit("(");
            reveal_strlit(")");
            assert("("@ =~= seq!['(']);
            assert(")"@ =~= seq![')']);
            let s = item_separator();
            let a0 = seq![(LayoutKind::BeginGroup, 1int, seq!['('])];
            lemma_extend_twice(start, a0, self.0.print_layout());
            let a1 = a0 + self.0.print_layout();
            lemma_extend_twice(start, a1, s);
            let a2 = a1 + s;
            lemma_extend_twice(start, a2, self.1.print_layout());
            let a3 = a2 + self.1.print_layout();
            lemma_extend_twice(start, a3, s);
            let a4 = a3 + s;
            lemma_extend_twice(start, a4, self.2.print_layout());
            let a5 = a4 + self.2.print_layout();
            lemma_extend_twice(start, a5, s);
            let a6 = a5 + s;
            lemma_extend_twice(start, a6, self.3.print_layout());
            let a7 = a6 + self.3.print_layout();
            lemma_extend_twice(start, a7, s);
            let a8 = a7 + s;
            lemma_extend_twice(start, a8, self.4.print_layout());
            let a9 = a8 + self.4.print_layout();
            lemma_extend_twice(start, a9, s);
            let a10 = a9 + s;
            lemma_extend_twice(start, a10, self.5.print_layout());
            let a11 = a10 + self.5.print_layout();
            lemma_extend_twice(start, a11, s);
            let a12 = a11 + s;
            lemma_extend_twice(start, a12, self.6.print_layout());
            let a13 = a12 + self.6.print_layout();
            lemma_extend_twice(start, a13, s);
            let a14 = a13 + s;
            lemma_extend_twice(start, a14, self.7.print_layout());
            let a15 = a14 + self.7.print_layout();
            lemma_extend_twice(start, a15, s);
            let a16 = a15 + s;
            lemma_extend_twice(start, a16, self.8.print_layout());
            let a17 = a16 + self.8.print_layout();
            lemma_extend_twice(start, a17, s);
            let a18 = a17 + s;
            lemma_extend_twice(start, a18, self.9.print_layout());
            let a19 = a18 + self.9.print_layout();
            lemma_extend_twice(start, a19, s);
            let a20 = a19 + s;
            lemma_extend_twice(start, a20, self.10.print_layout());
            let a21 = a20 + self.10.print_layout();
            lemma_extend_twice(start, a21, seq![(LayoutKind::EndGroup, 1int, seq![')'])]);
        }
    }
}

impl<A: PrettyPrintable, B: PrettyPrintable, C: PrettyPrintable, D: PrettyPrintable, E: PrettyPrintable, F: PrettyPrintable, G: PrettyPrintable, H: PrettyPrintable, I: PrettyPrintable, J: PrettyPrintable, K: PrettyPrintable, L: PrettyPrintable> PrettyPrintable for (A, B, C, D, E, F, G, H, I, J, K, L) {
    open spec fn print_layout(&self) -> Seq<(LayoutKind, int, Seq<char>)> {
        seq![(LayoutKind::BeginGroup, 1int, seq!['('])] + self.0.print_layout() + item_separator() + self.1.print_layout() + item_separator() + self.2.print_layout() + item_separator() + self.3.print_layout() + item_separator() + self.4.print_layout() + item_separator() + self.5.print_layout() + item_separator() + self.6.print_layout() + item_separator() + self.7.print_layout() + item_separator() + self.8.print_layout() + item_separator() + self.9.print_layout() + item_separator() + self.10.print_layout() + item_separator() + self.11.print_layout() + seq![
            (LayoutKind::EndGroup, 1int, seq![')']),
        ]
    }

    fn pretty_print(&self, printer: &mut PrettyPrinter) {
        let ghost start = printer.document();
        proof {
            use_type_invariant(&*printer);
            printer.lemma_well_nested();
            lemma_separator_count();
        }
    proof {
        use_type_invariant(&*printer);
        printer.lemma_well_nested();
        lemma_separator_count();
    }
        printer.begin_group(1, "(");
        self.0.pretty_print(printer);
        print_separator(printer);
        self.1.pretty_print(printer);
        print_separator(printer);
        self.2.pretty_print(printer);
        print_separator(printer);
        self.3.pretty_print(printer);
        print_separator(printer);
        self.4.pretty_print(printer);
        print_separator(printer);
        self.5.pretty_print(printer);
        print_separator(printer);
        self.6.pretty_print(printer);
        print_separator(printer);
        self.7.pretty_print(printer);
        print_separator(printer);
        self.8.pretty_print(printer);
        print_separator(printer);
        self.9.pretty_print(printer);
        print_separator(printer);
        self.10.pretty_print(printer);
        print_separator(printer);
        self.11.pretty_print(printer);
        printer.end_group(1, ")");
        proof {
            reveal_strlit("(");
            reveal_strlit(")");
            assert("("@ =~= seq!['(']);
            assert(")"@ =~= seq![')']);
            let s = item_separator();
            let a0 = seq![(LayoutKind::BeginGroup, 1int, seq!['('])];
            lemma_extend_twice(start, a0, self.0.print_layout());
            let a1 = a0 + self.0.print_layout();
            lemma_extend_twice(start, a1, s);
            let a2 = a1 + s;
            lemma_extend_twice(start, a2, self.1.print_layout());
            let a3 = a2 + self.1.print_layout();
            lemma_extend_twice(start, a3, s);
            let a4 = a3 + s;
            lemma_extend_twice(start, a4, self.2.print_layout());
            let a5 = a4 + self.2.print_layout();
            lemma_extend_twice(start, a5, s);
            let a6 = a5 + s;
            lemma_extend_twice(start, a6, self.3.print_layout());
            let a7 = a6 + self.3.print_layout();
            lemma_extend_twice(start, a7, s);
            let a8 = a7 + s;
            lemma_extend_twice(start, a8, self.4.print_layout());
            let a9 = a8 + self.4.print_layout();
            lemma_extend_twice(start, a9, s);
            let a10 = a9 + s;
            lemma_extend_twice(start, a10, self.5.print_layout());
            let a11 = a10 + self.5.print_layout();
            lemma_extend_twice(start, a11, s);
            let a12 = a11 + s;
            lemma_extend_twice(start, a12, self.6.print_layout());
            let a13 = a12 + self.6.print_layout();
            lemma_extend_twice(start, a13, s);
            let a14 = a13 + s;
            lemma_extend_twice(start, a14, self.7.print_layout());
            let a15 = a14 + self.7.print_layout();
            lemma_extend_twice(start, a15, s);
            let a16 = a15 + s;
            lemma_extend_twice(start, a16, self.8.print_layout());
            let a17 = a16 + self.8.print_layout();
            lemma_extend_twice(start, a17, s);
            let a18 = a17 + s;
            lemma_extend_twice(start, a18, self.9.print_layout());
            let a19 = a18 + self.9.print_layout();
            lemma_extend_twice(start, a19, s);
            let a20 = a19 + s;
            lemma_extend_twice(start, a20, self.10.print_layout());
            let a21 = a20 + self.10.print_layout();
            lemma_extend_twice(start, a21, s);
            let a22 = a21 + s;
            lemma_extend_twice(start, a22, self.11.print_layout());
            let a23 = a22 + self.11.print_layout();
            lemma_extend_twice(start, a23, seq![(LayoutKind::EndGroup, 1int, seq![')'])]);
        }
    }
}

} // verus!
