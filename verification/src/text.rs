//! How values are shown: decimal numbers, and PDF objects rendered as the
//! text a form field displays.

use vstd::prelude::*;
use crate::bridge::{decode_text, lossy_text, text_string, utf8_lossy};
use crate::names::{off_name, spec_off_name};
use crate::object::{Obj, PdfObject, lemma_items_view};

verus! {

/// The character for a decimal digit.
pub open spec fn digit_char(d: int) -> char {
    if d == 0 {
        '0'
    } else if d == 1 {
        '1'
    } else if d == 2 {
        '2'
    } else if d == 3 {
        '3'
    } else if d == 4 {
        '4'
    } else if d == 5 {
        '5'
    } else if d == 6 {
        '6'
    } else if d == 7 {
        '7'
    } else if d == 8 {
        '8'
    } else {
        '9'
    }
}

/// The decimal digits of `n`, most significant first.
pub open spec fn decimal(n: nat) -> Seq<char>
    decreases n,
{
    if n < 10 {
        seq![digit_char(n as int)]
    } else {
        decimal(n / 10).push(digit_char((n % 10) as int))
    }
}

/// The decimal representation of a signed integer.
pub open spec fn integer_text(n: i64) -> Seq<char> {
    if n < 0 {
        seq!['-'] + decimal((-(n as int)) as nat)
    } else {
        decimal(n as nat)
    }
}

/// The text of the digit `d`.
fn digit_text(d: u64) -> (r: &'static str)
    requires
        d < 10,
    ensures
        r@ == seq![digit_char(d as int)],
{
    proof {
        reveal_strlit("0");
        reveal_strlit("1");
        reveal_strlit("2");
        reveal_strlit("3");
        reveal_strlit("4");
        reveal_strlit("5");
        reveal_strlit("6");
        reveal_strlit("7");
        reveal_strlit("8");
        reveal_strlit("9");
    }
    if d == 0 {
        "0"
    } else if d == 1 {
        "1"
    } else if d == 2 {
        "2"
    } else if d == 3 {
        "3"
    } else if d == 4 {
        "4"
    } else if d == 5 {
        "5"
    } else if d == 6 {
        "6"
    } else if d == 7 {
        "7"
    } else if d == 8 {
        "8"
    } else {
        "9"
    }
}

/// `n` in decimal.
pub fn decimal_string(n: u64) -> (r: String)
    ensures
        r@ == decimal(n as nat),
    decreases n,
{
    if n < 10 {
        let r = String::from_str(digit_text(n));
        assert(r@ =~= decimal(n as nat));
        r
    } else {
        let mut r = decimal_string(n / 10);
        r.append(digit_text(n % 10));
        assert(r@ =~= decimal(n as nat));
        r
    }
}

/// `n` in decimal, with a minus sign when it is negative.
pub fn integer_string(n: i64) -> (r: String)
    ensures
        r@ == integer_text(n),
{
    if n < 0 {
        let magnitude: u64 = if n == i64::MIN {
            9223372036854775808u64
        } else {
            (-n) as u64
        };
        let mut s = String::from_str("-");
        proof {
            reveal_strlit("-");
        }
        let digits = decimal_string(magnitude);
        s.append(digits.as_str());
        assert(s@ =~= integer_text(n));
        s
    } else {
        decimal_string(n as u64)
    }
}

/// The text of a boolean.
pub open spec fn bool_text(b: bool) -> Seq<char> {
    if b {
        seq!['t', 'r', 'u', 'e']
    } else {
        seq!['f', 'a', 'l', 's', 'e']
    }
}

/// An object rendered for display: a name as its UTF-8 text, a string as
/// its decoded text (nothing for no bytes), a number in decimal, an array as its items joined by
/// ", ", anything else as nothing.
pub open spec fn display(o: Obj) -> Seq<char>
    decreases o,
{
    match o {
        Obj::Name(n) => utf8_lossy(n),
        Obj::Str(bytes, _) => if bytes.len() == 0 {
            Seq::empty()
        } else {
            match text_string(bytes) {
                Some(t) => t,
                None => Seq::empty(),
            }
        },
        Obj::Integer(n) => integer_text(n),
        Obj::Real(t) => t,
        Obj::Boolean(b) => bool_text(b),
        Obj::Array(items) => display_items(items, items.len() as int),
        _ => Seq::empty(),
    }
}

/// The first `n` items rendered and joined by ", ".
pub open spec fn display_items(items: Seq<Obj>, n: int) -> Seq<char>
    decreases items, n,
{
    if n <= 0 || n > items.len() {
        Seq::empty()
    } else if n == 1 {
        display(items[0])
    } else {
        display_items(items, n - 1) + seq![',', ' '] + display(items[n - 1])
    }
}

/// A field value rendered for display, nothing when there is none.
pub open spec fn display_opt(o: Option<Obj>) -> Seq<char> {
    match o {
        Some(v) => display(v),
        None => Seq::empty(),
    }
}

/// Whether a value counts as empty: null, the name /Off, an empty string or
/// an empty array.
pub open spec fn is_empty_value(o: Obj) -> bool {
    match o {
        Obj::Null => true,
        Obj::Name(n) => n == spec_off_name(),
        Obj::Str(bytes, _) => bytes.len() == 0,
        Obj::Array(items) => items.len() == 0,
        _ => false,
    }
}

/// An object rendered for display.
#[verifier::loop_isolation(false)]
pub fn display_value(obj: &PdfObject) -> (r: String)
    ensures
        r@ == display(obj@),
    decreases obj,
{
    match obj {
        PdfObject::Name(n) => lossy_text(n.as_slice()),
        PdfObject::Str(bytes, _) => if bytes.len() == 0 {
            String::new()
        } else {
            match decode_text(bytes.as_slice()) {
                Some(t) => t,
                None => String::new(),
            }
        },
        PdfObject::Integer(n) => integer_string(*n),
        PdfObject::Real(t) => t.clone(),
        PdfObject::Boolean(b) => {
            let s = if *b {
                String::from_str("true")
            } else {
                String::from_str("false")
            };
            proof {
                reveal_strlit("true");
                reveal_strlit("false");
            }
            assert(s@ =~= bool_text(*b));
            s
        },
        PdfObject::Array(items) => {
            proof {
                lemma_items_view(items@);
            }
            let ghost view = obj@->Array_0;
            let mut out = String::new();
            let sep = String::from_str(", ");
            proof {
                reveal_strlit(", ");
            }
            let mut i: usize = 0;
            while i < items.len()
                invariant
                    i <= items@.len(),
                    view.len() == items@.len(),
                    out@ == display_items(view, i as int),
                decreases items@.len() - i,
            {
                proof {
                    assert(decreases_to!(*obj => obj->Array_0));
                    assert(decreases_to!(*items => items[i as int]));
                }
                let text = display_value(&items[i]);
                if i > 0 {
                    out.append(sep.as_str());
                }
                out.append(text.as_str());
                i += 1;
                assert(out@ =~= display_items(view, i as int));
            }
            out
        },
        _ => String::new(),
    }
}

/// Whether a value counts as empty.
pub fn value_is_empty(obj: &PdfObject) -> (r: bool)
    ensures
        r == is_empty_value(obj@),
{
    proof {
        if let PdfObject::Array(items) = obj {
            lemma_items_view(items@);
        }
    }
    match obj {
        PdfObject::Null => true,
        PdfObject::Name(n) => crate::object::bytes_equal(n.as_slice(), off_name().as_slice()),
        PdfObject::Str(bytes, _) => bytes.len() == 0,
        PdfObject::Array(items) => items.len() == 0,
        _ => false,
    }
}

/// Whether two strings hold the same characters.
pub fn same_text(a: &String, b: &String) -> (r: bool)
    ensures
        r == (a@ == b@),
{
    a.eq(b)
}

} // verus!
