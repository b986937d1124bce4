//! Object ids as text, `"num gen"`: the handle a field is named by.

use vstd::prelude::*;
use crate::object::ObjectId;
use crate::text::{decimal, decimal_string, digit_char};

verus! {

/// The text of an object id: its number, a space, its generation.
pub open spec fn id_text(id: ObjectId) -> Seq<char> {
    decimal(id.0 as nat) + seq![' '] + decimal(id.1 as nat)
}

/// Whether `c` is an ASCII decimal digit.
pub open spec fn is_digit(c: char) -> bool {
    '0' <= c <= '9'
}

/// The value of a digit character.
pub open spec fn digit_value(c: char) -> nat {
    (c as int - '0' as int) as nat
}

/// The value of a string of digits.
pub open spec fn digits_value(s: Seq<char>) -> nat
    decreases s.len(),
{
    if s.len() == 0 {
        0
    } else {
        digits_value(s.drop_last()) * 10 + digit_value(s.last())
    }
}

pub open spec fn all_digits(s: Seq<char>) -> bool {
    forall|i: int| 0 <= i < s.len() ==> is_digit(#[trigger] s[i])
}

/// An unsigned decimal number as `str::parse` reads it: an optional `+`,
/// then one or more ASCII digits.
pub open spec fn parse_unsigned(s: Seq<char>) -> Option<nat> {
    let digits = if s.len() > 1 && s[0] == '+' {
        s.skip(1)
    } else {
        s
    };
    if digits.len() > 0 && all_digits(digits) {
        Some(digits_value(digits))
    } else {
        None
    }
}

/// Whether `i` is the position of the first space in `s`.
pub open spec fn is_first_space(s: Seq<char>, i: int) -> bool {
    &&& 0 <= i < s.len()
    &&& s[i] == ' '
    &&& forall|j: int| 0 <= j < i ==> s[j] != ' '
}

/// The id that `decode_id` reads out of `s`: the text before the first space
/// and the text after it, each a number in range.
pub open spec fn spec_decode_id(s: Seq<char>) -> Option<ObjectId> {
    if exists|i: int| is_first_space(s, i) {
        let i = choose|i: int| is_first_space(s, i);
        match (parse_unsigned(s.take(i)), parse_unsigned(s.skip(i + 1))) {
            (Some(a), Some(b)) => if a <= u32::MAX && b <= u16::MAX {
                Some((a as u32, b as u16))
            } else {
                None
            },
            _ => None,
        }
    } else {
        None
    }
}

/// Render an object id as `"num gen"`.
pub fn encode_id(id: ObjectId) -> (r: String)
    ensures
        r@ == id_text(id),
{
    let mut s = decimal_string(id.0 as u64);
    s.append(" ");
    let generation = decimal_string(id.1 as u64);
    s.append(generation.as_str());
    proof {
        reveal_strlit(" ");
    }
    assert(s@ =~= id_text(id));
    s
}

/// Read a number of at most `max` out of `chars[from..to]`, as `str::parse`
/// reads it.
fn parse_number(chars: &Vec<char>, from: usize, to: usize, max: u64) -> (r: Option<u64>)
    requires
        from <= to <= chars@.len(),
        max <= u32::MAX,
    ensures
        match parse_unsigned(chars@.subrange(from as int, to as int)) {
            Some(v) => if v <= max {
                r == Some(v as u64)
            } else {
                r is None
            },
            None => r is None,
        },
{
    let ghost s = chars@.subrange(from as int, to as int);
    let mut start = from;
    if to - from > 1 && chars[from] == '+' {
        start = from + 1;
        assert(s.skip(1) =~= chars@.subrange(start as int, to as int));
    } else {
        assert(s =~= chars@.subrange(start as int, to as int));
    }
    let ghost digits = chars@.subrange(start as int, to as int);
    if start == to {
        return None;
    }
    let mut value: u64 = 0;
    let mut i = start;
    while i < to
        invariant
            start <= i <= to <= chars@.len(),
            digits == chars@.subrange(start as int, to as int),
            digits.len() > 0,
            parse_unsigned(chars@.subrange(from as int, to as int)) == (if all_digits(digits) {
                Some(digits_value(digits))
            } else {
                None::<nat>
            }),
            all_digits(chars@.subrange(start as int, i as int)),
            value == digits_value(chars@.subrange(start as int, i as int)),
            value <= max,
            max <= u32::MAX,
        decreases to - i,
    {
        let c = chars[i];
        if !('0' <= c && c <= '9') {
            assert(!is_digit(digits[i - start]));
            return None;
        }
        let d = (c as u32 - '0' as u32) as u64;
        let next = value * 10 + d;
        proof {
            let prefix = chars@.subrange(start as int, i + 1);
            assert(prefix.drop_last() =~= chars@.subrange(start as int, i as int));
            assert(all_digits(prefix));
        }
        if next > max {
            proof {
                lemma_digits_value_grows(digits, i + 1 - start);
                assert(digits.subrange(0, i + 1 - start) =~= chars@.subrange(start as int, i + 1));
            }
            return None;
        }
        value = next;
        i += 1;
    }
    assert(digits =~= chars@.subrange(start as int, i as int));
    Some(value)
}

/// The value of a digit string is at least that of any prefix of it.
proof fn lemma_digits_value_grows(s: Seq<char>, k: int)
    requires
        0 <= k <= s.len(),
    ensures
        digits_value(s.subrange(0, k)) <= digits_value(s),
    decreases s.len() - k,
{
    if k < s.len() {
        lemma_digits_value_grows(s, k + 1);
        let longer = s.subrange(0, k + 1);
        assert(longer.drop_last() =~= s.subrange(0, k));
    } else {
        assert(s.subrange(0, k) =~= s);
    }
}

/// Read an object id out of `"num gen"`: the text before the first space and
/// the text after it must each be a number in range.
pub fn decode_id(text: &str) -> (r: Option<ObjectId>)
    ensures
        r == spec_decode_id(text@),
{
    let n = text.unicode_len();
    let mut chars: Vec<char> = Vec::new();
    let mut k: usize = 0;
    while k < n
        invariant
            n == text@.len(),
            k <= n,
            chars@ == text@.subrange(0, k as int),
        decreases n - k,
    {
        chars.push(text.get_char(k));
        k += 1;
        assert(chars@ =~= text@.subrange(0, k as int));
    }
    assert(chars@ =~= text@);
    let mut i: usize = 0;
    while i < chars.len()
        invariant
            i <= chars@.len(),
            chars@ == text@,
            forall|j: int| 0 <= j < i ==> chars@[j] != ' ',
        decreases chars@.len() - i,
    {
        if chars[i] == ' ' {
            proof {
                assert(is_first_space(text@, i as int));
                lemma_first_space_unique(text@, i as int);
                assert(text@.take(i as int) =~= chars@.subrange(0, i as int));
                assert(text@.skip(i + 1) =~= chars@.subrange(i + 1, chars@.len() as int));
            }
            let num = parse_number(&chars, 0, i, 4294967295u64);
            let generation = parse_number(&chars, i + 1, chars.len(), 65535u64);
            return match (num, generation) {
                (Some(a), Some(b)) => Some((a as u32, b as u16)),
                _ => None,
            };
        }
        i += 1;
    }
    assert forall|j: int| !is_first_space(text@, j) by {
        if is_first_space(text@, j) {
            assert(chars@[j] == ' ');
        }
    }
    None
}

/// Why a selection of field ids sent to a reset cannot be used.
#[derive(Debug)]
pub enum SelectionError {
    /// This text is not an object id.
    NotAFieldId(String),
    /// No field was selected.
    NothingSelected,
}

impl SelectionError {
    /// What went wrong, in words.
    pub fn message(&self) -> (r: String)
        ensures
            self matches SelectionError::NotAFieldId(id) ==> r@ == "not a field id: "@ + id@,
            self is NothingSelected ==> r@ == "nothing selected"@,
    {
        match self {
            SelectionError::NotAFieldId(id) => {
                let mut s = String::from_str("not a field id: ");
                s.append(id.as_str());
                s
            },
            SelectionError::NothingSelected => String::from_str("nothing selected"),
        }
    }
}

/// Read the ids of a selection of fields, each written `"num gen"`: the
/// first text that is not an id is refused, and so is an empty selection.
pub fn decode_selection(field_ids: &Vec<String>) -> (r: Result<Vec<ObjectId>, SelectionError>)
    ensures
        match r {
            Ok(ids) => {
                &&& field_ids@.len() > 0
                &&& ids@.len() == field_ids@.len()
                &&& forall|i: int|
                    0 <= i < ids@.len() ==> spec_decode_id(#[trigger] field_ids@[i]@) == Some(
                        ids@[i],
                    )
            },
            Err(SelectionError::NotAFieldId(text)) => exists|k: int|
                0 <= k < field_ids@.len() && text@ == field_ids@[k]@ && spec_decode_id(
                    #[trigger] field_ids@[k]@,
                ) is None && forall|i: int|
                    0 <= i < k ==> spec_decode_id(#[trigger] field_ids@[i]@) is Some,
            Err(SelectionError::NothingSelected) => field_ids@.len() == 0,
        },
{
    let mut ids: Vec<ObjectId> = Vec::new();
    let mut k: usize = 0;
    while k < field_ids.len()
        invariant
            k <= field_ids@.len(),
            ids@.len() == k,
            forall|i: int|
                0 <= i < k ==> spec_decode_id(#[trigger] field_ids@[i]@) == Some(ids@[i]),
        decreases field_ids@.len() - k,
    {
        match decode_id(field_ids[k].as_str()) {
            Some(id) => ids.push(id),
            None => {
                return Err(SelectionError::NotAFieldId(field_ids[k].clone()));
            },
        }
        k += 1;
    }
    if ids.len() == 0 {
        return Err(SelectionError::NothingSelected);
    }
    Ok(ids)
}

proof fn lemma_first_space_unique(s: Seq<char>, i: int)
    requires
        is_first_space(s, i),
    ensures
        (choose|j: int| is_first_space(s, j)) == i,
{
    let j = choose|j: int| is_first_space(s, j);
    assert(is_first_space(s, j));
    if j < i {
        assert(s[j] != ' ');
    }
    if i < j {
        assert(s[i] != ' ');
    }
}

/// The digit characters and their values.
pub proof fn lemma_digit_char(d: int)
    requires
        0 <= d < 10,
    ensures
        is_digit(digit_char(d)),
        digit_value(digit_char(d)) == d,
{
    if d == 0 {
    } else if d == 1 {
    } else if d == 2 {
    } else if d == 3 {
    } else if d == 4 {
    } else if d == 5 {
    } else if d == 6 {
    } else if d == 7 {
    } else if d == 8 {
    } else {
    }
}

/// `decimal(n)` is a non-empty string of digits whose value is `n`.
pub proof fn lemma_decimal_digits(n: nat)
    ensures
        decimal(n).len() > 0,
        all_digits(decimal(n)),
        digits_value(decimal(n)) == n,
    decreases n,
{
    lemma_digit_char((n % 10) as int);
    if n < 10 {
        let s = decimal(n);
        assert(s.drop_last() =~= Seq::<char>::empty());
        assert(digits_value(s) == digits_value(s.drop_last()) * 10 + digit_value(s.last()));
        assert(n % 10 == n);
    }
    if n >= 10 {
        lemma_decimal_digits(n / 10);
        let s = decimal(n);
        assert(s.drop_last() =~= decimal(n / 10));
        assert(s.last() == digit_char((n % 10) as int));
        assert(n == (n / 10) * 10 + n % 10) by (nonlinear_arith);
        assert(digits_value(s) == digits_value(s.drop_last()) * 10 + digit_value(s.last()));
        assert forall|i: int| 0 <= i < s.len() implies is_digit(#[trigger] s[i]) by {
            if i < s.len() - 1 {
                assert(s[i] == decimal(n / 10)[i]);
            }
        }
    }
}

/// Reading back the text of an id gives the id: `decode_id(encode_id(id))`
/// is `Some(id)` for every object id.
pub proof fn lemma_decode_encode_id(id: ObjectId)
    ensures
        spec_decode_id(id_text(id)) == Some(id),
{
    let a = decimal(id.0 as nat);
    let b = decimal(id.1 as nat);
    let s = id_text(id);
    lemma_decimal_digits(id.0 as nat);
    lemma_decimal_digits(id.1 as nat);
    let i = a.len() as int;
    assert(s[i] == ' ');
    assert forall|j: int| 0 <= j < i implies s[j] != ' ' by {
        assert(s[j] == a[j]);
        assert(is_digit(a[j]));
    }
    assert(is_first_space(s, i));
    lemma_first_space_unique(s, i);
    assert(s.take(i) =~= a);
    assert(s.skip(i + 1) =~= b);
    assert(is_digit(a[0]));
    assert(is_digit(b[0]));
}

} // verus!
