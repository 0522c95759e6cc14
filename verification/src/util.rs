//! Parsing helpers for stored fields: unsigned numbers and sliders.
use vstd::prelude::*;

use crate::Error;
use crate::rhythms::Slider;

verus! {

/// A decimal digit.
pub open spec fn is_digit(c: char) -> bool {
    '0' <= c && c <= '9'
}

/// The value of a decimal digit.
pub open spec fn digit_val(c: char) -> int {
    (c as int) - 48
}

/// The value of a digit string, most significant digit first.
pub open spec fn digits_value(s: Seq<char>) -> int
    decreases s.len(),
{
    if s.len() == 0 {
        0
    } else {
        digits_value(s.drop_last()) * 10 + digit_val(s.last())
    }
}

/// The digit part of a number string: an optional leading plus sign is
/// dropped.
pub open spec fn number_digits(s: Seq<char>) -> Seq<char> {
    if s.len() > 0 && s[0] == '+' {
        s.skip(1)
    } else {
        s
    }
}

/// A well-formed unsigned number: at least one digit, optionally preceded by
/// a plus sign.
pub open spec fn wf_number(s: Seq<char>) -> bool {
    &&& number_digits(s).len() > 0
    &&& forall|i: int| 0 <= i < number_digits(s).len() ==> is_digit(#[trigger] number_digits(s)[i])
}

/// What parsing a `u32` yields: the value of the digits when they are well
/// formed and fit.
pub open spec fn parse_u32_spec(s: Seq<char>) -> Option<u32> {
    if wf_number(s) && digits_value(number_digits(s)) <= u32::MAX {
        Some(digits_value(number_digits(s)) as u32)
    } else {
        None
    }
}

proof fn lemma_digits_value_nonneg(s: Seq<char>)
    requires
        forall|i: int| 0 <= i < s.len() ==> is_digit(#[trigger] s[i]),
    ensures
        digits_value(s) >= 0,
    decreases s.len(),
{
    if s.len() > 0 {
        assert(forall|i: int|
            0 <= i < s.drop_last().len() ==> is_digit(#[trigger] s.drop_last()[i]));
        lemma_digits_value_nonneg(s.drop_last());
    }
}

proof fn lemma_digits_value_monotone(s: Seq<char>, i: int)
    requires
        0 <= i <= s.len(),
        forall|j: int| 0 <= j < s.len() ==> is_digit(#[trigger] s[j]),
    ensures
        digits_value(s) >= digits_value(s.take(i)),
    decreases s.len() - i,
{
    if i == s.len() {
        assert(s.take(i) =~= s);
    } else {
        lemma_digits_value_monotone(s, i + 1);
        assert(s.take(i + 1).drop_last() =~= s.take(i));
        assert(s.take(i + 1).last() == s[i]);
        assert(forall|j: int| 0 <= j < s.take(i).len() ==> is_digit(#[trigger] s.take(i)[j]));
        lemma_digits_value_nonneg(s.take(i));
        assert(digits_value(s.take(i + 1)) == digits_value(s.take(i)) * 10 + digit_val(s[i]));
        assert(digits_value(s.take(i)) * 10 >= digits_value(s.take(i))) by (nonlinear_arith)
            requires
                digits_value(s.take(i)) >= 0,
        ;
    }
}

/// Parses an unsigned 32-bit number: digits, optionally preceded by a plus
/// sign.  Fails exactly when the text is malformed or the value does not
/// fit.
pub fn parse_u32(value: &str) -> (r: Result<u32, Error>)
    ensures
        r is Ok <==> parse_u32_spec(value@) is Some,
        r matches Ok(x) ==> parse_u32_spec(value@) == Some(x),
        r matches Err(e) ==> e is StringErrorXXX,
{
    let len = value.unicode_len();
    let mut start: usize = 0;
    if len > 0 && value.get_char(0) == '+' {
        start = 1;
    }
    let ghost ds = number_digits(value@);
    proof {
        if start == 1 {
            assert(ds =~= value@.skip(1));
        } else {
            assert(ds =~= value@);
        }
    }
    if len == start {
        return Err(parse_error(value));
    }
    let mut acc: u64 = 0;
    let mut i: usize = start;
    while i < len
        invariant
            start <= i <= len,
            len == value@.len(),
            start == 0 || start == 1,
            ds == number_digits(value@),
            ds.len() == len - start,
            forall|j: int| start <= j < i ==> is_digit(#[trigger] value@[j]),
            forall|j: int| 0 <= j < i - start ==> ds[j] == value@[j + start],
            acc <= u32::MAX,
            acc == digits_value(ds.take(i - start)),
        decreases len - i,
    {
        let c = value.get_char(i);
        if !('0' <= c && c <= '9') {
            proof {
                assert(ds[i - start] == value@[i as int]);
                assert(!is_digit(ds[i - start]));
                assert(!wf_number(value@));
            }
            return Err(parse_error(value));
        }
        let d: u64 = (c as u32 - 48) as u64;
        proof {
            assert(ds[i - start] == value@[i as int]);
            assert(ds.take(i - start + 1).drop_last() =~= ds.take(i - start));
            assert(ds.take(i - start + 1).last() == ds[i - start]);
        }
        acc = acc * 10 + d;
        i = i + 1;
        if acc > 0xffff_ffff {
            proof {
                if wf_number(value@) {
                    lemma_digits_value_monotone(ds, i - start);
                }
            }
            return Err(parse_error(value));
        }
    }
    proof {
        assert(ds.take(i - start) =~= ds);
        assert(forall|j: int| 0 <= j < ds.len() ==> is_digit(#[trigger] ds[j]));
    }
    Ok(acc as u32)
}

/// The failure report for an unparseable number.
fn parse_error(value: &str) -> (r: Error)
    ensures
        r is StringErrorXXX,
{
    let mut msg = String::from_str("expected a u32-convertible string, got ");
    msg.append(value);
    Error::StringErrorXXX(msg)
}

/// What parsing a slider yields: two numbers separated by the first comma.
pub open spec fn parse_slider_spec(s: Seq<char>) -> Option<Slider> {
    if !has_comma(s) {
        None
    } else {
        let i = first_comma(s);
        match (parse_u32_spec(s.take(i)), parse_u32_spec(s.skip(i + 1))) {
            (Some(b), Some(a)) => Some(Slider { before: b, after: a }),
            _ => None,
        }
    }
}

/// Whether a comma appears.
pub open spec fn has_comma(s: Seq<char>) -> bool {
    exists|i: int| 0 <= i < s.len() && s[i] == ','
}

/// The least index of a comma.
pub open spec fn first_comma(s: Seq<char>) -> int
    decreases s.len(),
{
    if s.len() == 0 {
        0
    } else if s[0] == ',' {
        0
    } else {
        1 + first_comma(s.skip(1))
    }
}

proof fn lemma_first_comma(s: Seq<char>)
    requires
        has_comma(s),
    ensures
        0 <= first_comma(s) < s.len(),
        s[first_comma(s)] == ',',
        forall|j: int| 0 <= j < first_comma(s) ==> s[j] != ',',
    decreases s.len(),
{
    if s.len() == 0 {
    } else if s[0] == ',' {
    } else {
        assert(has_comma(s.skip(1))) by {
            let i = choose|i: int| 0 <= i < s.len() && s[i] == ',';
            assert(s.skip(1)[i - 1] == ',');
        }
        lemma_first_comma(s.skip(1));
        assert(forall|j: int| 1 <= j < first_comma(s) ==> s[j] == s.skip(1)[j - 1]);
    }
}

/// Parses a slider of the form `before,after`.  Fails exactly when there is
/// no comma or either side is not a 32-bit number.
pub fn parse_slider(value: &str) -> (r: Result<Slider, Error>)
    ensures
        r is Ok <==> parse_slider_spec(value@) is Some,
        r matches Ok(s) ==> parse_slider_spec(value@) == Some(s),
        r matches Err(e) ==> e is StringErrorXXX,
{
    let len = value.unicode_len();
    let mut i: usize = 0;
    while i < len
        invariant
            0 <= i <= len,
            len == value@.len(),
            forall|j: int| 0 <= j < i ==> value@[j] != ',',
        decreases len - i,
    {
        if value.get_char(i) == ',' {
            proof {
                lemma_first_comma(value@);
                assert(first_comma(value@) == i);
            }
            let before = value.substring_char(0, i);
            let after = value.substring_char(i + 1, len);
            proof {
                assert(before@ =~= value@.take(i as int));
                assert(after@ =~= value@.skip(i as int + 1));
            }
            let b = match parse_u32(before) {
                Ok(x) => x,
                Err(e) => {
                    return Err(e);
                },
            };
            let a = match parse_u32(after) {
                Ok(x) => x,
                Err(e) => {
                    return Err(e);
                },
            };
            return Ok(Slider { before: b, after: a });
        }
        i = i + 1;
    }
    proof {
        if has_comma(value@) {
            let j = choose|j: int| 0 <= j < value@.len() && value@[j] == ',';
            assert(false);
        }
    }
    let mut msg = String::from_str("expected a slider, but cannot find the comma ");
    msg.append(value);
    Err(Error::StringErrorXXX(msg))
}

/// The path of a file under a root directory.
pub fn path_relative_to_root(root: &str, path: &str) -> (r: String)
    ensures
        r@ == root@ + "/"@ + path@,
{
    let mut full_path = root.to_owned();
    full_path.append("/");
    full_path.append(path);
    proof {
        assert(full_path@ =~= root@ + "/"@ + path@);
    }
    full_path
}


/// The decimal form of a non-negative number consists of digits and reads
/// back as the number itself.
pub proof fn lemma_dec_str_value(n: int)
    requires
        n >= 0,
    ensures
        forall|i: int|
            0 <= i < crate::strutil::dec_str(n).len() ==> is_digit(
                #[trigger] crate::strutil::dec_str(n)[i],
            ),
        digits_value(crate::strutil::dec_str(n)) == n,
        crate::strutil::dec_str(n).len() >= 1,
        n < 10 ==> crate::strutil::dec_str(n).len() == 1,
        n < 100 ==> crate::strutil::dec_str(n).len() <= 2,
        n < 10000 ==> crate::strutil::dec_str(n).len() <= 4,
    decreases n,
{
    let s = crate::strutil::dec_str(n);
    if n < 10 {
        assert(s.len() == 1);
        assert(digit_val(crate::strutil::digit_char(n)) == n);
        assert(s.drop_last() =~= Seq::<char>::empty());
        assert(digits_value(s) == digits_value(s.drop_last()) * 10 + digit_val(s.last()));
    } else {
        lemma_dec_str_value(n / 10);
        assert(s == crate::strutil::dec_str(n / 10).push(crate::strutil::digit_char(n % 10)));
        assert(s.drop_last() =~= crate::strutil::dec_str(n / 10));
        assert(s.last() == crate::strutil::digit_char(n % 10));
        assert(digit_val(crate::strutil::digit_char(n % 10)) == n % 10);
        assert(digits_value(s) == digits_value(s.drop_last()) * 10 + digit_val(s.last()));
        assert(forall|i: int|
            0 <= i < s.len() - 1 ==> #[trigger] s[i] == crate::strutil::dec_str(n / 10)[i]);
        if n < 100 {
            assert(n / 10 < 10);
        }
        if n < 10000 {
            assert(n / 10 < 1000);
            assert(n / 10 < 1000 ==> crate::strutil::dec_str(n / 10).len() <= 3) by {
                if n / 10 >= 100 {
                    lemma_dec_str_len3(n / 10);
                }
            }
        }
    }
}

proof fn lemma_dec_str_len_lower(n: int)
    requires
        n >= 0,
    ensures
        n >= 10 ==> crate::strutil::dec_str(n).len() >= 2,
        n >= 100 ==> crate::strutil::dec_str(n).len() >= 3,
        n >= 1000 ==> crate::strutil::dec_str(n).len() >= 4,
    decreases n,
{
    if n >= 10 {
        lemma_dec_str_len_lower(n / 10);
        lemma_dec_str_value(n / 10);
        assert(crate::strutil::dec_str(n) == crate::strutil::dec_str(n / 10).push(
            crate::strutil::digit_char(n % 10),
        ));
    }
}

proof fn lemma_dec_str_len3(v: int)
    requires
        100 <= v < 1000,
    ensures
        crate::strutil::dec_str(v).len() == 3,
{
    assert(crate::strutil::dec_str(v) == crate::strutil::dec_str(v / 10).push(
        crate::strutil::digit_char(v % 10),
    ));
    assert(crate::strutil::dec_str(v / 10) == crate::strutil::dec_str(v / 100).push(
        crate::strutil::digit_char((v / 10) % 10),
    ));
    assert(v / 100 < 10);
    assert(crate::strutil::dec_str(v / 100).len() == 1);
}

/// A zero in front changes neither the digits nor the value.
proof fn lemma_prepend_zero(s: Seq<char>)
    ensures
        digits_value(seq!['0'] + s) == digits_value(s),
    decreases s.len(),
{
    let z = seq!['0'] + s;
    if s.len() == 0 {
        assert(z.len() == 1);
        assert(z.drop_last() =~= Seq::<char>::empty());
        assert(z.last() == '0');
        assert(digit_val('0') == 0);
        assert(digits_value(z) == digits_value(z.drop_last()) * 10 + digit_val(z.last()));
    } else {
        assert(z.drop_last() =~= seq!['0'] + s.drop_last());
        assert(z.last() == s.last());
        lemma_prepend_zero(s.drop_last());
        assert(digits_value(z) == digits_value(z.drop_last()) * 10 + digit_val(z.last()));
        assert(digits_value(s) == digits_value(s.drop_last()) * 10 + digit_val(s.last()));
    }
}

/// The zero-padded decimal form of a number below the pad's reach: exactly
/// `width` digit characters reading back as the number.
pub proof fn lemma_dec_str_pad_value(n: int, width: int)
    requires
        0 <= n,
        0 < width <= 4,
        n < (if width == 1 {
            10int
        } else if width == 2 {
            100int
        } else if width == 3 {
            1000int
        } else {
            10000int
        }),
    ensures
        crate::strutil::dec_str_pad(n, width).len() == width,
        forall|i: int|
            0 <= i < width ==> is_digit(#[trigger] crate::strutil::dec_str_pad(n, width)[i]),
        digits_value(crate::strutil::dec_str_pad(n, width)) == n,
    decreases width,
{
    lemma_dec_str_value(n);
    let plain = crate::strutil::dec_str(n);
    if plain.len() >= width {
        assert(plain.len() <= width) by {
            if width == 3 && plain.len() > 3 {
                if n >= 1000 {
                } else if n >= 100 {
                    lemma_dec_str_len3(n);
                }
            }
        }
        assert(crate::strutil::dec_str_pad(n, width) == plain);
    } else {
        lemma_dec_str_len_lower(n);
        assert(n < (if width - 1 == 1 {
            10int
        } else if width - 1 == 2 {
            100int
        } else if width - 1 == 3 {
            1000int
        } else {
            10000int
        }));
        lemma_dec_str_pad_value(n, width - 1);
        let inner = crate::strutil::dec_str_pad(n, width - 1);
        assert(crate::strutil::dec_str_pad(n, width) == seq!['0'] + inner);
        lemma_prepend_zero(inner);
        assert(forall|i: int|
            1 <= i < width ==> (seq!['0'] + inner)[i] == inner[i - 1]);
        assert((seq!['0'] + inner)[0] == '0');
        assert(is_digit('0'));
    }
}

} // verus!

