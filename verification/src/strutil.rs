//! Small verified helpers on strings and numbers that the rest of the
//! library shares: equality and order on character sequences, and decimal
//! formatting of unsigned numbers.
use vstd::prelude::*;

verus! {

/// Equality of two string slices, decided character by character.
pub fn str_eq(a: &str, b: &str) -> (r: bool)
    ensures
        r == (a@ == b@),
{
    let alen = a.unicode_len();
    let blen = b.unicode_len();
    if alen != blen {
        return false;
    }
    let mut i: usize = 0;
    while i < alen
        invariant
            0 <= i <= alen,
            alen == a@.len(),
            alen == b@.len(),
            forall|j: int| 0 <= j < i ==> a@[j] == b@[j],
        decreases alen - i,
    {
        if a.get_char(i) != b.get_char(i) {
            return false;
        }
        i = i + 1;
    }
    proof {
        assert(a@ =~= b@);
    }
    true
}

/// The strict lexicographic order on character sequences, by code point.
pub open spec fn seq_lt(a: Seq<char>, b: Seq<char>) -> bool
    decreases a.len(),
{
    if b.len() == 0 {
        false
    } else if a.len() == 0 {
        true
    } else if a[0] != b[0] {
        (a[0] as int) < (b[0] as int)
    } else {
        seq_lt(a.skip(1), b.skip(1))
    }
}

/// Decides `seq_lt(a@, b@)` on string slices.
pub fn str_lt(a: &str, b: &str) -> (r: bool)
    ensures
        r == seq_lt(a@, b@),
{
    let alen = a.unicode_len();
    let blen = b.unicode_len();
    let mut i: usize = 0;
    proof {
        assert(a@.skip(0) =~= a@);
        assert(b@.skip(0) =~= b@);
    }
    loop
        invariant
            0 <= i,
            i <= alen,
            i <= blen,
            alen == a@.len(),
            blen == b@.len(),
            seq_lt(a@, b@) == seq_lt(a@.skip(i as int), b@.skip(i as int)),
        decreases alen - i,
    {
        if i >= blen {
            proof {
                assert(b@.skip(i as int).len() == 0);
            }
            return false;
        }
        if i >= alen {
            proof {
                assert(a@.skip(i as int).len() == 0);
                assert(b@.skip(i as int).len() > 0);
            }
            return true;
        }
        let ca = a.get_char(i);
        let cb = b.get_char(i);
        proof {
            assert(a@.skip(i as int)[0] == a@[i as int]);
            assert(b@.skip(i as int)[0] == b@[i as int]);
            assert(a@.skip(i as int).skip(1) =~= a@.skip(i as int + 1));
            assert(b@.skip(i as int).skip(1) =~= b@.skip(i as int + 1));
        }
        if ca != cb {
            return (ca as u32) < (cb as u32);
        }
        i = i + 1;
    }
}

/// The decimal digit character of a value below ten.
pub open spec fn digit_char(d: int) -> char {
    if d == 0 {
        '0'
    } else if d == 1 {
        '1'
    } else if d == 2 {
        '2'
    } else if d == 3 {
        '3'
    } else if d == 4 {
        '4'
    } else if d == 5 {
        '5'
    } else if d == 6 {
        '6'
    } else if d == 7 {
        '7'
    } else if d == 8 {
        '8'
    } else {
        '9'
    }
}

/// The decimal form of a non-negative number: no sign, and no leading zero
/// except for zero itself.
pub open spec fn dec_str(n: int) -> Seq<char>
    decreases n,
{
    if n <= 0 {
        seq!['0']
    } else if n < 10 {
        seq![digit_char(n)]
    } else {
        dec_str(n / 10).push(digit_char(n % 10))
    }
}

/// The decimal form of `n`, left-padded with zeros to at least `width`
/// characters.
pub open spec fn dec_str_pad(n: int, width: int) -> Seq<char>
    decreases width,
{
    if dec_str(n).len() >= width {
        dec_str(n)
    } else {
        seq!['0'] + dec_str_pad(n, width - 1)
    }
}

/// The value of a digit list, least significant digit first.
spec fn digits_val(ds: Seq<u64>) -> int
    decreases ds.len(),
{
    if ds.len() == 0 {
        0
    } else {
        ds[0] + 10 * digits_val(ds.skip(1))
    }
}

spec fn pow10(k: nat) -> int
    decreases k,
{
    if k == 0 {
        1
    } else {
        10 * pow10((k - 1) as nat)
    }
}

proof fn lemma_digits_val_push(ds: Seq<u64>, d: u64)
    ensures
        digits_val(ds.push(d)) == digits_val(ds) + d * pow10(ds.len()),
    decreases ds.len(),
{
    if ds.len() == 0 {
        assert(ds.push(d).skip(1) =~= Seq::<u64>::empty());
        assert(ds.push(d)[0] == d);
        assert(digits_val(Seq::<u64>::empty()) == 0);
        assert(digits_val(ds.push(d)) == d + 10 * digits_val(ds.push(d).skip(1)));
        assert(digits_val(ds) == 0);
        assert(d * pow10(0) == d) by (nonlinear_arith)
            requires
                pow10(0) == 1,
        ;
    } else {
        assert(ds.push(d).skip(1) =~= ds.skip(1).push(d));
        lemma_digits_val_push(ds.skip(1), d);
        assert(digits_val(ds.push(d)) == ds[0] + 10 * (digits_val(ds.skip(1)) + d * pow10(
            ds.skip(1).len(),
        )));
        assert(10 * (digits_val(ds.skip(1)) + d * pow10(ds.skip(1).len())) == 10 * digits_val(
            ds.skip(1),
        ) + d * (10 * pow10(ds.skip(1).len()))) by (nonlinear_arith);
        assert(10 * pow10(ds.skip(1).len()) == pow10(ds.len()));
    }
}

proof fn lemma_digits_val_skip(ds: Seq<u64>, i: int)
    requires
        0 <= i < ds.len(),
    ensures
        digits_val(ds.skip(i)) == ds[i] + 10 * digits_val(ds.skip(i + 1)),
{
    assert(ds.skip(i).len() > 0);
    assert(ds.skip(i)[0] == ds[i]);
    assert(ds.skip(i).skip(1) =~= ds.skip(i + 1));
}

proof fn lemma_digits_val_pos(ds: Seq<u64>, i: int)
    requires
        0 <= i < ds.len(),
        ds[ds.len() - 1] > 0,
        forall|j: int| 0 <= j < ds.len() ==> 0 <= #[trigger] ds[j] < 10,
    ensures
        digits_val(ds.skip(i)) > 0,
        digits_val(ds.skip(i)) == ds[i] + 10 * digits_val(ds.skip(i + 1)),
    decreases ds.len() - i,
{
    lemma_digits_val_skip(ds, i);
    if i == ds.len() - 1 {
        assert(ds.skip(i + 1).len() == 0);
    } else {
        lemma_digits_val_pos(ds, i + 1);
    }
}

fn push_digit(s: &mut String, d: u64)
    requires
        d < 10,
    ensures
        final(s)@ == old(s)@.push(digit_char(d as int)),
{
    let ghost orig = s@;
    if d == 0 {
        s.append("0");
        proof {
            reveal_strlit("0");
        }
    } else if d == 1 {
        s.append("1");
        proof {
            reveal_strlit("1");
        }
    } else if d == 2 {
        s.append("2");
        proof {
            reveal_strlit("2");
        }
    } else if d == 3 {
        s.append("3");
        proof {
            reveal_strlit("3");
        }
    } else if d == 4 {
        s.append("4");
        proof {
            reveal_strlit("4");
        }
    } else if d == 5 {
        s.append("5");
        proof {
            reveal_strlit("5");
        }
    } else if d == 6 {
        s.append("6");
        proof {
            reveal_strlit("6");
        }
    } else if d == 7 {
        s.append("7");
        proof {
            reveal_strlit("7");
        }
    } else if d == 8 {
        s.append("8");
        proof {
            reveal_strlit("8");
        }
    } else {
        s.append("9");
        proof {
            reveal_strlit("9");
        }
    }
    proof {
        assert(s@ =~= orig.push(digit_char(d as int)));
    }
}

/// Relies on `String::from` for `char`: the one-character string of `c`.
#[verifier::external_body]
fn char_to_string(c: char) -> (r: String)
    ensures
        r@ == seq![c],
{
    String::from(c)
}

/// Appends one character to a string.
pub fn push_char(out: &mut String, c: char)
    ensures
        final(out)@ == old(out)@.push(c),
{
    let one = char_to_string(c);
    let ghost before = out@;
    out.append(one.as_str());
    proof {
        assert(out@ =~= before.push(c));
    }
}

/// Appends the decimal form of `n` to `out`.
pub fn append_u64(out: &mut String, n: u64)
    ensures
        final(out)@ == old(out)@ + dec_str(n as int),
{
    if n == 0 {
        let ghost orig = out@;
        push_digit(out, 0);
        proof {
            assert(out@ =~= orig + dec_str(0));
        }
        return ;
    }
    // Collect the digits, least significant first.
    let mut digits: Vec<u64> = Vec::new();
    let mut rest: u64 = n;
    while rest > 0
        invariant
            0 <= rest,
            forall|j: int| 0 <= j < digits@.len() ==> 0 <= #[trigger] digits@[j] < 10,
            digits_val(digits@) + rest * pow10(digits@.len()) == n as int,
            pow10(digits@.len()) > 0,
            rest == 0 ==> digits@.len() > 0 && digits@[digits@.len() - 1] > 0,
        decreases rest,
    {
        let d = rest % 10;
        proof {
            lemma_digits_val_push(digits@, d);
            assert(rest * pow10(digits@.len()) == d * pow10(digits@.len()) + (rest / 10) * (10
                * pow10(digits@.len()))) by (nonlinear_arith)
                requires
                    rest >= 0,
                    d == rest % 10,
            ;
            assert(10 * pow10(digits@.len()) == pow10(digits@.len() + 1));
            assert(pow10(digits@.len() + 1) > 0) by (nonlinear_arith)
                requires
                    pow10(digits@.len()) > 0,
                    pow10(digits@.len() + 1) == 10 * pow10(digits@.len()),
            ;
        }
        digits.push(d);
        rest = rest / 10;
    }
    proof {
        assert(rest * pow10(digits@.len()) == 0) by (nonlinear_arith)
            requires
                rest == 0,
        ;
    }
    // Append them most significant first.
    let ghost mid = out@;
    let ghost ds = digits@;
    let mut i: usize = digits.len();
    while i > 0
        invariant
            0 <= i <= ds.len(),
            ds.len() > 0,
            digits@ == ds,
            forall|j: int| 0 <= j < ds.len() ==> 0 <= #[trigger] ds[j] < 10,
            ds[ds.len() - 1] > 0,
            digits_val(ds) == n as int,
            i == ds.len() ==> out@ == mid,
            i < ds.len() ==> out@ == mid + dec_str(digits_val(ds.skip(i as int))),
        decreases i,
    {
        let d = digits[i - 1];
        proof {
            lemma_digits_val_pos(ds, i as int - 1);
            let v = digits_val(ds.skip(i as int - 1));
            if i as int == ds.len() {
                assert(ds.skip(i as int).len() == 0);
                assert(v == d);
                assert(dec_str(v) =~= seq![digit_char(d as int)]);
            } else {
                lemma_digits_val_pos(ds, i as int);
                let v2 = digits_val(ds.skip(i as int));
                assert(v == d + 10 * v2);
                assert(v / 10 == v2 && v % 10 == d) by (nonlinear_arith)
                    requires
                        v == d + 10 * v2,
                        0 <= d < 10,
                        v2 > 0,
                ;
                assert(v >= 10) by (nonlinear_arith)
                    requires
                        v == d + 10 * v2,
                        d >= 0,
                        v2 > 0,
                ;
                assert(dec_str(v) == dec_str(v2).push(digit_char(d as int)));
            }
        }
        push_digit(out, d);
        i = i - 1;
        proof {
            let v = digits_val(ds.skip(i as int));
            assert(out@ =~= mid + dec_str(v));
        }
    }
    proof {
        assert(ds.skip(0) =~= ds);
    }
}

/// Appends the decimal form of `n`, zero-padded to at least `width`
/// characters, to `out`.  `width` is at most four.
pub fn append_u64_pad(out: &mut String, n: u64, width: usize)
    requires
        width <= 4,
    ensures
        final(out)@ == old(out)@ + dec_str_pad(n as int, width as int),
{
    // Measure the unpadded form, then lay down the leading zeros.
    let mut plain = String::new();
    append_u64(&mut plain, n);
    let len = plain.as_str().unicode_len();
    let mut pad: usize = 0;
    if len < width {
        pad = width - len;
    }
    let ghost orig = out@;
    let mut k: usize = 0;
    while k < pad
        invariant
            0 <= k <= pad,
            pad < 4,
            plain@ == dec_str(n as int),
            len == dec_str(n as int).len(),
            pad == if len < width {
                width - len
            } else {
                0
            },
            width <= 4,
            out@ == orig + Seq::<char>::new(k as nat, |j: int| '0'),
        decreases pad - k,
    {
        let ghost before = out@;
        push_digit(out, 0);
        k = k + 1;
        proof {
            assert(out@ =~= orig + Seq::<char>::new(k as nat, |j: int| '0'));
        }
    }
    out.append(plain.as_str());
    proof {
        lemma_pad_shape(n as int, width as int);
        assert(out@ =~= orig + dec_str_pad(n as int, width as int));
    }
}

proof fn lemma_pad_shape(n: int, width: int)
    requires
        0 <= width,
    ensures
        dec_str_pad(n, width).len() >= width,
        dec_str_pad(n, width) == Seq::<char>::new(
            if dec_str(n).len() >= width {
                0
            } else {
                (width - dec_str(n).len()) as nat
            },
            |j: int| '0',
        ) + dec_str(n),
    decreases width,
{
    if dec_str(n).len() >= width {
        assert(dec_str_pad(n, width) =~= Seq::<char>::new(0, |j: int| '0') + dec_str(n));
    } else {
        lemma_pad_shape(n, width - 1);
        assert(dec_str_pad(n, width) =~= Seq::<char>::new(
            (width - dec_str(n).len()) as nat,
            |j: int| '0',
        ) + dec_str(n));
    }
}


/// `seq_lt` never relates a sequence to itself.
pub proof fn lemma_seq_lt_irrefl(a: Seq<char>)
    ensures
        !seq_lt(a, a),
    decreases a.len(),
{
    if a.len() > 0 {
        lemma_seq_lt_irrefl(a.skip(1));
    }
}

/// Two distinct sequences are ordered one way or the other.
pub proof fn lemma_seq_lt_trichotomy(a: Seq<char>, b: Seq<char>)
    ensures
        seq_lt(a, b) || seq_lt(b, a) || a == b,
    decreases a.len(),
{
    if a.len() == 0 && b.len() == 0 {
        assert(a =~= b);
    } else if a.len() == 0 || b.len() == 0 {
    } else if a[0] != b[0] {
    } else {
        lemma_seq_lt_trichotomy(a.skip(1), b.skip(1));
        if a.skip(1) == b.skip(1) {
            assert(a.skip(1).len() == a.len() - 1);
            assert(b.skip(1).len() == b.len() - 1);
            assert forall|i: int| 0 <= i < a.len() implies a[i] == b[i] by {
                if i > 0 {
                    assert(a[i] == a.skip(1)[i - 1]);
                    assert(b[i] == b.skip(1)[i - 1]);
                }
            }
            assert(a =~= b);
        }
    }
}

/// `seq_lt` is transitive.
pub proof fn lemma_seq_lt_trans(a: Seq<char>, b: Seq<char>, c: Seq<char>)
    requires
        seq_lt(a, b),
        seq_lt(b, c),
    ensures
        seq_lt(a, c),
    decreases a.len() + b.len() + c.len(),
{
    if b.len() == 0 {
    } else if c.len() == 0 {
    } else if a.len() == 0 {
    } else {
        if a[0] != b[0] {
            if b[0] != c[0] {
            } else {
            }
        } else if b[0] != c[0] {
        } else {
            lemma_seq_lt_trans(a.skip(1), b.skip(1), c.skip(1));
        }
    }
}

} // verus!

