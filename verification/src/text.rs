//! Character-level text utilities: conversions between `String` and
//! `Vec<char>`, and canonical decimal printing and parsing of integers.

use vstd::prelude::*;

verus! {

/// The characters of a string, as a vector.
pub fn string_chars(s: &str) -> (out: Vec<char>)
    ensures
        out@ == s@,
{
    let n = s.unicode_len();
    let mut out: Vec<char> = Vec::new();
    let mut i: usize = 0;
    while i < n
        invariant
            i <= n,
            n == s@.len(),
            out@ == s@.subrange(0, i as int),
        decreases n - i,
    {
        out.push(s.get_char(i));
        proof {
            assert(out@ =~= s@.subrange(0, i + 1 as int));
        }
        i = i + 1;
    }
    proof {
        assert(out@ =~= s@);
    }
    out
}

/// Relies on `String`'s `FromIterator<char>` implementation: collecting
/// characters yields the string of exactly those characters in order.
#[verifier::external_body]
pub fn chars_to_string(v: &Vec<char>) -> (s: String)
    ensures
        s@ == v@,
{
    v.iter().collect()
}

/// The decimal digits of `n`, most significant first.
pub open spec fn digits_of(n: nat) -> Seq<char>
    decreases n,
{
    if n < 10 {
        seq![digit_char_spec(n)]
    } else {
        digits_of(n / 10) + seq![digit_char_spec(n % 10)]
    }
}

/// The character for one decimal digit.
pub open spec fn digit_char_spec(d: nat) -> char {
    ((48 + d) as u8) as char
}

/// Whether `c` is a decimal digit.
pub open spec fn is_digit(c: char) -> bool {
    '0' <= c && c <= '9'
}

/// The numeric value of a digit character.
pub open spec fn digit_val(c: char) -> nat {
    (c as nat - 48) as nat
}

/// The number denoted by a digit string, most significant first.
pub open spec fn val_of(s: Seq<char>) -> nat
    decreases s.len(),
{
    if s.len() == 0 {
        0
    } else {
        val_of(s.drop_last()) * 10 + digit_val(s.last())
    }
}

/// The canonical decimal form of an integer: a minus sign for negative
/// numbers, then digits without a leading zero.
pub open spec fn int_chars(n: int) -> Seq<char> {
    if n < 0 {
        seq!['-'] + digits_of((-n) as nat)
    } else {
        digits_of(n as nat)
    }
}

/// Every digit printed is a digit character, there is at least one, the
/// first is nonzero unless the number is zero, and parsing them restores
/// the number.
pub proof fn lemma_digits_of(n: nat)
    ensures
        digits_of(n).len() >= 1,
        forall|i: int| 0 <= i < digits_of(n).len() ==> is_digit(#[trigger] digits_of(n)[i]),
        val_of(digits_of(n)) == n,
        n > 0 ==> digits_of(n)[0] != '0',
        n < 10 ==> digits_of(n).len() == 1,
    decreases n,
{
    if n < 10 {
        let s = digits_of(n);
        assert(s =~= seq![digit_char_spec(n)]);
        assert(s.drop_last() =~= Seq::<char>::empty());
        assert(val_of(s.drop_last()) == 0);
        assert(s.last() == digit_char_spec(n));
        assert(val_of(s) == val_of(s.drop_last()) * 10 + digit_val(s.last()));
        assert(digit_char_spec(n) as nat == 48 + n);
        assert(digit_val(digit_char_spec(n)) == n);
    } else {
        lemma_digits_of(n / 10);
        let pre = digits_of(n / 10);
        let whole = digits_of(n);
        assert(whole =~= pre + seq![digit_char_spec(n % 10)]);
        assert(whole.drop_last() =~= pre);
        assert(whole.last() == digit_char_spec(n % 10));
        assert(val_of(whole) == val_of(pre) * 10 + digit_val(digit_char_spec(n % 10)));
        assert(digit_val(digit_char_spec(n % 10)) == n % 10);
        assert(val_of(whole) == (n / 10) * 10 + n % 10);
        assert((n / 10) * 10 + n % 10 == n) by (nonlinear_arith);
    }
}

/// A digit string's value only grows as digits are appended.
pub proof fn lemma_val_of_prefix(s: Seq<char>, i: int)
    requires
        0 <= i <= s.len(),
    ensures
        val_of(s.subrange(0, i)) <= val_of(s),
    decreases s.len() - i,
{
    if i < s.len() {
        lemma_val_of_prefix(s, i + 1);
        let a = s.subrange(0, i);
        let b = s.subrange(0, i + 1);
        assert(b.drop_last() =~= a);
        assert(val_of(b) == val_of(a) * 10 + digit_val(b.last()));
        assert(val_of(a) <= val_of(a) * 10) by (nonlinear_arith);
    } else {
        assert(s.subrange(0, i) =~= s);
    }
}

/// One digit character.
fn digit_char(d: u64) -> (c: char)
    requires
        d < 10,
    ensures
        c == digit_char_spec(d as nat),
{
    ((48 + d as u8)) as char
}

/// The decimal digits of `n`, most significant first.
fn digits_u64(n: u64) -> (out: Vec<char>)
    ensures
        out@ == digits_of(n as nat),
    decreases n,
{
    if n < 10 {
        let mut out: Vec<char> = Vec::new();
        out.push(digit_char(n));
        proof {
            assert(out@ =~= seq![digit_char_spec(n as nat)]);
        }
        out
    } else {
        let mut out = digits_u64(n / 10);
        out.push(digit_char(n % 10));
        proof {
            assert(out@ =~= digits_of((n / 10) as nat) + seq![digit_char_spec((n % 10) as nat)]);
        }
        out
    }
}

/// The canonical decimal form of `n`.
pub fn int_to_chars(n: i64) -> (out: Vec<char>)
    ensures
        out@ == int_chars(n as int),
{
    if n >= 0 {
        digits_u64(n as u64)
    } else {
        let m: u64 = (-(n as i128)) as u64;
        let digits = digits_u64(m);
        let mut out: Vec<char> = Vec::new();
        out.push('-');
        let mut i: usize = 0;
        while i < digits.len()
            invariant
                i <= digits@.len(),
                out@ == seq!['-'] + digits@.subrange(0, i as int),
            decreases digits@.len() - i,
        {
            out.push(digits[i]);
            proof {
                assert(out@ =~= seq!['-'] + digits@.subrange(0, i + 1 as int));
            }
            i = i + 1;
        }
        proof {
            assert(digits@.subrange(0, digits@.len() as int) =~= digits@);
            assert(out@ =~= seq!['-'] + digits@);
        }
        out
    }
}

/// Parses a nonempty all-digit string; `None` on any other input or on
/// overflow past `u64::MAX`.
pub fn parse_u64(s: &[char], from: usize, to: usize) -> (r: Option<u64>)
    requires
        from <= to <= s@.len(),
    ensures
        (forall|i: int| from <= i < to ==> is_digit(#[trigger] s@[i])) && from < to && val_of(
            s@.subrange(from as int, to as int),
        ) <= u64::MAX ==> r == Some(val_of(s@.subrange(from as int, to as int)) as u64),
        r is Some ==> (forall|i: int| from <= i < to ==> is_digit(#[trigger] s@[i])) && from < to
            && r->0 as nat == val_of(s@.subrange(from as int, to as int)),
{
    if from >= to {
        return None;
    }
    let mut acc: u64 = 0;
    let mut i: usize = from;
    while i < to
        invariant
            from <= i <= to <= s@.len(),
            forall|j: int| from <= j < i ==> is_digit(#[trigger] s@[j]),
            acc as nat == val_of(s@.subrange(from as int, i as int)),
        decreases to - i,
    {
        let c = s[i];
        if !(c >= '0' && c <= '9') {
            proof {
                if forall|k: int| from <= k < to ==> is_digit(#[trigger] s@[k]) {
                    assert(is_digit(s@[i as int]));
                }
            }
            return None;
        }
        let d: u64 = (c as u32 as u64) - 48;
        proof {
            assert(s@.subrange(from as int, i + 1 as int).drop_last() =~= s@.subrange(
                from as int,
                i as int,
            ));
            assert(s@.subrange(from as int, i + 1 as int).last() == s@[i as int]);
        }
        if acc > (u64::MAX - d) / 10 {
            proof {
                let whole = s@.subrange(from as int, to as int);
                if (forall|k: int| from <= k < to ==> is_digit(#[trigger] s@[k])) && val_of(whole)
                    <= u64::MAX {
                    lemma_val_of_prefix(whole, i + 1 - from);
                    assert(whole.subrange(0, i + 1 - from) =~= s@.subrange(
                        from as int,
                        i + 1 as int,
                    ));
                    assert(val_of(s@.subrange(from as int, i + 1 as int)) <= u64::MAX);
                    assert(acc * 10 + d <= u64::MAX);
                    assert(acc <= (u64::MAX - d) / 10) by (nonlinear_arith)
                        requires acc * 10 + d <= u64::MAX, d < 10;
                }
            }
            return None;
        }
        proof {
            assert(acc * 10 + d <= u64::MAX) by (nonlinear_arith)
                requires acc <= (u64::MAX - d) / 10, d < 10;
        }
        acc = acc * 10 + d;
        i = i + 1;
    }
    Some(acc)
}

} // verus!
