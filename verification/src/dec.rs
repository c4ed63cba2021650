//! Base-10 ASCII rendering and reading of unsigned integers, used by the
//! wire format's length lines and by the millisecond argument of SET.
use vstd::prelude::*;

verus! {

use vstd::arithmetic::div_mod::lemma_fundamental_div_mod;

pub const ZERO_BYTE: u8 = 48;

/// Is `b` an ASCII decimal digit?
pub open spec fn is_digit(b: u8) -> bool {
    48 <= b <= 57
}

/// The value of one ASCII digit.
pub open spec fn digit_val(b: u8) -> nat
    recommends
        is_digit(b),
{
    (b - 48) as nat
}

/// The ASCII digit for a value below ten.
pub open spec fn digit_byte(n: nat) -> u8
    recommends
        n < 10,
{
    (48 + n) as u8
}

/// The base-10 ASCII rendering of `n`, most significant digit first,
/// with no leading zeros.
pub open spec fn dec_of(n: nat) -> Seq<u8>
    decreases n,
{
    if n < 10 {
        seq![digit_byte(n)]
    } else {
        dec_of(n / 10) + seq![digit_byte(n % 10)]
    }
}

/// Every byte of `s` is an ASCII digit.
pub open spec fn all_digits(s: Seq<u8>) -> bool {
    forall|i: int| 0 <= i < s.len() ==> is_digit(#[trigger] s[i])
}

/// `s` is a digit string as `dec_of` writes one: non-empty and without
/// a leading zero (except the single digit `0` itself).
pub open spec fn canon_digits(s: Seq<u8>) -> bool {
    &&& s.len() > 0
    &&& all_digits(s)
    &&& (s.len() > 1 ==> s[0] != ZERO_BYTE)
}

/// The numeric value of a digit string, most significant digit first.
pub open spec fn val_of(s: Seq<u8>) -> nat
    decreases s.len(),
{
    if s.len() == 0 {
        0
    } else {
        val_of(s.drop_last()) * 10 + digit_val(s.last())
    }
}

/// `dec_of` writes only digits and never a leading zero.
pub proof fn lemma_dec_of_canon(n: nat)
    ensures
        canon_digits(dec_of(n)),
        n >= 10 ==> dec_of(n).len() > 1,
        n < 10 ==> dec_of(n) =~= seq![digit_byte(n)],
    decreases n,
{
    if n >= 10 {
        lemma_dec_of_canon(n / 10);
        assert(dec_of(n) == dec_of(n / 10) + seq![digit_byte(n % 10)]);
        assert(dec_of(n)[0] == dec_of(n / 10)[0]);
        if n / 10 >= 10 {
        } else {
            assert(n / 10 >= 1) by {
                lemma_fundamental_div_mod(n as int, 10);
            }
        }
    }
}

/// Reading back what `dec_of` wrote gives the number again.
pub proof fn lemma_val_of_dec_of(n: nat)
    ensures
        val_of(dec_of(n)) == n,
    decreases n,
{
    if n < 10 {
        assert(dec_of(n) =~= seq![digit_byte(n)]);
        assert(val_of(seq![digit_byte(n)]) == digit_val(digit_byte(n))) by {
            reveal_with_fuel(val_of, 2);
            assert(seq![digit_byte(n)].drop_last() =~= Seq::<u8>::empty());
            assert(seq![digit_byte(n)].last() == digit_byte(n));
        }
    } else {
        lemma_val_of_dec_of(n / 10);
        let s = dec_of(n / 10) + seq![digit_byte(n % 10)];
        assert(s.drop_last() =~= dec_of(n / 10));
        assert(s.last() == digit_byte(n % 10));
        lemma_fundamental_div_mod(n as int, 10);
    }
}

/// A digit string that does not start with `0` has a positive value.
pub proof fn lemma_val_of_positive(s: Seq<u8>)
    requires
        s.len() >= 1,
        all_digits(s),
        s[0] != ZERO_BYTE,
    ensures
        val_of(s) >= 1,
    decreases s.len(),
{
    if s.len() > 1 {
        assert(s.drop_last()[0] == s[0]);
        lemma_val_of_positive(s.drop_last());
    }
}

/// `dec_of` is the only way to write a value in canonical form: reading a
/// canonical digit string and rendering the value gives the string back.
pub proof fn lemma_dec_of_val_of(s: Seq<u8>)
    requires
        canon_digits(s),
    ensures
        dec_of(val_of(s)) =~= s,
    decreases s.len(),
{
    if s.len() == 1 {
        assert(val_of(s) == digit_val(s[0])) by {
            reveal_with_fuel(val_of, 2);
            assert(s.drop_last() =~= Seq::<u8>::empty());
            assert(s.last() == s[0]);
        }
        assert(dec_of(digit_val(s[0])) =~= seq![digit_byte(digit_val(s[0]))]);
        assert(digit_byte(digit_val(s[0])) == s[0]);
    } else {
        let front = s.drop_last();
        let d = digit_val(s.last());
        assert(front[0] == s[0]);
        assert(canon_digits(front));
        lemma_dec_of_val_of(front);
        lemma_val_of_positive(front);
        let v = val_of(s);
        assert(v == val_of(front) * 10 + d);
        assert(v >= 10);
        assert(v % 10 == d && v / 10 == val_of(front)) by {
            lemma_fundamental_div_mod(v as int, 10);
            assert(v as int == 10 * (val_of(front) as int) + d as int);
        }
        assert(dec_of(v) == dec_of(val_of(front)) + seq![digit_byte(d)]);
        assert(digit_byte(d) == s.last());
        assert(s =~= front + seq![s.last()]);
    }
}

/// Appending digits never shrinks the value.
pub proof fn lemma_val_of_prefix(s: Seq<u8>, t: Seq<u8>)
    requires
        s.is_prefix_of(t),
    ensures
        val_of(s) <= val_of(t),
    decreases t.len() - s.len(),
{
    if s.len() < t.len() {
        let t1 = t.drop_last();
        assert(s.is_prefix_of(t1));
        lemma_val_of_prefix(s, t1);
        assert(val_of(t) == val_of(t1) * 10 + digit_val(t.last()));
        assert(val_of(t1) * 10 >= val_of(t1)) by (nonlinear_arith);
    } else {
        assert(s =~= t);
    }
}

/// Renders `n` in base 10, most significant digit first.
pub fn u64_to_dec(n: u64) -> (r: Vec<u8>)
    ensures
        r@ =~= dec_of(n as nat),
    decreases n,
{
    if n < 10 {
        let mut v: Vec<u8> = Vec::new();
        v.push(48 + (n as u8));
        v
    } else {
        let mut v = u64_to_dec(n / 10);
        v.push(48 + ((n % 10) as u8));
        v
    }
}

/// Reads a base-10 number, accepting leading zeros, as `str::parse` does
/// for unsigned integers. Returns `None` when `s` is empty, when a byte is
/// not a digit, or when the value does not fit in a `u64`.
pub fn parse_u64(s: &[u8]) -> (r: Option<u64>)
    ensures
        r is Some <==> s@.len() > 0 && all_digits(s@) && val_of(s@) <= u64::MAX,
        r matches Some(v) ==> v as nat == val_of(s@),
{
    if s.len() == 0 {
        return None;
    }
    let mut acc: u64 = 0;
    let mut i: usize = 0;
    while i < s.len()
        invariant
            0 <= i <= s@.len(),
            all_digits(s@.take(i as int)),
            acc as nat == val_of(s@.take(i as int)),
        decreases s@.len() - i,
    {
        let b = s[i];
        if b < 48 || b > 57 {
            assert(!is_digit(s@[i as int]));
            return None;
        }
        let d = (b - 48) as u64;
        proof {
            assert(s@.take(i + 1).drop_last() =~= s@.take(i as int));
            assert(s@.take(i + 1).last() == s@[i as int]);
        }
        if acc > (u64::MAX - d) / 10 {
            proof {
                assert((acc as nat) * 10 + d > u64::MAX) by (nonlinear_arith)
                    requires
                        acc as nat > ((u64::MAX - d) as nat) / 10,
                        d <= 9,
                ;
                lemma_val_of_prefix(s@.take(i + 1), s@);
            }
            return None;
        }
        acc = acc * 10 + d;
        i = i + 1;
    }
    proof {
        assert(s@.take(s@.len() as int) =~= s@);
    }
    Some(acc)
}

} // verus!
