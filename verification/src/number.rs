use vstd::prelude::*;

verus! {

/// The ASCII character of one decimal digit.
pub open spec fn digit(d: nat) -> u8
    recommends
        d < 10,
{
    (48 + d) as u8
}

/// The decimal digits of `n`, most significant first, without leading zeros.
pub open spec fn decimal(n: nat) -> Seq<u8>
    decreases n,
{
    if n < 10 {
        seq![digit(n)]
    } else {
        decimal(n / 10).push(digit(n % 10))
    }
}

/// The decimal text of `i`: a minus sign if it is negative, then the digits of its magnitude.
pub open spec fn signed_decimal(i: int) -> Seq<u8> {
    if i < 0 {
        seq![45u8] + decimal((-i) as nat)
    } else {
        decimal(i as nat)
    }
}

/// Ten to the power `k`.
pub open spec fn pow10(k: nat) -> nat
    decreases k,
{
    if k == 0 {
        1
    } else {
        10 * pow10((k - 1) as nat)
    }
}

/// Whether `b` is one of the characters `0` to `9`.
pub open spec fn is_digit(b: u8) -> bool {
    48 <= b <= 57
}

/// Whether `s` is the canonical way to write a natural number: digits only, at least one, and no
/// zero in front of another digit.
pub open spec fn is_canonical(s: Seq<u8>) -> bool {
    &&& s.len() >= 1
    &&& forall|i: int| 0 <= i < s.len() ==> is_digit(#[trigger] s[i])
    &&& (s.len() == 1 || s[0] != 48)
}

/// The number that a string of digits stands for.
pub open spec fn decimal_value(s: Seq<u8>) -> nat
    decreases s.len(),
{
    if s.len() == 0 {
        0
    } else {
        (decimal_value(s.drop_last()) * 10 + (s.last() - 48)) as nat
    }
}

/// The integer that a decimal text with an optional minus sign stands for.
pub open spec fn integer_value(s: Seq<u8>) -> int {
    if s.len() > 0 && s[0] == 45 {
        -(decimal_value(s.skip(1)) as int)
    } else {
        decimal_value(s) as int
    }
}

/// The text of a natural number is canonical and stands for that number; only zero starts
/// with the digit zero.
pub proof fn lemma_decimal_canonical(n: nat)
    ensures
        is_canonical(decimal(n)),
        decimal_value(decimal(n)) == n,
        decimal(n)[0] == 48 <==> n == 0,
    decreases n,
{
    if n < 10 {
        let s = decimal(n);
        assert(s.drop_last() =~= Seq::<u8>::empty());
        assert(decimal_value(s.drop_last()) == 0);
    } else {
        lemma_decimal_canonical(n / 10);
        let s = decimal(n);
        let t = decimal(n / 10);
        assert(s.drop_last() =~= t);
        assert(s[0] == t[0]);
        assert forall|i: int| 0 <= i < s.len() implies is_digit(#[trigger] s[i]) by {
            if i < t.len() {
                assert(s[i] == t[i]);
            }
        }
    }
}

/// No other canonical string of digits stands for the same number.
pub proof fn lemma_decimal_unique(s: Seq<u8>)
    requires
        is_canonical(s),
    ensures
        decimal(decimal_value(s)) == s,
    decreases s.len(),
{
    let last = (s.last() - 48) as nat;
    let t = s.drop_last();
    if s.len() == 1 {
        assert(t =~= Seq::<u8>::empty());
        assert(decimal_value(t) == 0);
        assert(decimal(last) =~= s);
    } else {
        assert(is_canonical(t)) by {
            assert forall|i: int| 0 <= i < t.len() implies is_digit(#[trigger] t[i]) by {
                assert(t[i] == s[i]);
            }
            assert(t[0] == s[0]);
        }
        lemma_decimal_unique(t);
        let m = decimal_value(t);
        assert(m >= 1) by {
            lemma_decimal_canonical(m);
            if m == 0 {
                assert(decimal(m)[0] == 48);
                assert(t.len() == 1);
                assert(t[0] == s[0]);
            }
        }
        let n = decimal_value(s);
        assert(n == m * 10 + last);
        assert(n / 10 == m && n % 10 == last);
        assert(decimal(n) =~= s);
    }
}

/// A number has at most `k` digits exactly when it is below `10^k`.
pub proof fn lemma_decimal_len(n: nat, k: nat)
    requires
        k >= 1,
    ensures
        decimal(n).len() >= 1,
        decimal(n).len() <= k <==> n < pow10(k),
    decreases n,
{
    assert(pow10(k) == 10 * pow10((k - 1) as nat));
    assert(pow10(0) == 1);
    if n < 10 {
        lemma_pow10_positive((k - 1) as nat);
    } else {
        if k == 1 {
            lemma_decimal_len(n / 10, 1);
        } else {
            lemma_decimal_len(n / 10, (k - 1) as nat);
        }
    }
}

pub proof fn lemma_pow10_positive(k: nat)
    ensures
        pow10(k) >= 1,
    decreases k,
{
    if k > 0 {
        lemma_pow10_positive((k - 1) as nat);
    }
}

/// The text of an integer stands for that integer, and carries a minus sign exactly when the
/// integer is negative.
pub proof fn lemma_signed_decimal_value(i: int)
    ensures
        integer_value(signed_decimal(i)) == i,
        signed_decimal(i)[0] == 45 <==> i < 0,
        i < 0 ==> signed_decimal(i).skip(1) == decimal((-i) as nat),
        i >= 0 ==> signed_decimal(i) == decimal(i as nat),
{
    if i < 0 {
        let m = (-i) as nat;
        lemma_decimal_canonical(m);
        assert(signed_decimal(i).skip(1) =~= decimal(m));
    } else {
        lemma_decimal_canonical(i as nat);
        assert(is_digit(decimal(i as nat)[0]));
    }
}

/// Splitting off the last digit: what the digit loops do in one round.
pub proof fn lemma_decimal_step(n: nat, tail: Seq<u8>)
    ensures
        n < 10 ==> decimal(n) + tail == seq![digit(n % 10)] + tail,
        n >= 10 ==> decimal(n) + tail == decimal(n / 10) + (seq![digit(n % 10)] + tail),
{
    if n >= 10 {
        assert(decimal(n) + tail =~= decimal(n / 10) + (seq![digit(n % 10)] + tail));
    }
}

/// A number below `10 * 10^k` loses its last digit to a number below `10^k`.
pub proof fn lemma_pow10_step(n: nat, k: nat)
    requires
        n < pow10(k + 1),
    ensures
        n / 10 < pow10(k),
{
    assert(pow10(k + 1) == 10 * pow10(k));
}

/// Writes the digits of `v` into the end of `buf` and returns where they start.
///
/// The longest text, `255`, fills the whole of `buf`.
pub fn write_u8(v: u8, buf: &mut [u8; 3]) -> (start: usize)
    ensures
        start < 3,
        final(buf)@.subrange(start as int, 3) == decimal(v as nat),
        final(buf)@.subrange(0, start as int) == old(buf)@.subrange(0, start as int),
{
    let ghost whole: Seq<u8> = decimal(v as nat);
    let ghost initial: Seq<u8> = buf@;
    let mut v: u8 = v;
    let mut i: usize = 2;
    proof {
        reveal_with_fuel(pow10, 4);
    }
    loop
        invariant_except_break
            i < 3,
            (v as nat) < pow10((i + 1) as nat),
            whole == decimal(v as nat) + buf@.subrange(i + 1, 3),
            buf@.subrange(0, i + 1) == initial.subrange(0, i + 1),
            initial.len() == buf@.len(),
        ensures
            i < 3,
            buf@.subrange(i as int, 3) == whole,
            buf@.subrange(0, i as int) == initial.subrange(0, i as int),
        decreases v,
    {
        proof {
            lemma_decimal_step(v as nat, buf@.subrange(i + 1, 3));
            lemma_pow10_step(v as nat, i as nat);
        }
        let d: u8 = v % 10 + 48;
        let ghost prior: Seq<u8> = buf@;
        buf[i] = d;
        assert(buf@.subrange(i as int, 3) =~= seq![d] + buf@.subrange(i + 1, 3));
        assert(buf@.subrange(0, i as int) =~= prior.subrange(0, i + 1).subrange(0, i as int));
        assert(initial.subrange(0, i + 1).subrange(0, i as int) =~= initial.subrange(0, i as int));
        v = v / 10;
        if v == 0 {
            break ;
        } else {
            i = i - 1;
        }
    }
    i
}

/// Writes the digits of `v` into the end of `buf` and returns where they start.
///
/// The longest text, `65535`, fills the whole of `buf`.
pub fn write_u16(v: u16, buf: &mut [u8; 5]) -> (start: usize)
    ensures
        start < 5,
        final(buf)@.subrange(start as int, 5) == decimal(v as nat),
        final(buf)@.subrange(0, start as int) == old(buf)@.subrange(0, start as int),
{
    let ghost whole: Seq<u8> = decimal(v as nat);
    let ghost initial: Seq<u8> = buf@;
    let mut v: u16 = v;
    let mut i: usize = 4;
    proof {
        reveal_with_fuel(pow10, 6);
    }
    loop
        invariant_except_break
            i < 5,
            (v as nat) < pow10((i + 1) as nat),
            whole == decimal(v as nat) + buf@.subrange(i + 1, 5),
            buf@.subrange(0, i + 1) == initial.subrange(0, i + 1),
            initial.len() == buf@.len(),
        ensures
            i < 5,
            buf@.subrange(i as int, 5) == whole,
            buf@.subrange(0, i as int) == initial.subrange(0, i as int),
        decreases v,
    {
        proof {
            lemma_decimal_step(v as nat, buf@.subrange(i + 1, 5));
            lemma_pow10_step(v as nat, i as nat);
        }
        let d: u8 = (v % 10) as u8 + 48;
        let ghost prior: Seq<u8> = buf@;
        buf[i] = d;
        assert(buf@.subrange(i as int, 5) =~= seq![d] + buf@.subrange(i + 1, 5));
        assert(buf@.subrange(0, i as int) =~= prior.subrange(0, i + 1).subrange(0, i as int));
        assert(initial.subrange(0, i + 1).subrange(0, i as int) =~= initial.subrange(0, i as int));
        v = v / 10;
        if v == 0 {
            break ;
        } else {
            i = i - 1;
        }
    }
    i
}

/// Writes the digits of `v` into the end of `buf` and returns where they start.
///
/// The longest text, `4294967295`, fills the whole of `buf`.
pub fn write_u32(v: u32, buf: &mut [u8; 10]) -> (start: usize)
    ensures
        start < 10,
        final(buf)@.subrange(start as int, 10) == decimal(v as nat),
        final(buf)@.subrange(0, start as int) == old(buf)@.subrange(0, start as int),
{
    let ghost whole: Seq<u8> = decimal(v as nat);
    let ghost initial: Seq<u8> = buf@;
    let mut v: u32 = v;
    let mut i: usize = 9;
    proof {
        reveal_with_fuel(pow10, 11);
    }
    loop
        invariant_except_break
            i < 10,
            (v as nat) < pow10((i + 1) as nat),
            whole == decimal(v as nat) + buf@.subrange(i + 1, 10),
            buf@.subrange(0, i + 1) == initial.subrange(0, i + 1),
            initial.len() == buf@.len(),
        ensures
            i < 10,
            buf@.subrange(i as int, 10) == whole,
            buf@.subrange(0, i as int) == initial.subrange(0, i as int),
        decreases v,
    {
        proof {
            lemma_decimal_step(v as nat, buf@.subrange(i + 1, 10));
            lemma_pow10_step(v as nat, i as nat);
        }
        let d: u8 = (v % 10) as u8 + 48;
        let ghost prior: Seq<u8> = buf@;
        buf[i] = d;
        assert(buf@.subrange(i as int, 10) =~= seq![d] + buf@.subrange(i + 1, 10));
        assert(buf@.subrange(0, i as int) =~= prior.subrange(0, i + 1).subrange(0, i as int));
        assert(initial.subrange(0, i + 1).subrange(0, i as int) =~= initial.subrange(0, i as int));
        v = v / 10;
        if v == 0 {
            break ;
        } else {
            i = i - 1;
        }
    }
    i
}

/// Writes the digits of `v` into the end of `buf` and returns where they start.
///
/// The longest text, `18446744073709551615`, fills the whole of `buf`.
pub fn write_u64(v: u64, buf: &mut [u8; 20]) -> (start: usize)
    ensures
        start < 20,
        final(buf)@.subrange(start as int, 20) == decimal(v as nat),
        final(buf)@.subrange(0, start as int) == old(buf)@.subrange(0, start as int),
{
    let ghost whole: Seq<u8> = decimal(v as nat);
    let ghost initial: Seq<u8> = buf@;
    let mut v: u64 = v;
    let mut i: usize = 19;
    proof {
        reveal_with_fuel(pow10, 21);
    }
    loop
        invariant_except_break
            i < 20,
            (v as nat) < pow10((i + 1) as nat),
            whole == decimal(v as nat) + buf@.subrange(i + 1, 20),
            buf@.subrange(0, i + 1) == initial.subrange(0, i + 1),
            initial.len() == buf@.len(),
        ensures
            i < 20,
            buf@.subrange(i as int, 20) == whole,
            buf@.subrange(0, i as int) == initial.subrange(0, i as int),
        decreases v,
    {
        proof {
            lemma_decimal_step(v as nat, buf@.subrange(i + 1, 20));
            lemma_pow10_step(v as nat, i as nat);
        }
        let d: u8 = (v % 10) as u8 + 48;
        let ghost prior: Seq<u8> = buf@;
        buf[i] = d;
        assert(buf@.subrange(i as int, 20) =~= seq![d] + buf@.subrange(i + 1, 20));
        assert(buf@.subrange(0, i as int) =~= prior.subrange(0, i + 1).subrange(0, i as int));
        assert(initial.subrange(0, i + 1).subrange(0, i as int) =~= initial.subrange(0, i as int));
        v = v / 10;
        if v == 0 {
            break ;
        } else {
            i = i - 1;
        }
    }
    i
}

/// Writes the decimal text of `v`, sign included, into the end of `buf` and returns where it
/// starts.
///
/// The magnitude of the least value has no place in `i8`, so the digits are taken from a `u8`.
/// The longest text, `-128`, fills the whole of `buf`.
pub fn write_i8(v: i8, buf: &mut [u8; 4]) -> (start: usize)
    ensures
        start < 4,
        final(buf)@.subrange(start as int, 4) == signed_decimal(v as int),
        final(buf)@.subrange(0, start as int) == old(buf)@.subrange(0, start as int),
{
    let ghost initial: Seq<u8> = buf@;
    let negative: bool = v < 0;
    let mut m: u8 = if v == i8::MIN {
        (i8::MAX as u8) + 1
    } else if v < 0 {
        (-v) as u8
    } else {
        v as u8
    };
    let ghost digits: Seq<u8> = decimal(m as nat);
    assert(signed_decimal(v as int) == if negative {
        seq![45u8] + digits
    } else {
        digits
    });
    let mut i: usize = 3;
    proof {
        reveal_with_fuel(pow10, 4);
    }
    loop
        invariant_except_break
            1 <= i < 4,
            (m as nat) < pow10(i as nat),
            digits == decimal(m as nat) + buf@.subrange(i + 1, 4),
            buf@.subrange(0, i + 1) == initial.subrange(0, i + 1),
            initial.len() == buf@.len(),
        ensures
            i < 3,
            buf@.subrange(i + 1, 4) == digits,
            buf@.subrange(0, i + 1) == initial.subrange(0, i + 1),
        decreases m,
    {
        proof {
            lemma_decimal_step(m as nat, buf@.subrange(i + 1, 4));
            lemma_pow10_step(m as nat, (i - 1) as nat);
        }
        let d: u8 = m % 10 + 48;
        let ghost prior: Seq<u8> = buf@;
        buf[i] = d;
        assert(buf@.subrange(i as int, 4) =~= seq![d] + buf@.subrange(i + 1, 4));
        assert(buf@.subrange(0, i as int) =~= prior.subrange(0, i + 1).subrange(0, i as int));
        assert(initial.subrange(0, i + 1).subrange(0, i as int) =~= initial.subrange(0, i as int));
        m = m / 10;
        i = i - 1;
        if m == 0 {
            break ;
        }
    }
    if negative {
        let ghost prior: Seq<u8> = buf@;
        buf[i] = 45;
        assert(buf@.subrange(i as int, 4) =~= seq![45u8] + buf@.subrange(i + 1, 4));
        assert(buf@.subrange(0, i as int) =~= prior.subrange(0, i + 1).subrange(0, i as int));
        assert(initial.subrange(0, i + 1).subrange(0, i as int) =~= initial.subrange(0, i as int));
    } else {
        i = i + 1;
    }
    i
}

/// Writes the decimal text of `v`, sign included, into the end of `buf` and returns where it
/// starts.
///
/// The magnitude of the least value has no place in `i16`, so the digits are taken from a `u16`.
/// The longest text, `-32768`, fills the whole of `buf`.
pub fn write_i16(v: i16, buf: &mut [u8; 6]) -> (start: usize)
    ensures
        start < 6,
        final(buf)@.subrange(start as int, 6) == signed_decimal(v as int),
        final(buf)@.subrange(0, start as int) == old(buf)@.subrange(0, start as int),
{
    let ghost initial: Seq<u8> = buf@;
    let negative: bool = v < 0;
    let mut m: u16 = if v == i16::MIN {
        (i16::MAX as u16) + 1
    } else if v < 0 {
        (-v) as u16
    } else {
        v as u16
    };
    let ghost digits: Seq<u8> = decimal(m as nat);
    assert(signed_decimal(v as int) == if negative {
        seq![45u8] + digits
    } else {
        digits
    });
    let mut i: usize = 5;
    proof {
        reveal_with_fuel(pow10, 6);
    }
    loop
        invariant_except_break
            1 <= i < 6,
            (m as nat) < pow10(i as nat),
            digits == decimal(m as nat) + buf@.subrange(i + 1, 6),
            buf@.subrange(0, i + 1) == initial.subrange(0, i + 1),
            initial.len() == buf@.len(),
        ensures
            i < 5,
            buf@.subrange(i + 1, 6) == digits,
            buf@.subrange(0, i + 1) == initial.subrange(0, i + 1),
        decreases m,
    {
        proof {
            lemma_decimal_step(m as nat, buf@.subrange(i + 1, 6));
            lemma_pow10_step(m as nat, (i - 1) as nat);
        }
        let d: u8 = (m % 10) as u8 + 48;
        let ghost prior: Seq<u8> = buf@;
        buf[i] = d;
        assert(buf@.subrange(i as int, 6) =~= seq![d] + buf@.subrange(i + 1, 6));
        assert(buf@.subrange(0, i as int) =~= prior.subrange(0, i + 1).subrange(0, i as int));
        assert(initial.subrange(0, i + 1).subrange(0, i as int) =~= initial.subrange(0, i as int));
        m = m / 10;
        i = i - 1;
        if m == 0 {
            break ;
        }
    }
    if negative {
        let ghost prior: Seq<u8> = buf@;
        buf[i] = 45;
        assert(buf@.subrange(i as int, 6) =~= seq![45u8] + buf@.subrange(i + 1, 6));
        assert(buf@.subrange(0, i as int) =~= prior.subrange(0, i + 1).subrange(0, i as int));
        assert(initial.subrange(0, i + 1).subrange(0, i as int) =~= initial.subrange(0, i as int));
    } else {
        i = i + 1;
    }
    i
}

/// Writes the decimal text of `v`, sign included, into the end of `buf` and returns where it
/// starts.
///
/// The magnitude of the least value has no place in `i32`, so the digits are taken from a `u32`.
/// The longest text, `-2147483648`, fills the whole of `buf`.
pub fn write_i32(v: i32, buf: &mut [u8; 11]) -> (start: usize)
    ensures
        start < 11,
        final(buf)@.subrange(start as int, 11) == signed_decimal(v as int),
        final(buf)@.subrange(0, start as int) == old(buf)@.subrange(0, start as int),
{
    let ghost initial: Seq<u8> = buf@;
    let negative: bool = v < 0;
    let mut m: u32 = if v == i32::MIN {
        (i32::MAX as u32) + 1
    } else if v < 0 {
        (-v) as u32
    } else {
        v as u32
    };
    let ghost digits: Seq<u8> = decimal(m as nat);
    assert(signed_decimal(v as int) == if negative {
        seq![45u8] + digits
    } else {
        digits
    });
    let mut i: usize = 10;
    proof {
        reveal_with_fuel(pow10, 11);
    }
    loop
        invariant_except_break
            1 <= i < 11,
            (m as nat) < pow10(i as nat),
            digits == decimal(m as nat) + buf@.subrange(i + 1, 11),
            buf@.subrange(0, i + 1) == initial.subrange(0, i + 1),
            initial.len() == buf@.len(),
        ensures
            i < 10,
            buf@.subrange(i + 1, 11) == digits,
            buf@.subrange(0, i + 1) == initial.subrange(0, i + 1),
        decreases m,
    {
        proof {
            lemma_decimal_step(m as nat, buf@.subrange(i + 1, 11));
            lemma_pow10_step(m as nat, (i - 1) as nat);
        }
        let d: u8 = (m % 10) as u8 + 48;
        let ghost prior: Seq<u8> = buf@;
        buf[i] = d;
        assert(buf@.subrange(i as int, 11) =~= seq![d] + buf@.subrange(i + 1, 11));
        assert(buf@.subrange(0, i as int) =~= prior.subrange(0, i + 1).subrange(0, i as int));
        assert(initial.subrange(0, i + 1).subrange(0, i as int) =~= initial.subrange(0, i as int));
        m = m / 10;
        i = i - 1;
        if m == 0 {
            break ;
        }
    }
    if negative {
        let ghost prior: Seq<u8> = buf@;
        buf[i] = 45;
        assert(buf@.subrange(i as int, 11) =~= seq![45u8] + buf@.subrange(i + 1, 11));
        assert(buf@.subrange(0, i as int) =~= prior.subrange(0, i + 1).subrange(0, i as int));
        assert(initial.subrange(0, i + 1).subrange(0, i as int) =~= initial.subrange(0, i as int));
    } else {
        i = i + 1;
    }
    i
}

/// Writes the decimal text of `v`, sign included, into the end of `buf` and returns where it
/// starts.
///
/// The magnitude of the least value has no place in `i64`, so the digits are taken from a `u64`.
/// The longest text, `-9223372036854775808`, fills the whole of `buf`.
pub fn write_i64(v: i64, buf: &mut [u8; 20]) -> (start: usize)
    ensures
        start < 20,
        final(buf)@.subrange(start as int, 20) == signed_decimal(v as int),
        final(buf)@.subrange(0, start as int) == old(buf)@.subrange(0, start as int),
{
    let ghost initial: Seq<u8> = buf@;
    let negative: bool = v < 0;
    let mut m: u64 = if v == i64::MIN {
        (i64::MAX as u64) + 1
    } else if v < 0 {
        (-v) as u64
    } else {
        v as u64
    };
    let ghost digits: Seq<u8> = decimal(m as nat);
    assert(signed_decimal(v as int) == if negative {
        seq![45u8] + digits
    } else {
        digits
    });
    let mut i: usize = 19;
    proof {
        reveal_with_fuel(pow10, 20);
    }
    loop
        invariant_except_break
            1 <= i < 20,
            (m as nat) < pow10(i as nat),
            digits == decimal(m as nat) + buf@.subrange(i + 1, 20),
            buf@.subrange(0, i + 1) == initial.subrange(0, i + 1),
            initial.len() == buf@.len(),
        ensures
            i < 19,
            buf@.subrange(i + 1, 20) == digits,
            buf@.subrange(0, i + 1) == initial.subrange(0, i + 1),
        decreases m,
    {
        proof {
            lemma_decimal_step(m as nat, buf@.subrange(i + 1, 20));
            lemma_pow10_step(m as nat, (i - 1) as nat);
        }
        let d: u8 = (m % 10) as u8 + 48;
        let ghost prior: Seq<u8> = buf@;
        buf[i] = d;
        assert(buf@.subrange(i as int, 20) =~= seq![d] + buf@.subrange(i + 1, 20));
        assert(buf@.subrange(0, i as int) =~= prior.subrange(0, i + 1).subrange(0, i as int));
        assert(initial.subrange(0, i + 1).subrange(0, i as int) =~= initial.subrange(0, i as int));
        m = m / 10;
        i = i - 1;
        if m == 0 {
            break ;
        }
    }
    if negative {
        let ghost prior: Seq<u8> = buf@;
        buf[i] = 45;
        assert(buf@.subrange(i as int, 20) =~= seq![45u8] + buf@.subrange(i + 1, 20));
        assert(buf@.subrange(0, i as int) =~= prior.subrange(0, i + 1).subrange(0, i as int));
        assert(initial.subrange(0, i + 1).subrange(0, i as int) =~= initial.subrange(0, i as int));
    } else {
        i = i + 1;
    }
    i
}

} // verus!
