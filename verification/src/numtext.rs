//! Decimal text for integers, and a recognizer for floating-point
//! literal shape. Integers parse and render in decimal; a fragment
//! that has the shape of a float literal is recognized only so that it
//! can be rejected, floats being unsupported.

use vstd::prelude::*;
use vstd::seq_lib::*;
use vstd::string::*;
use crate::chars::{eq_ic, range_eq_ic_str};

verus! {

/// Whether `c` is an ASCII decimal digit.
pub open spec fn is_digit(c: char) -> bool {
    48 <= (c as u32) && (c as u32) <= 57
}

/// The numeric value of a digit character.
pub open spec fn digit_val(c: char) -> int {
    (c as u32) - 48
}

/// The digit character for a value in `0..10`.
pub open spec fn digit_char(d: int) -> char {
    if d == 0 {
        '0'
    } else if d == 1 {
        '1'
    } else if d == 2 {
        '2'
    } else if d == 3 {
        '3'
    } else if d == 4 {
        '4'
    } else if d == 5 {
        '5'
    } else if d == 6 {
        '6'
    } else if d == 7 {
        '7'
    } else if d == 8 {
        '8'
    } else {
        '9'
    }
}

/// The decimal digits of `n`, most significant first.
pub open spec fn dec_digits(n: nat) -> Seq<char>
    decreases n,
{
    if n < 10 {
        seq![digit_char(n as int)]
    } else {
        dec_digits(n / 10).push(digit_char((n % 10) as int))
    }
}

/// The decimal text of a (possibly negative) integer.
pub open spec fn render_int(n: int) -> Seq<char> {
    if n < 0 {
        seq!['-'] + dec_digits((-n) as nat)
    } else {
        dec_digits(n as nat)
    }
}

/// Whether every character of `s` is a decimal digit.
pub open spec fn all_digits(s: Seq<char>) -> bool {
    forall|i: int| 0 <= i < s.len() ==> is_digit(s[i])
}

/// The value of a digit string, most significant first.
pub open spec fn digits_val(s: Seq<char>) -> int
    decreases s.len(),
{
    if s.len() == 0 {
        0
    } else {
        digits_val(s.drop_last()) * 10 + digit_val(s.last())
    }
}

/// The value denoted when `s` is a signed 32-bit decimal integer
/// literal (optional `+` or `-` sign, one or more digits, value in
/// range), and `None` otherwise — the acceptance of `parse::<i32>`.
pub open spec fn int_lit(s: Seq<char>) -> Option<int> {
    let signed = s.len() >= 1 && (s[0] == '+' || s[0] == '-');
    let body = if signed {
        s.subrange(1, s.len() as int)
    } else {
        s
    };
    if body.len() >= 1 && all_digits(body) {
        let m = digits_val(body);
        let v = if s.len() >= 1 && s[0] == '-' {
            -m
        } else {
            m
        };
        if -0x8000_0000 <= v && v < 0x8000_0000 {
            Some(v)
        } else {
            None
        }
    } else {
        None
    }
}

/// A digit string is nonnegative.
pub proof fn lemma_digits_val_nonneg(s: Seq<char>)
    requires
        all_digits(s),
    ensures
        digits_val(s) >= 0,
    decreases s.len(),
{
    if s.len() > 0 {
        assert(forall|i: int| 0 <= i < s.drop_last().len() ==> s.drop_last()[i] == s[i]);
        lemma_digits_val_nonneg(s.drop_last());
    }
}

/// The digits of `n` are digits, at least one of them, and they denote
/// `n`; and the first one is `0` only when `n` is zero.
pub proof fn lemma_dec_digits(n: nat)
    ensures
        dec_digits(n).len() >= 1,
        all_digits(dec_digits(n)),
        digits_val(dec_digits(n)) == n,
        dec_digits(n)[0] == '0' <==> n == 0,
    decreases n,
{
    if n < 10 {
        let one = seq![digit_char(n as int)];
        assert(dec_digits(n) =~= one);
        assert(one.drop_last() =~= Seq::<char>::empty());
        assert(digits_val(Seq::<char>::empty()) == 0);
        assert(digits_val(one) == digits_val(one.drop_last()) * 10 + digit_val(one.last()));
        assert(one.last() == digit_char(n as int));
        assert(digit_val(digit_char(n as int)) == n);
    } else {
        lemma_dec_digits(n / 10);
        let d = dec_digits(n / 10);
        let whole = d.push(digit_char((n % 10) as int));
        assert(whole.drop_last() =~= d);
        assert(whole[0] == d[0]);
        vstd::arithmetic::div_mod::lemma_fundamental_div_mod(n as int, 10);
        assert(digit_val(digit_char((n % 10) as int)) == n % 10);
        assert(digits_val(whole) == digits_val(d) * 10 + digit_val(whole.last()));
        assert(dec_digits(n) == whole);
        assert(digit_val(whole.last()) == n % 10);
        assert((n / 10) * 10 + (n % 10) == n);
    }
}

/// Round trip for integers: the decimal text of an in-range value
/// parses back to that value.
pub proof fn lemma_int_round_trip(n: int)
    requires
        -0x8000_0000 <= n < 0x8000_0000,
    ensures
        int_lit(render_int(n)) == Some(n),
{
    if n < 0 {
        let s = seq!['-'] + dec_digits((-n) as nat);
        lemma_dec_digits((-n) as nat);
        assert(s[0] == '-');
        assert(s.subrange(1, s.len() as int) =~= dec_digits((-n) as nat));
    } else {
        lemma_dec_digits(n as nat);
        let s = dec_digits(n as nat);
        assert(is_digit(s[0]));
        assert(s[0] != '+' && s[0] != '-');
    }
}

/// An accepted integer literal starts with a digit or a sign.
pub proof fn lemma_int_lit_first(s: Seq<char>)
    requires
        int_lit(s) is Some,
    ensures
        s.len() >= 1,
        is_digit(s[0]) || s[0] == '+' || s[0] == '-',
{
    if !(s.len() >= 1 && (s[0] == '+' || s[0] == '-')) {
        assert(is_digit(s[0]));
    }
}

/// Parses the subrange `[a, b)` of `v` as a signed 32-bit decimal
/// integer, accepting exactly what [`int_lit`] accepts.
#[verifier::loop_isolation(false)]
pub fn parse_i32_range(v: &Vec<char>, a: usize, b: usize) -> (r: Option<i32>)
    requires
        a <= b <= v@.len(),
    ensures
        match r {
            Option::Some(x) => int_lit(v@.subrange(a as int, b as int)) == Some(x as int),
            Option::None => int_lit(v@.subrange(a as int, b as int)) is None,
        },
{
    let ghost s = v@.subrange(a as int, b as int);
    if a == b {
        return None;
    }
    let c0 = v[a];
    proof {
        assert(s[0] == v@[a as int]);
    }
    let neg = c0 == '-';
    let signed = c0 == '-' || c0 == '+';
    let start: usize = if signed {
        a + 1
    } else {
        a
    };
    let ghost body = if signed {
        s.subrange(1, s.len() as int)
    } else {
        s
    };
    proof {
        assert(body =~= v@.subrange(start as int, b as int));
    }
    if start == b {
        return None;
    }
    let mut i: usize = start;
    let mut acc: u64 = 0;
    let mut big: bool = false;
    while i < b
        invariant
            a <= start <= i <= b <= v@.len(),
            body == v@.subrange(start as int, b as int),
            all_digits(v@.subrange(start as int, i as int)),
            !big ==> acc == digits_val(v@.subrange(start as int, i as int)),
            !big ==> acc <= 0x8000_0000,
            big ==> digits_val(v@.subrange(start as int, i as int)) > 0x8000_0000,
        decreases b - i,
    {
        let c = v[i];
        let u = c as u32;
        if !(48 <= u && u <= 57) {
            proof {
                assert(body[i - start] == c);
                assert(!is_digit(body[i - start]));
                assert(!all_digits(body));
            }
            return None;
        }
        let d: u64 = (u - 48) as u64;
        let ghost pre = v@.subrange(start as int, i as int);
        let ghost cur = v@.subrange(start as int, i + 1);
        proof {
            assert(cur.drop_last() =~= pre);
            assert(cur.last() == c);
            assert(digits_val(cur) == digits_val(pre) * 10 + digit_val(c));
        }
        if big {
            proof {
                lemma_digits_val_nonneg(pre);
                assert(digits_val(cur) > 0x8000_0000);
            }
        } else {
            let next: u64 = acc * 10 + d;
            if next > 0x8000_0000 {
                big = true;
            } else {
                acc = next;
            }
        }
        i = i + 1;
    }
    proof {
        assert(v@.subrange(start as int, i as int) =~= body);
        lemma_digits_val_nonneg(body);
    }
    if big {
        return None;
    }
    if neg {
        if acc > 0x8000_0000 {
            return None;
        }
        if acc == 0x8000_0000 {
            Some(i32::MIN)
        } else {
            Some(-(acc as i32))
        }
    } else {
        if acc > 0x7FFF_FFFF {
            return None;
        }
        Some(acc as i32)
    }
}

/// Pushes the decimal digits of `m` onto `out`.
pub fn push_dec_u64(out: &mut Vec<char>, m: u64)
    ensures
        final(out)@ == old(out)@ + dec_digits(m as nat),
{
    let mut tmp: Vec<char> = Vec::new();
    let mut cur: u64 = m;
    loop
        invariant_except_break
            dec_digits(m as nat) == dec_digits(cur as nat) + tmp@.reverse(),
            out@ == old(out)@,
        ensures
            dec_digits(m as nat) == tmp@.reverse(),
            out@ == old(out)@,
        decreases cur,
    {
        let d: u64 = cur % 10;
        let c: char = if d == 0 {
            '0'
        } else if d == 1 {
            '1'
        } else if d == 2 {
            '2'
        } else if d == 3 {
            '3'
        } else if d == 4 {
            '4'
        } else if d == 5 {
            '5'
        } else if d == 6 {
            '6'
        } else if d == 7 {
            '7'
        } else if d == 8 {
            '8'
        } else {
            '9'
        };
        proof {
            assert(c == digit_char(cur as int % 10));
            assert(tmp@.push(c).reverse() =~= seq![c] + tmp@.reverse());
            if cur >= 10 {
                assert(dec_digits(cur as nat) == dec_digits(cur as nat / 10).push(c));
                assert(dec_digits(cur as nat / 10) + tmp@.push(c).reverse() =~= dec_digits(
                    cur as nat,
                ) + tmp@.reverse());
            } else {
                assert(dec_digits(cur as nat) =~= seq![c]);
                assert(tmp@.push(c).reverse() =~= dec_digits(cur as nat) + tmp@.reverse());
            }
        }
        tmp.push(c);
        if cur < 10 {
            break;
        }
        cur = cur / 10;
    }
    let n = tmp.len();
    let mut i: usize = n;
    proof {
        assert(out@ =~= old(out)@ + tmp@.reverse().take(0));
    }
    while i > 0
        invariant
            i <= n == tmp@.len(),
            dec_digits(m as nat) == tmp@.reverse(),
            out@ == old(out)@ + tmp@.reverse().take(n - i),
        decreases i,
    {
        i = i - 1;
        out.push(tmp[i]);
        proof {
            assert(tmp@.reverse().take(n - i) =~= tmp@.reverse().take(n - i - 1).push(
                tmp@[i as int],
            ));
        }
    }
    proof {
        assert(tmp@.reverse().take(n as int) =~= tmp@.reverse());
    }
}

/// Pushes the decimal text of `n` onto `out`.
pub fn push_i32(out: &mut Vec<char>, n: i32)
    ensures
        final(out)@ == old(out)@ + render_int(n as int),
{
    if n < 0 {
        out.push('-');
        let mag: u64 = (-(n as i64)) as u64;
        push_dec_u64(out, mag);
        proof {
            assert(old(out)@.push('-') + dec_digits(mag as nat) =~= old(out)@ + (seq!['-']
                + dec_digits(mag as nat)));
        }
    } else {
        push_dec_u64(out, n as u64);
    }
}

/// Pushes the decimal text of `n` onto `out`.
pub fn push_usize(out: &mut Vec<char>, n: usize)
    ensures
        final(out)@ == old(out)@ + dec_digits(n as nat),
{
    push_dec_u64(out, n as u64);
}

/// The index of the first occurrence of `x` or `y` in `s`, or the
/// length when neither occurs.
pub open spec fn first_ch(s: Seq<char>, x: char, y: char) -> int
    decreases s.len(),
{
    if s.len() == 0 {
        0
    } else if s[0] == x || s[0] == y {
        0
    } else {
        1 + first_ch(s.subrange(1, s.len() as int), x, y)
    }
}

/// Characterization of [`first_ch`]: it is the first index holding `x`
/// or `y`, and `s` holds neither before it.
pub proof fn lemma_first_ch(s: Seq<char>, x: char, y: char)
    ensures
        0 <= first_ch(s, x, y) <= s.len(),
        forall|i: int| 0 <= i < first_ch(s, x, y) ==> s[i] != x && s[i] != y,
        first_ch(s, x, y) < s.len() ==> (s[first_ch(s, x, y)] == x || s[first_ch(s, x, y)] == y),
    decreases s.len(),
{
    if s.len() > 0 && !(s[0] == x || s[0] == y) {
        let t = s.subrange(1, s.len() as int);
        lemma_first_ch(t, x, y);
        assert forall|i: int| 0 <= i < first_ch(s, x, y) implies s[i] != x && s[i] != y by {
            if i >= 1 {
                assert(s[i] == t[i - 1]);
            }
        }
    }
}

/// Whether `s` has the shape of an exponent tail: an optional sign and
/// one or more digits.
pub open spec fn exp_tail_ok(s: Seq<char>) -> bool {
    let body = if s.len() >= 1 && (s[0] == '+' || s[0] == '-') {
        s.subrange(1, s.len() as int)
    } else {
        s
    };
    body.len() >= 1 && all_digits(body)
}

/// Whether `s` has the shape of a float mantissa: digits with at most
/// one dot, and at least one digit.
pub open spec fn mantissa_ok(s: Seq<char>) -> bool {
    let d = first_ch(s, '.', '.');
    if d == s.len() {
        s.len() >= 1 && all_digits(s)
    } else {
        let pre = s.subrange(0, d);
        let post = s.subrange(d + 1, s.len() as int);
        all_digits(pre) && all_digits(post) && (pre.len() >= 1 || post.len() >= 1)
    }
}

/// Whether `s` has the shape of a 64-bit float literal, the acceptance
/// of `parse::<f64>`: an optional sign, then `inf`, `infinity` or
/// `nan` (any case) or a mantissa with an optional exponent.
pub open spec fn is_float_lit(s: Seq<char>) -> bool {
    let t = if s.len() >= 1 && (s[0] == '+' || s[0] == '-') {
        s.subrange(1, s.len() as int)
    } else {
        s
    };
    eq_ic(t, "inf"@) || eq_ic(t, "infinity"@) || eq_ic(t, "nan"@) || {
        let e = first_ch(t, 'e', 'E');
        let mant = t.subrange(0, e);
        if e == t.len() {
            mantissa_ok(mant)
        } else {
            mantissa_ok(mant) && exp_tail_ok(t.subrange(e + 1, t.len() as int))
        }
    }
}

/// Whether every character in the subrange `[a, b)` of `v` is a digit.
pub fn all_digits_range(v: &Vec<char>, a: usize, b: usize) -> (r: bool)
    requires
        a <= b <= v@.len(),
    ensures
        r == all_digits(v@.subrange(a as int, b as int)),
{
    let mut i: usize = a;
    while i < b
        invariant
            a <= i <= b <= v@.len(),
            forall|k: int| 0 <= k < i - a ==> is_digit(v@.subrange(a as int, b as int)[k]),
        decreases b - i,
    {
        let u = v[i] as u32;
        if !(48 <= u && u <= 57) {
            proof {
                assert(v@.subrange(a as int, b as int)[i - a] == v@[i as int]);
            }
            return false;
        }
        i = i + 1;
    }
    true
}

/// The index of the first occurrence of `x` or `y` in the subrange
/// `[a, b)` of `v`, relative to `a`.
pub fn first_ch_range(v: &Vec<char>, a: usize, b: usize, x: char, y: char) -> (r: usize)
    requires
        a <= b <= v@.len(),
    ensures
        r == first_ch(v@.subrange(a as int, b as int), x, y),
        a + r <= b,
{
    let ghost s = v@.subrange(a as int, b as int);
    proof {
        lemma_first_ch(s, x, y);
    }
    let mut i: usize = a;
    while i < b
        invariant
            a <= i <= b <= v@.len(),
            s == v@.subrange(a as int, b as int),
            forall|k: int| 0 <= k < i - a ==> s[k] != x && s[k] != y,
        decreases b - i,
    {
        let c = v[i];
        if c == x || c == y {
            proof {
                assert(s[i - a] == c);
                lemma_first_ch_at(s, x, y, i - a);
            }
            return i - a;
        }
        i = i + 1;
    }
    proof {
        lemma_first_ch_at(s, x, y, (b - a) as int);
    }
    b - a
}

/// If `s` holds neither sought character before `i`, and `i` is the
/// length or holds one, then `i` is the first index.
pub proof fn lemma_first_ch_at(s: Seq<char>, x: char, y: char, i: int)
    requires
        0 <= i <= s.len(),
        forall|k: int| 0 <= k < i ==> s[k] != x && s[k] != y,
        i < s.len() ==> (s[i] == x || s[i] == y),
    ensures
        first_ch(s, x, y) == i,
    decreases s.len(),
{
    if s.len() == 0 {
    } else if s[0] == x || s[0] == y {
        assert(i == 0);
    } else {
        let t = s.subrange(1, s.len() as int);
        assert(forall|k: int| 0 <= k < i - 1 ==> t[k] != x && t[k] != y);
        lemma_first_ch_at(t, x, y, i - 1);
    }
}

/// Whether the subrange `[a, b)` of `v` has the shape of an exponent
/// tail.
fn exp_tail_ok_range(v: &Vec<char>, a: usize, b: usize) -> (r: bool)
    requires
        a <= b <= v@.len(),
    ensures
        r == exp_tail_ok(v@.subrange(a as int, b as int)),
{
    let ghost s = v@.subrange(a as int, b as int);
    let start: usize = if a < b && (v[a] == '+' || v[a] == '-') {
        a + 1
    } else {
        a
    };
    proof {
        if a < b && (s[0] == '+' || s[0] == '-') {
            assert(s.subrange(1, s.len() as int) =~= v@.subrange(start as int, b as int));
        } else {
            assert(s =~= v@.subrange(start as int, b as int));
        }
    }
    if start == b {
        return false;
    }
    all_digits_range(v, start, b)
}

/// Whether the subrange `[a, b)` of `v` has the shape of a float
/// mantissa.
fn mantissa_ok_range(v: &Vec<char>, a: usize, b: usize) -> (r: bool)
    requires
        a <= b <= v@.len(),
    ensures
        r == mantissa_ok(v@.subrange(a as int, b as int)),
{
    let ghost s = v@.subrange(a as int, b as int);
    let d = first_ch_range(v, a, b, '.', '.');
    if a + d == b {
        if a == b {
            return false;
        }
        all_digits_range(v, a, b)
    } else {
        let ghost pre = s.subrange(0, d as int);
        let ghost post = s.subrange(d + 1, s.len() as int);
        proof {
            assert(pre =~= v@.subrange(a as int, a + d));
            assert(post =~= v@.subrange(a + d + 1, b as int));
        }
        let pre_ok = all_digits_range(v, a, a + d);
        let post_ok = all_digits_range(v, a + d + 1, b);
        let nonempty = d > 0 || a + d + 1 < b;
        pre_ok && post_ok && nonempty
    }
}

/// Whether the subrange `[a, b)` of `v` has the shape of a 64-bit
/// float literal.
pub fn is_float_range(v: &Vec<char>, a: usize, b: usize) -> (r: bool)
    requires
        a <= b <= v@.len(),
    ensures
        r == is_float_lit(v@.subrange(a as int, b as int)),
{
    let ghost s = v@.subrange(a as int, b as int);
    let start: usize = if a < b && (v[a] == '+' || v[a] == '-') {
        a + 1
    } else {
        a
    };
    let ghost t = if s.len() >= 1 && (s[0] == '+' || s[0] == '-') {
        s.subrange(1, s.len() as int)
    } else {
        s
    };
    proof {
        assert(t =~= v@.subrange(start as int, b as int));
    }
    if range_eq_ic_str(v, start, b, "inf") || range_eq_ic_str(v, start, b, "infinity")
        || range_eq_ic_str(v, start, b, "nan") {
        return true;
    }
    let e = first_ch_range(v, start, b, 'e', 'E');
    let ghost mant = t.subrange(0, e as int);
    proof {
        assert(mant =~= v@.subrange(start as int, start + e));
    }
    let mant_ok = mantissa_ok_range(v, start, start + e);
    if start + e == b {
        mant_ok
    } else {
        proof {
            assert(t.subrange(e + 1, t.len() as int) =~= v@.subrange(start + e + 1, b as int));
        }
        let tail_ok = exp_tail_ok_range(v, start + e + 1, b);
        mant_ok && tail_ok
    }
}

} // verus!
