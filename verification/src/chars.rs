//! Character-level helpers shared by the parser, the renderers and the
//! store: whitespace and quote trimming, lexicographic comparison of
//! character sequences, and conversions between `str`/`String` and
//! `Vec<char>`.

use vstd::prelude::*;
use vstd::string::*;

verus! {

/// Result of a three-way comparison.
#[derive(Clone, Copy, Debug, PartialEq, Eq, Structural)]
pub enum Cmp {
    Lt,
    Eq,
    Gt,
}

/// The Unicode `White_Space` code points, the set that `str::trim` and
/// whitespace tokenization go by.
pub open spec fn is_ws(c: char) -> bool {
    let u = c as u32;
    (0x0009 <= u && u <= 0x000D) || u == 0x0020 || u == 0x0085 || u == 0x00A0 || u == 0x1680 || (
    0x2000 <= u && u <= 0x200A) || u == 0x2028 || u == 0x2029 || u == 0x202F || u == 0x205F || u
        == 0x3000
}

/// Runtime test for [`is_ws`].
pub fn ws_char(c: char) -> (b: bool)
    ensures
        b == is_ws(c),
{
    let u = c as u32;
    (0x0009 <= u && u <= 0x000D) || u == 0x0020 || u == 0x0085 || u == 0x00A0 || u == 0x1680 || (
    0x2000 <= u && u <= 0x200A) || u == 0x2028 || u == 0x2029 || u == 0x202F || u == 0x205F || u
        == 0x3000
}

/// Order on characters: by code point.
pub open spec fn char_cmp(a: char, b: char) -> Cmp {
    if a == b {
        Cmp::Eq
    } else if (a as u32) < (b as u32) {
        Cmp::Lt
    } else {
        Cmp::Gt
    }
}

/// Distinct characters have distinct code points.
pub proof fn lemma_char_code_inj(a: char, b: char)
    requires
        a != b,
    ensures
        a as u32 != b as u32,
{
    if a as u32 == b as u32 {
        vstd::utf8::char_u32_cast(a, a as u32);
        vstd::utf8::char_u32_cast(b, b as u32);
    }
}

/// Lexicographic order on character sequences, a prefix ordering before
/// its extensions.
pub open spec fn str_cmp(a: Seq<char>, b: Seq<char>) -> Cmp
    decreases a.len(),
{
    if a.len() == 0 && b.len() == 0 {
        Cmp::Eq
    } else if a.len() == 0 {
        Cmp::Lt
    } else if b.len() == 0 {
        Cmp::Gt
    } else if char_cmp(a[0], b[0]) == Cmp::Eq {
        str_cmp(a.subrange(1, a.len() as int), b.subrange(1, b.len() as int))
    } else {
        char_cmp(a[0], b[0])
    }
}

/// `str_cmp` answers `Eq` exactly on equal sequences.
pub proof fn lemma_str_cmp_eq(a: Seq<char>, b: Seq<char>)
    ensures
        (str_cmp(a, b) == Cmp::Eq) <==> (a == b),
    decreases a.len(),
{
    if a.len() == 0 && b.len() == 0 {
        assert(a =~= b);
    } else if a.len() == 0 || b.len() == 0 {
        assert(a != b);
    } else if char_cmp(a[0], b[0]) == Cmp::Eq {
        let ta = a.subrange(1, a.len() as int);
        let tb = b.subrange(1, b.len() as int);
        lemma_str_cmp_eq(ta, tb);
        if str_cmp(a, b) == Cmp::Eq {
            assert(a[0] == b[0]);
            assert(a =~= ta.insert(0, a[0]));
            assert(b =~= tb.insert(0, b[0]));
        } else {
            if a == b {
                assert(ta =~= tb);
            }
        }
    } else {
        assert(a[0] != b[0]);
        if a == b {
            assert(a[0] == b[0]);
        }
    }
}

/// Swapping the arguments of `str_cmp` swaps `Lt` and `Gt`.
pub proof fn lemma_str_cmp_antisym(a: Seq<char>, b: Seq<char>)
    ensures
        (str_cmp(a, b) == Cmp::Lt) <==> (str_cmp(b, a) == Cmp::Gt),
    decreases a.len(),
{
    if a.len() != 0 && b.len() != 0 {
        if char_cmp(a[0], b[0]) == Cmp::Eq {
            lemma_str_cmp_antisym(a.subrange(1, a.len() as int), b.subrange(1, b.len() as int));
        } else {
            lemma_char_code_inj(a[0], b[0]);
        }
    }
}

/// `str_cmp` is transitive in `Lt`.
pub proof fn lemma_str_cmp_trans(a: Seq<char>, b: Seq<char>, c: Seq<char>)
    requires
        str_cmp(a, b) == Cmp::Lt,
        str_cmp(b, c) == Cmp::Lt,
    ensures
        str_cmp(a, c) == Cmp::Lt,
    decreases a.len(),
{
    if a.len() == 0 {
    } else {
        if b.len() != 0 && c.len() != 0 {
            if char_cmp(a[0], b[0]) == Cmp::Eq && char_cmp(b[0], c[0]) == Cmp::Eq {
                lemma_str_cmp_trans(
                    a.subrange(1, a.len() as int),
                    b.subrange(1, b.len() as int),
                    c.subrange(1, c.len() as int),
                );
            }
        }
    }
}

/// Case-insensitive equality of two characters, folding only the ASCII
/// letters, as `eq_ignore_ascii_case` does.
pub open spec fn char_eq_ic(a: char, b: char) -> bool {
    let ua = a as u32;
    let ub = b as u32;
    ua == ub || (65 <= ua && ua <= 90 && ub == ua + 32) || (65 <= ub && ub <= 90 && ua == ub + 32)
}

/// Case-insensitive equality of two character sequences (ASCII fold).
pub open spec fn eq_ic(a: Seq<char>, b: Seq<char>) -> bool {
    a.len() == b.len() && (forall|i: int| 0 <= i < a.len() ==> char_eq_ic(a[i], b[i]))
}

/// The sequence with its leading whitespace removed.
pub open spec fn trim_front(s: Seq<char>) -> Seq<char>
    decreases s.len(),
{
    if s.len() > 0 && is_ws(s[0]) {
        trim_front(s.subrange(1, s.len() as int))
    } else {
        s
    }
}

/// The sequence with its trailing whitespace removed.
pub open spec fn trim_back(s: Seq<char>) -> Seq<char>
    decreases s.len(),
{
    if s.len() > 0 && is_ws(s.last()) {
        trim_back(s.drop_last())
    } else {
        s
    }
}

/// The sequence with surrounding whitespace removed, as `str::trim`.
pub open spec fn trim(s: Seq<char>) -> Seq<char> {
    trim_back(trim_front(s))
}

/// The sequence with its leading quote characters removed.
pub open spec fn qtrim_front(s: Seq<char>) -> Seq<char>
    decreases s.len(),
{
    if s.len() > 0 && s[0] == '"' {
        qtrim_front(s.subrange(1, s.len() as int))
    } else {
        s
    }
}

/// The sequence with its trailing quote characters removed.
pub open spec fn qtrim_back(s: Seq<char>) -> Seq<char>
    decreases s.len(),
{
    if s.len() > 0 && s.last() == '"' {
        qtrim_back(s.drop_last())
    } else {
        s
    }
}

/// The sequence with all surrounding quote characters removed, as
/// `trim_matches('"')` strips them.
pub open spec fn strip_quotes(s: Seq<char>) -> Seq<char> {
    qtrim_back(qtrim_front(s))
}

/// Trimming never lengthens a sequence.
pub proof fn lemma_trim_front_len(s: Seq<char>)
    ensures
        trim_front(s).len() <= s.len(),
    decreases s.len(),
{
    if s.len() > 0 && is_ws(s[0]) {
        lemma_trim_front_len(s.subrange(1, s.len() as int));
    }
}

/// Trimming never lengthens a sequence.
pub proof fn lemma_trim_back_len(s: Seq<char>)
    ensures
        trim_back(s).len() <= s.len(),
    decreases s.len(),
{
    if s.len() > 0 && is_ws(s.last()) {
        lemma_trim_back_len(s.drop_last());
    }
}

/// A nonempty trim-front result starts with non-whitespace.
pub proof fn lemma_trim_front_first(s: Seq<char>)
    ensures
        trim_front(s).len() > 0 ==> !is_ws(trim_front(s)[0]),
    decreases s.len(),
{
    if s.len() > 0 && is_ws(s[0]) {
        lemma_trim_front_first(s.subrange(1, s.len() as int));
    }
}

/// Trimming never lengthens a sequence.
pub proof fn lemma_trim_len(s: Seq<char>)
    ensures
        trim(s).len() <= s.len(),
{
    lemma_trim_front_len(s);
    lemma_trim_back_len(trim_front(s));
}

/// A nonempty front-stripped result starts with a non-quote.
pub proof fn lemma_qtrim_front_clean(s: Seq<char>)
    ensures
        qtrim_front(s).len() > 0 ==> qtrim_front(s)[0] != '"',
    decreases s.len(),
{
    if s.len() > 0 && s[0] == '"' {
        lemma_qtrim_front_clean(s.subrange(1, s.len() as int));
    }
}

/// A nonempty back-stripped result keeps its first character and ends
/// with a non-quote.
pub proof fn lemma_qtrim_back_clean(s: Seq<char>)
    ensures
        qtrim_back(s).len() > 0 ==> (qtrim_back(s)[0] == s[0] && qtrim_back(s).last() != '"'),
    decreases s.len(),
{
    if s.len() > 0 && s.last() == '"' {
        lemma_qtrim_back_clean(s.drop_last());
        if qtrim_back(s).len() > 0 {
            assert(s.drop_last()[0] == s[0]);
        }
    }
}

/// What quote-stripping returns never starts or ends with a quote.
pub proof fn lemma_strip_quotes_clean(s: Seq<char>)
    ensures
        strip_quotes(s).len() > 0 ==> (strip_quotes(s)[0] != '"' && strip_quotes(s).last()
            != '"'),
{
    lemma_qtrim_front_clean(s);
    lemma_qtrim_back_clean(qtrim_front(s));
}

/// Narrows `[a, b)` in `v` to the bounds of the whitespace-trimmed
/// subrange.
pub fn trim_range(v: &Vec<char>, a: usize, b: usize) -> (r: (usize, usize))
    requires
        a <= b <= v@.len(),
    ensures
        a <= r.0 <= r.1 <= b,
        v@.subrange(r.0 as int, r.1 as int) == trim(v@.subrange(a as int, b as int)),
{
    let mut i: usize = a;
    while i < b && ws_char(v[i])
        invariant
            a <= i <= b <= v@.len(),
            trim_front(v@.subrange(a as int, b as int)) == trim_front(
                v@.subrange(i as int, b as int),
            ),
        decreases b - i,
    {
        proof {
            assert(v@.subrange(i as int, b as int).subrange(1, b - i) =~= v@.subrange(
                i + 1,
                b as int,
            ));
        }
        i = i + 1;
    }
    proof {
        assert(trim_front(v@.subrange(a as int, b as int)) == v@.subrange(i as int, b as int));
    }
    let mut j: usize = b;
    while j > i && ws_char(v[j - 1])
        invariant
            a <= i <= j <= b <= v@.len(),
            trim_front(v@.subrange(a as int, b as int)) == v@.subrange(i as int, b as int),
            trim_back(v@.subrange(i as int, b as int)) == trim_back(
                v@.subrange(i as int, j as int),
            ),
        decreases j,
    {
        proof {
            assert(v@.subrange(i as int, j as int).drop_last() =~= v@.subrange(i as int, j - 1));
        }
        j = j - 1;
    }
    proof {
        assert(trim_back(v@.subrange(i as int, j as int)) == v@.subrange(i as int, j as int));
    }
    (i, j)
}

/// Narrows `[a, b)` in `v` to the bounds of the quote-stripped
/// subrange.
pub fn strip_quotes_range(v: &Vec<char>, a: usize, b: usize) -> (r: (usize, usize))
    requires
        a <= b <= v@.len(),
    ensures
        a <= r.0 <= r.1 <= b,
        v@.subrange(r.0 as int, r.1 as int) == strip_quotes(v@.subrange(a as int, b as int)),
{
    let mut i: usize = a;
    while i < b && v[i] == '"'
        invariant
            a <= i <= b <= v@.len(),
            qtrim_front(v@.subrange(a as int, b as int)) == qtrim_front(
                v@.subrange(i as int, b as int),
            ),
        decreases b - i,
    {
        proof {
            assert(v@.subrange(i as int, b as int).subrange(1, b - i) =~= v@.subrange(
                i + 1,
                b as int,
            ));
        }
        i = i + 1;
    }
    proof {
        assert(qtrim_front(v@.subrange(a as int, b as int)) == v@.subrange(i as int, b as int));
    }
    let mut j: usize = b;
    while j > i && v[j - 1] == '"'
        invariant
            a <= i <= j <= b <= v@.len(),
            qtrim_front(v@.subrange(a as int, b as int)) == v@.subrange(i as int, b as int),
            qtrim_back(v@.subrange(i as int, b as int)) == qtrim_back(
                v@.subrange(i as int, j as int),
            ),
        decreases j,
    {
        proof {
            assert(v@.subrange(i as int, j as int).drop_last() =~= v@.subrange(i as int, j - 1));
        }
        j = j - 1;
    }
    proof {
        assert(qtrim_back(v@.subrange(i as int, j as int)) == v@.subrange(i as int, j as int));
    }
    (i, j)
}

/// The characters of a `str`, in order.
pub fn str_to_chars(s: &str) -> (v: Vec<char>)
    ensures
        v@ == s@,
{
    let n = s.unicode_len();
    let mut v: Vec<char> = Vec::new();
    let mut i: usize = 0;
    while i < n
        invariant
            n == s@.len(),
            i <= n,
            v@ == s@.subrange(0, i as int),
        decreases n - i,
    {
        v.push(s.get_char(i));
        proof {
            assert(s@.subrange(0, i as int).push(s@[i as int]) =~= s@.subrange(0, i + 1));
        }
        i = i + 1;
    }
    proof {
        assert(s@.subrange(0, n as int) =~= s@);
    }
    v
}

/// Appends the characters of a `str` to a character buffer.
pub fn push_str_chars(out: &mut Vec<char>, s: &str)
    ensures
        final(out)@ == old(out)@ + s@,
{
    let n = s.unicode_len();
    let mut i: usize = 0;
    while i < n
        invariant
            n == s@.len(),
            i <= n,
            out@ == old(out)@ + s@.subrange(0, i as int),
        decreases n - i,
    {
        out.push(s.get_char(i));
        proof {
            assert((old(out)@ + s@.subrange(0, i as int)).push(s@[i as int]) =~= old(out)@
                + s@.subrange(0, i + 1));
        }
        i = i + 1;
    }
    proof {
        assert(s@.subrange(0, n as int) =~= s@);
        assert(out@ =~= old(out)@ + s@);
    }
}

/// Appends the subrange `[a, b)` of `v` to a character buffer.
pub fn push_range(out: &mut Vec<char>, v: &Vec<char>, a: usize, b: usize)
    requires
        a <= b <= v@.len(),
    ensures
        final(out)@ == old(out)@ + v@.subrange(a as int, b as int),
{
    let mut i: usize = a;
    while i < b
        invariant
            a <= i <= b <= v@.len(),
            out@ == old(out)@ + v@.subrange(a as int, i as int),
        decreases b - i,
    {
        out.push(v[i]);
        proof {
            assert((old(out)@ + v@.subrange(a as int, i as int)).push(v@[i as int]) =~= old(out)@
                + v@.subrange(a as int, i + 1));
        }
        i = i + 1;
    }
}

/// The subrange `[a, b)` of `v` as an owned buffer.
pub fn copy_range(v: &Vec<char>, a: usize, b: usize) -> (r: Vec<char>)
    requires
        a <= b <= v@.len(),
    ensures
        r@ == v@.subrange(a as int, b as int),
{
    let mut out: Vec<char> = Vec::new();
    push_range(&mut out, v, a, b);
    proof {
        assert(out@ =~= v@.subrange(a as int, b as int));
    }
    out
}

/// Whether the subrange `[a, b)` of `v` equals the given pattern.
pub fn range_eq_str(v: &Vec<char>, a: usize, b: usize, pat: &str) -> (r: bool)
    requires
        a <= b <= v@.len(),
    ensures
        r == (v@.subrange(a as int, b as int) == pat@),
{
    let n = pat.unicode_len();
    if b - a != n {
        return false;
    }
    let mut i: usize = 0;
    while i < n
        invariant
            n == pat@.len(),
            b - a == n,
            i <= n,
            a <= b <= v@.len(),
            forall|k: int| 0 <= k < i ==> v@.subrange(a as int, b as int)[k] == pat@[k],
        decreases n - i,
    {
        if v[a + i] != pat.get_char(i) {
            proof {
                assert(v@.subrange(a as int, b as int)[i as int] != pat@[i as int]);
            }
            return false;
        }
        i = i + 1;
    }
    proof {
        assert(v@.subrange(a as int, b as int) =~= pat@);
    }
    true
}

/// Whether the subrange `[a, b)` of `v` equals the pattern up to ASCII
/// case.
pub fn range_eq_ic_str(v: &Vec<char>, a: usize, b: usize, pat: &str) -> (r: bool)
    requires
        a <= b <= v@.len(),
    ensures
        r == eq_ic(v@.subrange(a as int, b as int), pat@),
{
    let n = pat.unicode_len();
    if b - a != n {
        return false;
    }
    let mut i: usize = 0;
    while i < n
        invariant
            n == pat@.len(),
            b - a == n,
            i <= n,
            a <= b <= v@.len(),
            forall|k: int| 0 <= k < i ==> char_eq_ic(v@.subrange(a as int, b as int)[k], pat@[k]),
        decreases n - i,
    {
        let x = v[a + i] as u32;
        let y = pat.get_char(i) as u32;
        let same = x == y || (65 <= x && x <= 90 && y == x + 32) || (65 <= y && y <= 90 && x == y
            + 32);
        if !same {
            proof {
                assert(!char_eq_ic(v@.subrange(a as int, b as int)[i as int], pat@[i as int]));
            }
            return false;
        }
        i = i + 1;
    }
    true
}

/// Three-way comparison of two character buffers in lexicographic
/// order.
pub fn cmp_chars(x: &Vec<char>, y: &Vec<char>) -> (r: Cmp)
    ensures
        r == str_cmp(x@, y@),
{
    let xn = x.len();
    let yn = y.len();
    let n = if xn < yn {
        xn
    } else {
        yn
    };
    let mut i: usize = 0;
    proof {
        assert(x@.skip(0) =~= x@);
        assert(y@.skip(0) =~= y@);
    }
    while i < n
        invariant
            n <= xn == x@.len(),
            n <= yn == y@.len(),
            i <= n,
            str_cmp(x@, y@) == str_cmp(x@.skip(i as int), y@.skip(i as int)),
        decreases n - i,
    {
        let cx = x[i];
        let cy = y[i];
        if cx != cy {
            proof {
                assert(x@.skip(i as int)[0] == cx);
                assert(y@.skip(i as int)[0] == cy);
            }
            if (cx as u32) < (cy as u32) {
                return Cmp::Lt;
            } else {
                proof {
                    lemma_char_code_inj(cx, cy);
                }
                return Cmp::Gt;
            }
        }
        proof {
            assert(x@.skip(i as int)[0] == y@.skip(i as int)[0]);
            assert(x@.skip(i as int).subrange(1, x@.len() - i) =~= x@.skip(i + 1));
            assert(y@.skip(i as int).subrange(1, y@.len() - i) =~= y@.skip(i + 1));
        }
        i = i + 1;
    }
    proof {
        assert(x@.skip(i as int).len() == x@.len() - i);
        assert(y@.skip(i as int).len() == y@.len() - i);
    }
    if xn == yn {
        Cmp::Eq
    } else if xn < yn {
        Cmp::Lt
    } else {
        Cmp::Gt
    }
}

/// Relies on `String`'s `FromIterator` over `char`: collecting an
/// iterator of characters yields the string holding exactly those
/// characters in order.
#[verifier::external_body]
pub(crate) fn chars_to_string(v: &Vec<char>) -> (s: String)
    ensures
        s@ == v@,
{
    v.iter().collect()
}

} // verus!
