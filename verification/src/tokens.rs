//! Whitespace tokenization of a command line, and joining the token
//! tail back into the literal text with single spaces, as the command
//! processor reads its arguments.

use vstd::prelude::*;
use crate::chars::{copy_range, is_ws, push_range, trim_front, lemma_trim_front_first, lemma_trim_front_len, ws_char};

verus! {

/// The index of the first whitespace character, or the length when
/// none occurs.
pub open spec fn first_ws(s: Seq<char>) -> int
    decreases s.len(),
{
    if s.len() == 0 {
        0
    } else if is_ws(s[0]) {
        0
    } else {
        1 + first_ws(s.subrange(1, s.len() as int))
    }
}

/// Characterization of [`first_ws`].
pub proof fn lemma_first_ws(s: Seq<char>)
    ensures
        0 <= first_ws(s) <= s.len(),
        forall|i: int| 0 <= i < first_ws(s) ==> !is_ws(s[i]),
        first_ws(s) < s.len() ==> is_ws(s[first_ws(s)]),
    decreases s.len(),
{
    if s.len() > 0 && !is_ws(s[0]) {
        let t = s.subrange(1, s.len() as int);
        lemma_first_ws(t);
        assert forall|i: int| 0 <= i < first_ws(s) implies !is_ws(s[i]) by {
            if i >= 1 {
                assert(s[i] == t[i - 1]);
            }
        }
    }
}

/// If no whitespace sits before `i`, and `i` is the length or holds
/// whitespace, then `i` is the first whitespace index.
pub proof fn lemma_first_ws_at(s: Seq<char>, i: int)
    requires
        0 <= i <= s.len(),
        forall|k: int| 0 <= k < i ==> !is_ws(s[k]),
        i < s.len() ==> is_ws(s[i]),
    ensures
        first_ws(s) == i,
    decreases s.len(),
{
    if s.len() == 0 {
    } else if is_ws(s[0]) {
        assert(i == 0);
    } else {
        let t = s.subrange(1, s.len() as int);
        assert(forall|k: int| 0 <= k < i - 1 ==> t[k] == s[k + 1]);
        lemma_first_ws_at(t, i - 1);
    }
}

/// The whitespace-separated tokens of a line, in order, each
/// nonempty.
pub open spec fn tokens(s: Seq<char>) -> Seq<Seq<char>>
    decreases s.len(),
    via tokens_dec
{
    let t = trim_front(s);
    if t.len() == 0 {
        Seq::empty()
    } else {
        let w = first_ws(t);
        seq![t.take(w)] + tokens(t.skip(w))
    }
}

#[via_fn]
proof fn tokens_dec(s: Seq<char>) {
    lemma_trim_front_len(s);
    lemma_trim_front_first(s);
    let t = trim_front(s);
    if t.len() != 0 {
        lemma_first_ws(t);
        assert(!is_ws(t[0]));
        assert(first_ws(t) >= 1);
    }
}

/// Skipping one leading whitespace character changes no token.
pub proof fn lemma_tokens_skip_ws(s: Seq<char>)
    requires
        s.len() > 0,
        is_ws(s[0]),
    ensures
        tokens(s) == tokens(s.subrange(1, s.len() as int)),
{
    assert(trim_front(s) == trim_front(s.subrange(1, s.len() as int)));
}

/// The token tail joined back with single spaces.
pub open spec fn join_tokens(ts: Seq<Seq<char>>) -> Seq<char>
    decreases ts.len(),
{
    if ts.len() == 0 {
        Seq::empty()
    } else if ts.len() == 1 {
        ts[0]
    } else {
        join_tokens(ts.drop_last()) + seq![' '] + ts.last()
    }
}

/// The whitespace-separated tokens of the buffer, in order.
#[verifier::loop_isolation(false)]
pub fn tokenize(v: &Vec<char>) -> (r: Vec<Vec<char>>)
    ensures
        r@.len() == tokens(v@).len(),
        forall|i: int| 0 <= i < r@.len() ==> (#[trigger] r@[i])@ == tokens(v@)[i],
{
    let n = v.len();
    let mut toks: Vec<Vec<char>> = Vec::new();
    let ghost mut done: Seq<Seq<char>> = Seq::empty();
    let mut i: usize = 0;
    proof {
        assert(v@.subrange(0, n as int) =~= v@);
        assert(done + tokens(v@.subrange(0, n as int)) =~= tokens(v@));
    }
    while i < n
        invariant
            i <= n == v@.len(),
            tokens(v@) == done + tokens(v@.subrange(i as int, n as int)),
            toks@.len() == done.len(),
            forall|k: int| 0 <= k < toks@.len() ==> (#[trigger] toks@[k])@ == done[k],
        decreases n - i,
    {
        let ghost rest = v@.subrange(i as int, n as int);
        if ws_char(v[i]) {
            proof {
                assert(rest[0] == v@[i as int]);
                lemma_tokens_skip_ws(rest);
                assert(rest.subrange(1, rest.len() as int) =~= v@.subrange(i + 1, n as int));
            }
            i = i + 1;
        } else {
            let mut j: usize = i;
            while j < n && !ws_char(v[j])
                invariant
                    i <= j <= n,
                    forall|k: int| i <= k < j ==> !is_ws(v@[k]),
                decreases n - j,
            {
                j = j + 1;
            }
            let tok = copy_range(v, i, j);
            proof {
                assert(rest[0] == v@[i as int]);
                assert(trim_front(rest) == rest);
                assert(forall|k: int| 0 <= k < j - i ==> rest[k] == v@[k + i] && !is_ws(rest[k]));
                if j < n {
                    assert(rest[j - i] == v@[j as int]);
                }
                lemma_first_ws_at(rest, j - i);
                assert(rest.take(j - i) =~= v@.subrange(i as int, j as int));
                assert(rest.skip(j - i) =~= v@.subrange(j as int, n as int));
                assert(tokens(rest) == seq![rest.take(j - i)] + tokens(rest.skip(j - i)));
                assert(done + (seq![rest.take(j - i)] + tokens(rest.skip(j - i))) =~= done.push(
                    rest.take(j - i),
                ) + tokens(rest.skip(j - i)));
                done = done.push(v@.subrange(i as int, j as int));
            }
            toks.push(tok);
            i = j;
        }
    }
    proof {
        assert(v@.subrange(n as int, n as int).len() == 0);
        assert(trim_front(v@.subrange(n as int, n as int)).len() == 0);
        assert(done + tokens(v@.subrange(n as int, n as int)) =~= done);
    }
    toks
}

/// Appends one whole token.
pub fn push_all(out: &mut Vec<char>, x: &Vec<char>)
    ensures
        final(out)@ == old(out)@ + x@,
{
    let n = x.len();
    push_range(out, x, 0, n);
    proof {
        assert(x@.subrange(0, n as int) =~= x@);
    }
}

/// The tokens from `start` on, joined with single spaces.
#[verifier::loop_isolation(false)]
pub fn join_from(toks: &Vec<Vec<char>>, start: usize) -> (r: Vec<char>)
    requires
        start <= toks@.len(),
    ensures
        r@ == join_tokens(tokens_models(toks@).skip(start as int)),
{
    let ghost ms = tokens_models(toks@);
    proof {
        lemma_tokens_models(toks@);
    }
    let n = toks.len();
    let mut out: Vec<char> = Vec::new();
    let mut k: usize = start;
    proof {
        assert(ms.skip(start as int).take(0) =~= Seq::<Seq<char>>::empty());
        assert(out@ =~= join_tokens(ms.skip(start as int).take(0)));
    }
    while k < n
        invariant
            start <= k <= n == toks@.len(),
            out@ == join_tokens(ms.skip(start as int).take(k - start)),
        decreases n - k,
    {
        let ghost part = ms.skip(start as int);
        if k > start {
            out.push(' ');
        }
        push_all(&mut out, &toks[k]);
        proof {
            assert(part.take(k - start + 1).drop_last() =~= part.take(k - start));
            assert(part.take(k - start + 1).last() == ms[k as int]);
            assert(ms[k as int] == toks@[k as int]@);
            if k == start {
                assert(join_tokens(part.take(1)) == part[0]);
                assert(out@ =~= join_tokens(part.take(1)));
            } else {
                assert(join_tokens(part.take(k - start + 1)) == join_tokens(part.take(k - start))
                    + seq![' '] + part.take(k - start + 1).last());
                assert(out@ =~= join_tokens(part.take(k - start + 1)));
            }
        }
        k = k + 1;
    }
    proof {
        assert(ms.skip(start as int).take(n - start) =~= ms.skip(start as int));
    }
    out
}

/// The views of a token buffer.
pub open spec fn tokens_models(ts: Seq<Vec<char>>) -> Seq<Seq<char>>
    decreases ts.len(),
{
    if ts.len() == 0 {
        Seq::empty()
    } else {
        tokens_models(ts.drop_last()).push(ts.last()@)
    }
}

/// `tokens_models` maps index-wise.
pub proof fn lemma_tokens_models(ts: Seq<Vec<char>>)
    ensures
        tokens_models(ts).len() == ts.len(),
        forall|i: int| 0 <= i < ts.len() ==> #[trigger] tokens_models(ts)[i] == ts[i]@,
    decreases ts.len(),
{
    if ts.len() > 0 {
        lemma_tokens_models(ts.drop_last());
    }
}

} // verus!
