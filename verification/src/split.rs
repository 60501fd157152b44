//! Top-level splitting of a bracketed interior: a nesting counter
//! rises on any opening bracket and falls on any closing one, and a
//! comma met at depth zero is a split point. The counter must never
//! fall below zero and must return to zero at the end, else the
//! interior is malformed.

use vstd::prelude::*;

verus! {

/// The contribution of one character to the nesting counter.
pub open spec fn ch_delta(c: char) -> int {
    if c == '{' || c == '[' || c == '<' {
        1
    } else if c == '}' || c == ']' || c == '>' {
        -1
    } else {
        0
    }
}

/// The net nesting depth over the whole sequence.
pub open spec fn bdepth(s: Seq<char>) -> int
    decreases s.len(),
{
    if s.len() == 0 {
        0
    } else {
        bdepth(s.drop_last()) + ch_delta(s.last())
    }
}

/// The nesting depth after the first `i` characters.
pub open spec fn depth_at(s: Seq<char>, i: int) -> int {
    bdepth(s.take(i))
}

/// A well-formed interior: the depth never falls below zero and
/// returns to zero at the end.
pub open spec fn ok_interior(s: Seq<char>) -> bool {
    (forall|i: int| 0 <= i <= s.len() ==> depth_at(s, i) >= 0) && bdepth(s) == 0
}

/// The positions of the depth-zero commas, in order.
pub open spec fn cuts(s: Seq<char>) -> Seq<int>
    decreases s.len(),
{
    if s.len() == 0 {
        Seq::empty()
    } else if s.last() == ',' && bdepth(s.drop_last()) == 0 {
        cuts(s.drop_last()).push(s.len() - 1)
    } else {
        cuts(s.drop_last())
    }
}

/// The start of the `j`-th split segment.
pub open spec fn seg_start(s: Seq<char>, j: int) -> int {
    if j == 0 {
        0
    } else {
        cuts(s)[j - 1] + 1
    }
}

/// The end of the `j`-th split segment.
pub open spec fn seg_end(s: Seq<char>, j: int) -> int {
    if j == cuts(s).len() {
        s.len() as int
    } else {
        cuts(s)[j]
    }
}

/// How many split segments the interior has.
pub open spec fn seg_count(s: Seq<char>) -> int {
    cuts(s).len() as int + 1
}

/// The `j`-th split segment, before trimming.
pub open spec fn segment(s: Seq<char>, j: int) -> Seq<char> {
    s.subrange(seg_start(s, j), seg_end(s, j))
}

/// The split positions are in range, ascending, and are exactly the
/// depth-zero commas.
pub proof fn lemma_cuts(s: Seq<char>)
    ensures
        cuts(s).len() <= s.len(),
        forall|i: int| 0 <= i < cuts(s).len() ==> 0 <= #[trigger] cuts(s)[i] < s.len(),
        forall|i: int, j: int| 0 <= i < j < cuts(s).len() ==> cuts(s)[i] < cuts(s)[j],
        forall|i: int|
            0 <= i < cuts(s).len() ==> s[#[trigger] cuts(s)[i]] == ',' && depth_at(s, cuts(s)[i])
                == 0,
        forall|p: int|
            0 <= p < s.len() && s[p] == ',' && depth_at(s, p) == 0 ==> exists|i: int|
                0 <= i < cuts(s).len() && cuts(s)[i] == p,
    decreases s.len(),
{
    if s.len() > 0 {
        let t = s.drop_last();
        lemma_cuts(t);
        assert(forall|i: int| 0 <= i < t.len() ==> t[i] == s[i]);
        assert(forall|i: int|
            0 <= i <= t.len() ==> #[trigger] t.take(i) =~= s.take(i) && depth_at(t, i) == depth_at(
                s,
                i,
            ));
        assert(s.take(s.len() - 1) =~= t);
        let cs = cuts(s);
        if s.last() == ',' && bdepth(t) == 0 {
            assert(cs == cuts(t).push(s.len() - 1));
            assert forall|p: int|
                0 <= p < s.len() && s[p] == ',' && depth_at(s, p) == 0 implies exists|i: int|
                0 <= i < cs.len() && cs[i] == p by {
                if p == s.len() - 1 {
                    assert(cs[cs.len() - 1] == p);
                } else {
                    let i = choose|i: int| 0 <= i < cuts(t).len() && cuts(t)[i] == p;
                    assert(cs[i] == p);
                }
            }
        } else {
            assert(cs == cuts(t));
            assert forall|p: int|
                0 <= p < s.len() && s[p] == ',' && depth_at(s, p) == 0 implies exists|i: int|
                0 <= i < cs.len() && cs[i] == p by {
                if p == s.len() - 1 {
                    assert(depth_at(s, s.len() - 1) == bdepth(t));
                    assert(false);
                } else {
                    let i = choose|i: int| 0 <= i < cuts(t).len() && cuts(t)[i] == p;
                    assert(cs[i] == p);
                }
            }
        }
    }
}

/// Finds the depth-zero commas of `[a, b)` in `v`, or reports a
/// malformed interior.
#[verifier::loop_isolation(false)]
pub fn scan_cuts(v: &Vec<char>, a: usize, b: usize) -> (r: Option<Vec<usize>>)
    requires
        a <= b <= v@.len(),
    ensures
        match r {
            Option::Some(cs) => {
                &&& ok_interior(v@.subrange(a as int, b as int))
                &&& cs@.len() == cuts(v@.subrange(a as int, b as int)).len()
                &&& forall|i: int|
                    0 <= i < cs@.len() ==> #[trigger] cs@[i] == cuts(
                        v@.subrange(a as int, b as int),
                    )[i] + a
            },
            Option::None => !ok_interior(v@.subrange(a as int, b as int)),
        },
{
    let ghost s = v@.subrange(a as int, b as int);
    let mut cs: Vec<usize> = Vec::new();
    let mut depth: usize = 0;
    let mut i: usize = a;
    proof {
        assert(s.take(0) =~= Seq::<char>::empty());
    }
    while i < b
        invariant
            a <= i <= b,
            depth == depth_at(s, i - a),
            depth <= i - a,
            forall|k: int| 0 <= k <= i - a ==> depth_at(s, k) >= 0,
            cs@.len() == cuts(s.take(i - a)).len(),
            forall|k: int| 0 <= k < cs@.len() ==> #[trigger] cs@[k] == cuts(s.take(i - a))[k] + a,
        decreases b - i,
    {
        let c = v[i];
        let ghost pre = s.take(i - a);
        let ghost cur = s.take(i - a + 1);
        proof {
            assert(cur.drop_last() =~= pre);
            assert(cur.last() == s[i - a]);
            assert(s[i - a] == c);
            assert(bdepth(cur) == bdepth(pre) + ch_delta(c));
        }
        if c == '{' || c == '[' || c == '<' {
            depth = depth + 1;
        } else if c == '}' || c == ']' || c == '>' {
            if depth == 0 {
                proof {
                    assert(depth_at(s, i - a + 1) == -1);
                    assert(!ok_interior(s));
                }
                return None;
            }
            depth = depth - 1;
        } else if c == ',' && depth == 0 {
            cs.push(i);
            proof {
                assert(cuts(cur) =~= cuts(pre).push(cur.len() - 1));
            }
        }
        i = i + 1;
    }
    if depth != 0 {
        proof {
            assert(s.take(b - a) =~= s);
            assert(bdepth(s) != 0);
        }
        return None;
    }
    proof {
        assert(s.take(b - a) =~= s);
    }
    Some(cs)
}

} // verus!
