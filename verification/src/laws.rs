//! The round-trip law: rendering a value in canonical literal form
//! and parsing the rendered text yields the value back. It holds of
//! every canonical value whose embedded text and keys are tame: text
//! inside an aggregate carries balanced brackets and no top-level
//! comma, and a key besides carries no colon, no surrounding
//! whitespace and no surrounding quote — the parts of a rendered
//! fragment that the splitting and pair-division read.

use vstd::prelude::*;
use crate::chars::{
    char_eq_ic, eq_ic, is_ws, qtrim_back, qtrim_front, strip_quotes, trim, trim_back, trim_front,
};
use crate::model::{
    canon, elems_sorted, keys_sorted, lemma_map_insert_at_end, lemma_set_insert_at_end, ValModel,
};
use crate::numtext::{
    dec_digits, first_ch, int_lit, is_digit, lemma_dec_digits, lemma_first_ch_at,
    lemma_int_lit_first, lemma_int_round_trip, render_int,
};
use crate::parse::{map_fold, parse_items, parse_lit, parse_pairs, set_fold};
use crate::render::{render_items, render_lit, render_pair, render_pairs};
use crate::split::{bdepth, ch_delta, cuts, depth_at, lemma_cuts, ok_interior, seg_count, seg_end,
    seg_start, segment};

verus! {

/// Bracket depth adds over concatenation.
pub proof fn lemma_bdepth_concat(a: Seq<char>, b: Seq<char>)
    ensures
        bdepth(a + b) == bdepth(a) + bdepth(b),
    decreases b.len(),
{
    if b.len() == 0 {
        assert(a + b =~= a);
    } else {
        lemma_bdepth_concat(a, b.drop_last());
        assert((a + b).drop_last() =~= a + b.drop_last());
        assert((a + b).last() == b.last());
    }
}

/// Text that can stand inside an aggregate: bracket depth never
/// negative, zero at the end, and no comma at depth zero.
pub open spec fn emb_ok(s: Seq<char>) -> bool {
    (forall|i: int| 0 <= i <= s.len() ==> depth_at(s, i) >= 0) && bdepth(s) == 0 && (forall|i: int|
        0 <= i < s.len() && s[i] == ',' ==> depth_at(s, i) != 0)
}

/// A sequence of ascending positions that are exactly the depth-zero
/// commas is the cut sequence.
pub proof fn lemma_cuts_unique(s: Seq<char>, ps: Seq<int>)
    requires
        forall|i: int| 0 <= i < ps.len() ==> 0 <= #[trigger] ps[i] < s.len(),
        forall|i: int, j: int| 0 <= i < j < ps.len() ==> ps[i] < ps[j],
        forall|i: int| 0 <= i < ps.len() ==> s[#[trigger] ps[i]] == ',' && depth_at(s, ps[i]) == 0,
        forall|p: int|
            0 <= p < s.len() && s[p] == ',' && depth_at(s, p) == 0 ==> exists|i: int|
                0 <= i < ps.len() && ps[i] == p,
    ensures
        cuts(s) == ps,
    decreases s.len(),
{
    if s.len() == 0 {
        if ps.len() > 0 {
            assert(0 <= ps[0] < s.len());
        }
        assert(cuts(s) =~= ps);
    } else {
        let t = s.drop_last();
        assert(forall|i: int| 0 <= i < t.len() ==> t[i] == s[i]);
        assert(forall|i: int|
            0 <= i <= t.len() ==> #[trigger] t.take(i) =~= s.take(i) && depth_at(t, i) == depth_at(
                s,
                i,
            ));
        assert(s.take(s.len() - 1) =~= t);
        if s.last() == ',' && bdepth(t) == 0 {
            assert(depth_at(s, s.len() - 1) == 0);
            let wi = choose|i: int| 0 <= i < ps.len() && ps[i] == s.len() - 1;
            assert(wi == ps.len() - 1) by {
                if wi < ps.len() - 1 {
                    assert(ps[wi] < ps[ps.len() - 1]);
                }
            }
            let pt = ps.drop_last();
            assert(forall|i: int| 0 <= i < pt.len() ==> pt[i] == ps[i]);
            assert forall|p: int|
                0 <= p < t.len() && t[p] == ',' && depth_at(t, p) == 0 implies exists|i: int|
                0 <= i < pt.len() && pt[i] == p by {
                assert(s[p] == ',' && depth_at(s, p) == 0);
                let i = choose|i: int| 0 <= i < ps.len() && ps[i] == p;
                assert(i != ps.len() - 1);
                assert(pt[i] == p);
            }
            assert forall|i: int| 0 <= i < pt.len() implies 0 <= #[trigger] pt[i] < t.len() by {
                assert(pt[i] == ps[i]);
                assert(ps[i] < ps[ps.len() - 1]);
            }
            lemma_cuts_unique(t, pt);
            assert(cuts(s) == cuts(t).push(s.len() - 1));
            assert(cuts(s) =~= ps);
        } else {
            assert forall|i: int| 0 <= i < ps.len() implies 0 <= #[trigger] ps[i] < t.len() by {
                if ps[i] == s.len() - 1 {
                    assert(s[ps[i]] == ',' && depth_at(s, ps[i]) == 0);
                    assert(depth_at(s, s.len() - 1) == bdepth(t));
                }
            }
            assert forall|p: int|
                0 <= p < t.len() && t[p] == ',' && depth_at(t, p) == 0 implies exists|i: int|
                0 <= i < ps.len() && ps[i] == p by {
                assert(s[p] == ',' && depth_at(s, p) == 0);
            }
            lemma_cuts_unique(t, ps);
            assert(cuts(s) == cuts(t));
        }
    }
}

/// A piece that splitting hands back unharmed: tame bracket profile,
/// nonempty, no surrounding whitespace.
pub open spec fn seg_ok(s: Seq<char>) -> bool {
    emb_ok(s) && s.len() >= 1 && !is_ws(s[0]) && !is_ws(s.last())
}

/// Segment texts joined with `", "`, as the renderers do.
pub open spec fn join_segs(segs: Seq<Seq<char>>) -> Seq<char>
    decreases segs.len(),
{
    if segs.len() == 0 {
        Seq::empty()
    } else if segs.len() == 1 {
        segs[0]
    } else {
        join_segs(segs.drop_last()) + seq![',', ' '] + segs.last()
    }
}

/// Trimming text with no surrounding whitespace changes nothing.
pub proof fn lemma_trim_noop(s: Seq<char>)
    requires
        s.len() == 0 || (!is_ws(s[0]) && !is_ws(s.last())),
    ensures
        trim(s) == s,
{
    assert(trim_front(s) == s);
    assert(trim_back(s) == s);
}

/// Splitting a `", "` join of well-behaved segments recovers them:
/// the interior is well formed, there are as many split segments as
/// joined ones, and each trims back to its segment.
#[verifier::rlimit(80)]
pub proof fn lemma_join_split(segs: Seq<Seq<char>>)
    requires
        segs.len() >= 1,
        forall|i: int| 0 <= i < segs.len() ==> seg_ok(#[trigger] segs[i]),
    ensures
        ok_interior(join_segs(segs)),
        join_segs(segs).len() >= 1,
        !is_ws(join_segs(segs)[0]),
        !is_ws(join_segs(segs).last()),
        seg_count(join_segs(segs)) == segs.len(),
        forall|k: int|
            0 <= k < segs.len() ==> trim(segment(join_segs(segs), k)) == #[trigger] segs[k],
    decreases segs.len(),
{
    let j = join_segs(segs);
    if segs.len() == 1 {
        assert(j == segs[0]);
        assert(seg_ok(segs[0]));
        lemma_cuts_unique(j, Seq::<int>::empty());
        assert(seg_count(j) == 1);
        assert(segment(j, 0) =~= j);
        lemma_trim_noop(j);
    } else {
        let rest = segs.drop_last();
        assert(forall|i: int| 0 <= i < rest.len() ==> rest[i] == segs[i]);
        lemma_join_split(rest);
        let pre = join_segs(rest);
        let last = segs.last();
        let sep = seq![',', ' '];
        assert(j == pre + sep + last);
        lemma_cuts(pre);
        assert(bdepth(pre) == 0);
        assert forall|i: int| 0 <= i <= pre.len() implies #[trigger] j.take(i) =~= pre.take(i) by {
        }
        assert(forall|i: int|
            0 <= i <= pre.len() ==> #[trigger] depth_at(j, i) == depth_at(pre, i));
        assert(j[pre.len() as int] == ',');
        assert(j[pre.len() as int + 1] == ' ');
        assert(j.take(pre.len() as int + 1) =~= pre + seq![',']);
        assert(j.take(pre.len() as int + 2) =~= pre + sep);
        lemma_bdepth_concat(pre, seq![',']);
        lemma_bdepth_concat(pre, sep);
        let c1 = seq![','];
        assert(c1.drop_last() =~= Seq::<char>::empty());
        assert(bdepth(c1.drop_last()) == 0);
        assert(c1.last() == ',');
        assert(ch_delta(',') == 0);
        assert(bdepth(c1) == 0);
        assert(sep.drop_last() =~= c1);
        assert(bdepth(sep.drop_last()) == bdepth(c1));
        assert(sep.last() == ' ');
        assert(bdepth(sep) == 0);
        assert(j.take(pre.len() as int) =~= pre);
        assert(depth_at(j, pre.len() as int) == 0);
        assert forall|t: int| 0 <= t <= last.len() implies depth_at(j, pre.len() as int + 2 + t)
            == depth_at(last, t) by {
            assert(j.take(pre.len() as int + 2 + t) =~= (pre + sep) + last.take(t));
            lemma_bdepth_concat(pre + sep, last.take(t));
        }
        assert forall|t: int| 0 <= t < last.len() implies j[pre.len() as int + 2 + t] == last[t] by {}
        assert(j.len() == pre.len() + 2 + last.len());
        assert forall|i: int| 0 <= i <= j.len() implies depth_at(j, i) >= 0 by {
            if i <= pre.len() {
            } else if i == pre.len() + 1 {
                assert(depth_at(j, i) == bdepth(pre + seq![',']));
            } else {
                assert(depth_at(j, i) == depth_at(last, i - pre.len() - 2));
            }
        }
        assert(bdepth(j) == 0) by {
            assert(j.take(j.len() as int) =~= j);
            assert(depth_at(j, j.len() as int) == depth_at(last, last.len() as int));
            assert(last.take(last.len() as int) =~= last);
        }
        let ps = cuts(pre).push(pre.len() as int);
        assert forall|i: int| 0 <= i < ps.len() implies 0 <= #[trigger] ps[i] < j.len() by {
            if i < ps.len() - 1 {
                assert(ps[i] == cuts(pre)[i]);
            }
        }
        assert forall|i: int| 0 <= i < ps.len() implies s_comma_at(j, ps[i]) by {
            if i < ps.len() - 1 {
                assert(ps[i] == cuts(pre)[i]);
                assert(pre[ps[i]] == ',' && depth_at(pre, ps[i]) == 0);
                assert(j[ps[i]] == pre[ps[i]]);
            } else {
                assert(ps[i] == pre.len());
            }
        }
        assert forall|p: int| 0 <= p < j.len() && j[p] == ',' && depth_at(j, p) == 0 implies exists|
            i: int,
        | 0 <= i < ps.len() && ps[i] == p by {
            if p < pre.len() {
                assert(pre[p] == ',' && depth_at(pre, p) == 0);
                let i = choose|i: int| 0 <= i < cuts(pre).len() && cuts(pre)[i] == p;
                assert(ps[i] == p);
            } else if p == pre.len() {
                assert(ps[ps.len() - 1] == p);
            } else if p == pre.len() + 1 {
                assert(j[p] == ' ');
            } else {
                let t = p - pre.len() - 2;
                assert(j[p] == last[t]);
                assert(depth_at(j, p) == depth_at(last, t));
                assert(emb_ok(last));
            }
        }
        assert forall|i: int, k: int| 0 <= i < k < ps.len() implies ps[i] < ps[k] by {
            if k < ps.len() - 1 {
                assert(ps[i] == cuts(pre)[i]);
                assert(ps[k] == cuts(pre)[k]);
            } else {
                if i < ps.len() - 1 {
                    assert(ps[i] == cuts(pre)[i]);
                }
            }
        }
        assert forall|i: int| 0 <= i < ps.len() implies j[#[trigger] ps[i]] == ','
            && depth_at(j, ps[i]) == 0 by {
            assert(s_comma_at(j, ps[i]));
        }
        lemma_cuts_unique(j, ps);
        assert(seg_count(j) == segs.len());
        assert forall|k: int| 0 <= k < segs.len() implies trim(segment(j, k)) == #[trigger] segs[k] by {
            if k < segs.len() - 1 {
                let lo = seg_start(j, k);
                let hi = seg_end(j, k);
                assert(lo == seg_start(pre, k));
                assert(hi == seg_end(pre, k)) by {
                    if k < cuts(pre).len() {
                        assert(cuts(j)[k] == cuts(pre)[k]);
                    } else {
                        assert(k == cuts(pre).len());
                        assert(cuts(j)[k] == pre.len());
                    }
                }
                lemma_cuts(j);
                crate::parse::lemma_segment_bounds(pre, k);
                assert(segment(j, k) =~= segment(pre, k));
                assert(trim(segment(pre, k)) == rest[k]);
            } else {
                assert(seg_start(j, k) == pre.len() as int + 1);
                assert(seg_end(j, k) == j.len() as int);
                assert(segment(j, k) =~= seq![' '] + last);
                assert((seq![' '] + last).subrange(1, (seq![' '] + last).len() as int) =~= last);
                assert(trim_front(seq![' '] + last) == trim_front(last));
                assert(trim_front(last) == last);
                assert(trim_back(last) == last);
            }
        }
        assert(j[0] == pre[0]);
        assert(j.last() == last.last());
    }
}

/// Whether position `p` holds a depth-zero comma.
pub open spec fn s_comma_at(s: Seq<char>, p: int) -> bool {
    0 <= p < s.len() && s[p] == ',' && depth_at(s, p) == 0
}

/// Text content that survives quoting: no quote at either end.
pub open spec fn text_ok(s: Seq<char>) -> bool {
    s.len() > 0 ==> (s[0] != '"' && s.last() != '"')
}

/// A key that pair division hands back unharmed: tame bracket
/// profile, no colon, no surrounding whitespace or quote.
pub open spec fn key_ok(k: Seq<char>) -> bool {
    emb_ok(k) && (forall|i: int| 0 <= i < k.len() ==> k[i] != ':') && (k.len() > 0 ==> (!is_ws(
        k[0],
    ) && !is_ws(k.last()) && k[0] != '"' && k.last() != '"'))
}

/// Text held directly in an aggregate must itself be tame.
pub open spec fn text_emb(v: ValModel) -> bool {
    match v {
        ValModel::Text(s) => emb_ok(s),
        _ => true,
    }
}

/// A value whose rendered form survives re-parsing: text content has
/// no quote at its ends; text and keys inside aggregates carry
/// balanced brackets and no top-level comma; keys besides carry no
/// colon and no surrounding whitespace or quote.
pub open spec fn tame(v: ValModel) -> bool
    decreases v,
{
    match v {
        ValModel::Text(s) => text_ok(s),
        ValModel::Integer(_) => true,
        ValModel::Boolean(_) => true,
        ValModel::Mapping(ps) => forall|i: int|
            0 <= i < ps.len() ==> key_ok(ps[i].0) && tame(#[trigger] ps[i].1) && text_emb(
                ps[i].1,
            ),
        ValModel::Sequence(es) => forall|i: int|
            0 <= i < es.len() ==> tame(#[trigger] es[i]) && text_emb(es[i]),
        ValModel::UniqueSet(es) => forall|i: int|
            0 <= i < es.len() ==> tame(#[trigger] es[i]) && text_emb(es[i]),
    }
}

/// A sequence of bracket-neutral, comma-free characters is tame.
pub proof fn lemma_neutral_emb(s: Seq<char>)
    requires
        forall|i: int| 0 <= i < s.len() ==> ch_delta(#[trigger] s[i]) == 0 && s[i] != ',',
    ensures
        emb_ok(s),
    decreases s.len(),
{
    if s.len() == 0 {
        assert(forall|i: int| 0 <= i <= s.len() ==> s.take(i) =~= s);
    } else {
        let t = s.drop_last();
        assert(forall|i: int| 0 <= i < t.len() ==> t[i] == s[i]);
        lemma_neutral_emb(t);
        assert(s.take(s.len() - 1) =~= t);
        assert(bdepth(s) == bdepth(t) + ch_delta(s.last()));
        assert forall|i: int| 0 <= i <= s.len() implies depth_at(s, i) >= 0 by {
            if i < s.len() {
                assert(s.take(i) =~= t.take(i));
                assert(depth_at(t, i) >= 0);
            } else {
                assert(s.take(i) =~= s);
            }
        }
        assert forall|i: int| 0 <= i < s.len() && s[i] == ',' implies depth_at(s, i) != 0 by {
            assert(ch_delta(s[i]) == 0 && s[i] != ',');
        }
    }
}

/// Tame texts concatenate to tame text.
pub proof fn lemma_emb_concat(a: Seq<char>, b: Seq<char>)
    requires
        emb_ok(a),
        emb_ok(b),
    ensures
        emb_ok(a + b),
{
    let c = a + b;
    lemma_bdepth_concat(a, b);
    assert forall|i: int| 0 <= i <= c.len() implies depth_at(c, i) >= 0 by {
        if i <= a.len() {
            assert(c.take(i) =~= a.take(i));
            assert(depth_at(a, i) >= 0);
        } else {
            assert(c.take(i) =~= a + b.take(i - a.len()));
            lemma_bdepth_concat(a, b.take(i - a.len()));
            assert(depth_at(b, i - a.len()) >= 0);
        }
    }
    assert forall|i: int| 0 <= i < c.len() && c[i] == ',' implies depth_at(c, i) != 0 by {
        if i < a.len() {
            assert(c.take(i) =~= a.take(i));
            assert(c[i] == a[i]);
            assert(depth_at(a, i) != 0);
        } else {
            assert(c.take(i) =~= a + b.take(i - a.len()));
            lemma_bdepth_concat(a, b.take(i - a.len()));
            assert(c[i] == b[i - a.len()]);
            assert(depth_at(b, i - a.len()) != 0);
        }
    }
    assert(bdepth(c) == 0);
}

/// The folded mapping of an already-sorted entry sequence is itself.
pub proof fn lemma_map_fold_sorted_id(ps: Seq<(Seq<char>, ValModel)>)
    requires
        keys_sorted(ps),
    ensures
        crate::parse::map_fold(ps) == ps,
    decreases ps.len(),
{
    if ps.len() > 0 {
        let pre = ps.drop_last();
        assert(forall|i: int| 0 <= i < pre.len() ==> pre[i] == ps[i]);
        lemma_map_fold_sorted_id(pre);
        assert(forall|i: int|
            0 <= i < pre.len() ==> crate::chars::str_cmp(#[trigger] pre[i].0, ps.last().0)
                == crate::chars::Cmp::Lt);
        lemma_map_insert_at_end(pre, ps.last().0, ps.last().1);
        assert(pre.push((ps.last().0, ps.last().1)) =~= ps);
    }
}

/// The folded set of an already-sorted element sequence is itself.
pub proof fn lemma_set_fold_sorted_id(es: Seq<ValModel>)
    requires
        elems_sorted(es),
    ensures
        crate::parse::set_fold(es) == es,
    decreases es.len(),
{
    if es.len() > 0 {
        let pre = es.drop_last();
        assert(forall|i: int| 0 <= i < pre.len() ==> pre[i] == es[i]);
        lemma_set_fold_sorted_id(pre);
        assert(forall|i: int|
            0 <= i < pre.len() ==> crate::model::val_cmp(#[trigger] pre[i], es.last())
                == crate::chars::Cmp::Lt);
        lemma_set_insert_at_end(pre, es.last());
        assert(pre.push(es.last()) =~= es);
    }
}

/// Quoting and then stripping the quotes gives the text back.
pub proof fn lemma_strip_quotes_wrap(s: Seq<char>)
    requires
        text_ok(s),
    ensures
        strip_quotes(seq!['"'] + s + seq!['"']) == s,
{
    let r = seq!['"'] + s + seq!['"'];
    assert(r[0] == '"');
    assert(r.subrange(1, r.len() as int) =~= s + seq!['"']);
    if s.len() == 0 {
        let q1 = seq!['"'];
        assert(s + q1 =~= q1);
        assert(q1.subrange(1, 1) =~= Seq::<char>::empty());
        assert(qtrim_front(Seq::<char>::empty()) == Seq::<char>::empty());
        assert(qtrim_front(q1) == qtrim_front(q1.subrange(1, 1)));
        assert(qtrim_front(q1) == Seq::<char>::empty());
        assert(qtrim_front(r) == qtrim_front(r.subrange(1, r.len() as int)));
        assert(r.subrange(1, r.len() as int) == q1);
        assert(qtrim_front(r) == Seq::<char>::empty());
        assert(qtrim_back(Seq::<char>::empty()) == Seq::<char>::empty());
        assert(strip_quotes(r) =~= s);
    } else {
        let sq = s + seq!['"'];
        assert(sq[0] == s[0]);
        assert(s[0] != '"');
        assert(qtrim_front(sq) == sq);
        assert(qtrim_front(r) == qtrim_front(r.subrange(1, r.len() as int)));
        assert(r.subrange(1, r.len() as int) == sq);
        assert(qtrim_front(r) == sq);
        assert(sq.last() == '"');
        assert(sq.drop_last() =~= s);
        assert(qtrim_back(sq) == qtrim_back(sq.drop_last()));
        assert(qtrim_back(sq.drop_last()) == qtrim_back(s));
        assert(s.last() != '"');
        assert(qtrim_back(s) == s);
    }
}

/// The quote-strip of quote-clean text is itself.
pub proof fn lemma_strip_noop(s: Seq<char>)
    requires
        s.len() == 0 || (s[0] != '"' && s.last() != '"'),
    ensures
        strip_quotes(s) == s,
{
    assert(qtrim_front(s) == s);
    assert(qtrim_back(s) == s);
}

/// The rendered texts of mapping entries, in order.
pub open spec fn pair_texts(ps: Seq<(Seq<char>, ValModel)>) -> Seq<Seq<char>> {
    Seq::new(ps.len(), |i: int| render_pair(ps[i]))
}

/// The rendered texts of sequence or set elements, in order.
pub open spec fn item_texts(es: Seq<ValModel>) -> Seq<Seq<char>> {
    Seq::new(es.len(), |i: int| render_lit(es[i]))
}

/// The pair renderer is the `", "` join of the entry texts.
pub proof fn lemma_render_pairs_join(ps: Seq<(Seq<char>, ValModel)>)
    requires
        ps.len() >= 1,
    ensures
        render_pairs(ps) == join_segs(pair_texts(ps)),
    decreases ps.len(),
{
    if ps.len() == 1 {
    } else {
        lemma_render_pairs_join(ps.drop_last());
        assert(pair_texts(ps).drop_last() =~= pair_texts(ps.drop_last()));
        assert(pair_texts(ps).last() == render_pair(ps.last()));
    }
}

/// The item renderer is the `", "` join of the element texts.
pub proof fn lemma_render_items_join(es: Seq<ValModel>)
    requires
        es.len() >= 1,
    ensures
        render_items(es) == join_segs(item_texts(es)),
    decreases es.len(),
{
    if es.len() == 1 {
    } else {
        lemma_render_items_join(es.drop_last());
        assert(item_texts(es).drop_last() =~= item_texts(es.drop_last()));
        assert(item_texts(es).last() == render_lit(es.last()));
    }
}

/// Wrapping a well-formed interior in one bracket pair gives tame
/// text.
pub proof fn lemma_bracket_wrap(inner: Seq<char>, o: char, c: char)
    requires
        ok_interior(inner),
        ch_delta(o) == 1,
        ch_delta(c) == -1,
    ensures
        emb_ok(seq![o] + inner + seq![c]),
{
    let w = seq![o] + inner + seq![c];
    assert(seq![o].drop_last() =~= Seq::<char>::empty());
    assert(bdepth(seq![o].drop_last()) == 0);
    assert(seq![o].last() == o);
    assert(bdepth(seq![o]) == 1);
    assert forall|i: int| 0 <= i <= w.len() implies depth_at(w, i) >= 0 by {
        if i == 0 {
            assert(w.take(0) =~= Seq::<char>::empty());
        } else if i <= 1 + inner.len() {
            assert(w.take(i) =~= seq![o] + inner.take(i - 1));
            lemma_bdepth_concat(seq![o], inner.take(i - 1));
            assert(depth_at(inner, i - 1) >= 0);
        } else {
            assert(w.take(i) =~= w);
            assert(w.drop_last() =~= seq![o] + inner);
            lemma_bdepth_concat(seq![o], inner);
        }
    }
    assert(bdepth(w) == 0) by {
        assert(w.drop_last() =~= seq![o] + inner);
        lemma_bdepth_concat(seq![o], inner);
    }
    assert forall|i: int| 0 <= i < w.len() && w[i] == ',' implies depth_at(w, i) != 0 by {
        assert(o != ',' && c != ',');
        assert(1 <= i <= inner.len());
        assert(w.take(i) =~= seq![o] + inner.take(i - 1));
        lemma_bdepth_concat(seq![o], inner.take(i - 1));
        assert(depth_at(inner, i - 1) >= 0);
    }
}

/// The empty interior is well formed.
pub proof fn lemma_empty_interior()
    ensures
        ok_interior(Seq::<char>::empty()),
{
    assert forall|i: int| 0 <= i <= 0 implies depth_at(Seq::<char>::empty(), i) >= 0 by {
        assert(Seq::<char>::empty().take(i) =~= Seq::<char>::empty());
    }
}

/// The rendered text of a tame canonical value is a segment that
/// splitting hands back unharmed.
pub proof fn lemma_seg_ok(v: ValModel)
    requires
        canon(v),
        tame(v),
        text_emb(v),
    ensures
        seg_ok(render_lit(v)),
    decreases v, 0int, 0int,
{
    let r = render_lit(v);
    match v {
        ValModel::Text(s) => {
            let q1 = seq!['"'];
            assert(emb_ok(q1)) by {
                lemma_neutral_emb(q1);
            }
            lemma_emb_concat(q1, s);
            lemma_emb_concat(q1 + s, q1);
            assert(r =~= (q1 + s) + q1);
            assert(r[0] == '"');
            assert(r.last() == '"');
            assert(!is_ws('"'));
        },
        ValModel::Integer(n) => {
            lemma_int_text_ok(n);
        },
        ValModel::Boolean(b) => {
            reveal_strlit("true");
            reveal_strlit("false");
            if b {
                lemma_neutral_emb("true"@);
            } else {
                lemma_neutral_emb("false"@);
            }
        },
        ValModel::Mapping(ps) => {
            if ps.len() == 0 {
                lemma_empty_interior();
                lemma_bracket_wrap(Seq::<char>::empty(), '{', '}');
                assert(seq!['{'] + render_pairs(ps) + seq!['}'] =~= seq!['{']
                    + Seq::<char>::empty() + seq!['}']);
                assert(r[0] == '{');
                assert(r.last() == '}');
            } else {
                let texts = pair_texts(ps);
                assert forall|i: int| 0 <= i < texts.len() implies seg_ok(#[trigger] texts[i]) by {
                    lemma_pair_text_ok(ps[i]);
                }
                lemma_render_pairs_join(ps);
                lemma_join_split(texts);
                lemma_bracket_wrap(render_pairs(ps), '{', '}');
                assert(r[0] == '{');
                assert(r.last() == '}');
            }
        },
        ValModel::Sequence(es) => {
            lemma_items_seg_ok(es, '[', ']');
        },
        ValModel::UniqueSet(es) => {
            lemma_items_seg_ok(es, '<', '>');
        },
    }
}

/// The bracketed item join of tame canonical elements is a tame
/// segment (shared by sequences and sets).
pub proof fn lemma_items_seg_ok(es: Seq<ValModel>, o: char, c: char)
    requires
        forall|i: int| 0 <= i < es.len() ==> canon(#[trigger] es[i]),
        forall|i: int| 0 <= i < es.len() ==> tame(#[trigger] es[i]) && text_emb(es[i]),
        ch_delta(o) == 1,
        ch_delta(c) == -1,
        !is_ws(o),
        !is_ws(c),
    ensures
        seg_ok(seq![o] + render_items(es) + seq![c]),
    decreases es, 1int, 0int,
{
    let r = seq![o] + render_items(es) + seq![c];
    if es.len() == 0 {
        lemma_empty_interior();
        lemma_bracket_wrap(Seq::<char>::empty(), o, c);
        assert(r =~= seq![o] + Seq::<char>::empty() + seq![c]);
    } else {
        let texts = item_texts(es);
        assert forall|i: int| 0 <= i < texts.len() implies seg_ok(#[trigger] texts[i]) by {
            lemma_seg_ok(es[i]);
        }
        lemma_render_items_join(es);
        lemma_join_split(texts);
        lemma_bracket_wrap(render_items(es), o, c);
    }
    assert(r[0] == o);
    assert(r.last() == c);
}

/// One rendered mapping entry is a tame segment.
pub proof fn lemma_pair_text_ok(p: (Seq<char>, ValModel))
    requires
        key_ok(p.0),
        canon(p.1),
        tame(p.1),
        text_emb(p.1),
    ensures
        seg_ok(render_pair(p)),
    decreases p.1, 1int, 0int,
{
    lemma_seg_ok(p.1);
    let sep = seq![':', ' '];
    lemma_neutral_emb(sep);
    lemma_emb_concat(p.0, sep);
    lemma_emb_concat(p.0 + sep, render_lit(p.1));
    let t = render_pair(p);
    assert(t =~= (p.0 + sep) + render_lit(p.1));
    if p.0.len() == 0 {
        assert(t[0] == ':');
        assert(!is_ws(':'));
    } else {
        assert(t[0] == p.0[0]);
    }
    assert(t.last() == render_lit(p.1).last());
}

/// Re-parsing the joined item texts from `j` on yields the elements
/// from `j` on.
pub proof fn lemma_items_reparse(es: Seq<ValModel>, j: int)
    requires
        es.len() >= 1,
        0 <= j <= es.len(),
        forall|i: int| 0 <= i < es.len() ==> canon(#[trigger] es[i]),
        forall|i: int| 0 <= i < es.len() ==> tame(#[trigger] es[i]) && text_emb(es[i]),
    ensures
        parse_items(join_segs(item_texts(es)), j) == Some(es.skip(j)),
    decreases es, 2int, es.len() - j,
{
    let texts = item_texts(es);
    assert forall|i: int| 0 <= i < texts.len() implies seg_ok(#[trigger] texts[i]) by {
        lemma_seg_ok(es[i]);
    }
    lemma_join_split(texts);
    let interior = join_segs(texts);
    if j == es.len() {
        assert(es.skip(j) =~= Seq::<ValModel>::empty());
    } else {
        assert(trim(segment(interior, j)) == texts[j]);
        assert(texts[j] == render_lit(es[j]));
        lemma_parse_render_round_trip(es[j]);
        lemma_items_reparse(es, j + 1);
        assert(seq![es[j]] + es.skip(j + 1) =~= es.skip(j));
    }
}

/// Re-parsing the joined entry texts from `j` on yields the entries
/// from `j` on.
pub proof fn lemma_pairs_reparse(ps: Seq<(Seq<char>, ValModel)>, j: int)
    requires
        ps.len() >= 1,
        0 <= j <= ps.len(),
        forall|i: int|
            0 <= i < ps.len() ==> key_ok((#[trigger] ps[i]).0) && canon(ps[i].1) && tame(ps[i].1)
                && text_emb(ps[i].1),
    ensures
        parse_pairs(join_segs(pair_texts(ps)), j) == Some(ps.skip(j)),
    decreases ps, 2int, ps.len() - j,
{
    let texts = pair_texts(ps);
    assert forall|i: int| 0 <= i < texts.len() implies seg_ok(#[trigger] texts[i]) by {
        lemma_pair_text_ok(ps[i]);
    }
    lemma_join_split(texts);
    let interior = join_segs(texts);
    if j == ps.len() {
        assert(ps.skip(j) =~= Seq::<(Seq<char>, ValModel)>::empty());
    } else {
        let key = ps[j].0;
        let rv = render_lit(ps[j].1);
        let sep = seq![':', ' '];
        let t = trim(segment(interior, j));
        assert(t == texts[j]);
        assert(t == render_pair(ps[j]));
        assert(t =~= key + sep + rv);
        lemma_seg_ok(ps[j].1);
        assert forall|k: int| 0 <= k < key.len() implies t[k] != ':' by {
            assert(t[k] == key[k]);
        }
        assert(t[key.len() as int] == ':');
        lemma_first_ch_at(t, ':', ':', key.len() as int);
        let c = first_ch(t, ':', ':');
        assert(c == key.len() as int);
        assert(rv.len() >= 1);
        assert(c < t.len());
        assert(t.subrange(0, c) =~= key);
        lemma_trim_noop(key);
        lemma_strip_noop(key);
        assert(strip_quotes(trim(t.subrange(0, c))) == key);
        assert(t.subrange(c + 1, t.len() as int) =~= seq![' '] + rv);
        let tail = seq![' '] + rv;
        assert(is_ws(' '));
        assert(tail.subrange(1, tail.len() as int) =~= rv);
        assert(trim_front(tail) == trim_front(rv));
        assert(trim_front(rv) == rv);
        assert(trim_back(rv) == rv);
        assert(trim(t.subrange(c + 1, t.len() as int)) == rv);
        lemma_parse_render_round_trip(ps[j].1);
        lemma_pairs_reparse(ps, j + 1);
        assert((key, ps[j].1) == ps[j]);
        assert(seq![ps[j]] + ps.skip(j + 1) =~= ps.skip(j));
    }
}

/// The round-trip law: rendering a canonical, tame value in the
/// literal grammar and parsing the rendered text yields the value
/// back — the canonical form is a fixed point of parse and render.
///
/// Parsing always yields canonical values, so for parsed values only
/// tameness is an extra premise. A parsed value can fall outside
/// `tame` only through exotic text: a mapping key holding a bracket,
/// or embedded text whose brackets do not balance, as arise from
/// literals such as a pair whose first colon sits inside braces.
#[verifier::rlimit(100)]
pub proof fn lemma_parse_render_round_trip(v: ValModel)
    requires
        canon(v),
        tame(v),
    ensures
        parse_lit(render_lit(v)) == Some(v),
    decreases v, 1int, 0int,
{
    let r = render_lit(v);
    reveal_strlit("true");
    reveal_strlit("false");
    match v {
        ValModel::Text(s) => {
            let q1 = seq!['"'];
            assert(r =~= q1 + s + q1);
            assert(r[0] == '"');
            assert(r.last() == '"');
            if int_lit(r) is Some {
                lemma_int_lit_first(r);
                assert(false);
            }
            if eq_ic(r, "true"@) {
                assert(char_eq_ic(r[0], "true"@[0]));
                assert(false);
            }
            if eq_ic(r, "false"@) {
                assert(char_eq_ic(r[0], "false"@[0]));
                assert(false);
            }
            lemma_strip_quotes_wrap(s);
        },
        ValModel::Integer(n) => {
            lemma_int_text_ok(n);
            lemma_int_round_trip(n);
        },
        ValModel::Boolean(b) => {
            if b {
                let r2 = "true"@;
                if int_lit(r2) is Some {
                    lemma_int_lit_first(r2);
                    assert(false);
                }
                assert(eq_ic(r2, "true"@)) by {
                    assert(forall|i: int|
                        0 <= i < r2.len() ==> char_eq_ic(#[trigger] r2[i], r2[i]));
                }
            } else {
                let r2 = "false"@;
                if int_lit(r2) is Some {
                    lemma_int_lit_first(r2);
                    assert(false);
                }
                assert(!eq_ic(r2, "true"@));
                assert(eq_ic(r2, "false"@)) by {
                    assert(forall|i: int|
                        0 <= i < r2.len() ==> char_eq_ic(#[trigger] r2[i], r2[i]));
                }
            }
        },
        ValModel::Mapping(ps) => {
            assert forall|i: int| 0 <= i < ps.len() implies key_ok((#[trigger] ps[i]).0) && canon(
                ps[i].1,
            ) && tame(ps[i].1) && text_emb(ps[i].1) by {
                assert(tame(ps[i].1) && key_ok(ps[i].0) && text_emb(ps[i].1));
                assert(canon(ps[i].1));
            }
            let inner = render_pairs(ps);
            assert(r =~= seq!['{'] + inner + seq!['}']);
            assert(r[0] == '{');
            assert(r.last() == '}');
            assert(r.len() >= 2);
            lemma_front_not_scalar(r);
            assert(r.subrange(1, r.len() - 1) =~= inner);
            if ps.len() == 0 {
                lemma_empty_interior();
                assert(trim_front(inner) == inner);
                assert(trim_back(inner) == inner);
                assert(trim(inner).len() == 0);
                assert(ps =~= Seq::<(Seq<char>, ValModel)>::empty());
            } else {
                let texts = pair_texts(ps);
                assert forall|i: int| 0 <= i < texts.len() implies seg_ok(#[trigger] texts[i]) by {
                    lemma_pair_text_ok(ps[i]);
                }
                lemma_render_pairs_join(ps);
                lemma_join_split(texts);
                lemma_trim_noop(inner);
                assert(trim(inner).len() != 0);
                lemma_pairs_reparse(ps, 0);
                assert(ps.skip(0) =~= ps);
                lemma_map_fold_sorted_id(ps);
            }
        },
        ValModel::Sequence(es) => {
            let inner = render_items(es);
            assert(r =~= seq!['['] + inner + seq![']']);
            assert(r[0] == '[');
            assert(r.last() == ']');
            assert(r.len() >= 2);
            lemma_front_not_scalar(r);
            assert(r.subrange(1, r.len() - 1) =~= inner);
            if es.len() == 0 {
                lemma_empty_interior();
                assert(trim_front(inner) == inner);
                assert(trim_back(inner) == inner);
                assert(trim(inner).len() == 0);
                assert(es =~= Seq::<ValModel>::empty());
            } else {
                lemma_render_items_join(es);
                let texts = item_texts(es);
                assert forall|i: int| 0 <= i < texts.len() implies seg_ok(#[trigger] texts[i]) by {
                    lemma_seg_ok(es[i]);
                }
                lemma_join_split(texts);
                lemma_trim_noop(inner);
                assert(trim(inner).len() != 0);
                lemma_items_reparse(es, 0);
                assert(es.skip(0) =~= es);
            }
        },
        ValModel::UniqueSet(es) => {
            let inner = render_items(es);
            assert(r =~= seq!['<'] + inner + seq!['>']);
            assert(r[0] == '<');
            assert(r.last() == '>');
            assert(r.len() >= 2);
            lemma_front_not_scalar(r);
            assert(r.subrange(1, r.len() - 1) =~= inner);
            if es.len() == 0 {
                lemma_empty_interior();
                assert(trim_front(inner) == inner);
                assert(trim_back(inner) == inner);
                assert(trim(inner).len() == 0);
                assert(es =~= Seq::<ValModel>::empty());
            } else {
                lemma_render_items_join(es);
                let texts = item_texts(es);
                assert forall|i: int| 0 <= i < texts.len() implies seg_ok(#[trigger] texts[i]) by {
                    lemma_seg_ok(es[i]);
                }
                lemma_join_split(texts);
                lemma_trim_noop(inner);
                assert(trim(inner).len() != 0);
                lemma_items_reparse(es, 0);
                assert(es.skip(0) =~= es);
                lemma_set_fold_sorted_id(es);
            }
        },
    }
}

/// A fragment opening with a bracket is no integer, no boolean and no
/// quoted text.
pub proof fn lemma_front_not_scalar(r: Seq<char>)
    requires
        r.len() >= 1,
        r[0] == '{' || r[0] == '[' || r[0] == '<',
    ensures
        int_lit(r) is None,
        !eq_ic(r, "true"@),
        !eq_ic(r, "false"@),
        r[0] != '"',
{
    reveal_strlit("true");
    reveal_strlit("false");
    if int_lit(r) is Some {
        lemma_int_lit_first(r);
        assert(false);
    }
    if eq_ic(r, "true"@) {
        assert(char_eq_ic(r[0], "true"@[0]));
        assert(false);
    }
    if eq_ic(r, "false"@) {
        assert(char_eq_ic(r[0], "false"@[0]));
        assert(false);
    }
}

/// Whatever the parser accepts and keeps tame, the renderer writes
/// back to a literal that parses to the same value: the corollary of
/// the round-trip law at the text level.
pub proof fn lemma_accepted_round_trip(t: Seq<char>, v: ValModel)
    requires
        parse_lit(t) == Some(v),
        tame(v),
    ensures
        parse_lit(render_lit(v)) == Some(v),
{
    crate::parse::lemma_parse_canon(t);
    lemma_parse_render_round_trip(v);
}

/// Mapping key uniqueness: strictly sorted keys are pairwise
/// distinct, so a canonical mapping holds at most one entry per key.
pub proof fn lemma_sorted_keys_unique(ps: Seq<(Seq<char>, ValModel)>)
    requires
        keys_sorted(ps),
    ensures
        forall|i: int, j: int| 0 <= i < j < ps.len() ==> (#[trigger] ps[i].0) != (#[trigger] ps[j].0),
{
    assert forall|i: int, j: int| 0 <= i < j < ps.len() implies (#[trigger] ps[i].0) != (
    #[trigger] ps[j].0) by {
        crate::chars::lemma_str_cmp_eq(ps[i].0, ps[j].0);
    }
}

/// Set de-duplication: strictly sorted elements are pairwise
/// distinct, so a canonical set never holds two structurally equal
/// elements.
pub proof fn lemma_sorted_elems_distinct(es: Seq<ValModel>)
    requires
        elems_sorted(es),
    ensures
        forall|i: int, j: int| 0 <= i < j < es.len() ==> (#[trigger] es[i]) != (#[trigger] es[j]),
{
    assert forall|i: int, j: int| 0 <= i < j < es.len() implies (#[trigger] es[i]) != (
    #[trigger] es[j]) by {
        crate::model::lemma_val_cmp_eq(es[i], es[j]);
    }
}

/// Every text the parser yields is tame: quote-stripping leaves no
/// quote at either end.
pub proof fn lemma_parse_text_tame(t: Seq<char>)
    ensures
        match parse_lit(t) {
            Some(v) => v is Text ==> tame(v),
            None => true,
        },
{
    crate::chars::lemma_strip_quotes_clean(t);
}

/// The round-trip law for scalars, with no extra premise: whatever
/// text, integer or boolean the parser yields, its rendered literal
/// parses back to it.
pub proof fn lemma_scalar_round_trip(t: Seq<char>, v: ValModel)
    requires
        parse_lit(t) == Some(v),
        v is Text || v is Integer || v is Boolean,
    ensures
        parse_lit(render_lit(v)) == Some(v),
{
    crate::parse::lemma_parse_canon(t);
    lemma_parse_text_tame(t);
    lemma_parse_render_round_trip(v);
}

/// Store writes bind one key: after an insertion, the inserted key
/// looks up to the new value, and every other key's binding is
/// unchanged — what `set` and `update` do to the store.
pub proof fn lemma_write_binds_one_key(
    m: Seq<(Seq<char>, ValModel)>,
    k: Seq<char>,
    v: ValModel,
    k2: Seq<char>,
)
    ensures
        crate::model::map_find(crate::model::map_insert(m, k, v), k2) == if k2 == k {
            Some(v)
        } else {
            crate::model::map_find(m, k2)
        },
{
    crate::model::lemma_map_insert_find(m, k, v, k2);
}

/// Determinism of parsing: one literal denotes at most one value.
/// This holds because the parser's contract ties its result to a
/// function of the input text alone.
pub proof fn lemma_parse_deterministic(s: Seq<char>, v1: ValModel, v2: ValModel)
    requires
        parse_lit(s) == Some(v1),
        parse_lit(s) == Some(v2),
    ensures
        v1 == v2,
{
}

/// Determinism of rendering: equal values render to identical text,
/// in both the literal and the display form.
pub proof fn lemma_render_deterministic(a: ValModel, b: ValModel)
    requires
        a == b,
    ensures
        render_lit(a) == render_lit(b),
        crate::render::disp_lit(a) == crate::render::disp_lit(b),
{
}

/// The decimal text of an integer is a tame segment.
pub proof fn lemma_int_text_ok(n: int)
    ensures
        seg_ok(render_int(n)),
{
    lemma_dec_digits((if n < 0 {
        -n
    } else {
        n
    }) as nat);
    let d = dec_digits((if n < 0 {
        -n
    } else {
        n
    }) as nat);
    assert forall|i: int| 0 <= i < d.len() implies ch_delta(#[trigger] d[i]) == 0 && d[i] != ','
        && !is_ws(d[i]) by {
        assert(is_digit(d[i]));
    }
    lemma_neutral_emb(d);
    if n < 0 {
        let m1 = seq!['-'];
        lemma_neutral_emb(m1);
        lemma_emb_concat(m1, d);
        assert(render_int(n)[0] == '-');
        assert(render_int(n).last() == d.last());
        assert(!is_ws('-'));
        assert(!is_ws(d.last()));
    } else {
        assert(!is_ws(d[0]));
        assert(!is_ws(d.last()));
    }
}

} // verus!
