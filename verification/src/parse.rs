//! The literal parser: a single text fragment decoded into a value.
//! The decoding rules are tried in a fixed priority order, first match
//! wins: a signed 32-bit integer; `true` or `false` (any case); a
//! quoted text; a `{...}` mapping of `key: value` pairs; a `[...]`
//! sequence; a `<...>` unique set; and finally bare text, unless the
//! fragment has the shape of a float literal, which is rejected —
//! floats are unsupported, and malformed and unsupported literals are
//! indistinguishable failures by design.

use vstd::prelude::*;
use crate::chars::{
    copy_range, eq_ic, lemma_trim_len, range_eq_ic_str, strip_quotes, strip_quotes_range, trim,
    trim_range,
};
use crate::model::{
    canon, elems_sorted, keys_sorted, lemma_map_insert_content, lemma_map_insert_sorted,
    lemma_set_insert_content, lemma_set_insert_sorted, map_insert, set_insert, ValModel,
};
use crate::numtext::{
    first_ch, first_ch_range, int_lit, is_float_lit, is_float_range, lemma_first_ch,
    parse_i32_range,
};
use crate::split::{lemma_cuts, ok_interior, scan_cuts, seg_count, seg_end, seg_start, segment};
use crate::value::{
    elem_models, lemma_elem_models, map_insert_value, pair_models, set_insert_value, val_model,
    Value,
};

verus! {

/// The mapping built by inserting the pairs left to right: last write
/// wins, keys kept sorted.
pub open spec fn map_fold(pairs: Seq<(Seq<char>, ValModel)>) -> Seq<(Seq<char>, ValModel)>
    decreases pairs.len(),
{
    if pairs.len() == 0 {
        Seq::empty()
    } else {
        map_insert(map_fold(pairs.drop_last()), pairs.last().0, pairs.last().1)
    }
}

/// The set built by inserting the items left to right: duplicates
/// dropped, elements kept sorted.
pub open spec fn set_fold(items: Seq<ValModel>) -> Seq<ValModel>
    decreases items.len(),
{
    if items.len() == 0 {
        Seq::empty()
    } else {
        set_insert(set_fold(items.drop_last()), items.last())
    }
}

/// Decodes one literal fragment, `None` on any malformed or
/// unsupported literal.
pub open spec fn parse_lit(s: Seq<char>) -> Option<ValModel>
    decreases s.len(), 0int, 0int,
{
    if s.len() == 0 {
        None
    } else if int_lit(s) is Some {
        match int_lit(s) {
            Some(n) => Some(ValModel::Integer(n)),
            None => None,
        }
    } else if eq_ic(s, "true"@) {
        Some(ValModel::Boolean(true))
    } else if eq_ic(s, "false"@) {
        Some(ValModel::Boolean(false))
    } else if s[0] == '"' && s[s.len() - 1] == '"' {
        Some(ValModel::Text(strip_quotes(s)))
    } else if s.len() >= 2 && s[0] == '{' && s[s.len() - 1] == '}' {
        parse_mapping(s.subrange(1, s.len() - 1))
    } else if s.len() >= 2 && s[0] == '[' && s[s.len() - 1] == ']' {
        parse_list(s.subrange(1, s.len() - 1))
    } else if s.len() >= 2 && s[0] == '<' && s[s.len() - 1] == '>' {
        parse_set(s.subrange(1, s.len() - 1))
    } else if is_float_lit(s) {
        None
    } else {
        Some(ValModel::Text(strip_quotes(s)))
    }
}

/// Decodes a mapping interior: split into pairs, each split on its
/// first colon, keys trimmed and quote-stripped, values decoded
/// recursively; duplicate keys collapse to the last value.
pub open spec fn parse_mapping(interior: Seq<char>) -> Option<ValModel>
    decreases interior.len(), 2int, 0int,
{
    if !ok_interior(interior) {
        None
    } else if trim(interior).len() == 0 {
        Some(ValModel::Mapping(Seq::empty()))
    } else {
        match parse_pairs(interior, 0) {
            Some(pairs) => Some(ValModel::Mapping(map_fold(pairs))),
            None => None,
        }
    }
}

/// Decodes a sequence interior: split into elements, each decoded
/// recursively, insertion order kept.
pub open spec fn parse_list(interior: Seq<char>) -> Option<ValModel>
    decreases interior.len(), 2int, 0int,
{
    if !ok_interior(interior) {
        None
    } else if trim(interior).len() == 0 {
        Some(ValModel::Sequence(Seq::empty()))
    } else {
        match parse_items(interior, 0) {
            Some(items) => Some(ValModel::Sequence(items)),
            None => None,
        }
    }
}

/// Decodes a unique-set interior: like a sequence, but the results
/// are collected with duplicates dropped into the canonical order.
pub open spec fn parse_set(interior: Seq<char>) -> Option<ValModel>
    decreases interior.len(), 2int, 0int,
{
    if !ok_interior(interior) {
        None
    } else if trim(interior).len() == 0 {
        Some(ValModel::UniqueSet(Seq::empty()))
    } else {
        match parse_items(interior, 0) {
            Some(items) => Some(ValModel::UniqueSet(set_fold(items))),
            None => None,
        }
    }
}

/// The raw key/value pairs of the split segments from `j` on, in
/// order, before duplicate collapse.
pub open spec fn parse_pairs(interior: Seq<char>, j: int) -> Option<
    Seq<(Seq<char>, ValModel)>,
>
    decreases interior.len(), 1int, seg_count(interior) - j,
    when 0 <= j <= seg_count(interior)
    via parse_pairs_dec
{
    if j == seg_count(interior) {
        Some(Seq::empty())
    } else {
        let t = trim(segment(interior, j));
        let c = first_ch(t, ':', ':');
        if c == t.len() {
            None
        } else {
            let key = strip_quotes(trim(t.subrange(0, c)));
            let vtxt = trim(t.subrange(c + 1, t.len() as int));
            match parse_lit(vtxt) {
                Some(v) => match parse_pairs(interior, j + 1) {
                    Some(rest) => Some(seq![(key, v)] + rest),
                    None => None,
                },
                None => None,
            }
        }
    }
}

#[via_fn]
proof fn parse_pairs_dec(interior: Seq<char>, j: int) {
    if 0 <= j < seg_count(interior) {
        lemma_segment_bounds(interior, j);
        let t = trim(segment(interior, j));
        lemma_trim_len(segment(interior, j));
        let c = first_ch(t, ':', ':');
        lemma_first_ch(t, ':', ':');
        if c < t.len() {
            lemma_trim_len(t.subrange(c + 1, t.len() as int));
        }
    }
}

/// The items of the split segments from `j` on, decoded recursively,
/// in order.
pub open spec fn parse_items(interior: Seq<char>, j: int) -> Option<Seq<ValModel>>
    decreases interior.len(), 1int, seg_count(interior) - j,
    when 0 <= j <= seg_count(interior)
    via parse_items_dec
{
    if j == seg_count(interior) {
        Some(Seq::empty())
    } else {
        let vtxt = trim(segment(interior, j));
        match parse_lit(vtxt) {
            Some(v) => match parse_items(interior, j + 1) {
                Some(rest) => Some(seq![v] + rest),
                None => None,
            },
            None => None,
        }
    }
}

#[via_fn]
proof fn parse_items_dec(interior: Seq<char>, j: int) {
    if 0 <= j < seg_count(interior) {
        lemma_segment_bounds(interior, j);
        lemma_trim_len(segment(interior, j));
    }
}

/// Each split segment sits inside the interior.
pub proof fn lemma_segment_bounds(s: Seq<char>, j: int)
    requires
        0 <= j < seg_count(s),
    ensures
        0 <= seg_start(s, j) <= seg_end(s, j) <= s.len(),
        segment(s, j).len() <= s.len(),
{
    lemma_cuts(s);
}

/// The folded mapping of canonical values is canonical: keys sorted,
/// values canonical.
pub proof fn lemma_map_fold_canon(pairs: Seq<(Seq<char>, ValModel)>)
    requires
        forall|i: int| 0 <= i < pairs.len() ==> canon(#[trigger] pairs[i].1),
    ensures
        keys_sorted(map_fold(pairs)),
        forall|i: int| 0 <= i < map_fold(pairs).len() ==> canon(#[trigger] map_fold(pairs)[i].1),
    decreases pairs.len(),
{
    if pairs.len() > 0 {
        let pre = pairs.drop_last();
        assert(forall|i: int| 0 <= i < pre.len() ==> pre[i] == pairs[i]);
        lemma_map_fold_canon(pre);
        let f = map_fold(pre);
        lemma_map_insert_sorted(f, pairs.last().0, pairs.last().1);
        let r = map_insert(f, pairs.last().0, pairs.last().1);
        assert forall|i: int| 0 <= i < r.len() implies canon(#[trigger] r[i].1) by {
            lemma_map_insert_content(f, pairs.last().0, pairs.last().1, i);
            if r[i] != (pairs.last().0, pairs.last().1) {
                let m = choose|m: int| 0 <= m < f.len() && f[m] == r[i];
                assert(canon(f[m].1));
            } else {
                assert(canon(pairs.last().1));
            }
        }
    }
}

/// The folded set of canonical values is canonical: elements sorted
/// and canonical.
pub proof fn lemma_set_fold_canon(items: Seq<ValModel>)
    requires
        forall|i: int| 0 <= i < items.len() ==> canon(#[trigger] items[i]),
    ensures
        elems_sorted(set_fold(items)),
        forall|i: int| 0 <= i < set_fold(items).len() ==> canon(#[trigger] set_fold(items)[i]),
    decreases items.len(),
{
    if items.len() > 0 {
        let pre = items.drop_last();
        assert(forall|i: int| 0 <= i < pre.len() ==> pre[i] == items[i]);
        lemma_set_fold_canon(pre);
        let f = set_fold(pre);
        lemma_set_insert_sorted(f, items.last());
        let r = set_insert(f, items.last());
        assert forall|i: int| 0 <= i < r.len() implies canon(#[trigger] r[i]) by {
            assert(crate::model::has_elem(r, r[i]));
            lemma_set_insert_content(f, items.last(), r[i]);
            if r[i] != items.last() {
                let m = choose|m: int| 0 <= m < f.len() && f[m] == r[i];
                assert(canon(f[m]));
            } else {
                assert(canon(items.last()));
            }
        }
    }
}

/// Whatever the parser accepts is canonical.
pub proof fn lemma_parse_canon(s: Seq<char>)
    ensures
        match parse_lit(s) {
            Some(v) => canon(v),
            None => true,
        },
    decreases s.len(), 0int, 0int,
{
    if s.len() == 0 {
    } else if int_lit(s) is Some {
    } else if eq_ic(s, "true"@) {
    } else if eq_ic(s, "false"@) {
    } else if s[0] == '"' && s[s.len() - 1] == '"' {
    } else if s.len() >= 2 && s[0] == '{' && s[s.len() - 1] == '}' {
        lemma_parse_mapping_canon(s.subrange(1, s.len() - 1));
    } else if s.len() >= 2 && s[0] == '[' && s[s.len() - 1] == ']' {
        let interior = s.subrange(1, s.len() - 1);
        lemma_parse_items_canon(interior, 0);
        match parse_items(interior, 0) {
            Some(items) => {
                assert(canon(ValModel::Sequence(items)));
            },
            None => {},
        }
    } else if s.len() >= 2 && s[0] == '<' && s[s.len() - 1] == '>' {
        let interior = s.subrange(1, s.len() - 1);
        lemma_parse_items_canon(interior, 0);
        match parse_items(interior, 0) {
            Some(items) => {
                lemma_set_fold_canon(items);
                assert(canon(ValModel::UniqueSet(set_fold(items))));
            },
            None => {},
        }
    } else {
    }
}

/// The canon lemma for mapping interiors.
pub proof fn lemma_parse_mapping_canon(interior: Seq<char>)
    ensures
        match parse_mapping(interior) {
            Some(v) => canon(v),
            None => true,
        },
    decreases interior.len(), 2int, 0int,
{
    if ok_interior(interior) && trim(interior).len() != 0 {
        lemma_parse_pairs_canon(interior, 0);
        match parse_pairs(interior, 0) {
            Some(pairs) => {
                lemma_map_fold_canon(pairs);
                assert(canon(ValModel::Mapping(map_fold(pairs))));
            },
            None => {},
        }
    }
}

/// The values of all raw pairs are canonical.
pub proof fn lemma_parse_pairs_canon(interior: Seq<char>, j: int)
    requires
        0 <= j <= seg_count(interior),
    ensures
        match parse_pairs(interior, j) {
            Some(pairs) => forall|i: int| 0 <= i < pairs.len() ==> canon(#[trigger] pairs[i].1),
            None => true,
        },
    decreases interior.len(), 1int, seg_count(interior) - j,
{
    if j < seg_count(interior) {
        lemma_segment_bounds(interior, j);
        lemma_trim_len(segment(interior, j));
        lemma_first_ch(trim(segment(interior, j)), ':', ':');
        let t = trim(segment(interior, j));
        let c = first_ch(t, ':', ':');
        if c < t.len() {
            lemma_trim_len(t.subrange(c + 1, t.len() as int));
            let vtxt = trim(t.subrange(c + 1, t.len() as int));
            lemma_parse_canon(vtxt);
            lemma_parse_pairs_canon(interior, j + 1);
        }
    }
}

/// All parsed items are canonical.
pub proof fn lemma_parse_items_canon(interior: Seq<char>, j: int)
    requires
        0 <= j <= seg_count(interior),
    ensures
        match parse_items(interior, j) {
            Some(items) => forall|i: int| 0 <= i < items.len() ==> canon(#[trigger] items[i]),
            None => true,
        },
    decreases interior.len(), 1int, seg_count(interior) - j,
{
    if j < seg_count(interior) {
        lemma_segment_bounds(interior, j);
        lemma_trim_len(segment(interior, j));
        let vtxt = trim(segment(interior, j));
        lemma_parse_canon(vtxt);
        lemma_parse_items_canon(interior, j + 1);
    }
}

/// Combines an already-decoded prefix of items with the rest.
pub open spec fn items_combine(prefix: Seq<ValModel>, rest: Option<Seq<ValModel>>) -> Option<
    Seq<ValModel>,
> {
    match rest {
        Some(r) => Some(prefix + r),
        None => None,
    }
}

/// Combines an already-decoded prefix of pairs with the rest.
pub open spec fn pairs_combine(
    prefix: Seq<(Seq<char>, ValModel)>,
    rest: Option<Seq<(Seq<char>, ValModel)>>,
) -> Option<Seq<(Seq<char>, ValModel)>> {
    match rest {
        Some(r) => Some(prefix + r),
        None => None,
    }
}

/// Decodes the fragment held in `[a, b)` of `v`, exactly as
/// [`parse_lit`] describes.
#[verifier::loop_isolation(false)]
pub fn parse_range(v: &Vec<char>, a: usize, b: usize) -> (r: Option<Value>)
    requires
        a <= b <= v@.len(),
    ensures
        match r {
            Option::Some(val) => parse_lit(v@.subrange(a as int, b as int)) == Some(val@),
            Option::None => parse_lit(v@.subrange(a as int, b as int)) is None,
        },
    decreases b - a, 0int,
{
    let ghost s = v@.subrange(a as int, b as int);
    if a == b {
        return None;
    }
    match parse_i32_range(v, a, b) {
        Option::Some(n) => {
            return Some(Value::Integer(n));
        },
        Option::None => {},
    }
    if range_eq_ic_str(v, a, b, "true") {
        return Some(Value::Boolean(true));
    }
    if range_eq_ic_str(v, a, b, "false") {
        return Some(Value::Boolean(false));
    }
    let c0 = v[a];
    let clast = v[b - 1];
    proof {
        assert(s[0] == v@[a as int]);
        assert(s[s.len() - 1] == v@[b - 1]);
    }
    if c0 == '"' && clast == '"' {
        let q = strip_quotes_range(v, a, b);
        let txt = copy_range(v, q.0, q.1);
        return Some(Value::Text(txt));
    }
    if b - a >= 2 && c0 == '{' && clast == '}' {
        proof {
            assert(v@.subrange(a + 1, b - 1) =~= s.subrange(1, s.len() - 1));
        }
        return parse_mapping_range(v, a + 1, b - 1);
    }
    if b - a >= 2 && c0 == '[' && clast == ']' {
        proof {
            assert(v@.subrange(a + 1, b - 1) =~= s.subrange(1, s.len() - 1));
        }
        match parse_items_range(v, a + 1, b - 1) {
            Option::Some(vals) => {
                return Some(Value::Sequence(vals));
            },
            Option::None => {
                return None;
            },
        }
    }
    if b - a >= 2 && c0 == '<' && clast == '>' {
        proof {
            assert(v@.subrange(a + 1, b - 1) =~= s.subrange(1, s.len() - 1));
        }
        match parse_items_range(v, a + 1, b - 1) {
            Option::Some(mut vals) => {
                let ghost orig = vals@;
                let ghost items = elem_models(orig);
                let mut es: Vec<Value> = Vec::new();
                proof {
                    lemma_elem_models(orig);
                    assert(elem_models(es@) =~= set_fold(items.take(0)));
                    assert(vals@ =~= orig.skip(0));
                }
                let n = vals.len();
                let mut k: usize = 0;
                while k < n
                    invariant
                        k <= n,
                        n == orig.len(),
                        vals@ == orig.skip(k as int),
                        elem_models(es@) == set_fold(items.take(k as int)),
                    decreases n - k,
                {
                    let x = vals.remove(0);
                    proof {
                        assert(orig.skip(k as int)[0] == orig[k as int]);
                        assert(val_model(x) == items[k as int]);
                        assert(items.take(k + 1).drop_last() =~= items.take(k as int));
                        assert(items.take(k + 1).last() == items[k as int]);
                        assert(vals@ =~= orig.skip(k + 1));
                    }
                    set_insert_value(&mut es, x);
                    k = k + 1;
                }
                proof {
                    assert(items.take(n as int) =~= items);
                }
                return Some(Value::UniqueSet(es));
            },
            Option::None => {
                return None;
            },
        }
    }
    if is_float_range(v, a, b) {
        return None;
    }
    let q = strip_quotes_range(v, a, b);
    let txt = copy_range(v, q.0, q.1);
    Some(Value::Text(txt))
}

/// Decodes a mapping interior held in `[a, b)` of `v`, exactly as
/// [`parse_mapping`] describes.
#[verifier::loop_isolation(false)]
#[verifier::rlimit(60)]
fn parse_mapping_range(v: &Vec<char>, a: usize, b: usize) -> (r: Option<Value>)
    requires
        a <= b <= v@.len(),
        b - a < usize::MAX,
    ensures
        match r {
            Option::Some(val) => parse_mapping(v@.subrange(a as int, b as int)) == Some(val@),
            Option::None => parse_mapping(v@.subrange(a as int, b as int)) is None,
        },
    decreases b - a, 2int,
{
    let ghost interior = v@.subrange(a as int, b as int);
    let cs = match scan_cuts(v, a, b) {
        Option::Some(cs) => cs,
        Option::None => {
            return None;
        },
    };
    proof {
        lemma_cuts(interior);
    }
    let t0 = trim_range(v, a, b);
    if t0.0 == t0.1 {
        return Some(Value::Mapping(Vec::new()));
    }
    let nseg = cs.len() + 1;
    let mut entries: Vec<(Vec<char>, Value)> = Vec::new();
    let ghost mut prefix: Seq<(Seq<char>, ValModel)> = Seq::empty();
    let mut j: usize = 0;
    proof {
        assert(pairs_combine(prefix, parse_pairs(interior, 0)) == parse_pairs(interior, 0));
        assert(pair_models(entries@) =~= map_fold(prefix));
    }
    while j < nseg
        invariant
            j <= nseg,
            nseg == seg_count(interior),
            parse_pairs(interior, 0) == pairs_combine(prefix, parse_pairs(interior, j as int)),
            pair_models(entries@) == map_fold(prefix),
        decreases nseg - j,
    {
        let st: usize = if j == 0 {
            a
        } else {
            cs[j - 1] + 1
        };
        let en: usize = if j == cs.len() {
            b
        } else {
            cs[j]
        };
        proof {
            assert(st - a == seg_start(interior, j as int));
            assert(en - a == seg_end(interior, j as int));
            assert(a <= st <= en <= b);
            assert(v@.subrange(st as int, en as int) =~= segment(interior, j as int));
        }
        let ts = trim_range(v, st, en);
        let ghost t = trim(segment(interior, j as int));
        proof {
            assert(v@.subrange(ts.0 as int, ts.1 as int) == t);
        }
        let c = first_ch_range(v, ts.0, ts.1, ':', ':');
        if ts.0 + c == ts.1 {
            proof {
                assert(c as int == t.len());
                assert(parse_pairs(interior, j as int) is None);
            }
            return None;
        }
        proof {
            lemma_first_ch(t, ':', ':');
            assert(v@.subrange(ts.0 as int, ts.0 + c) =~= t.subrange(0, c as int));
        }
        let kt = trim_range(v, ts.0, ts.0 + c);
        let kq = strip_quotes_range(v, kt.0, kt.1);
        let key = copy_range(v, kq.0, kq.1);
        let ghost speckey = strip_quotes(trim(t.subrange(0, c as int)));
        proof {
            assert(key@ == speckey);
            assert(v@.subrange(ts.0 + c + 1, ts.1 as int) =~= t.subrange(c + 1, t.len() as int));
        }
        let vt = trim_range(v, ts.0 + c + 1, ts.1);
        let ghost vtxt = trim(t.subrange(c + 1, t.len() as int));
        proof {
            assert(v@.subrange(vt.0 as int, vt.1 as int) == vtxt);
        }
        let val = match parse_range(v, vt.0, vt.1) {
            Option::Some(val) => val,
            Option::None => {
                proof {
                    assert(parse_pairs(interior, j as int) is None);
                }
                return None;
            },
        };
        let ghost mval = val@;
        proof {
            assert(parse_pairs(interior, j as int) == pairs_combine(
                seq![(speckey, mval)],
                parse_pairs(interior, j + 1),
            ));
            match parse_pairs(interior, j + 1) {
                Some(rest) => {
                    assert(prefix + (seq![(speckey, mval)] + rest) =~= prefix.push(
                        (speckey, mval),
                    ) + rest);
                },
                None => {},
            }
        }
        map_insert_value(&mut entries, key, val);
        proof {
            let np = prefix.push((speckey, mval));
            assert(np.drop_last() =~= prefix);
            assert(map_fold(np) == map_insert(map_fold(prefix), speckey, mval));
            prefix = np;
        }
        j = j + 1;
    }
    proof {
        assert(parse_pairs(interior, nseg as int) == Some(Seq::<(Seq<char>, ValModel)>::empty()));
        assert(prefix + Seq::<(Seq<char>, ValModel)>::empty() =~= prefix);
        assert(trim(interior).len() != 0);
    }
    Some(Value::Mapping(entries))
}

/// Decodes the items of a sequence or set interior held in `[a, b)`
/// of `v`: the values of the split segments, in order.
#[verifier::loop_isolation(false)]
fn parse_items_range(v: &Vec<char>, a: usize, b: usize) -> (r: Option<Vec<Value>>)
    requires
        a <= b <= v@.len(),
        b - a < usize::MAX,
    ensures
        match r {
            Option::Some(vals) => ok_interior(v@.subrange(a as int, b as int)) && (trim(
                v@.subrange(a as int, b as int),
            ).len() == 0 ==> vals@.len() == 0) && (trim(v@.subrange(a as int, b as int)).len()
                != 0 ==> parse_items(v@.subrange(a as int, b as int), 0) == Some(
                elem_models(vals@),
            )),
            Option::None => !ok_interior(v@.subrange(a as int, b as int)) || (trim(
                v@.subrange(a as int, b as int),
            ).len() != 0 && parse_items(v@.subrange(a as int, b as int), 0) is None),
        },
    decreases b - a, 1int,
{
    let ghost interior = v@.subrange(a as int, b as int);
    let cs = match scan_cuts(v, a, b) {
        Option::Some(cs) => cs,
        Option::None => {
            return None;
        },
    };
    proof {
        lemma_cuts(interior);
    }
    let t0 = trim_range(v, a, b);
    if t0.0 == t0.1 {
        let empty_vals: Vec<Value> = Vec::new();
        return Some(empty_vals);
    }
    let nseg = cs.len() + 1;
    let mut vals: Vec<Value> = Vec::new();
    let ghost mut prefix: Seq<ValModel> = Seq::empty();
    let mut j: usize = 0;
    proof {
        assert(items_combine(prefix, parse_items(interior, 0)) == parse_items(interior, 0));
        assert(elem_models(vals@) =~= prefix);
    }
    while j < nseg
        invariant
            j <= nseg,
            nseg == seg_count(interior),
            parse_items(interior, 0) == items_combine(prefix, parse_items(interior, j as int)),
            elem_models(vals@) == prefix,
        decreases nseg - j,
    {
        let st: usize = if j == 0 {
            a
        } else {
            cs[j - 1] + 1
        };
        let en: usize = if j == cs.len() {
            b
        } else {
            cs[j]
        };
        proof {
            assert(st - a == seg_start(interior, j as int));
            assert(en - a == seg_end(interior, j as int));
            assert(a <= st <= en <= b);
            assert(v@.subrange(st as int, en as int) =~= segment(interior, j as int));
        }
        let ts = trim_range(v, st, en);
        let ghost vtxt = trim(segment(interior, j as int));
        proof {
            assert(v@.subrange(ts.0 as int, ts.1 as int) == vtxt);
        }
        let val = match parse_range(v, ts.0, ts.1) {
            Option::Some(val) => val,
            Option::None => {
                proof {
                    assert(parse_items(interior, j as int) is None);
                }
                return None;
            },
        };
        let ghost mval = val@;
        proof {
            assert(parse_items(interior, j as int) == items_combine(
                seq![mval],
                parse_items(interior, j + 1),
            ));
            match parse_items(interior, j + 1) {
                Some(rest) => {
                    assert(prefix + (seq![mval] + rest) =~= prefix.push(mval) + rest);
                },
                None => {},
            }
        }
        proof {
            assert((vals@.push(val)).drop_last() =~= vals@);
        }
        vals.push(val);
        proof {
            prefix = prefix.push(mval);
            assert(elem_models(vals@) =~= prefix);
        }
        j = j + 1;
    }
    proof {
        assert(parse_items(interior, nseg as int) == Some(Seq::<ValModel>::empty()));
        assert(prefix + Seq::<ValModel>::empty() =~= prefix);
    }
    Some(vals)
}

/// Decodes a whole literal fragment given as text. `None` on any
/// malformed or unsupported literal; whatever comes back is in
/// canonical form.
pub fn parse_value(input: &str) -> (r: Option<Value>)
    ensures
        match r {
            Option::Some(val) => parse_lit(input@) == Some(val@) && canon(val@),
            Option::None => parse_lit(input@) is None,
        },
{
    let chars = crate::chars::str_to_chars(input);
    let n = chars.len();
    proof {
        assert(chars@.subrange(0, n as int) =~= input@);
        lemma_parse_canon(input@);
    }
    parse_range(&chars, 0, n)
}

} // verus!
