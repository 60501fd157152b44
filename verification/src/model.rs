//! The mathematical model of values: a tagged union of scalars and
//! nested aggregates, with a total order over it, sorted insertion for
//! mappings and sets, and the well-formedness that parsing establishes.
//! Contracts elsewhere in the crate speak of this model; the
//! executable representation lives in [`crate::value`].

use vstd::prelude::*;
use crate::chars::{str_cmp, Cmp, lemma_str_cmp_eq, lemma_str_cmp_antisym, lemma_str_cmp_trans};

verus! {

/// A value as mathematics: text, integer, boolean, or one of three
/// aggregates. A mapping is a sequence of key/value pairs held in
/// ascending key order; a unique set is a sequence of distinct elements
/// held in ascending value order; a sequence keeps insertion order.
#[verifier::ext_equal]
pub enum ValModel {
    Text(Seq<char>),
    Integer(int),
    Boolean(bool),
    Mapping(Seq<(Seq<char>, ValModel)>),
    Sequence(Seq<ValModel>),
    UniqueSet(Seq<ValModel>),
}

/// Precedence of the variants in the total order:
/// Text < Integer < Boolean < Mapping < Sequence < UniqueSet.
pub open spec fn rank(v: ValModel) -> int {
    match v {
        ValModel::Text(_) => 0,
        ValModel::Integer(_) => 1,
        ValModel::Boolean(_) => 2,
        ValModel::Mapping(_) => 3,
        ValModel::Sequence(_) => 4,
        ValModel::UniqueSet(_) => 5,
    }
}

/// The total order over values: variants by precedence, scalars by
/// their natural order, aggregates element-wise (for mappings,
/// key-then-value pairwise).
pub open spec fn val_cmp(a: ValModel, b: ValModel) -> Cmp
    decreases a, 0int, 0int,
{
    if rank(a) < rank(b) {
        Cmp::Lt
    } else if rank(a) > rank(b) {
        Cmp::Gt
    } else {
        match (a, b) {
            (ValModel::Text(x), ValModel::Text(y)) => str_cmp(x, y),
            (ValModel::Integer(x), ValModel::Integer(y)) => if x < y {
                Cmp::Lt
            } else if x > y {
                Cmp::Gt
            } else {
                Cmp::Eq
            },
            (ValModel::Boolean(x), ValModel::Boolean(y)) => if x == y {
                Cmp::Eq
            } else if !x {
                Cmp::Lt
            } else {
                Cmp::Gt
            },
            (ValModel::Mapping(x), ValModel::Mapping(y)) => pairs_cmp(x, y),
            (ValModel::Sequence(x), ValModel::Sequence(y)) => list_cmp(x, y),
            (ValModel::UniqueSet(x), ValModel::UniqueSet(y)) => list_cmp(x, y),
            _ => Cmp::Eq,
        }
    }
}

/// Element-wise lexicographic order on sequences of values.
pub open spec fn list_cmp(x: Seq<ValModel>, y: Seq<ValModel>) -> Cmp
    decreases x, 1int, 0int,
{
    if x.len() == 0 && y.len() == 0 {
        Cmp::Eq
    } else if x.len() == 0 {
        Cmp::Lt
    } else if y.len() == 0 {
        Cmp::Gt
    } else if val_cmp(x[0], y[0]) == Cmp::Eq {
        list_cmp(x.subrange(1, x.len() as int), y.subrange(1, y.len() as int))
    } else {
        val_cmp(x[0], y[0])
    }
}

/// Order on a single mapping entry: by key, then by value.
pub open spec fn pair_cmp(p: (Seq<char>, ValModel), q: (Seq<char>, ValModel)) -> Cmp
    decreases p.1, 0int, 1int,
{
    if str_cmp(p.0, q.0) != Cmp::Eq {
        str_cmp(p.0, q.0)
    } else {
        val_cmp(p.1, q.1)
    }
}

/// Pairwise lexicographic order on mapping entries.
pub open spec fn pairs_cmp(x: Seq<(Seq<char>, ValModel)>, y: Seq<(Seq<char>, ValModel)>) -> Cmp
    decreases x, 1int, 0int,
{
    if x.len() == 0 && y.len() == 0 {
        Cmp::Eq
    } else if x.len() == 0 {
        Cmp::Lt
    } else if y.len() == 0 {
        Cmp::Gt
    } else if pair_cmp(x[0], y[0]) == Cmp::Eq {
        pairs_cmp(x.subrange(1, x.len() as int), y.subrange(1, y.len() as int))
    } else {
        pair_cmp(x[0], y[0])
    }
}

/// The order answers `Eq` exactly on equal values.
pub proof fn lemma_val_cmp_eq(a: ValModel, b: ValModel)
    ensures
        (val_cmp(a, b) == Cmp::Eq) <==> (a == b),
    decreases a, 0int, 0int,
{
    if rank(a) == rank(b) {
        match (a, b) {
            (ValModel::Text(x), ValModel::Text(y)) => {
                lemma_str_cmp_eq(x, y);
            },
            (ValModel::Mapping(x), ValModel::Mapping(y)) => {
                lemma_pairs_cmp_eq(x, y);
            },
            (ValModel::Sequence(x), ValModel::Sequence(y)) => {
                lemma_list_cmp_eq(x, y);
            },
            (ValModel::UniqueSet(x), ValModel::UniqueSet(y)) => {
                lemma_list_cmp_eq(x, y);
            },
            _ => {},
        }
    }
}

/// `list_cmp` answers `Eq` exactly on equal sequences.
pub proof fn lemma_list_cmp_eq(x: Seq<ValModel>, y: Seq<ValModel>)
    ensures
        (list_cmp(x, y) == Cmp::Eq) <==> (x == y),
    decreases x, 1int, 0int,
{
    if x.len() == 0 && y.len() == 0 {
        assert(x =~= y);
    } else if x.len() == 0 || y.len() == 0 {
        assert(x != y);
    } else {
        lemma_val_cmp_eq(x[0], y[0]);
        if val_cmp(x[0], y[0]) == Cmp::Eq {
            let tx = x.subrange(1, x.len() as int);
            let ty = y.subrange(1, y.len() as int);
            lemma_list_cmp_eq(tx, ty);
            if list_cmp(x, y) == Cmp::Eq {
                assert(x =~= tx.insert(0, x[0]));
                assert(y =~= ty.insert(0, y[0]));
            } else {
                if x == y {
                    assert(tx =~= ty);
                }
            }
        } else {
            if x == y {
                assert(x[0] == y[0]);
            }
        }
    }
}

/// `pair_cmp` answers `Eq` exactly on equal entries.
pub proof fn lemma_pair_cmp_eq(p: (Seq<char>, ValModel), q: (Seq<char>, ValModel))
    ensures
        (pair_cmp(p, q) == Cmp::Eq) <==> (p == q),
    decreases p.1, 0int, 1int,
{
    lemma_str_cmp_eq(p.0, q.0);
    lemma_val_cmp_eq(p.1, q.1);
}

/// `pairs_cmp` answers `Eq` exactly on equal entry sequences.
pub proof fn lemma_pairs_cmp_eq(x: Seq<(Seq<char>, ValModel)>, y: Seq<(Seq<char>, ValModel)>)
    ensures
        (pairs_cmp(x, y) == Cmp::Eq) <==> (x == y),
    decreases x, 1int, 0int,
{
    if x.len() == 0 && y.len() == 0 {
        assert(x =~= y);
    } else if x.len() == 0 || y.len() == 0 {
        assert(x != y);
    } else {
        lemma_pair_cmp_eq(x[0], y[0]);
        if pair_cmp(x[0], y[0]) == Cmp::Eq {
            let tx = x.subrange(1, x.len() as int);
            let ty = y.subrange(1, y.len() as int);
            lemma_pairs_cmp_eq(tx, ty);
            if pairs_cmp(x, y) == Cmp::Eq {
                assert(x =~= tx.insert(0, x[0]));
                assert(y =~= ty.insert(0, y[0]));
            } else {
                if x == y {
                    assert(tx =~= ty);
                }
            }
        } else {
            if x == y {
                assert(x[0] == y[0]);
            }
        }
    }
}

/// The opposite comparison answer.
pub open spec fn cmp_flip(c: Cmp) -> Cmp {
    match c {
        Cmp::Lt => Cmp::Gt,
        Cmp::Eq => Cmp::Eq,
        Cmp::Gt => Cmp::Lt,
    }
}

/// `str_cmp` with swapped arguments answers the opposite.
pub proof fn lemma_str_cmp_flip(x: Seq<char>, y: Seq<char>)
    ensures
        str_cmp(y, x) == cmp_flip(str_cmp(x, y)),
{
    lemma_str_cmp_antisym(x, y);
    lemma_str_cmp_antisym(y, x);
    lemma_str_cmp_eq(x, y);
    lemma_str_cmp_eq(y, x);
}

/// The order with swapped arguments answers the opposite.
pub proof fn lemma_val_cmp_antisym(a: ValModel, b: ValModel)
    ensures
        val_cmp(b, a) == cmp_flip(val_cmp(a, b)),
    decreases a, 0int, 0int,
{
    if rank(a) == rank(b) {
        match (a, b) {
            (ValModel::Text(x), ValModel::Text(y)) => {
                lemma_str_cmp_flip(x, y);
            },
            (ValModel::Mapping(x), ValModel::Mapping(y)) => {
                lemma_pairs_cmp_antisym(x, y);
            },
            (ValModel::Sequence(x), ValModel::Sequence(y)) => {
                lemma_list_cmp_antisym(x, y);
            },
            (ValModel::UniqueSet(x), ValModel::UniqueSet(y)) => {
                lemma_list_cmp_antisym(x, y);
            },
            _ => {},
        }
    }
}

/// Antisymmetry of `list_cmp`.
pub proof fn lemma_list_cmp_antisym(x: Seq<ValModel>, y: Seq<ValModel>)
    ensures
        list_cmp(y, x) == cmp_flip(list_cmp(x, y)),
    decreases x, 1int, 0int,
{
    if x.len() != 0 && y.len() != 0 {
        lemma_val_cmp_antisym(x[0], y[0]);
        if val_cmp(x[0], y[0]) == Cmp::Eq {
            lemma_list_cmp_antisym(x.subrange(1, x.len() as int), y.subrange(1, y.len() as int));
        }
    }
}

/// Antisymmetry of `pair_cmp`.
pub proof fn lemma_pair_cmp_antisym(p: (Seq<char>, ValModel), q: (Seq<char>, ValModel))
    ensures
        pair_cmp(q, p) == cmp_flip(pair_cmp(p, q)),
    decreases p.1, 0int, 1int,
{
    lemma_str_cmp_flip(p.0, q.0);
    lemma_val_cmp_antisym(p.1, q.1);
}

/// Antisymmetry of `pairs_cmp`.
pub proof fn lemma_pairs_cmp_antisym(x: Seq<(Seq<char>, ValModel)>, y: Seq<(Seq<char>, ValModel)>)
    ensures
        pairs_cmp(y, x) == cmp_flip(pairs_cmp(x, y)),
    decreases x, 1int, 0int,
{
    if x.len() != 0 && y.len() != 0 {
        lemma_pair_cmp_antisym(x[0], y[0]);
        if pair_cmp(x[0], y[0]) == Cmp::Eq {
            lemma_pairs_cmp_antisym(x.subrange(1, x.len() as int), y.subrange(1, y.len() as int));
        }
    }
}

/// Transitivity of the order in `Lt`.
pub proof fn lemma_val_cmp_trans(a: ValModel, b: ValModel, c: ValModel)
    requires
        val_cmp(a, b) == Cmp::Lt,
        val_cmp(b, c) == Cmp::Lt,
    ensures
        val_cmp(a, c) == Cmp::Lt,
    decreases a, 0int, 0int,
{
    if rank(a) == rank(b) && rank(b) == rank(c) {
        match (a, b, c) {
            (ValModel::Text(x), ValModel::Text(y), ValModel::Text(z)) => {
                lemma_str_cmp_trans(x, y, z);
            },
            (ValModel::Mapping(x), ValModel::Mapping(y), ValModel::Mapping(z)) => {
                lemma_pairs_cmp_trans(x, y, z);
            },
            (ValModel::Sequence(x), ValModel::Sequence(y), ValModel::Sequence(z)) => {
                lemma_list_cmp_trans(x, y, z);
            },
            (ValModel::UniqueSet(x), ValModel::UniqueSet(y), ValModel::UniqueSet(z)) => {
                lemma_list_cmp_trans(x, y, z);
            },
            _ => {},
        }
    }
}

/// Transitivity of `list_cmp`.
pub proof fn lemma_list_cmp_trans(x: Seq<ValModel>, y: Seq<ValModel>, z: Seq<ValModel>)
    requires
        list_cmp(x, y) == Cmp::Lt,
        list_cmp(y, z) == Cmp::Lt,
    ensures
        list_cmp(x, z) == Cmp::Lt,
    decreases x, 1int, 0int,
{
    if x.len() != 0 {
        if y.len() != 0 && z.len() != 0 {
            lemma_val_cmp_eq(x[0], y[0]);
            lemma_val_cmp_eq(x[0], z[0]);
            lemma_val_cmp_eq(y[0], z[0]);
            if val_cmp(x[0], y[0]) == Cmp::Eq && val_cmp(y[0], z[0]) == Cmp::Eq {
                assert(x[0] == y[0]);
                lemma_list_cmp_trans(
                    x.subrange(1, x.len() as int),
                    y.subrange(1, y.len() as int),
                    z.subrange(1, z.len() as int),
                );
            } else if val_cmp(x[0], y[0]) == Cmp::Lt && val_cmp(y[0], z[0]) == Cmp::Lt {
                lemma_val_cmp_trans(x[0], y[0], z[0]);
            }
        }
    }
}

/// Transitivity of `pair_cmp`.
pub proof fn lemma_pair_cmp_trans(
    p: (Seq<char>, ValModel),
    q: (Seq<char>, ValModel),
    r: (Seq<char>, ValModel),
)
    requires
        pair_cmp(p, q) == Cmp::Lt,
        pair_cmp(q, r) == Cmp::Lt,
    ensures
        pair_cmp(p, r) == Cmp::Lt,
    decreases p.1, 0int, 1int,
{
    lemma_str_cmp_eq(p.0, q.0);
    lemma_str_cmp_eq(q.0, r.0);
    lemma_str_cmp_eq(p.0, r.0);
    if str_cmp(p.0, q.0) == Cmp::Eq && str_cmp(q.0, r.0) == Cmp::Eq {
        lemma_val_cmp_trans(p.1, q.1, r.1);
    } else if str_cmp(p.0, q.0) == Cmp::Lt && str_cmp(q.0, r.0) == Cmp::Lt {
        lemma_str_cmp_trans(p.0, q.0, r.0);
    }
}

/// Transitivity of `pairs_cmp`.
pub proof fn lemma_pairs_cmp_trans(
    x: Seq<(Seq<char>, ValModel)>,
    y: Seq<(Seq<char>, ValModel)>,
    z: Seq<(Seq<char>, ValModel)>,
)
    requires
        pairs_cmp(x, y) == Cmp::Lt,
        pairs_cmp(y, z) == Cmp::Lt,
    ensures
        pairs_cmp(x, z) == Cmp::Lt,
    decreases x, 1int, 0int,
{
    if x.len() != 0 {
        if y.len() != 0 && z.len() != 0 {
            lemma_pair_cmp_eq(x[0], y[0]);
            lemma_pair_cmp_eq(x[0], z[0]);
            lemma_pair_cmp_eq(y[0], z[0]);
            if pair_cmp(x[0], y[0]) == Cmp::Eq && pair_cmp(y[0], z[0]) == Cmp::Eq {
                assert(x[0] == y[0]);
                lemma_pairs_cmp_trans(
                    x.subrange(1, x.len() as int),
                    y.subrange(1, y.len() as int),
                    z.subrange(1, z.len() as int),
                );
            } else if pair_cmp(x[0], y[0]) == Cmp::Lt && pair_cmp(y[0], z[0]) == Cmp::Lt {
                lemma_pair_cmp_trans(x[0], y[0], z[0]);
            }
        }
    }
}

/// Mapping entries in strictly ascending key order (keys unique).
pub open spec fn keys_sorted(ps: Seq<(Seq<char>, ValModel)>) -> bool {
    forall|i: int, j: int|
        0 <= i < j < ps.len() ==> str_cmp(#[trigger] ps[i].0, #[trigger] ps[j].0) == Cmp::Lt
}

/// Set elements in strictly ascending value order (elements distinct).
pub open spec fn elems_sorted(es: Seq<ValModel>) -> bool {
    forall|i: int, j: int|
        0 <= i < j < es.len() ==> val_cmp(#[trigger] es[i], #[trigger] es[j]) == Cmp::Lt
}

/// Well-formedness that parsing establishes and the store maintains:
/// integers fit 32 bits, mapping keys are strictly sorted, set
/// elements are strictly sorted, recursively.
pub open spec fn canon(v: ValModel) -> bool
    decreases v,
{
    match v {
        ValModel::Text(_) => true,
        ValModel::Integer(n) => -0x8000_0000 <= n < 0x8000_0000,
        ValModel::Boolean(_) => true,
        ValModel::Mapping(ps) => keys_sorted(ps) && (forall|i: int|
            0 <= i < ps.len() ==> canon(#[trigger] ps[i].1)),
        ValModel::Sequence(es) => forall|i: int| 0 <= i < es.len() ==> canon(#[trigger] es[i]),
        ValModel::UniqueSet(es) => elems_sorted(es) && (forall|i: int|
            0 <= i < es.len() ==> canon(#[trigger] es[i])),
    }
}

/// Inserts a value into a sorted distinct sequence: before the first
/// greater element, and not at all when an equal element is present.
pub open spec fn set_insert(es: Seq<ValModel>, v: ValModel) -> Seq<ValModel>
    decreases es.len(),
{
    if es.len() == 0 {
        seq![v]
    } else if val_cmp(v, es[0]) == Cmp::Lt {
        seq![v] + es
    } else if val_cmp(v, es[0]) == Cmp::Eq {
        es
    } else {
        seq![es[0]] + set_insert(es.subrange(1, es.len() as int), v)
    }
}

/// Inserts an entry into a key-sorted sequence, replacing the entry of
/// an equal key (last write wins).
pub open spec fn map_insert(
    ps: Seq<(Seq<char>, ValModel)>,
    k: Seq<char>,
    v: ValModel,
) -> Seq<(Seq<char>, ValModel)>
    decreases ps.len(),
{
    if ps.len() == 0 {
        seq![(k, v)]
    } else if str_cmp(k, ps[0].0) == Cmp::Lt {
        seq![(k, v)] + ps
    } else if str_cmp(k, ps[0].0) == Cmp::Eq {
        seq![(k, v)] + ps.subrange(1, ps.len() as int)
    } else {
        seq![ps[0]] + map_insert(ps.subrange(1, ps.len() as int), k, v)
    }
}

/// Whether the sequence holds the value.
pub open spec fn has_elem(es: Seq<ValModel>, x: ValModel) -> bool {
    exists|i: int| 0 <= i < es.len() && es[i] == x
}

/// The value at the given key, if any.
pub open spec fn map_find(ps: Seq<(Seq<char>, ValModel)>, k: Seq<char>) -> Option<ValModel>
    decreases ps.len(),
{
    if ps.len() == 0 {
        None
    } else if ps[0].0 == k {
        Some(ps[0].1)
    } else {
        map_find(ps.subrange(1, ps.len() as int), k)
    }
}

/// Whether the entry sequence holds the entry.
pub open spec fn has_pair(ps: Seq<(Seq<char>, ValModel)>, p: (Seq<char>, ValModel)) -> bool {
    exists|i: int| 0 <= i < ps.len() && ps[i] == p
}

/// After sorted insertion the sequence holds exactly the old elements
/// and the inserted one.
pub proof fn lemma_set_insert_content(es: Seq<ValModel>, v: ValModel, x: ValModel)
    ensures
        has_elem(set_insert(es, v), x) <==> (has_elem(es, x) || x == v),
    decreases es.len(),
{
    let r = set_insert(es, v);
    if es.len() == 0 {
        assert(r[0] == v);
        if has_elem(r, x) {
            let i = choose|i: int| 0 <= i < r.len() && r[i] == x;
            assert(i == 0);
        }
    } else if val_cmp(v, es[0]) == Cmp::Lt {
        assert(r[0] == v);
        if has_elem(r, x) {
            let i = choose|i: int| 0 <= i < r.len() && r[i] == x;
            if i > 0 {
                assert(es[i - 1] == x);
            }
        }
        if has_elem(es, x) {
            let i = choose|i: int| 0 <= i < es.len() && es[i] == x;
            assert(r[i + 1] == x);
        }
    } else if val_cmp(v, es[0]) == Cmp::Eq {
        lemma_val_cmp_eq(v, es[0]);
        assert(es[0] == v);
    } else {
        let t = es.subrange(1, es.len() as int);
        lemma_set_insert_content(t, v, x);
        let rt = set_insert(t, v);
        assert(r =~= seq![es[0]] + rt);
        if has_elem(r, x) {
            let i = choose|i: int| 0 <= i < r.len() && r[i] == x;
            if i == 0 {
                assert(es[0] == x);
            } else {
                assert(rt[i - 1] == x);
                assert(has_elem(rt, x));
                if x != v {
                    let m = choose|m: int| 0 <= m < t.len() && t[m] == x;
                    assert(es[m + 1] == x);
                }
            }
        }
        if x == v {
            assert(has_elem(rt, x));
            let m = choose|m: int| 0 <= m < rt.len() && rt[m] == x;
            assert(r[m + 1] == x);
        }
        if has_elem(es, x) {
            let i = choose|i: int| 0 <= i < es.len() && es[i] == x;
            if i == 0 {
                assert(r[0] == x);
            } else {
                assert(t[i - 1] == x);
                assert(has_elem(t, x));
                assert(has_elem(rt, x));
                let m = choose|m: int| 0 <= m < rt.len() && rt[m] == x;
                assert(r[m + 1] == x);
            }
        }
    }
}

/// Sorted insertion keeps the elements strictly sorted.
pub proof fn lemma_set_insert_sorted(es: Seq<ValModel>, v: ValModel)
    requires
        elems_sorted(es),
    ensures
        elems_sorted(set_insert(es, v)),
    decreases es.len(),
{
    let r = set_insert(es, v);
    if es.len() == 0 {
    } else if val_cmp(v, es[0]) == Cmp::Lt {
        assert forall|i: int, j: int| 0 <= i < j < r.len() implies val_cmp(r[i], r[j])
            == Cmp::Lt by {
            if i == 0 {
                assert(r[j] == es[j - 1]);
                if j > 1 {
                    assert(val_cmp(es[0], es[j - 1]) == Cmp::Lt);
                    lemma_val_cmp_trans(v, es[0], es[j - 1]);
                }
            } else {
                assert(r[i] == es[i - 1]);
                assert(r[j] == es[j - 1]);
            }
        }
    } else if val_cmp(v, es[0]) == Cmp::Eq {
    } else {
        let t = es.subrange(1, es.len() as int);
        lemma_set_insert_sorted(t, v);
        let rt = set_insert(t, v);
        assert(r =~= seq![es[0]] + rt);
        lemma_val_cmp_antisym(es[0], v);
        assert(val_cmp(es[0], v) == Cmp::Lt);
        assert forall|i: int, j: int| 0 <= i < j < r.len() implies val_cmp(r[i], r[j])
            == Cmp::Lt by {
            if i == 0 {
                assert(r[j] == rt[j - 1]);
                lemma_set_insert_content(t, v, rt[j - 1]);
                assert(has_elem(set_insert(t, v), rt[j - 1])) by {
                    assert(set_insert(t, v)[j - 1] == rt[j - 1]);
                }
                if rt[j - 1] == v {
                } else {
                    let m = choose|m: int| 0 <= m < t.len() && t[m] == rt[j - 1];
                    assert(t[m] == es[m + 1]);
                    assert(val_cmp(es[0], es[m + 1]) == Cmp::Lt);
                }
            } else {
                assert(r[i] == rt[i - 1]);
                assert(r[j] == rt[j - 1]);
            }
        }
    }
}

/// Inserting a value greater than every element appends it.
pub proof fn lemma_set_insert_at_end(es: Seq<ValModel>, v: ValModel)
    requires
        forall|i: int| 0 <= i < es.len() ==> val_cmp(#[trigger] es[i], v) == Cmp::Lt,
    ensures
        set_insert(es, v) == es.push(v),
    decreases es.len(),
{
    if es.len() == 0 {
        assert(set_insert(es, v) =~= es.push(v));
    } else {
        assert(val_cmp(es[0], v) == Cmp::Lt);
        lemma_val_cmp_antisym(es[0], v);
        assert(val_cmp(v, es[0]) == Cmp::Gt);
        let t = es.subrange(1, es.len() as int);
        assert(forall|i: int| 0 <= i < t.len() ==> t[i] == es[i + 1]);
        lemma_set_insert_at_end(t, v);
        assert(seq![es[0]] + t.push(v) =~= es.push(v));
    }
}

/// Every entry after map insertion is the inserted one or an old one.
pub proof fn lemma_map_insert_content(
    ps: Seq<(Seq<char>, ValModel)>,
    k: Seq<char>,
    v: ValModel,
    i: int,
)
    requires
        0 <= i < map_insert(ps, k, v).len(),
    ensures
        map_insert(ps, k, v)[i] == (k, v) || has_pair(ps, map_insert(ps, k, v)[i]),
    decreases ps.len(),
{
    let r = map_insert(ps, k, v);
    if ps.len() == 0 {
    } else if str_cmp(k, ps[0].0) == Cmp::Lt {
        if i > 0 {
            assert(r[i] == ps[i - 1]);
        }
    } else if str_cmp(k, ps[0].0) == Cmp::Eq {
        if i > 0 {
            assert(r[i] == ps[i]);
        }
    } else {
        let t = ps.subrange(1, ps.len() as int);
        let rt = map_insert(t, k, v);
        assert(r =~= seq![ps[0]] + rt);
        if i == 0 {
            assert(r[0] == ps[0]);
        } else {
            lemma_map_insert_content(t, k, v, i - 1);
            assert(r[i] == rt[i - 1]);
            if rt[i - 1] != (k, v) {
                let m = choose|m: int| 0 <= m < t.len() && t[m] == rt[i - 1];
                assert(ps[m + 1] == rt[i - 1]);
            }
        }
    }
}

/// Map insertion binds the inserted key to the new value and leaves
/// every other key's binding unchanged.
pub proof fn lemma_map_insert_find(
    ps: Seq<(Seq<char>, ValModel)>,
    k: Seq<char>,
    v: ValModel,
    k2: Seq<char>,
)
    ensures
        map_find(map_insert(ps, k, v), k2) == if k2 == k {
            Some(v)
        } else {
            map_find(ps, k2)
        },
    decreases ps.len(),
{
    let r = map_insert(ps, k, v);
    if ps.len() == 0 {
        assert(r[0] == (k, v));
        assert(r.subrange(1, r.len() as int) =~= ps);
    } else if str_cmp(k, ps[0].0) == Cmp::Lt {
        assert(r =~= seq![(k, v)] + ps);
        assert(r[0] == (k, v));
        assert(r.subrange(1, r.len() as int) =~= ps);
    } else if str_cmp(k, ps[0].0) == Cmp::Eq {
        lemma_str_cmp_eq(k, ps[0].0);
        let t = ps.subrange(1, ps.len() as int);
        assert(r =~= seq![(k, v)] + t);
        assert(r[0] == (k, v));
        assert(r.subrange(1, r.len() as int) =~= t);
    } else {
        lemma_str_cmp_eq(k, ps[0].0);
        let t = ps.subrange(1, ps.len() as int);
        let rt = map_insert(t, k, v);
        lemma_map_insert_find(t, k, v, k2);
        assert(r =~= seq![ps[0]] + rt);
        assert(r[0] == ps[0]);
        assert(r.subrange(1, r.len() as int) =~= rt);
    }
}

/// Map insertion keeps the keys strictly sorted.
pub proof fn lemma_map_insert_sorted(ps: Seq<(Seq<char>, ValModel)>, k: Seq<char>, v: ValModel)
    requires
        keys_sorted(ps),
    ensures
        keys_sorted(map_insert(ps, k, v)),
    decreases ps.len(),
{
    let r = map_insert(ps, k, v);
    if ps.len() == 0 {
    } else if str_cmp(k, ps[0].0) == Cmp::Lt {
        assert(r =~= seq![(k, v)] + ps);
        assert forall|i: int, j: int| 0 <= i < j < r.len() implies str_cmp(r[i].0, r[j].0)
            == Cmp::Lt by {
            if i == 0 {
                assert(r[j] == ps[j - 1]);
                if j > 1 {
                    assert(str_cmp(ps[0].0, ps[j - 1].0) == Cmp::Lt);
                    lemma_str_cmp_trans(k, ps[0].0, ps[j - 1].0);
                }
            } else {
                assert(r[i] == ps[i - 1]);
                assert(r[j] == ps[j - 1]);
            }
        }
    } else if str_cmp(k, ps[0].0) == Cmp::Eq {
        lemma_str_cmp_eq(k, ps[0].0);
        let t = ps.subrange(1, ps.len() as int);
        assert(r =~= seq![(k, v)] + t);
        assert forall|i: int, j: int| 0 <= i < j < r.len() implies str_cmp(r[i].0, r[j].0)
            == Cmp::Lt by {
            if i == 0 {
                assert(r[j] == ps[j]);
                assert(str_cmp(ps[0].0, ps[j].0) == Cmp::Lt);
            } else {
                assert(r[i] == ps[i]);
                assert(r[j] == ps[j]);
            }
        }
    } else {
        let t = ps.subrange(1, ps.len() as int);
        lemma_map_insert_sorted(t, k, v);
        let rt = map_insert(t, k, v);
        assert(r =~= seq![ps[0]] + rt);
        lemma_str_cmp_flip(ps[0].0, k);
        assert(str_cmp(ps[0].0, k) == Cmp::Lt);
        assert forall|i: int, j: int| 0 <= i < j < r.len() implies str_cmp(r[i].0, r[j].0)
            == Cmp::Lt by {
            if i == 0 {
                assert(r[j] == rt[j - 1]);
                lemma_map_insert_content(t, k, v, j - 1);
                if rt[j - 1] == (k, v) {
                } else {
                    let m = choose|m: int| 0 <= m < t.len() && t[m] == rt[j - 1];
                    assert(t[m] == ps[m + 1]);
                    assert(str_cmp(ps[0].0, ps[m + 1].0) == Cmp::Lt);
                }
            } else {
                assert(r[i] == rt[i - 1]);
                assert(r[j] == rt[j - 1]);
            }
        }
    }
}

/// The entry sequence with the given key's entry removed, if present.
pub open spec fn map_remove(ps: Seq<(Seq<char>, ValModel)>, k: Seq<char>) -> Seq<
    (Seq<char>, ValModel),
>
    decreases ps.len(),
{
    if ps.len() == 0 {
        ps
    } else if ps[0].0 == k {
        ps.subrange(1, ps.len() as int)
    } else {
        seq![ps[0]] + map_remove(ps.subrange(1, ps.len() as int), k)
    }
}

/// A key that no entry holds is found by neither lookup nor removal.
pub proof fn lemma_map_absent(ps: Seq<(Seq<char>, ValModel)>, k: Seq<char>)
    requires
        forall|i: int| 0 <= i < ps.len() ==> (#[trigger] ps[i].0) != k,
    ensures
        map_find(ps, k) is None,
        map_remove(ps, k) == ps,
    decreases ps.len(),
{
    if ps.len() > 0 {
        let t = ps.subrange(1, ps.len() as int);
        assert(forall|i: int| 0 <= i < t.len() ==> t[i] == ps[i + 1]);
        lemma_map_absent(t, k);
        assert(seq![ps[0]] + t =~= ps);
    }
}

/// A key that lookup does not find, removal does not change.
pub proof fn lemma_map_find_none_remove(ps: Seq<(Seq<char>, ValModel)>, k: Seq<char>)
    requires
        map_find(ps, k) is None,
    ensures
        map_remove(ps, k) == ps,
    decreases ps.len(),
{
    if ps.len() > 0 {
        let t = ps.subrange(1, ps.len() as int);
        lemma_map_find_none_remove(t, k);
        assert(seq![ps[0]] + t =~= ps);
    }
}

/// When the key first appears at `p`, lookup answers that entry and
/// removal drops exactly it.
pub proof fn lemma_map_found_at(ps: Seq<(Seq<char>, ValModel)>, k: Seq<char>, p: int)
    requires
        0 <= p < ps.len(),
        forall|i: int| 0 <= i < p ==> (#[trigger] ps[i].0) != k,
        ps[p].0 == k,
    ensures
        map_find(ps, k) == Some(ps[p].1),
        map_remove(ps, k) == ps.remove(p),
    decreases p,
{
    if p == 0 {
        assert(ps.subrange(1, ps.len() as int) =~= ps.remove(0));
    } else {
        let t = ps.subrange(1, ps.len() as int);
        assert(forall|i: int| 0 <= i < t.len() ==> t[i] == ps[i + 1]);
        lemma_map_found_at(t, k, p - 1);
        assert(seq![ps[0]] + t.remove(p - 1) =~= ps.remove(p));
    }
}

/// Removal keeps the key order and the remaining entries.
pub proof fn lemma_map_remove_sorted(ps: Seq<(Seq<char>, ValModel)>, k: Seq<char>, p: int)
    requires
        keys_sorted(ps),
        0 <= p < ps.len(),
    ensures
        keys_sorted(ps.remove(p)),
        forall|i: int|
            0 <= i < ps.remove(p).len() ==> has_pair(ps, #[trigger] ps.remove(p)[i]),
{
    let r = ps.remove(p);
    assert forall|i: int, j: int| 0 <= i < j < r.len() implies str_cmp(r[i].0, r[j].0)
        == Cmp::Lt by {
        if j < p {
        } else if i < p {
            assert(r[j] == ps[j + 1]);
        } else {
            assert(r[i] == ps[i + 1]);
            assert(r[j] == ps[j + 1]);
        }
    }
    assert forall|i: int| 0 <= i < r.len() implies has_pair(ps, #[trigger] r[i]) by {
        if i < p {
            assert(ps[i] == r[i]);
        } else {
            assert(ps[i + 1] == r[i]);
        }
    }
}

/// When an equal element sits at `p` past smaller ones, insertion
/// leaves the sequence unchanged.
pub proof fn lemma_set_insert_found_at(es: Seq<ValModel>, v: ValModel, p: int)
    requires
        0 <= p < es.len(),
        forall|i: int| 0 <= i < p ==> val_cmp(#[trigger] es[i], v) == Cmp::Lt,
        val_cmp(v, es[p]) == Cmp::Eq,
    ensures
        set_insert(es, v) == es,
    decreases p,
{
    if p == 0 {
    } else {
        assert(val_cmp(es[0], v) == Cmp::Lt);
        lemma_val_cmp_antisym(es[0], v);
        let t = es.subrange(1, es.len() as int);
        assert(forall|i: int| 0 <= i < t.len() ==> t[i] == es[i + 1]);
        lemma_set_insert_found_at(t, v, p - 1);
        assert(seq![es[0]] + t =~= es);
    }
}

/// When every element before `p` is smaller and the one at `p` (if
/// any) is greater, insertion places the value at `p`.
pub proof fn lemma_set_insert_insert_at(es: Seq<ValModel>, v: ValModel, p: int)
    requires
        0 <= p <= es.len(),
        forall|i: int| 0 <= i < p ==> val_cmp(#[trigger] es[i], v) == Cmp::Lt,
        p < es.len() ==> val_cmp(v, es[p]) == Cmp::Lt,
    ensures
        set_insert(es, v) == es.insert(p, v),
    decreases p,
{
    if p == 0 {
        if es.len() == 0 {
            assert(set_insert(es, v) =~= es.insert(0, v));
        } else {
            assert(set_insert(es, v) =~= es.insert(0, v));
        }
    } else {
        assert(val_cmp(es[0], v) == Cmp::Lt);
        lemma_val_cmp_antisym(es[0], v);
        let t = es.subrange(1, es.len() as int);
        assert(forall|i: int| 0 <= i < t.len() ==> t[i] == es[i + 1]);
        lemma_set_insert_insert_at(t, v, p - 1);
        assert(seq![es[0]] + t.insert(p - 1, v) =~= es.insert(p, v));
    }
}

/// When an equal key sits at `p` past smaller ones, insertion replaces
/// that entry.
pub proof fn lemma_map_insert_replace_at(
    ps: Seq<(Seq<char>, ValModel)>,
    k: Seq<char>,
    v: ValModel,
    p: int,
)
    requires
        0 <= p < ps.len(),
        forall|i: int| 0 <= i < p ==> str_cmp(#[trigger] ps[i].0, k) == Cmp::Lt,
        str_cmp(k, ps[p].0) == Cmp::Eq,
    ensures
        map_insert(ps, k, v) == ps.update(p, (k, v)),
    decreases p,
{
    if p == 0 {
        assert(map_insert(ps, k, v) =~= ps.update(0, (k, v)));
    } else {
        assert(str_cmp(ps[0].0, k) == Cmp::Lt);
        lemma_str_cmp_flip(ps[0].0, k);
        lemma_str_cmp_eq(k, ps[0].0);
        let t = ps.subrange(1, ps.len() as int);
        assert(forall|i: int| 0 <= i < t.len() ==> t[i] == ps[i + 1]);
        lemma_map_insert_replace_at(t, k, v, p - 1);
        assert(seq![ps[0]] + t.update(p - 1, (k, v)) =~= ps.update(p, (k, v)));
    }
}

/// When every key before `p` is smaller and the one at `p` (if any)
/// is greater, insertion places the entry at `p`.
pub proof fn lemma_map_insert_insert_at(
    ps: Seq<(Seq<char>, ValModel)>,
    k: Seq<char>,
    v: ValModel,
    p: int,
)
    requires
        0 <= p <= ps.len(),
        forall|i: int| 0 <= i < p ==> str_cmp(#[trigger] ps[i].0, k) == Cmp::Lt,
        p < ps.len() ==> str_cmp(k, ps[p].0) == Cmp::Lt,
    ensures
        map_insert(ps, k, v) == ps.insert(p, (k, v)),
    decreases p,
{
    if p == 0 {
        assert(map_insert(ps, k, v) =~= ps.insert(0, (k, v)));
    } else {
        assert(str_cmp(ps[0].0, k) == Cmp::Lt);
        lemma_str_cmp_flip(ps[0].0, k);
        lemma_str_cmp_eq(k, ps[0].0);
        let t = ps.subrange(1, ps.len() as int);
        assert(forall|i: int| 0 <= i < t.len() ==> t[i] == ps[i + 1]);
        lemma_map_insert_insert_at(t, k, v, p - 1);
        assert(seq![ps[0]] + t.insert(p - 1, (k, v)) =~= ps.insert(p, (k, v)));
    }
}

/// Inserting under a key greater than every key appends the entry.
pub proof fn lemma_map_insert_at_end(ps: Seq<(Seq<char>, ValModel)>, k: Seq<char>, v: ValModel)
    requires
        forall|i: int| 0 <= i < ps.len() ==> str_cmp(#[trigger] ps[i].0, k) == Cmp::Lt,
    ensures
        map_insert(ps, k, v) == ps.push((k, v)),
    decreases ps.len(),
{
    if ps.len() == 0 {
        assert(map_insert(ps, k, v) =~= ps.push((k, v)));
    } else {
        assert(str_cmp(ps[0].0, k) == Cmp::Lt);
        lemma_str_cmp_flip(ps[0].0, k);
        assert(str_cmp(k, ps[0].0) == Cmp::Gt);
        let t = ps.subrange(1, ps.len() as int);
        assert(forall|i: int| 0 <= i < t.len() ==> t[i] == ps[i + 1]);
        lemma_map_insert_at_end(t, k, v);
        assert(seq![ps[0]] + t.push((k, v)) =~= ps.push((k, v)));
    }
}

} // verus!
