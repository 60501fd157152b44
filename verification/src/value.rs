//! The executable representation of values and its view onto
//! [`crate::model::ValModel`].

use vstd::prelude::*;
use crate::chars::{cmp_chars, str_to_chars, Cmp};
use crate::model::{
    lemma_map_insert_insert_at, lemma_map_insert_replace_at, lemma_set_insert_found_at,
    lemma_set_insert_insert_at, lemma_val_cmp_antisym, list_cmp, map_insert, pair_cmp, pairs_cmp,
    set_insert, val_cmp, ValModel,
};

verus! {

/// A value held by the store: text, a signed 32-bit integer, a
/// boolean, or a nested aggregate. A `Mapping` holds its entries in
/// ascending key order with unique keys; a `UniqueSet` holds distinct
/// elements in ascending order of the total value order; a `Sequence`
/// keeps insertion order and admits duplicates.
#[derive(Debug, PartialEq, Eq)]
pub enum Value {
    Text(Vec<char>),
    Integer(i32),
    Boolean(bool),
    Mapping(Vec<(Vec<char>, Value)>),
    Sequence(Vec<Value>),
    UniqueSet(Vec<Value>),
}

/// The model of an executable value.
pub open spec fn val_model(v: Value) -> ValModel
    decreases v,
{
    match v {
        Value::Text(s) => ValModel::Text(s@),
        Value::Integer(n) => ValModel::Integer(n as int),
        Value::Boolean(b) => ValModel::Boolean(b),
        Value::Mapping(ps) => ValModel::Mapping(pair_models(ps@)),
        Value::Sequence(es) => ValModel::Sequence(elem_models(es@)),
        Value::UniqueSet(es) => ValModel::UniqueSet(elem_models(es@)),
    }
}

/// The models of a sequence of executable values, in order.
pub open spec fn elem_models(es: Seq<Value>) -> Seq<ValModel>
    decreases es,
{
    if es.len() == 0 {
        Seq::empty()
    } else {
        elem_models(es.drop_last()).push(val_model(es.last()))
    }
}

/// The models of a sequence of executable mapping entries, in order.
pub open spec fn pair_models(ps: Seq<(Vec<char>, Value)>) -> Seq<(Seq<char>, ValModel)>
    decreases ps,
{
    if ps.len() == 0 {
        Seq::empty()
    } else {
        pair_models(ps.drop_last()).push((ps.last().0@, val_model(ps.last().1)))
    }
}

impl View for Value {
    type V = ValModel;

    open spec fn view(&self) -> ValModel {
        val_model(*self)
    }
}

/// `elem_models` maps index-wise.
pub proof fn lemma_elem_models(es: Seq<Value>)
    ensures
        elem_models(es).len() == es.len(),
        forall|i: int| 0 <= i < es.len() ==> #[trigger] elem_models(es)[i] == val_model(es[i]),
    decreases es,
{
    if es.len() > 0 {
        lemma_elem_models(es.drop_last());
    }
}

/// `pair_models` maps index-wise.
pub proof fn lemma_pair_models(ps: Seq<(Vec<char>, Value)>)
    ensures
        pair_models(ps).len() == ps.len(),
        forall|i: int| 0 <= i < ps.len() ==> #[trigger] pair_models(ps)[i] == (
        ps[i].0@,
        val_model(ps[i].1),
        ),
    decreases ps,
{
    if ps.len() > 0 {
        lemma_pair_models(ps.drop_last());
    }
}

/// Text value built from a `str`.
pub fn text_value(s: &str) -> (r: Value)
    ensures
        r@ == ValModel::Text(s@),
{
    Value::Text(str_to_chars(s))
}

/// Three-way comparison of two values in the total order of the
/// model.
pub fn value_cmp(a: &Value, b: &Value) -> (r: Cmp)
    ensures
        r == val_cmp(a@, b@),
    decreases *a, 0int,
{
    match (a, b) {
        (Value::Text(x), Value::Text(y)) => cmp_chars(x, y),
        (Value::Integer(x), Value::Integer(y)) => {
            if *x < *y {
                Cmp::Lt
            } else if *x > *y {
                Cmp::Gt
            } else {
                Cmp::Eq
            }
        },
        (Value::Boolean(x), Value::Boolean(y)) => {
            if *x == *y {
                Cmp::Eq
            } else if !*x {
                Cmp::Lt
            } else {
                Cmp::Gt
            }
        },
        (Value::Mapping(x), Value::Mapping(y)) => cmp_pair_vecs(x, y),
        (Value::Sequence(x), Value::Sequence(y)) => cmp_value_vecs(x, y),
        (Value::UniqueSet(x), Value::UniqueSet(y)) => cmp_value_vecs(x, y),
        _ => {
            let ra = variant_rank(a);
            let rb = variant_rank(b);
            if ra < rb {
                Cmp::Lt
            } else {
                Cmp::Gt
            }
        },
    }
}

/// The variant precedence of a value.
fn variant_rank(v: &Value) -> (r: u8)
    ensures
        r as int == crate::model::rank(v@),
{
    match v {
        Value::Text(_) => 0,
        Value::Integer(_) => 1,
        Value::Boolean(_) => 2,
        Value::Mapping(_) => 3,
        Value::Sequence(_) => 4,
        Value::UniqueSet(_) => 5,
    }
}

/// Element-wise comparison of two value buffers.
#[verifier::loop_isolation(false)]
fn cmp_value_vecs(x: &Vec<Value>, y: &Vec<Value>) -> (r: Cmp)
    ensures
        r == list_cmp(elem_models(x@), elem_models(y@)),
    decreases *x, 1int,
{
    let ghost mx = elem_models(x@);
    let ghost my = elem_models(y@);
    proof {
        lemma_elem_models(x@);
        lemma_elem_models(y@);
        assert(mx.skip(0) =~= mx);
        assert(my.skip(0) =~= my);
    }
    let xn = x.len();
    let yn = y.len();
    let n = if xn < yn {
        xn
    } else {
        yn
    };
    let mut i: usize = 0;
    while i < n
        invariant
            i <= n,
            list_cmp(mx, my) == list_cmp(mx.skip(i as int), my.skip(i as int)),
        decreases n - i,
    {
        let c = value_cmp(&x[i], &y[i]);
        if !matches!(c, Cmp::Eq) {
            proof {
                assert(mx.skip(i as int)[0] == mx[i as int]);
                assert(my.skip(i as int)[0] == my[i as int]);
            }
            return c;
        }
        proof {
            assert(mx.skip(i as int)[0] == mx[i as int]);
            assert(my.skip(i as int)[0] == my[i as int]);
            assert(mx.skip(i as int).subrange(1, mx.len() - i) =~= mx.skip(i + 1));
            assert(my.skip(i as int).subrange(1, my.len() - i) =~= my.skip(i + 1));
        }
        i = i + 1;
    }
    proof {
        assert(mx.skip(i as int).len() == mx.len() - i);
        assert(my.skip(i as int).len() == my.len() - i);
    }
    if xn == yn {
        Cmp::Eq
    } else if xn < yn {
        Cmp::Lt
    } else {
        Cmp::Gt
    }
}

/// Entry-wise comparison of two entry buffers: key first, then value.
#[verifier::loop_isolation(false)]
fn cmp_pair_vecs(x: &Vec<(Vec<char>, Value)>, y: &Vec<(Vec<char>, Value)>) -> (r: Cmp)
    ensures
        r == pairs_cmp(pair_models(x@), pair_models(y@)),
    decreases *x, 1int,
{
    let ghost mx = pair_models(x@);
    let ghost my = pair_models(y@);
    proof {
        lemma_pair_models(x@);
        lemma_pair_models(y@);
        assert(mx.skip(0) =~= mx);
        assert(my.skip(0) =~= my);
    }
    let xn = x.len();
    let yn = y.len();
    let n = if xn < yn {
        xn
    } else {
        yn
    };
    let mut i: usize = 0;
    while i < n
        invariant
            i <= n,
            pairs_cmp(mx, my) == pairs_cmp(mx.skip(i as int), my.skip(i as int)),
        decreases n - i,
    {
        proof {
            assert(mx.skip(i as int)[0] == mx[i as int]);
            assert(my.skip(i as int)[0] == my[i as int]);
        }
        let kc = cmp_chars(&x[i].0, &y[i].0);
        let c = if matches!(kc, Cmp::Eq) {
            value_cmp(&x[i].1, &y[i].1)
        } else {
            kc
        };
        proof {
            assert(c == pair_cmp(mx[i as int], my[i as int]));
        }
        if !matches!(c, Cmp::Eq) {
            return c;
        }
        proof {
            assert(mx.skip(i as int).subrange(1, mx.len() - i) =~= mx.skip(i + 1));
            assert(my.skip(i as int).subrange(1, my.len() - i) =~= my.skip(i + 1));
        }
        i = i + 1;
    }
    proof {
        assert(mx.skip(i as int).len() == mx.len() - i);
        assert(my.skip(i as int).len() == my.len() - i);
    }
    if xn == yn {
        Cmp::Eq
    } else if xn < yn {
        Cmp::Lt
    } else {
        Cmp::Gt
    }
}

/// Inserts a value into a set buffer as the sorted-insert of the
/// model does: before the first greater element, or not at all when
/// an equal element is present.
#[verifier::loop_isolation(false)]
pub fn set_insert_value(es: &mut Vec<Value>, v: Value)
    ensures
        elem_models(final(es)@) == set_insert(elem_models(old(es)@), val_model(v)),
{
    let ghost ms = elem_models(old(es)@);
    let ghost mv = val_model(v);
    proof {
        lemma_elem_models(old(es)@);
    }
    let n = es.len();
    let mut idx: usize = 0;
    while idx < n
        invariant
            idx <= n,
            es@ == old(es)@,
            forall|i: int| 0 <= i < idx ==> val_cmp(#[trigger] ms[i], mv) == Cmp::Lt,
        decreases n - idx,
    {
        let c = value_cmp(&v, &es[idx]);
        match c {
            Cmp::Lt => {
                proof {
                    lemma_set_insert_insert_at(ms, mv, idx as int);
                }
                es.insert(idx, v);
                proof {
                    lemma_elem_models(es@);
                    assert(elem_models(es@) =~= ms.insert(idx as int, mv));
                }
                return ;
            },
            Cmp::Eq => {
                proof {
                    lemma_set_insert_found_at(ms, mv, idx as int);
                }
                return ;
            },
            Cmp::Gt => {
                proof {
                    lemma_val_cmp_antisym(mv, ms[idx as int]);
                }
                idx = idx + 1;
            },
        }
    }
    proof {
        lemma_set_insert_insert_at(ms, mv, n as int);
    }
    es.push(v);
    proof {
        lemma_elem_models(es@);
        assert(elem_models(es@) =~= ms.insert(n as int, mv));
    }
}

/// Inserts an entry into a mapping buffer as the sorted-insert of the
/// model does: in key order, replacing an equal key.
#[verifier::loop_isolation(false)]
pub fn map_insert_value(ps: &mut Vec<(Vec<char>, Value)>, k: Vec<char>, v: Value)
    ensures
        pair_models(final(ps)@) == map_insert(pair_models(old(ps)@), k@, val_model(v)),
{
    let ghost ms = pair_models(old(ps)@);
    let ghost mk = k@;
    let ghost mv = val_model(v);
    proof {
        lemma_pair_models(old(ps)@);
    }
    let n = ps.len();
    let mut idx: usize = 0;
    while idx < n
        invariant
            idx <= n,
            ps@ == old(ps)@,
            forall|i: int| 0 <= i < idx ==> crate::chars::str_cmp(#[trigger] ms[i].0, mk)
                == Cmp::Lt,
        decreases n - idx,
    {
        let c = cmp_chars(&k, &ps[idx].0);
        match c {
            Cmp::Lt => {
                proof {
                    lemma_map_insert_insert_at(ms, mk, mv, idx as int);
                }
                ps.insert(idx, (k, v));
                proof {
                    lemma_pair_models(ps@);
                    assert(pair_models(ps@) =~= ms.insert(idx as int, (mk, mv)));
                }
                return ;
            },
            Cmp::Eq => {
                proof {
                    lemma_map_insert_replace_at(ms, mk, mv, idx as int);
                }
                ps.remove(idx);
                ps.insert(idx, (k, v));
                proof {
                    lemma_pair_models(ps@);
                    assert(ps@ =~= old(ps)@.update(idx as int, (k, v)));
                    assert(pair_models(ps@) =~= ms.update(idx as int, (mk, mv)));
                }
                return ;
            },
            Cmp::Gt => {
                proof {
                    crate::model::lemma_str_cmp_flip(mk, ms[idx as int].0);
                }
                idx = idx + 1;
            },
        }
    }
    proof {
        lemma_map_insert_insert_at(ms, mk, mv, n as int);
    }
    ps.push((k, v));
    proof {
        lemma_pair_models(ps@);
        assert(pair_models(ps@) =~= ms.insert(n as int, (mk, mv)));
    }
}

} // verus!
