//! The renderers. The literal form writes a value back in the
//! grammar the parser reads, and is the canonical form of the
//! round-trip law. The display form is the report text used in
//! command responses: scalars tagged with their variant, aggregates
//! bracketed with their elements in canonical order.

use vstd::prelude::*;
use crate::chars::{chars_to_string, push_str_chars};
use crate::model::ValModel;
use crate::numtext::{push_i32, render_int};
use crate::value::{elem_models, lemma_elem_models, lemma_pair_models, pair_models, val_model, Value};

verus! {

/// The canonical literal text of a value: quoted text, decimal
/// integers, `true`/`false`, and bracketed aggregates with `", "`
/// between elements and `": "` after mapping keys.
pub open spec fn render_lit(v: ValModel) -> Seq<char>
    decreases v, 2int, 0int,
{
    match v {
        ValModel::Text(s) => seq!['"'] + s + seq!['"'],
        ValModel::Integer(n) => render_int(n),
        ValModel::Boolean(b) => if b {
            "true"@
        } else {
            "false"@
        },
        ValModel::Mapping(ps) => seq!['{'] + render_pairs(ps) + seq!['}'],
        ValModel::Sequence(es) => seq!['['] + render_items(es) + seq![']'],
        ValModel::UniqueSet(es) => seq!['<'] + render_items(es) + seq!['>'],
    }
}

/// One rendered mapping entry: bare key, colon, space, value.
pub open spec fn render_pair(p: (Seq<char>, ValModel)) -> Seq<char>
    decreases p.1, 3int, 0int,
{
    p.0 + seq![':', ' '] + render_lit(p.1)
}

/// The rendered entries joined with `", "`.
pub open spec fn render_pairs(ps: Seq<(Seq<char>, ValModel)>) -> Seq<char>
    decreases ps, 1int, 0int,
{
    if ps.len() == 0 {
        Seq::empty()
    } else if ps.len() == 1 {
        render_pair(ps[0])
    } else {
        render_pairs(ps.drop_last()) + seq![',', ' '] + render_pair(ps.last())
    }
}

/// The rendered items joined with `", "`.
pub open spec fn render_items(es: Seq<ValModel>) -> Seq<char>
    decreases es, 1int, 0int,
{
    if es.len() == 0 {
        Seq::empty()
    } else if es.len() == 1 {
        render_lit(es[0])
    } else {
        render_items(es.drop_last()) + seq![',', ' '] + render_lit(es.last())
    }
}

/// The display text of a value: scalars as `String("...")`,
/// `Integer(n)`, `Boolean(b)`; a mapping as `{key: value, ...}` in key
/// order; a sequence as `[value, ...]` in insertion order; a unique
/// set as `{value, ...}` in the canonical order.
pub open spec fn disp_lit(v: ValModel) -> Seq<char>
    decreases v, 2int, 0int,
{
    match v {
        ValModel::Text(s) => "String(\""@ + s + "\")"@,
        ValModel::Integer(n) => "Integer("@ + render_int(n) + ")"@,
        ValModel::Boolean(b) => if b {
            "Boolean(true)"@
        } else {
            "Boolean(false)"@
        },
        ValModel::Mapping(ps) => seq!['{'] + disp_pairs(ps) + seq!['}'],
        ValModel::Sequence(es) => seq!['['] + disp_items(es) + seq![']'],
        ValModel::UniqueSet(es) => seq!['{'] + disp_items(es) + seq!['}'],
    }
}

/// One displayed mapping entry: bare key, colon, space, value.
pub open spec fn disp_pair(p: (Seq<char>, ValModel)) -> Seq<char>
    decreases p.1, 3int, 0int,
{
    p.0 + seq![':', ' '] + disp_lit(p.1)
}

/// The displayed entries joined with `", "`.
pub open spec fn disp_pairs(ps: Seq<(Seq<char>, ValModel)>) -> Seq<char>
    decreases ps, 1int, 0int,
{
    if ps.len() == 0 {
        Seq::empty()
    } else if ps.len() == 1 {
        disp_pair(ps[0])
    } else {
        disp_pairs(ps.drop_last()) + seq![',', ' '] + disp_pair(ps.last())
    }
}

/// The displayed items joined with `", "`.
pub open spec fn disp_items(es: Seq<ValModel>) -> Seq<char>
    decreases es, 1int, 0int,
{
    if es.len() == 0 {
        Seq::empty()
    } else if es.len() == 1 {
        disp_lit(es[0])
    } else {
        disp_items(es.drop_last()) + seq![',', ' '] + disp_lit(es.last())
    }
}

/// Appends the canonical literal text of `v` to `out`.
#[verifier::loop_isolation(false)]
pub fn render_lit_into(out: &mut Vec<char>, v: &Value)
    ensures
        final(out)@ == old(out)@ + render_lit(v@),
    decreases *v, 2int,
{
    match v {
        Value::Text(s) => {
            out.push('"');
            let mut i: usize = 0;
            let n = s.len();
            while i < n
                invariant
                    i <= n == s@.len(),
                    out@ == old(out)@ + seq!['"'] + s@.take(i as int),
                decreases n - i,
            {
                proof {
                    assert((old(out)@ + seq!['"'] + s@.take(i as int)).push(s@[i as int])
                        =~= old(out)@ + seq!['"'] + s@.take(i + 1));
                }
                out.push(s[i]);
                i = i + 1;
            }
            proof {
                assert(s@.take(n as int) =~= s@);
            }
            out.push('"');
            proof {
                assert(out@ =~= old(out)@ + (seq!['"'] + s@ + seq!['"']));
            }
        },
        Value::Integer(n) => {
            push_i32(out, *n);
        },
        Value::Boolean(b) => {
            if *b {
                push_str_chars(out, "true");
            } else {
                push_str_chars(out, "false");
            }
        },
        Value::Mapping(ps) => {
            render_map_into(out, ps, true);
            proof {
                assert(out@ =~= old(out)@ + (seq!['{'] + render_pairs(pair_models(ps@))
                    + seq!['}']));
            }
        },
        Value::Sequence(es) => {
            out.push('[');
            render_items_into(out, es, true);
            out.push(']');
            proof {
                assert(out@ =~= old(out)@ + (seq!['['] + render_items(elem_models(es@))
                    + seq![']']));
            }
        },
        Value::UniqueSet(es) => {
            out.push('<');
            render_items_into(out, es, true);
            out.push('>');
            proof {
                assert(out@ =~= old(out)@ + (seq!['<'] + render_items(elem_models(es@))
                    + seq!['>']));
            }
        },
    }
}

/// Appends the joined items of a sequence or set, in the literal or
/// the display form.
#[verifier::loop_isolation(false)]
fn render_items_into(out: &mut Vec<char>, es: &Vec<Value>, literal: bool)
    ensures
        literal ==> final(out)@ == old(out)@ + render_items(elem_models(es@)),
        !literal ==> final(out)@ == old(out)@ + disp_items(elem_models(es@)),
    decreases *es, 1int,
{
    let ghost ms = elem_models(es@);
    proof {
        lemma_elem_models(es@);
    }
    let n = es.len();
    let mut i: usize = 0;
    while i < n
        invariant
            i <= n == es@.len(),
            literal ==> out@ == old(out)@ + render_items(ms.take(i as int)),
            !literal ==> out@ == old(out)@ + disp_items(ms.take(i as int)),
        decreases n - i,
    {
        if i > 0 {
            push_str_chars(out, ", ");
        }
        if literal {
            render_lit_into(out, &es[i]);
        } else {
            disp_lit_into(out, &es[i]);
        }
        proof {
            assert(ms.take(i + 1).drop_last() =~= ms.take(i as int));
            assert(ms.take(i + 1).last() == ms[i as int]);
            reveal_strlit(", ");
            assert(", "@ =~= seq![',', ' ']);
            if i == 0 {
                if literal {
                    assert(render_items(ms.take(1)) == render_lit(ms[0]));
                    assert(out@ =~= old(out)@ + render_items(ms.take(1)));
                } else {
                    assert(disp_items(ms.take(1)) == disp_lit(ms[0]));
                    assert(out@ =~= old(out)@ + disp_items(ms.take(1)));
                }
            } else {
                if literal {
                    assert(render_items(ms.take(i + 1)) == render_items(ms.take(i as int))
                        + seq![',', ' '] + render_lit(ms[i as int]));
                    assert(out@ =~= old(out)@ + render_items(ms.take(i + 1)));
                } else {
                    assert(disp_items(ms.take(i + 1)) == disp_items(ms.take(i as int))
                        + seq![',', ' '] + disp_lit(ms[i as int]));
                    assert(out@ =~= old(out)@ + disp_items(ms.take(i + 1)));
                }
            }
        }
        i = i + 1;
    }
    proof {
        assert(ms.take(n as int) =~= ms);
    }
}

/// Appends a whole bracketed mapping, in the literal or the display
/// form (the brackets agree, so this covers both).
#[verifier::loop_isolation(false)]
fn render_map_into(out: &mut Vec<char>, ps: &Vec<(Vec<char>, Value)>, literal: bool)
    ensures
        literal ==> final(out)@ == old(out)@ + seq!['{'] + render_pairs(pair_models(ps@))
            + seq!['}'],
        !literal ==> final(out)@ == old(out)@ + seq!['{'] + disp_pairs(pair_models(ps@))
            + seq!['}'],
    decreases *ps, 1int,
{
    let ghost ms = pair_models(ps@);
    proof {
        lemma_pair_models(ps@);
    }
    out.push('{');
    let n = ps.len();
    let mut i: usize = 0;
    while i < n
        invariant
            i <= n == ps@.len(),
            literal ==> out@ == old(out)@ + seq!['{'] + render_pairs(ms.take(i as int)),
            !literal ==> out@ == old(out)@ + seq!['{'] + disp_pairs(ms.take(i as int)),
        decreases n - i,
    {
        if i > 0 {
            push_str_chars(out, ", ");
        }
        let mut k: usize = 0;
        let ghost keybase = out@;
        let klen = ps[i].0.len();
        while k < klen
            invariant
                k <= klen == ps@[i as int].0@.len(),
                i < n == ps@.len(),
                out@ == keybase + ps@[i as int].0@.take(k as int),
            decreases klen - k,
        {
            proof {
                assert((keybase + ps@[i as int].0@.take(k as int)).push(
                    ps@[i as int].0@[k as int],
                ) =~= keybase + ps@[i as int].0@.take(k + 1));
            }
            out.push(ps[i].0[k]);
            k = k + 1;
        }
        proof {
            assert(ps@[i as int].0@.take(klen as int) =~= ps@[i as int].0@);
        }
        push_str_chars(out, ": ");
        if literal {
            render_lit_into(out, &ps[i].1);
        } else {
            disp_lit_into(out, &ps[i].1);
        }
        proof {
            assert(ms.take(i + 1).drop_last() =~= ms.take(i as int));
            assert(ms.take(i + 1).last() == ms[i as int]);
            assert(ms[i as int].0 == ps@[i as int].0@);
            assert(ms[i as int].1 == val_model(ps@[i as int].1));
            reveal_strlit(", ");
            reveal_strlit(": ");
            assert(", "@ =~= seq![',', ' ']);
            assert(": "@ =~= seq![':', ' ']);
            if i == 0 {
                if literal {
                    assert(render_pairs(ms.take(1)) == render_pair(ms[0]));
                    assert(out@ =~= old(out)@ + seq!['{'] + render_pairs(ms.take(1)));
                } else {
                    assert(disp_pairs(ms.take(1)) == disp_pair(ms[0]));
                    assert(out@ =~= old(out)@ + seq!['{'] + disp_pairs(ms.take(1)));
                }
            } else {
                if literal {
                    assert(render_pairs(ms.take(i + 1)) == render_pairs(ms.take(i as int))
                        + seq![',', ' '] + render_pair(ms[i as int]));
                    assert(out@ =~= old(out)@ + seq!['{'] + render_pairs(ms.take(i + 1)));
                } else {
                    assert(disp_pairs(ms.take(i + 1)) == disp_pairs(ms.take(i as int))
                        + seq![',', ' '] + disp_pair(ms[i as int]));
                    assert(out@ =~= old(out)@ + seq!['{'] + disp_pairs(ms.take(i + 1)));
                }
            }
        }
        i = i + 1;
    }
    proof {
        assert(ms.take(n as int) =~= ms);
    }
    out.push('}');
}

/// Appends the display text of `v` to `out`.
#[verifier::loop_isolation(false)]
pub fn disp_lit_into(out: &mut Vec<char>, v: &Value)
    ensures
        final(out)@ == old(out)@ + disp_lit(v@),
    decreases *v, 2int,
{
    match v {
        Value::Text(s) => {
            push_str_chars(out, "String(\"");
            let mut i: usize = 0;
            let n = s.len();
            let ghost base = out@;
            while i < n
                invariant
                    i <= n == s@.len(),
                    out@ == base + s@.take(i as int),
                decreases n - i,
            {
                proof {
                    assert((base + s@.take(i as int)).push(s@[i as int]) =~= base + s@.take(
                        i + 1,
                    ));
                }
                out.push(s[i]);
                i = i + 1;
            }
            proof {
                assert(s@.take(n as int) =~= s@);
            }
            push_str_chars(out, "\")");
            proof {
                assert(out@ =~= old(out)@ + ("String(\""@ + s@ + "\")"@));
            }
        },
        Value::Integer(n) => {
            push_str_chars(out, "Integer(");
            push_i32(out, *n);
            push_str_chars(out, ")");
            proof {
                assert(out@ =~= old(out)@ + ("Integer("@ + render_int(*n as int) + ")"@));
            }
        },
        Value::Boolean(b) => {
            if *b {
                push_str_chars(out, "Boolean(true)");
            } else {
                push_str_chars(out, "Boolean(false)");
            }
        },
        Value::Mapping(ps) => {
            render_map_into(out, ps, false);
            proof {
                assert(out@ =~= old(out)@ + (seq!['{'] + disp_pairs(pair_models(ps@))
                    + seq!['}']));
            }
        },
        Value::Sequence(es) => {
            out.push('[');
            render_items_into(out, es, false);
            out.push(']');
            proof {
                assert(out@ =~= old(out)@ + (seq!['['] + disp_items(elem_models(es@))
                    + seq![']']));
            }
        },
        Value::UniqueSet(es) => {
            out.push('{');
            render_items_into(out, es, false);
            out.push('}');
            proof {
                assert(out@ =~= old(out)@ + (seq!['{'] + disp_items(elem_models(es@))
                    + seq!['}']));
            }
        },
    }
}

/// The canonical literal text of a value, as a string.
pub fn render_literal(v: &Value) -> (r: String)
    ensures
        r@ == render_lit(v@),
{
    let mut out: Vec<char> = Vec::new();
    render_lit_into(&mut out, v);
    chars_to_string(&out)
}

/// The display text of a value, as a string.
pub fn render_display(v: &Value) -> (r: String)
    ensures
        r@ == disp_lit(v@),
{
    let mut out: Vec<char> = Vec::new();
    disp_lit_into(&mut out, v);
    chars_to_string(&out)
}

} // verus!
