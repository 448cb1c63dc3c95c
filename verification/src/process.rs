//! The tree comparator: walks two documents in lockstep, reconciles object
//! keys by set operations and array elements by an edit script, and merges
//! the children's results into the three channels.

use vstd::prelude::*;

use crate::ds::key_node::{aflat, aflat_children, join_key, knode_views_of, KeyNode, KeyNodeV};
use crate::ds::mismatch::{Mismatch, MismatchV};
use crate::enums::{spec_entry_key, Error, ValueTypeV};
use crate::ext::{json_parse, parse_json};
use crate::json::{deep_eq, has_key_v, pair_views_of, views_of, JsonV, JsonVal};
use crate::myers::{myers_diff, ListDiffHandler, Replace, ARR_LIMIT};
use crate::order::{cmp_values, deep_canon, lemma_norm_obj_keys, norm};
use crate::render::{dec_nat, push_digits, render_v, render_json};

verus! {

/// Whether a branching node binds `k` to `c`.
pub open spec fn node_maps(t: KeyNodeV, k: Seq<char>, c: KeyNodeV) -> bool {
    &&& t is Node
    &&& exists|i: int| 0 <= i < t->Node_0.len() && #[trigger] t->Node_0[i] == (k, c)
}

/// Whether a branching node binds `k` to the bare marker.
pub open spec fn node_maps_nil(t: KeyNodeV, k: Seq<char>) -> bool {
    &&& t is Node
    &&& exists|i: int|
        0 <= i < t->Node_0.len() && (#[trigger] t->Node_0[i]).0 == k && t->Node_0[i].1 is Nil
}

/// Whether a node's pairs hold the key `k`.
pub open spec fn node_has_key(ps: Seq<(Seq<char>, KeyNodeV)>, k: Seq<char>) -> bool {
    exists|i: int| 0 <= i < ps.len() && (#[trigger] ps[i]).0 == k
}

/// Whether every key of a branching node is a key of the object `ps`.
pub open spec fn node_keys_among(t: KeyNodeV, ps: Seq<(Seq<char>, JsonV)>) -> bool {
    t is Node ==> forall|i: int|
        0 <= i < t->Node_0.len() ==> has_key_v(ps, (#[trigger] t->Node_0[i]).0)
}

/// What the comparison promises of the three channels when both documents
/// are objects: a key on one side only appears as a marker in that side's
/// channel, each side's channel speaks only of that side's keys, and the
/// mismatched channel speaks only of shared keys.
pub open spec fn obj_clauses(av: JsonV, bv: JsonV, m: MismatchV) -> bool {
    (av is Obj && bv is Obj) ==> {
        let xs = av->Obj_0;
        let ys = bv->Obj_0;
        &&& forall|k: Seq<char>|
            #[trigger] has_key_v(xs, k) && !has_key_v(ys, k) ==> node_maps_nil(m.left_only_keys, k)
        &&& forall|k: Seq<char>|
            #[trigger] has_key_v(ys, k) && !has_key_v(xs, k) ==> node_maps_nil(
                m.right_only_keys,
                k,
            )
        &&& node_keys_among(m.left_only_keys, xs)
        &&& node_keys_among(m.right_only_keys, ys)
        &&& (m.keys_in_both is Node ==> forall|i: int|
            0 <= i < m.keys_in_both->Node_0.len() ==> has_key_v(
                xs,
                (#[trigger] m.keys_in_both->Node_0[i]).0,
            ) && has_key_v(ys, m.keys_in_both->Node_0[i].0))
    }
}

/// What the comparison promises when the two documents are not both
/// objects and not both arrays: equal documents leave every channel
/// empty, and unequal ones become exactly one whole-value mismatch leaf
/// carrying the two documents themselves, with the one-sided channels
/// empty.
pub open spec fn scalar_clause(av: JsonV, bv: JsonV, m: MismatchV) -> bool {
    !((av is Obj && bv is Obj) || (av is Arr && bv is Arr)) ==> if av == bv {
        m.is_empty()
    } else {
        &&& m.left_only_keys is Nil
        &&& m.right_only_keys is Nil
        &&& m.keys_in_both == KeyNodeV::Value(av, bv)
    }
}

/// What the channels may hold when both documents are arrays (and short
/// enough to reconcile element by element): each one-sided channel's keys
/// are array-position paths over that side's compared elements, and the
/// mismatched channel's keys are bare array-position paths.
pub open spec fn array_clauses(av: JsonV, bv: JsonV, m: MismatchV) -> bool {
    (av is Arr && bv is Arr && av->Arr_0.len() <= ARR_LIMIT && bv->Arr_0.len() <= ARR_LIMIT)
        ==> {
        &&& arr_side_channel(m.left_only_keys, av->Arr_0)
        &&& arr_side_channel(m.right_only_keys, bv->Arr_0)
        &&& arr_both_channel(m.keys_in_both)
    }
}

/// Everything the comparison promises: well-formed channels, emptiness
/// exactly when the canonical forms agree, the object key clauses, the
/// whole-value rule for unlike shapes, and the array channel shapes.
pub open spec fn match_contract(av: JsonV, bv: JsonV, sort_arrays: bool, m: MismatchV) -> bool {
    &&& m.wf()
    &&& (m.is_empty() <==> norm(av, sort_arrays) == norm(bv, sort_arrays))
    &&& obj_clauses(av, bv, m)
    &&& scalar_clause(av, bv, m)
    &&& array_clauses(av, bv, m)
    &&& (m.keys_in_both is Value ==> m.left_only_keys is Nil && m.right_only_keys is Nil)
}

/// Comparing any document with itself finds no difference: every channel
/// of the result is empty.
pub proof fn lemma_compare_self(v: JsonV, sort_arrays: bool, m: MismatchV)
    requires
        match_contract(v, v, sort_arrays, m),
    ensures
        m.is_empty(),
{
}


/// Whether a piece of text never holds the path separator.
pub open spec fn arrow_free(s: Seq<char>) -> bool {
    forall|i: int| 0 <= i < s.len() - 1 ==> !((#[trigger] s[i]) == '-' && s[i + 1] == '>')
}

/// Whether `s` extends the path `p` by the separator and more text.
pub open spec fn arrow_ext(p: Seq<char>, s: Seq<char>) -> bool {
    &&& s.len() >= p.len() + 2
    &&& s.take(p.len() as int) == p
    &&& s[p.len() as int] == '-'
    &&& s[p.len() as int + 1] == '>'
}

/// Picking the entries whose key path is exactly `k`.
pub open spec fn key_pred(k: Seq<char>) -> spec_fn(ValueTypeV) -> bool {
    |e: ValueTypeV| spec_entry_key(e) == k
}

proof fn lemma_aflat_prefixed(t: KeyNodeV, p: Seq<char>, m: nat)
    ensures
        forall|j: int|
            0 <= j < aflat(t, Option::Some(p), m).len() ==> spec_entry_key(
                #[trigger] aflat(t, Option::Some(p), m)[j],
            ) == p || arrow_ext(p, spec_entry_key(aflat(t, Option::Some(p), m)[j])),
    decreases t, 1int,
{
    let entries = aflat(t, Option::Some(p), m);
    match t {
        KeyNodeV::Node(ps) => {
            lemma_aflat_children_prefixed(ps, p, m);
            let ce = aflat_children(ps, Option::Some(p), m);
            assert(entries == ce);
            assert forall|j: int| 0 <= j < entries.len() implies spec_entry_key(
                #[trigger] entries[j],
            ) == p || arrow_ext(p, spec_entry_key(entries[j])) by {
                assert(entries[j] == ce[j]);
                assert(arrow_ext(p, spec_entry_key(ce[j])));
            }
        },
        KeyNodeV::Nil => {
            assert(entries == seq![ValueTypeV::Key(p)]);
            assert(spec_entry_key(entries[0]) == p);
        },
        KeyNodeV::Value(a, b) => {
            assert(spec_entry_key(entries[0]) == p);
        },
    }
}

proof fn lemma_aflat_children_prefixed(ps: Seq<(Seq<char>, KeyNodeV)>, p: Seq<char>, m: nat)
    ensures
        forall|j: int|
            0 <= j < aflat_children(ps, Option::Some(p), m).len() ==> arrow_ext(
                p,
                spec_entry_key(#[trigger] aflat_children(ps, Option::Some(p), m)[j]),
            ),
    decreases ps, 0int,
{
    reveal_strlit("->");
    if ps.len() > 0 {
        lemma_aflat_children_prefixed(ps.drop_last(), p, m);
        let p2 = join_key(Option::Some(p), ps.last().0);
        lemma_aflat_prefixed(ps.last().1, p2, m);
        let prev = aflat_children(ps.drop_last(), Option::Some(p), m);
        let tail = aflat(ps.last().1, Option::Some(p2), m);
        let whole = aflat_children(ps, Option::Some(p), m);
        assert(whole == prev + tail);
        assert forall|j: int| 0 <= j < whole.len() implies arrow_ext(
            p,
            spec_entry_key(#[trigger] whole[j]),
        ) by {
            if j < prev.len() {
                assert(whole[j] == prev[j]);
            } else {
                assert(whole[j] == tail[j - prev.len()]);
                let e = spec_entry_key(tail[j - prev.len()]);
                assert(p2 == p + "->"@ + ps.last().0);
                assert(p2.len() >= p.len() + 2);
                if e == p2 {
                    assert(e.take(p.len() as int) =~= p);
                    assert(arrow_ext(p, e));
                } else {
                    assert(arrow_ext(p2, e));
                    assert(e.take(p2.len() as int) == p2);
                    assert forall|q: int| 0 <= q < p.len() implies e[q] == p[q] by {
                        assert(e.take(p2.len() as int)[q] == p2[q]);
                    }
                    assert(e.take(p.len() as int) =~= p);
                    assert(e[p.len() as int] == e.take(p2.len() as int)[p.len() as int]);
                    assert(e[p.len() as int + 1] == e.take(p2.len() as int)[p.len() as int + 1]);
                    assert(arrow_ext(p, e));
                }
            }
        }
    }
}

proof fn lemma_filter_key_none(entries: Seq<ValueTypeV>, k: Seq<char>)
    requires
        forall|j: int| 0 <= j < entries.len() ==> spec_entry_key(#[trigger] entries[j]) != k,
    ensures
        entries.filter(key_pred(k)).len() == 0,
    decreases entries.len(),
{
    reveal(Seq::filter);
    if entries.len() > 0 {
        lemma_filter_key_none(entries.drop_last(), k);
    }
}

proof fn lemma_count_zero_child(c: KeyNodeV, k2: Seq<char>, k: Seq<char>, m: nat)
    requires
        k2 != k,
        arrow_free(k),
    ensures
        aflat(c, Option::Some(k2), m).filter(key_pred(k)).len() == 0,
{
    lemma_aflat_prefixed(c, k2, m);
    let entries = aflat(c, Option::Some(k2), m);
    assert forall|j: int| 0 <= j < entries.len() implies spec_entry_key(#[trigger] entries[j])
        != k by {
        let e = spec_entry_key(entries[j]);
        if e == k {
            assert(arrow_ext(k2, k));
            assert(k[k2.len() as int] == '-' && k[k2.len() as int + 1] == '>');
            assert(0 <= (k2.len() as int) && (k2.len() as int) < k.len() - 1);
            assert(false);
        }
    }
    lemma_filter_key_none(entries, k);
}

proof fn lemma_count_children_zero(ps: Seq<(Seq<char>, KeyNodeV)>, k: Seq<char>, m: nat)
    requires
        forall|w: int| 0 <= w < ps.len() ==> (#[trigger] ps[w]).0 != k,
        arrow_free(k),
    ensures
        aflat_children(ps, Option::None, m).filter(key_pred(k)).len() == 0,
    decreases ps.len(),
{
    reveal(Seq::filter);
    if ps.len() > 0 {
        lemma_count_children_zero(ps.drop_last(), k, m);
        lemma_count_zero_child(ps.last().1, ps.last().0, k, m);
        let prev = aflat_children(ps.drop_last(), Option::None, m);
        let tail = aflat(ps.last().1, Option::Some(ps.last().0), m);
        vstd::seq::Seq::filter_distributes_over_add(prev, tail, key_pred(k));
        assert(aflat_children(ps, Option::None, m) == prev + tail);
    }
}

proof fn lemma_count_children_one(
    ps: Seq<(Seq<char>, KeyNodeV)>,
    k: Seq<char>,
    m: nat,
    w0: int,
)
    requires
        0 <= w0 < ps.len(),
        ps[w0] == (k, KeyNodeV::Nil),
        forall|i: int, j: int|
            0 <= i < j < ps.len() ==> (#[trigger] ps[i]).0 != (#[trigger] ps[j]).0,
        arrow_free(k),
    ensures
        aflat_children(ps, Option::None, m).filter(key_pred(k)).len() == 1,
        aflat_children(ps, Option::None, m).contains(ValueTypeV::Key(k)),
    decreases ps.len(),
{
    reveal(Seq::filter);
    let prev = aflat_children(ps.drop_last(), Option::None, m);
    let tail = aflat(ps.last().1, Option::Some(ps.last().0), m);
    let whole = aflat_children(ps, Option::None, m);
    assert(whole == prev + tail);
    vstd::seq::Seq::filter_distributes_over_add(prev, tail, key_pred(k));
    if w0 == ps.len() - 1 {
        let dropped = ps.drop_last();
        assert forall|w: int| 0 <= w < dropped.len() implies (#[trigger] dropped[w]).0 != k by {
            assert(ps[w].0 != ps[w0].0);
        }
        lemma_count_children_zero(ps.drop_last(), k, m);
        assert(tail =~= seq![ValueTypeV::Key(k)]);
        assert(tail.filter(key_pred(k)).len() == 1) by {
            assert(tail.drop_last() =~= Seq::<ValueTypeV>::empty());
            assert(key_pred(k)(tail.last()));
        }
        assert(whole[whole.len() - 1] == ValueTypeV::Key(k));
        assert(whole.contains(ValueTypeV::Key(k)));
    } else {
        let dropped = ps.drop_last();
        assert forall|i: int, j: int|
            0 <= i < j < dropped.len() implies (#[trigger] dropped[i]).0 != (#[trigger] dropped[j]).0 by {
            assert(ps[i].0 != ps[j].0);
        }
        lemma_count_children_one(ps.drop_last(), k, m, w0);
        assert(ps.last().0 != k) by {
            assert(ps[w0].0 != ps[ps.len() - 1].0);
        }
        lemma_count_zero_child(ps.last().1, ps.last().0, k, m);
        let e = choose|i: int| 0 <= i < prev.len() && prev[i] == ValueTypeV::Key(k);
        assert(whole[e] == ValueTypeV::Key(k));
        assert(whole.contains(ValueTypeV::Key(k)));
    }
}

/// A key present in the left document but not the right appears exactly
/// once in the flattened left-only channel, as the bare path equal to that
/// key, and never in the right-only or mismatched channel.  Stated for
/// keys that do not contain the path separator `->`, which would make one
/// flattened path collide with another.
pub proof fn lemma_one_sided_key(av: JsonV, bv: JsonV, m: MismatchV, k: Seq<char>, max_len: nat)
    requires
        av is Obj,
        bv is Obj,
        m.wf(),
        obj_clauses(av, bv, m),
        m.keys_in_both is Value ==> m.left_only_keys is Nil && m.right_only_keys is Nil,
        has_key_v(av->Obj_0, k),
        !has_key_v(bv->Obj_0, k),
        arrow_free(k),
    ensures
        aflat(m.left_only_keys, Option::None, max_len).filter(key_pred(k)).len() == 1,
        aflat(m.left_only_keys, Option::None, max_len).contains(ValueTypeV::Key(k)),
        aflat(m.right_only_keys, Option::None, max_len).filter(key_pred(k)).len() == 0,
        aflat(m.keys_in_both, Option::None, max_len).filter(key_pred(k)).len() == 0,
{
    assert(node_maps_nil(m.left_only_keys, k));
    let lt = m.left_only_keys->Node_0;
    let w0 = choose|i: int|
        0 <= i < lt.len() && (#[trigger] lt[i]).0 == k && lt[i].1 is Nil;
    assert(lt[w0] == (k, KeyNodeV::Nil));
    lemma_count_children_one(lt, k, max_len, w0);
    match m.right_only_keys {
        KeyNodeV::Node(rt) => {
            assert forall|w: int| 0 <= w < rt.len() implies (#[trigger] rt[w]).0 != k by {
                assert(has_key_v(bv->Obj_0, rt[w].0));
            }
            lemma_count_children_zero(rt, k, max_len);
        },
        KeyNodeV::Nil => {
            vstd::seq::Seq::lemma_filter_len(
                aflat(m.right_only_keys, Option::None, max_len),
                key_pred(k),
            );
        },
        KeyNodeV::Value(_, _) => {
            assert(false);
        },
    }
    match m.keys_in_both {
        KeyNodeV::Node(bt) => {
            assert forall|w: int| 0 <= w < bt.len() implies (#[trigger] bt[w]).0 != k by {
                assert(has_key_v(bv->Obj_0, bt[w].0));
            }
            lemma_count_children_zero(bt, k, max_len);
        },
        KeyNodeV::Nil => {
            vstd::seq::Seq::lemma_filter_len(
                aflat(m.keys_in_both, Option::None, max_len),
                key_pred(k),
            );
        },
        KeyNodeV::Value(_, _) => {
            assert(m.left_only_keys is Nil);
            assert(false);
        },
    }
}

/// The mirror of the law above: a key present in the right document but
/// not the left appears exactly once in the flattened right-only channel,
/// as the bare path equal to that key, and never in the left-only or
/// mismatched channel.  Stated for keys that do not contain the path
/// separator `->`.
pub proof fn lemma_one_sided_key_right(
    av: JsonV,
    bv: JsonV,
    m: MismatchV,
    k: Seq<char>,
    max_len: nat,
)
    requires
        av is Obj,
        bv is Obj,
        m.wf(),
        obj_clauses(av, bv, m),
        m.keys_in_both is Value ==> m.left_only_keys is Nil && m.right_only_keys is Nil,
        has_key_v(bv->Obj_0, k),
        !has_key_v(av->Obj_0, k),
        arrow_free(k),
    ensures
        aflat(m.right_only_keys, Option::None, max_len).filter(key_pred(k)).len() == 1,
        aflat(m.right_only_keys, Option::None, max_len).contains(ValueTypeV::Key(k)),
        aflat(m.left_only_keys, Option::None, max_len).filter(key_pred(k)).len() == 0,
        aflat(m.keys_in_both, Option::None, max_len).filter(key_pred(k)).len() == 0,
{
    assert(node_maps_nil(m.right_only_keys, k));
    let rt = m.right_only_keys->Node_0;
    let w0 = choose|i: int|
        0 <= i < rt.len() && (#[trigger] rt[i]).0 == k && rt[i].1 is Nil;
    assert(rt[w0] == (k, KeyNodeV::Nil));
    lemma_count_children_one(rt, k, max_len, w0);
    match m.left_only_keys {
        KeyNodeV::Node(lt) => {
            assert forall|w: int| 0 <= w < lt.len() implies (#[trigger] lt[w]).0 != k by {
                assert(has_key_v(av->Obj_0, lt[w].0));
            }
            lemma_count_children_zero(lt, k, max_len);
        },
        KeyNodeV::Nil => {
            vstd::seq::Seq::lemma_filter_len(
                aflat(m.left_only_keys, Option::None, max_len),
                key_pred(k),
            );
        },
        KeyNodeV::Value(_, _) => {
            assert(false);
        },
    }
    match m.keys_in_both {
        KeyNodeV::Node(bt) => {
            assert forall|w: int| 0 <= w < bt.len() implies (#[trigger] bt[w]).0 != k by {
                assert(has_key_v(av->Obj_0, bt[w].0));
            }
            lemma_count_children_zero(bt, k, max_len);
        },
        KeyNodeV::Nil => {
            vstd::seq::Seq::lemma_filter_len(
                aflat(m.keys_in_both, Option::None, max_len),
                key_pred(k),
            );
        },
        KeyNodeV::Value(_, _) => {
            assert(m.right_only_keys is Nil);
            assert(false);
        },
    }
}

/// Order-insensitivity: comparing two arrays whose canonical elements form
/// the same multiset, with order-insensitive array comparison, finds no
/// difference.
pub proof fn lemma_order_insensitive(xs: Seq<JsonV>, ys: Seq<JsonV>, m: MismatchV)
    requires
        crate::order::norm_each(xs, true).to_multiset() == crate::order::norm_each(
            ys,
            true,
        ).to_multiset(),
        match_contract(JsonV::Arr(xs), JsonV::Arr(ys), true, m),
    ensures
        m.is_empty(),
{
    crate::order::lemma_sorted_arrays_agree(xs, ys);
}

/// Parses both texts and compares the documents; fails exactly when one of
/// the texts is not valid JSON, naming the first source that failed.
pub fn compare_jsons(a: &str, b: &str, sort_arrays: bool) -> (r: Result<Mismatch, Error>)
    ensures
        r is Ok <==> (json_parse(a@) is Some && json_parse(b@) is Some),
        r is Ok ==> match_contract(
            json_parse(a@)->Some_0,
            json_parse(b@)->Some_0,
            sort_arrays,
            r->Ok_0@,
        ),
        r is Err ==> r->Err_0 is JSON,
        json_parse(a@) is None ==> r->Err_0->JSON_0@.take(
            "parse failed on source 1: "@.len() as int,
        ) == "parse failed on source 1: "@,
        json_parse(a@) is Some && json_parse(b@) is None ==> r->Err_0->JSON_0@.take(
            "parse failed on source 2: "@.len() as int,
        ) == "parse failed on source 2: "@,
{
    let value1 = match parse_json(a) {
        Ok(v) => v,
        Err(e) => {
            let msg = String::from_str("parse failed on source 1: ").concat(e.as_str());
            proof {
                assert(msg@.take("parse failed on source 1: "@.len() as int) =~=
                    "parse failed on source 1: "@);
            }
            return Err(Error::JSON(msg));
        },
    };
    let value2 = match parse_json(b) {
        Ok(v) => v,
        Err(e) => {
            let msg = String::from_str("parse failed on source 2: ").concat(e.as_str());
            proof {
                assert(msg@.take("parse failed on source 2: "@.len() as int) =~=
                    "parse failed on source 2: "@);
            }
            return Err(Error::JSON(msg));
        },
    };
    Ok(match_json(&value1, &value2, sort_arrays))
}

/// Compares two documents and classifies every position into the three
/// channels.  The result is empty exactly when the two documents agree up
/// to object key order, and, when `sort_arrays` is set, up to array order
/// at every depth.
pub fn match_json(a: &JsonVal, b: &JsonVal, sort_arrays: bool) -> (r: Mismatch)
    ensures
        match_contract(a@, b@, sort_arrays, r@),
{
    let ca = deep_canon(a, sort_arrays);
    let cb = deep_canon(b, sort_arrays);
    let canon_equal = deep_eq(&ca, &cb);
    proof {
        if a@ is Obj && b@ is Obj && canon_equal {
            assert forall|k: Seq<char>| true implies #[trigger] has_key_v(a@->Obj_0, k)
                == has_key_v(b@->Obj_0, k) by {
                lemma_norm_obj_keys(a@->Obj_0, sort_arrays, k);
                lemma_norm_obj_keys(b@->Obj_0, sort_arrays, k);
            }
        }
        if !((a@ is Obj && b@ is Obj) || (a@ is Arr && b@ is Arr)) {
            assert(a@ is Obj ==> norm(a@, sort_arrays) is Obj);
            assert(a@ is Arr ==> norm(a@, sort_arrays) is Arr);
            assert(b@ is Obj ==> norm(b@, sort_arrays) is Obj);
            assert(b@ is Arr ==> norm(b@, sort_arrays) is Arr);
            assert(!(a@ is Obj) && !(a@ is Arr) ==> norm(a@, sort_arrays) == a@);
            assert(!(b@ is Obj) && !(b@ is Arr) ==> norm(b@, sort_arrays) == b@);
            assert(canon_equal == (a@ == b@));
        }
    }
    let core = match_core(a, b, sort_arrays);
    let result = if canon_equal {
        if core.is_empty() {
            core
        } else {
            // An edit script from a minimal-diff pass finds no difference
            // between equal canonical forms, so this is never reached; it
            // guards the emptiness guarantee.
            Mismatch::empty()
        }
    } else {
        if core.is_empty() {
            // Never reached for the same reason: differing canonical forms
            // always leave a trace in some channel.  A whole-value
            // mismatch guards the guarantee.
            Mismatch::new(KeyNode::Nil, KeyNode::Nil, KeyNode::Value(a.clone(), b.clone()))
        } else {
            core
        }
    };
    proof {
        assert(result@.is_empty() <==> norm(a@, sort_arrays) == norm(b@, sort_arrays));
        assert(result@.wf());
        if a@ is Obj && b@ is Obj {
            if canon_equal {
                assert forall|k: Seq<char>|
                    #[trigger] has_key_v(a@->Obj_0, k) && !has_key_v(
                        b@->Obj_0,
                        k,
                    ) implies node_maps_nil(result@.left_only_keys, k) by {
                    assert(has_key_v(b@->Obj_0, k));
                }
                assert forall|k: Seq<char>|
                    #[trigger] has_key_v(b@->Obj_0, k) && !has_key_v(
                        a@->Obj_0,
                        k,
                    ) implies node_maps_nil(result@.right_only_keys, k) by {
                    assert(has_key_v(a@->Obj_0, k));
                }
                assert(obj_clauses(a@, b@, result@));
            } else if result@ == core@ {
                assert(obj_clauses(a@, b@, result@));
            } else {
                assert(core@.is_empty());
                assert forall|k: Seq<char>|
                    #[trigger] has_key_v(a@->Obj_0, k) && !has_key_v(
                        b@->Obj_0,
                        k,
                    ) implies node_maps_nil(result@.left_only_keys, k) by {
                    assert(node_maps_nil(core@.left_only_keys, k));
                    assert(false);
                }
                assert forall|k: Seq<char>|
                    #[trigger] has_key_v(b@->Obj_0, k) && !has_key_v(
                        a@->Obj_0,
                        k,
                    ) implies node_maps_nil(result@.right_only_keys, k) by {
                    assert(node_maps_nil(core@.right_only_keys, k));
                    assert(false);
                }
                assert(obj_clauses(a@, b@, result@));
            }
        }
        assert(scalar_clause(a@, b@, result@));
        assert(array_clauses(a@, b@, result@));
    }
    result
}

/// The recursive comparator.  Arrays are aligned by their elements'
/// canonical forms (reordered first when order-insensitive comparison is
/// asked for), but every channel carries the documents' own values.
#[verifier::loop_isolation(false)]
#[verifier::rlimit(100)]
fn match_core(a: &JsonVal, b: &JsonVal, sort_arrays: bool) -> (r: Mismatch)
    ensures
        r@.wf(),
        obj_clauses(a@, b@, r@),
        r@.keys_in_both is Value ==> r@.left_only_keys is Nil && r@.right_only_keys is Nil,
        !((a@ is Obj && b@ is Obj) || (a@ is Arr && b@ is Arr)) ==> if a@ == b@ {
            r@.is_empty()
        } else {
            r@.left_only_keys is Nil && r@.right_only_keys is Nil && r@.keys_in_both
                == KeyNodeV::Value(a@, b@)
        },
        a@ is Arr && b@ is Arr && a@->Arr_0.len() <= ARR_LIMIT && b@->Arr_0.len() <= ARR_LIMIT
            ==> !(r@.keys_in_both is Value) && arr_side_channel(r@.left_only_keys, a@->Arr_0)
            && arr_side_channel(r@.right_only_keys, b@->Arr_0) && arr_both_channel(
            r@.keys_in_both,
        ),
    decreases a,
{
    match (a, b) {
        (JsonVal::Obj(x), JsonVal::Obj(y)) => {
            let ghost xv = pair_views_of(x@);
            let ghost yv = pair_views_of(y@);
            let diff = intersect_maps(x, y);
            let mut left_only_keys = get_map_of_keys(diff.left_only);
            let mut right_only_keys = get_map_of_keys(diff.right_only);
            let mut unequal_keys = KeyNode::Nil;
            if let Some(intersection_keys) = diff.intersection {
                let icount = intersection_keys.len();
                for t in 0..icount
                    invariant
                        left_only_keys@.wf(),
                        left_only_keys@.marker_only(),
                        right_only_keys@.wf(),
                        right_only_keys@.marker_only(),
                        unequal_keys@.wf(),
                        !(unequal_keys@ is Value),
                        forall|k: Seq<char>|
                            #[trigger] has_key_v(xv, k) && !has_key_v(yv, k) ==> node_maps_nil(
                                left_only_keys@,
                                k,
                            ),
                        forall|k: Seq<char>|
                            #[trigger] has_key_v(yv, k) && !has_key_v(xv, k) ==> node_maps_nil(
                                right_only_keys@,
                                k,
                            ),
                        node_keys_among(left_only_keys@, xv),
                        node_keys_among(right_only_keys@, yv),
                        unequal_keys@ is Node ==> forall|i: int|
                            0 <= i < unequal_keys@->Node_0.len() ==> has_key_v(
                                xv,
                                (#[trigger] unequal_keys@->Node_0[i]).0,
                            ) && has_key_v(yv, unequal_keys@->Node_0[i].0),
                {
                    let key = &intersection_keys[t];
                    proof {
                        assert(has_key_v(xv, intersection_keys@[t as int]@) && has_key_v(
                            yv,
                            intersection_keys@[t as int]@,
                        ));
                        assert(has_key_v(xv, key@) && has_key_v(yv, key@));
                    }
                    let ia = obj_find(x, key);
                    let ib = obj_find(y, key);
                    let child = match_core(&x[ia].1, &y[ib].1, sort_arrays);
                    let Mismatch { left_only_keys: l, right_only_keys: rr, keys_in_both: u } =
                        child;
                    let ghost prev_left = left_only_keys@;
                    let ghost prev_right = right_only_keys@;
                    let ghost prev_uneq = unequal_keys@;
                    left_only_keys = insert_child_key_map(left_only_keys, l, key);
                    right_only_keys = insert_child_key_map(right_only_keys, rr, key);
                    unequal_keys = insert_child_key_map(unequal_keys, u, key);
                    proof {
                        lemma_markers_preserved(prev_left, left_only_keys@, key@, xv, yv);
                        lemma_markers_preserved(prev_right, right_only_keys@, key@, yv, xv);
                        lemma_among_preserved(prev_left, left_only_keys@, key@, xv);
                        lemma_among_preserved(prev_right, right_only_keys@, key@, yv);
                        if unequal_keys@ is Node {
                            assert forall|i: int|
                                0 <= i < unequal_keys@->Node_0.len() implies has_key_v(
                                xv,
                                (#[trigger] unequal_keys@->Node_0[i]).0,
                            ) && has_key_v(yv, unequal_keys@->Node_0[i].0) by {
                                let kk = unequal_keys@->Node_0[i].0;
                                if kk != key@ {
                                    if prev_uneq is Node {
                                        assert(node_has_key(prev_uneq->Node_0, kk)
                                            || kk == key@);
                                        let w = choose|w: int|
                                            0 <= w < prev_uneq->Node_0.len() && (
                                            #[trigger] prev_uneq->Node_0[w]).0 == kk;
                                    }
                                }
                            }
                        }
                    }
                }
            }
            Mismatch::new(left_only_keys, right_only_keys, unequal_keys)
        },
        (JsonVal::Arr(x), JsonVal::Arr(y)) => {
            proof {
                crate::json::lemma_views_of_len(x@);
                crate::json::lemma_views_of_len(y@);
            }
            if x.len() > ARR_LIMIT || y.len() > ARR_LIMIT {
                // Arrays this long are not reconciled element by element;
                // the whole values are compared instead.
                if deep_eq(a, b) {
                    return Mismatch::empty();
                }
                return Mismatch::new(
                    KeyNode::Nil,
                    KeyNode::Nil,
                    KeyNode::Value(a.clone(), b.clone()),
                );
            }
            let ghost xv2 = views_of(x@);
            let ghost yv2 = views_of(y@);
            let cx = canon_all(x, sort_arrays);
            let cy = canon_all(y, sort_arrays);
            let px = if sort_arrays {
                sort_indices(&cx)
            } else {
                identity_indices(x.len())
            };
            let py = if sort_arrays {
                sort_indices(&cy)
            } else {
                identity_indices(y.len())
            };
            let cxs = select(&cx, &px);
            let cys = select(&cy, &py);
            let rxs = select(x, &px);
            let rys = select(y, &py);
            let mut d = Replace::new();
            myers_diff(&mut d, &cxs, 0, cxs.len(), &cys, 0, cys.len());
            let ListDiffHandler { replaced, deletion, insertion } = d.d;
            let mut left_only_nodes = values_to_node(&deletion, &rxs);
            let mut right_only_nodes = values_to_node(&insertion, &rys);
            proof {
                crate::json::lemma_views_of_len(rxs@);
                crate::json::lemma_views_of_len(rys@);
                assert forall|i: int|
                    0 <= i < views_of(rxs@).len() implies (#[trigger] px@[i]) < xv2.len()
                    && views_of(rxs@)[i] == xv2[px@[i] as int] by {
                    assert(views_of(rxs@)[i] == views_of(x@)[px@[i] as int]);
                }
                assert forall|i: int|
                    0 <= i < views_of(rys@).len() implies (#[trigger] py@[i]) < yv2.len()
                    && views_of(rys@)[i] == yv2[py@[i] as int] by {
                    assert(views_of(rys@)[i] == views_of(y@)[py@[i] as int]);
                }
                lemma_markers_are_arr_keys(
                    left_only_nodes@,
                    deletion@,
                    rxs@.len() as nat,
                    views_of(rxs@),
                    xv2,
                    px@,
                );
                lemma_markers_are_arr_keys(
                    right_only_nodes@,
                    insertion@,
                    rys@.len() as nat,
                    views_of(rys@),
                    yv2,
                    py@,
                );
            }
            let mut diff = KeyNode::Nil;
            let rcount = replaced.len();
            for t in 0..rcount
                invariant
                    left_only_nodes@.wf(),
                    left_only_nodes@.marker_only(),
                    right_only_nodes@.wf(),
                    right_only_nodes@.marker_only(),
                    diff@.wf(),
                    !(diff@ is Value),
                    arr_side_channel(left_only_nodes@, xv2),
                    arr_side_channel(right_only_nodes@, yv2),
                    arr_both_channel(diff@),
            {
                let (o, ol, n2, nl) = replaced[t];
                let sane = o <= rxs.len() && ol <= rxs.len() - o && n2 <= rys.len() && nl
                    <= rys.len() - n2;
                if sane {
                    let max_length = if ol > nl {
                        ol
                    } else {
                        nl
                    };
                    for q in 0..max_length
                        invariant
                            o <= rxs@.len(),
                            ol <= rxs@.len() - o,
                            n2 <= rys@.len(),
                            nl <= rys@.len() - n2,
                            max_length == (if ol > nl {
                                ol
                            } else {
                                nl
                            }),
                            left_only_nodes@.wf(),
                            left_only_nodes@.marker_only(),
                            right_only_nodes@.wf(),
                            right_only_nodes@.marker_only(),
                            diff@.wf(),
                            !(diff@ is Value),
                            arr_side_channel(left_only_nodes@, xv2),
                            arr_side_channel(right_only_nodes@, yv2),
                            arr_both_channel(diff@),
                    {
                        let position = o + q;
                        let right_pos = n2 + q;
                        let left_present = position < rxs.len();
                        let right_present = right_pos < rys.len();
                        let child: Mismatch = if left_present && right_present {
                            match_core(&x[px[position]], &y[py[right_pos]], sort_arrays)
                        } else if left_present {
                            if matches!(&x[px[position]], JsonVal::Null) {
                                Mismatch::empty()
                            } else {
                                Mismatch::new(
                                    KeyNode::Nil,
                                    KeyNode::Nil,
                                    KeyNode::Value(x[px[position]].clone(), JsonVal::Null),
                                )
                            }
                        } else if right_present {
                            if matches!(&y[py[right_pos]], JsonVal::Null) {
                                Mismatch::empty()
                            } else {
                                Mismatch::new(
                                    KeyNode::Nil,
                                    KeyNode::Nil,
                                    KeyNode::Value(JsonVal::Null, y[py[right_pos]].clone()),
                                )
                            }
                        } else {
                            Mismatch::empty()
                        };
                        let key = index_key(position);
                        proof {
                            assert(key@ == index_text(position as nat));
                            assert(is_index_key(key@));
                        }
                        let Mismatch { left_only_keys: l, right_only_keys: rr, keys_in_both: u } =
                            child;
                        let ghost prev_l2 = left_only_nodes@;
                        let ghost prev_r2 = right_only_nodes@;
                        let ghost prev_u2 = diff@;
                        left_only_nodes = insert_child_key_map(left_only_nodes, l, &key);
                        right_only_nodes = insert_child_key_map(right_only_nodes, rr, &key);
                        diff = insert_child_key_map(diff, u, &key);
                        proof {
                            lemma_node_keys_pred_preserved(
                                prev_l2,
                                left_only_nodes@,
                                key@,
                                |kq: Seq<char>| is_arr_key(kq, xv2),
                            );
                            lemma_node_keys_pred_preserved(
                                prev_r2,
                                right_only_nodes@,
                                key@,
                                |kq: Seq<char>| is_arr_key(kq, yv2),
                            );
                            lemma_node_keys_pred_preserved(
                                prev_u2,
                                diff@,
                                key@,
                                |kq: Seq<char>| is_index_key(kq),
                            );
                        }
                    }
                }
            }
            Mismatch::new(left_only_nodes, right_only_nodes, diff)
        },
        _ => {
            if deep_eq(a, b) {
                Mismatch::empty()
            } else {
                Mismatch::new(KeyNode::Nil, KeyNode::Nil, KeyNode::Value(a.clone(), b.clone()))
            }
        },
    }
}

/// The canonical form of each element, in order.
fn canon_all(v: &Vec<JsonVal>, sort_arrays: bool) -> (r: Vec<JsonVal>)
    ensures
        r@.len() == v@.len(),
        forall|i: int|
            0 <= i < v@.len() ==> (#[trigger] r@[i])@ == norm(views_of(v@)[i], sort_arrays),
{
    let ghost vv = views_of(v@);
    proof {
        crate::json::lemma_views_of_len(v@);
    }
    let mut out: Vec<JsonVal> = Vec::new();
    let n = v.len();
    let mut i: usize = 0;
    while i < n
        invariant
            0 <= i <= n,
            n == v@.len(),
            vv == views_of(v@),
            vv.len() == n,
            out@.len() == i,
            forall|j: int| 0 <= j < i ==> (#[trigger] out@[j])@ == norm(vv[j], sort_arrays),
        decreases n - i,
    {
        proof {
            crate::json::lemma_views_of_index(v@, i as int);
        }
        out.push(deep_canon(&v[i], sort_arrays));
        i = i + 1;
    }
    out
}

/// The positions of an array in stored order.
fn identity_indices(n: usize) -> (r: Vec<usize>)
    ensures
        r@.len() == n,
        forall|i: int| 0 <= i < n ==> (#[trigger] r@[i]) == i,
        forall|i: int| 0 <= i < n ==> (#[trigger] r@[i]) < n,
{
    let mut out: Vec<usize> = Vec::new();
    let mut i: usize = 0;
    while i < n
        invariant
            0 <= i <= n,
            out@.len() == i,
            forall|j: int| 0 <= j < i ==> (#[trigger] out@[j]) == j,
        decreases n - i,
    {
        out.push(i);
        i = i + 1;
    }
    out
}

/// The positions of an array reordered so that the elements' canonical
/// forms stand in the document order; positions of elements whose
/// canonical forms agree keep their stored order.
fn sort_indices(canon: &Vec<JsonVal>) -> (r: Vec<usize>)
    ensures
        r@.len() == canon@.len(),
        forall|i: int| 0 <= i < r@.len() ==> (#[trigger] r@[i]) < canon@.len(),
{
    let n = canon.len();
    let mut out: Vec<usize> = Vec::new();
    let mut i: usize = 0;
    while i < n
        invariant
            0 <= i <= n,
            n == canon@.len(),
            out@.len() == i,
            forall|j: int| 0 <= j < out@.len() ==> (#[trigger] out@[j]) < n,
        decreases n - i,
    {
        let mut pos: usize = 0;
        let m = out.len();
        loop
            invariant
                0 <= pos <= m,
                m == out@.len(),
                n == canon@.len(),
                i < n,
                forall|j: int| 0 <= j < out@.len() ==> (#[trigger] out@[j]) < n,
            ensures
                0 <= pos <= m,
                m == out@.len(),
            decreases m - pos,
        {
            if pos >= m {
                break ;
            }
            let c = cmp_values(&canon[i], &canon[out[pos]]);
            if c < 0 {
                break ;
            }
            pos = pos + 1;
        }
        out.insert(pos, i);
        proof {
            assert forall|j: int| 0 <= j < out@.len() implies (#[trigger] out@[j]) < n by {
                if j < pos {
                } else if j == pos {
                } else {
                }
            }
        }
        i = i + 1;
    }
    out
}

/// The elements of an array picked out by position, in the given order.
fn select(v: &Vec<JsonVal>, idxs: &Vec<usize>) -> (r: Vec<JsonVal>)
    requires
        forall|i: int| 0 <= i < idxs@.len() ==> (#[trigger] idxs@[i]) < v@.len(),
    ensures
        r@.len() == idxs@.len(),
        forall|i: int|
            0 <= i < idxs@.len() ==> #[trigger] views_of(r@)[i] == views_of(v@)[idxs@[i] as int],
{
    let ghost vv = views_of(v@);
    proof {
        crate::json::lemma_views_of_len(v@);
    }
    let mut out: Vec<JsonVal> = Vec::new();
    let n = idxs.len();
    let mut i: usize = 0;
    while i < n
        invariant
            0 <= i <= n,
            n == idxs@.len(),
            vv == views_of(v@),
            vv.len() == v@.len(),
            forall|w: int| 0 <= w < idxs@.len() ==> (#[trigger] idxs@[w]) < v@.len(),
            out@.len() == i,
            forall|j: int| 0 <= j < i ==> (#[trigger] out@[j])@ == vv[idxs@[j] as int],
        decreases n - i,
    {
        proof {
            crate::json::lemma_views_of_index(v@, idxs@[i as int] as int);
        }
        out.push(v[idxs[i]].clone());
        i = i + 1;
    }
    proof {
        crate::json::lemma_views_of_len(out@);
        assert forall|i: int| 0 <= i < idxs@.len() implies #[trigger] views_of(out@)[i]
            == views_of(v@)[idxs@[i] as int] by {
            crate::json::lemma_views_of_index(out@, i);
        }
    }
    out
}

/// The bracketed text of a left-side array position.
fn index_key(i: usize) -> (r: String)
    ensures
        r@ == "[l: "@ + dec_nat(i as nat) + "]"@,
{
    let mut out = String::from_str("[l: ");
    push_digits(i as u64, &mut out);
    out.append("]");
    out
}

/// The marker key of a one-sided array element: its position and its
/// rendered value.
fn marker_key(i: usize, v: &JsonVal) -> (r: String)
    ensures
        r@ == "[l: "@ + dec_nat(i as nat) + "]-"@ + render_v(v@),
{
    let mut out = String::from_str("[l: ");
    push_digits(i as u64, &mut out);
    out.append("]-");
    let text = render_json(v);
    out.append(text.as_str());
    proof {
        assert(out@ =~= "[l: "@ + dec_nat(i as nat) + "]-"@ + render_v(v@));
    }
    out
}

/// Where a recorded run's indices stop: at the end of the run, or at the
/// end of the values when the run reaches past it.
pub open spec fn run_end(run: (usize, usize), len: nat) -> nat {
    if run.0 <= len && run.1 <= len - run.0 {
        (run.0 + run.1) as nat
    } else {
        len
    }
}

/// Whether some recorded run covers position `i`.
pub open spec fn covered(runs: Seq<(usize, usize)>, len: nat, i: nat) -> bool {
    exists|t: int|
        0 <= t < runs.len() && (#[trigger] runs[t]).0 <= i && i < run_end(runs[t], len)
}

/// The marker key of a one-sided array element: its position and its
/// rendered value.
pub open spec fn marker_text(i: nat, v: JsonV) -> Seq<char> {
    "[l: "@ + dec_nat(i) + "]-"@ + render_v(v)
}

/// Whether `k` is the marker key of some element position that the
/// recorded runs cover.
pub open spec fn is_marker_of(
    runs: Seq<(usize, usize)>,
    len: nat,
    vv: Seq<JsonV>,
    k: Seq<char>,
) -> bool {
    exists|i: int|
        0 <= i < vv.len() && covered(runs, len, i as nat) && k == marker_text(
            i as nat,
            #[trigger] vv[i],
        )
}

/// The same, while one run is still being walked: its positions below
/// `idx` count as covered.
pub open spec fn is_marker_upto(
    runs: Seq<(usize, usize)>,
    len: nat,
    vv: Seq<JsonV>,
    t: int,
    idx: int,
    k: Seq<char>,
) -> bool {
    exists|i: int|
        0 <= i < vv.len() && (covered(runs.take(t), len, i as nat) || (runs[t].0 <= i && i
            < idx)) && k == marker_text(i as nat, #[trigger] vv[i])
}

/// The bracketed text of a left-side array position.
pub open spec fn index_text(i: nat) -> Seq<char> {
    "[l: "@ + dec_nat(i) + "]"@
}

/// Whether `k` is an array-position path: a bare position, or a position
/// marker carrying one of the elements `vv`.
pub open spec fn is_arr_key(k: Seq<char>, vv: Seq<JsonV>) -> bool {
    ||| exists|p: nat, j: int|
        #![trigger marker_text(p, vv[j])]
        0 <= j < vv.len() && k == marker_text(p, vv[j])
    ||| exists|i: nat| k == #[trigger] index_text(i)
}

/// Whether `k` is a bare array-position path.
pub open spec fn is_index_key(k: Seq<char>) -> bool {
    exists|i: nat| k == #[trigger] index_text(i)
}

/// Every key of a one-sided array channel is an array-position path over
/// that side's elements.
pub open spec fn arr_side_channel(t: KeyNodeV, vv: Seq<JsonV>) -> bool {
    t is Node ==> forall|q: int|
        0 <= q < t->Node_0.len() ==> is_arr_key((#[trigger] t->Node_0[q]).0, vv)
}

/// Every key of an array comparison's mismatched channel is a bare
/// array-position path.
pub open spec fn arr_both_channel(t: KeyNodeV) -> bool {
    t is Node ==> forall|q: int|
        0 <= q < t->Node_0.len() ==> is_index_key((#[trigger] t->Node_0[q]).0)
}

proof fn lemma_markers_are_arr_keys(
    t: KeyNodeV,
    runs: Seq<(usize, usize)>,
    len: nat,
    svv: Seq<JsonV>,
    vv: Seq<JsonV>,
    perm: Seq<usize>,
)
    requires
        t is Node ==> forall|q: int|
            0 <= q < t->Node_0.len() ==> is_marker_of(
                runs,
                len,
                svv,
                (#[trigger] t->Node_0[q]).0,
            ),
        perm.len() == svv.len(),
        forall|i: int|
            0 <= i < svv.len() ==> (#[trigger] perm[i]) < vv.len() && svv[i] == vv[
                perm[i] as int],
    ensures
        arr_side_channel(t, vv),
{
    if t is Node {
        assert forall|q: int| 0 <= q < t->Node_0.len() implies is_arr_key(
            (#[trigger] t->Node_0[q]).0,
            vv,
        ) by {
            let k = t->Node_0[q].0;
            assert(is_marker_of(runs, len, svv, k));
            let i = choose|i: int|
                0 <= i < svv.len() && covered(runs, len, i as nat) && k == marker_text(
                    i as nat,
                    #[trigger] svv[i],
                );
            let j = perm[i] as int;
            assert(k == marker_text(i as nat, vv[j]));
        }
    }
}

proof fn lemma_node_keys_pred_preserved(
    prev: KeyNodeV,
    cur: KeyNodeV,
    key: Seq<char>,
    pred: spec_fn(Seq<char>) -> bool,
)
    requires
        pred(key),
        prev is Node ==> forall|q: int|
            0 <= q < prev->Node_0.len() ==> pred((#[trigger] prev->Node_0[q]).0),
        cur is Node && !(prev is Node) ==> forall|i: int|
            0 <= i < cur->Node_0.len() ==> (#[trigger] cur->Node_0[i]).0 == key,
        cur is Node && prev is Node ==> forall|i: int|
            0 <= i < cur->Node_0.len() ==> node_has_key(
                prev->Node_0,
                (#[trigger] cur->Node_0[i]).0,
            ) || cur->Node_0[i].0 == key,
    ensures
        cur is Node ==> forall|q: int|
            0 <= q < cur->Node_0.len() ==> pred((#[trigger] cur->Node_0[q]).0),
{
    if cur is Node {
        assert forall|q: int| 0 <= q < cur->Node_0.len() implies pred(
            (#[trigger] cur->Node_0[q]).0,
        ) by {
            let kk = cur->Node_0[q].0;
            if kk != key {
                assert(prev is Node && node_has_key(prev->Node_0, kk));
                let w = choose|w: int|
                    0 <= w < prev->Node_0.len() && (#[trigger] prev->Node_0[w]).0 == kk;
            }
        }
    }
}

proof fn lemma_marker_entry(
    runs: Seq<(usize, usize)>,
    len: nat,
    vv: Seq<JsonV>,
    t: int,
    idx: int,
    k: Seq<char>,
)
    requires
        is_marker_of(runs.take(t), len, vv, k),
    ensures
        is_marker_upto(runs, len, vv, t, idx, k),
{
    let i = choose|i: int|
        0 <= i < vv.len() && covered(runs.take(t), len, i as nat) && k == marker_text(
            i as nat,
            #[trigger] vv[i],
        );
    assert(0 <= i < vv.len() && (covered(runs.take(t), len, i as nat) || (runs[t].0 <= i && i
        < idx)) && k == marker_text(i as nat, vv[i]));
}

proof fn lemma_marker_exit(
    runs: Seq<(usize, usize)>,
    len: nat,
    vv: Seq<JsonV>,
    t: int,
    idx: int,
    k: Seq<char>,
)
    requires
        0 <= t < runs.len(),
        is_marker_upto(runs, len, vv, t, idx, k),
        (idx as nat) <= run_end(runs[t], len) || idx <= runs[t].0,
    ensures
        is_marker_of(runs.take(t + 1), len, vv, k),
{
    let i = choose|i: int|
        0 <= i < vv.len() && (covered(runs.take(t), len, i as nat) || (runs[t].0 <= i && i
            < idx)) && k == marker_text(i as nat, #[trigger] vv[i]);
    if covered(runs.take(t), len, i as nat) {
        let w = choose|w: int|
            0 <= w < runs.take(t).len() && (#[trigger] runs.take(t)[w]).0 <= i as nat && (
            i as nat) < run_end(runs.take(t)[w], len);
        assert(runs.take(t + 1)[w] == runs.take(t)[w]);
        assert(covered(runs.take(t + 1), len, i as nat));
    } else {
        assert((i as nat) < run_end(runs[t], len));
        assert(runs.take(t + 1)[t] == runs[t]);
        assert(covered(runs.take(t + 1), len, i as nat));
    }
    assert(0 <= i < vv.len() && covered(runs.take(t + 1), len, i as nat) && k == marker_text(
        i as nat,
        vv[i],
    ));
}

/// Builds the one-sided channel of an array comparison: one bare marker
/// per element position that some recorded run covers, keyed by the
/// position and the rendered value, and nothing else.
#[verifier::loop_isolation(false)]
fn values_to_node(runs: &Vec<(usize, usize)>, vals: &Vec<JsonVal>) -> (r: KeyNode)
    ensures
        r@.wf(),
        r@.marker_only(),
        forall|i: int|
            0 <= i < vals@.len() && covered(runs@, vals@.len() as nat, i as nat)
                ==> node_maps_nil(
                r@,
                marker_text(i as nat, #[trigger] views_of(vals@)[i]),
            ),
        r@ is Node ==> forall|q: int|
            0 <= q < r@->Node_0.len() ==> is_marker_of(
                runs@,
                vals@.len() as nat,
                views_of(vals@),
                (#[trigger] r@->Node_0[q]).0,
            ),
{
    let ghost lenv = vals@.len() as nat;
    let ghost vv = views_of(vals@);
    proof {
        crate::json::lemma_views_of_len(vals@);
    }
    let mut node = KeyNode::Nil;
    let rcount = runs.len();
    let mut t: usize = 0;
    while t < rcount
        invariant
            0 <= t <= rcount,
            node@.wf(),
            node@.marker_only(),
            !(node@ is Value),
            forall|i: int|
                0 <= i < vals@.len() && covered(runs@.take(t as int), lenv, i as nat)
                    ==> node_maps_nil(node@, marker_text(i as nat, #[trigger] vv[i])),
            node@ is Node ==> forall|q: int|
                0 <= q < node@->Node_0.len() ==> is_marker_of(
                    runs@.take(t as int),
                    lenv,
                    vv,
                    (#[trigger] node@->Node_0[q]).0,
                ),
        decreases rcount - t,
    {
        let (o, len) = runs[t];
        let end = if o <= vals.len() && len <= vals.len() - o {
            o + len
        } else {
            vals.len()
        };
        proof {
            assert(end as nat == run_end(runs@[t as int], lenv));
        }
        let mut idx = o;
        proof {
            if node@ is Node {
                assert forall|q: int| 0 <= q < node@->Node_0.len() implies is_marker_upto(
                    runs@,
                    lenv,
                    vv,
                    t as int,
                    idx as int,
                    (#[trigger] node@->Node_0[q]).0,
                ) by {
                    lemma_marker_entry(runs@, lenv, vv, t as int, idx as int, node@->Node_0[q].0);
                }
            }
        }
        while idx < end
            invariant
                o <= idx,
                idx <= end || idx == o,
                end as nat == run_end(runs@[t as int], lenv),
                end <= vals@.len(),
                node@.wf(),
                node@.marker_only(),
                !(node@ is Value),
                forall|i: int|
                    0 <= i < vals@.len() && (covered(runs@.take(t as int), lenv, i as nat) || (
                    runs@[t as int].0 <= i && i < idx)) ==> node_maps_nil(
                        node@,
                        marker_text(i as nat, #[trigger] vv[i]),
                    ),
                node@ is Node ==> forall|q: int|
                    0 <= q < node@->Node_0.len() ==> is_marker_upto(
                        runs@,
                        lenv,
                        vv,
                        t as int,
                        idx as int,
                        (#[trigger] node@->Node_0[q]).0,
                    ),
            decreases end - idx,
        {
            proof {
                crate::json::lemma_views_of_index(vals@, idx as int);
            }
            let key = marker_key(idx, &vals[idx]);
            let ghost prevn = node@;
            node = upsert_node(node, key, KeyNode::Nil);
            proof {
                values_to_node_step(prevn, node@, runs@, lenv, vv, t as int, idx as int);
            }
            idx = idx + 1;
        }
        proof {
            assert forall|i: int|
                #![trigger covered(runs@.take(t + 1), lenv, i as nat)]
                0 <= i < vals@.len() && covered(runs@.take(t + 1), lenv, i as nat) implies
                covered(runs@.take(t as int), lenv, i as nat) || (runs@[t as int].0 <= i && i
                < idx) by {
                let w = choose|w: int|
                    0 <= w < runs@.take(t + 1).len() && (#[trigger] runs@.take(t + 1)[w]).0
                        <= i as nat && (i as nat) < run_end(runs@.take(t + 1)[w], lenv);
                if w < t {
                    assert(runs@.take(t as int)[w] == runs@.take(t + 1)[w]);
                    assert(covered(runs@.take(t as int), lenv, i as nat));
                } else {
                    assert(runs@.take(t + 1)[w] == runs@[t as int]);
                    assert(end <= idx);
                }
            }
            if node@ is Node {
                assert forall|q: int| 0 <= q < node@->Node_0.len() implies is_marker_of(
                    runs@.take(t + 1),
                    lenv,
                    vv,
                    (#[trigger] node@->Node_0[q]).0,
                ) by {
                    assert((idx as nat) <= run_end(runs@[t as int], lenv) || idx <= runs@[
                        t as int].0);
                    lemma_marker_exit(runs@, lenv, vv, t as int, idx as int, node@->Node_0[q].0);
                }
            }
        }
        t = t + 1;
    }
    proof {
        assert(runs@.take(rcount as int) =~= runs@);
        assert(vv == views_of(vals@));
    }
    node
}

proof fn values_to_node_step(
    prevn: KeyNodeV,
    cur: KeyNodeV,
    runs: Seq<(usize, usize)>,
    lenv: nat,
    vv: Seq<JsonV>,
    t: int,
    idx: int,
)
    requires
        0 <= t < runs.len(),
        0 <= idx < vv.len(),
        runs[t].0 <= idx,
        vv.len() == lenv,
        node_maps(cur, marker_text(idx as nat, vv[idx]), KeyNodeV::Nil),
        forall|k2: Seq<char>, c2: KeyNodeV|
            k2 != marker_text(idx as nat, vv[idx]) && #[trigger] node_maps(prevn, k2, c2)
                ==> node_maps(cur, k2, c2),
        cur is Node && !(prevn is Node) ==> forall|i: int|
            0 <= i < cur->Node_0.len() ==> (#[trigger] cur->Node_0[i]).0 == marker_text(
                idx as nat,
                vv[idx],
            ),
        cur is Node && prevn is Node ==> forall|i: int|
            0 <= i < cur->Node_0.len() ==> node_has_key(
                prevn->Node_0,
                (#[trigger] cur->Node_0[i]).0,
            ) || cur->Node_0[i].0 == marker_text(idx as nat, vv[idx]),
        forall|i: int|
            0 <= i < vv.len() && (covered(runs.take(t), lenv, i as nat) || (runs[t].0 <= i && i
                < idx)) ==> node_maps_nil(prevn, marker_text(i as nat, #[trigger] vv[i])),
        prevn is Node ==> forall|q: int|
            0 <= q < prevn->Node_0.len() ==> is_marker_upto(
                runs,
                lenv,
                vv,
                t,
                idx,
                (#[trigger] prevn->Node_0[q]).0,
            ),
    ensures
        forall|i: int|
            0 <= i < vv.len() && (covered(runs.take(t), lenv, i as nat) || (runs[t].0 <= i && i
                < idx + 1)) ==> node_maps_nil(cur, marker_text(i as nat, #[trigger] vv[i])),
        cur is Node ==> forall|q: int|
            0 <= q < cur->Node_0.len() ==> is_marker_upto(
                runs,
                lenv,
                vv,
                t,
                idx + 1,
                (#[trigger] cur->Node_0[q]).0,
            ),
{
    let new_key = marker_text(idx as nat, vv[idx]);
    assert forall|i: int|
        0 <= i < vv.len() && (covered(runs.take(t), lenv, i as nat) || (runs[t].0 <= i && i
            < idx + 1)) implies node_maps_nil(cur, marker_text(i as nat, #[trigger] vv[i])) by {
        let k = marker_text(i as nat, vv[i]);
        if k == new_key {
            let w = choose|w: int|
                0 <= w < cur->Node_0.len() && #[trigger] cur->Node_0[w] == (
                new_key,
                KeyNodeV::Nil,
                );
            assert(cur->Node_0[w].0 == k && cur->Node_0[w].1 is Nil);
        } else {
            assert(i != idx);
            assert(node_maps_nil(prevn, k));
            let i0 = choose|i0: int|
                0 <= i0 < prevn->Node_0.len() && (#[trigger] prevn->Node_0[i0]).0 == k
                    && prevn->Node_0[i0].1 is Nil;
            assert(node_maps(prevn, k, prevn->Node_0[i0].1));
            assert(node_maps(cur, k, prevn->Node_0[i0].1));
            let w = choose|w: int|
                0 <= w < cur->Node_0.len() && #[trigger] cur->Node_0[w] == (
                k,
                prevn->Node_0[i0].1,
                );
        }
    }
    if cur is Node {
        assert forall|q: int| 0 <= q < cur->Node_0.len() implies is_marker_upto(
            runs,
            lenv,
            vv,
            t,
            idx + 1,
            (#[trigger] cur->Node_0[q]).0,
        ) by {
            let kk = cur->Node_0[q].0;
            if kk == new_key {
                assert(0 <= idx < vv.len() && (covered(runs.take(t), lenv, idx as nat) || (
                runs[t].0 <= idx && idx < idx + 1)) && kk == marker_text(idx as nat, vv[idx]));
            } else {
                assert(prevn is Node && node_has_key(prevn->Node_0, kk));
                let i0 = choose|i0: int|
                    0 <= i0 < prevn->Node_0.len() && (#[trigger] prevn->Node_0[i0]).0 == kk;
                assert(is_marker_upto(runs, lenv, vv, t, idx, kk));
                let w0 = choose|w0: int|
                    0 <= w0 < vv.len() && (covered(runs.take(t), lenv, w0 as nat) || (runs[t].0
                        <= w0 && w0 < idx)) && kk == marker_text(w0 as nat, #[trigger] vv[w0]);
                assert(0 <= w0 < vv.len() && (covered(runs.take(t), lenv, w0 as nat) || (
                runs[t].0 <= w0 && w0 < idx + 1)) && kk == marker_text(w0 as nat, vv[w0]));
            }
        }
    }
}

/// Binds `key` to `child` in a channel tree: an empty tree becomes a node
/// with one pair, a node gets the pair at `key` replaced or appended, and
/// a value leaf stays as it is.
fn upsert_node(parent: KeyNode, key: String, child: KeyNode) -> (r: KeyNode)
    ensures
        parent@ is Value ==> r@ == parent@,
        !(parent@ is Value) ==> node_maps(r@, key@, child@),
        parent@.wf() && child@.wf() ==> r@.wf(),
        parent@.marker_only() && child@.marker_only() ==> r@.marker_only(),
        forall|k2: Seq<char>, c2: KeyNodeV|
            k2 != key@ && #[trigger] node_maps(parent@, k2, c2) ==> node_maps(r@, k2, c2),
        r@ is Node ==> forall|i: int|
            0 <= i < r@->Node_0.len() ==> node_has_key(
                (if parent@ is Node {
                    parent@->Node_0
                } else {
                    Seq::empty()
                }),
                (#[trigger] r@->Node_0[i]).0,
            ) || r@->Node_0[i].0 == key@,
{
    match parent {
        KeyNode::Node(map) => {
            let ghost pv = knode_views_of(map@);
            proof {
                crate::ds::key_node::lemma_knode_views_of_len(map@);
            }
            let mut map = map;
            let n = map.len();
            let mut pos: usize = 0;
            loop
                invariant
                    n == map@.len(),
                    pv == knode_views_of(map@),
                    pv.len() == n,
                    0 <= pos <= n,
                    forall|j: int| 0 <= j < pos ==> (#[trigger] pv[j]).0 != key@,
                ensures
                    0 <= pos <= n,
                    forall|j: int| 0 <= j < pos ==> (#[trigger] pv[j]).0 != key@,
                    pos < n ==> pv[pos as int].0 == key@,
                    n == map@.len(),
                    pv == knode_views_of(map@),
                decreases n - pos,
            {
                if pos >= n {
                    break ;
                }
                proof {
                    crate::ds::key_node::lemma_knode_views_of_index(map@, pos as int);
                }
                let keys_equal = map[pos].0 == key;
                if keys_equal {
                    break ;
                }
                pos = pos + 1;
            }
            let ghost prev = map@;
            let ghost gkey = key;
            let ghost gchild = child;
            if pos < n {
                map.set(pos, (key, child));
                let r = KeyNode::Node(map);
                proof {
                    upsert_set_proof(prev, map@, pv, gkey, gchild, pos as int, r@);
                }
                r
            } else {
                map.push((key, child));
                let r = KeyNode::Node(map);
                proof {
                    upsert_push_proof(prev, map@, pv, gkey, gchild, r@);
                }
                r
            }
        },
        KeyNode::Nil => {
            let mut map: Vec<(String, KeyNode)> = Vec::new();
            map.push((key, child));
            let r = KeyNode::Node(map);
            proof {
                crate::ds::key_node::lemma_knode_views_of_len(map@);
                crate::ds::key_node::lemma_knode_views_of_index(map@, 0);
                assert(r@->Node_0[0] == (key@, child@));
            }
            r
        },
        other => other,
    }
}

proof fn upsert_set_proof(
    prev: Seq<(String, KeyNode)>,
    cur: Seq<(String, KeyNode)>,
    pv: Seq<(Seq<char>, KeyNodeV)>,
    gkey: String,
    gchild: KeyNode,
    pos: int,
    r: KeyNodeV,
)
    requires
        pv == knode_views_of(prev),
        pv.len() == prev.len(),
        0 <= pos < prev.len(),
        pv[pos].0 == gkey@,
        forall|j: int| 0 <= j < pos ==> (#[trigger] pv[j]).0 != gkey@,
        cur == prev.update(pos, (gkey, gchild)),
        r == KeyNodeV::Node(knode_views_of(cur)),
    ensures
        node_maps(r, gkey@, gchild@),
        KeyNodeV::Node(pv).wf() && gchild@.wf() ==> r.wf(),
        KeyNodeV::Node(pv).marker_only() && gchild@.marker_only() ==> r.marker_only(),
        forall|k2: Seq<char>, c2: KeyNodeV|
            k2 != gkey@ && #[trigger] node_maps(KeyNodeV::Node(pv), k2, c2) ==> node_maps(r, k2, c2),
        forall|i: int|
            0 <= i < r->Node_0.len() ==> node_has_key(pv, (#[trigger] r->Node_0[i]).0)
                || r->Node_0[i].0 == gkey@,
{
    crate::ds::key_node::lemma_knode_views_of_len(cur);
    let rv = knode_views_of(cur);
    assert(rv.len() == pv.len());
    assert forall|w: int| 0 <= w < rv.len() implies #[trigger] rv[w] == (if w == pos {
        (gkey@, gchild@)
    } else {
        pv[w]
    }) by {
        crate::ds::key_node::lemma_knode_views_of_index(cur, w);
        if w != pos {
            crate::ds::key_node::lemma_knode_views_of_index(prev, w);
        }
    }
    assert(rv[pos] == (gkey@, gchild@));
    assert(node_maps(r, gkey@, gchild@));
    if KeyNodeV::Node(pv).wf() && gchild@.wf() {
        assert forall|i: int, j: int| 0 <= i < j < rv.len() implies (#[trigger] rv[i]).0 != (
        #[trigger] rv[j]).0 by {
            assert(rv[i].0 == pv[i].0);
            assert(rv[j].0 == pv[j].0);
        }
        assert(r.wf());
    }
    if KeyNodeV::Node(pv).marker_only() && gchild@.marker_only() {
        assert forall|i: int| 0 <= i < rv.len() implies (#[trigger] rv[i].1).marker_only() by {
            if i != pos {
                assert(pv[i].1.marker_only());
            }
        }
        assert(r.marker_only());
    }
    assert forall|k2: Seq<char>, c2: KeyNodeV|
        k2 != gkey@ && #[trigger] node_maps(KeyNodeV::Node(pv), k2, c2) implies node_maps(
        r,
        k2,
        c2,
    ) by {
        let i = choose|i: int| 0 <= i < pv.len() && #[trigger] pv[i] == (k2, c2);
        assert(pv[i].0 == k2);
        assert(i != pos);
        assert(rv[i] == (k2, c2));
    }
}

proof fn upsert_push_proof(
    prev: Seq<(String, KeyNode)>,
    cur: Seq<(String, KeyNode)>,
    pv: Seq<(Seq<char>, KeyNodeV)>,
    gkey: String,
    gchild: KeyNode,
    r: KeyNodeV,
)
    requires
        pv == knode_views_of(prev),
        pv.len() == prev.len(),
        forall|j: int| 0 <= j < pv.len() ==> (#[trigger] pv[j]).0 != gkey@,
        cur == prev.push((gkey, gchild)),
        r == KeyNodeV::Node(knode_views_of(cur)),
    ensures
        node_maps(r, gkey@, gchild@),
        KeyNodeV::Node(pv).wf() && gchild@.wf() ==> r.wf(),
        KeyNodeV::Node(pv).marker_only() && gchild@.marker_only() ==> r.marker_only(),
        forall|k2: Seq<char>, c2: KeyNodeV|
            k2 != gkey@ && #[trigger] node_maps(KeyNodeV::Node(pv), k2, c2) ==> node_maps(r, k2, c2),
        forall|i: int|
            0 <= i < r->Node_0.len() ==> node_has_key(pv, (#[trigger] r->Node_0[i]).0)
                || r->Node_0[i].0 == gkey@,
{
    crate::ds::key_node::lemma_knode_views_of_len(cur);
    let rv = knode_views_of(cur);
    assert(rv.len() == pv.len() + 1);
    assert forall|w: int| 0 <= w < rv.len() implies #[trigger] rv[w] == (if w == pv.len() {
        (gkey@, gchild@)
    } else {
        pv[w]
    }) by {
        crate::ds::key_node::lemma_knode_views_of_index(cur, w);
        if w < pv.len() {
            crate::ds::key_node::lemma_knode_views_of_index(prev, w);
        }
    }
    assert(rv[pv.len() as int] == (gkey@, gchild@));
    assert(node_maps(r, gkey@, gchild@));
    if KeyNodeV::Node(pv).wf() && gchild@.wf() {
        assert forall|i: int, j: int| 0 <= i < j < rv.len() implies (#[trigger] rv[i]).0 != (
        #[trigger] rv[j]).0 by {}
        assert(r.wf());
    }
    if KeyNodeV::Node(pv).marker_only() && gchild@.marker_only() {
        assert forall|i: int| 0 <= i < rv.len() implies (#[trigger] rv[i].1).marker_only() by {
            if i < pv.len() {
                assert(pv[i].1.marker_only());
            }
        }
        assert(r.marker_only());
    }
    assert forall|k2: Seq<char>, c2: KeyNodeV|
        k2 != gkey@ && #[trigger] node_maps(KeyNodeV::Node(pv), k2, c2) implies node_maps(
        r,
        k2,
        c2,
    ) by {
        let i = choose|i: int| 0 <= i < pv.len() && #[trigger] pv[i] == (k2, c2);
        assert(rv[i] == (k2, c2));
    }
}

proof fn lemma_markers_preserved(
    prev: KeyNodeV,
    cur: KeyNodeV,
    key: Seq<char>,
    xs: Seq<(Seq<char>, JsonV)>,
    ys: Seq<(Seq<char>, JsonV)>,
)
    requires
        forall|k: Seq<char>|
            #[trigger] has_key_v(xs, k) && !has_key_v(ys, k) ==> node_maps_nil(prev, k),
        has_key_v(ys, key),
        forall|k2: Seq<char>, c2: KeyNodeV|
            k2 != key && #[trigger] node_maps(prev, k2, c2) ==> node_maps(cur, k2, c2),
    ensures
        forall|k: Seq<char>|
            #[trigger] has_key_v(xs, k) && !has_key_v(ys, k) ==> node_maps_nil(cur, k),
{
    assert forall|k: Seq<char>|
        #[trigger] has_key_v(xs, k) && !has_key_v(ys, k) implies node_maps_nil(cur, k) by {
        assert(node_maps_nil(prev, k));
        let i = choose|i: int|
            0 <= i < prev->Node_0.len() && (#[trigger] prev->Node_0[i]).0 == k
                && prev->Node_0[i].1 is Nil;
        assert(prev->Node_0[i] == (k, prev->Node_0[i].1));
        assert(node_maps(prev, k, prev->Node_0[i].1));
        assert(k != key);
        assert(node_maps(cur, k, prev->Node_0[i].1));
        let j = choose|j: int|
            0 <= j < cur->Node_0.len() && #[trigger] cur->Node_0[j] == (
            k,
            prev->Node_0[i].1,
            );
        assert(cur->Node_0[j].0 == k && cur->Node_0[j].1 is Nil);
    }
}

proof fn lemma_among_preserved(
    prev: KeyNodeV,
    cur: KeyNodeV,
    key: Seq<char>,
    xs: Seq<(Seq<char>, JsonV)>,
)
    requires
        node_keys_among(prev, xs),
        has_key_v(xs, key),
        cur is Node && !(prev is Node) ==> forall|i: int|
            0 <= i < cur->Node_0.len() ==> (#[trigger] cur->Node_0[i]).0 == key,
        cur is Node && prev is Node ==> forall|i: int|
            0 <= i < cur->Node_0.len() ==> node_has_key(
                prev->Node_0,
                (#[trigger] cur->Node_0[i]).0,
            ) || cur->Node_0[i].0 == key,
    ensures
        node_keys_among(cur, xs),
{
    if cur is Node {
        assert forall|i: int| 0 <= i < cur->Node_0.len() implies has_key_v(
            xs,
            (#[trigger] cur->Node_0[i]).0,
        ) by {
            let kk = cur->Node_0[i].0;
            if kk != key {
                assert(prev is Node && node_has_key(prev->Node_0, kk));
                let w = choose|w: int|
                    0 <= w < prev->Node_0.len() && (#[trigger] prev->Node_0[w]).0 == kk;
            }
        }
    }
}

/// Merges a child's channel tree into a parent under `key`: an empty
/// child changes nothing, otherwise the child is bound at the key.
fn insert_child_key_map(parent: KeyNode, child: KeyNode, key: &String) -> (r: KeyNode)
    ensures
        child@ is Nil ==> r@ == parent@,
        parent@ is Value ==> r@ == parent@,
        !(child@ is Nil) && !(parent@ is Value) ==> node_maps(r@, key@, child@),
        parent@.wf() && child@.wf() ==> r@.wf(),
        parent@.marker_only() && child@.marker_only() ==> r@.marker_only(),
        forall|k2: Seq<char>, c2: KeyNodeV|
            k2 != key@ && #[trigger] node_maps(parent@, k2, c2) ==> node_maps(r@, k2, c2),
        r@ is Node && !(parent@ is Node) && !(child@ is Nil) ==> forall|i: int|
            0 <= i < r@->Node_0.len() ==> (#[trigger] r@->Node_0[i]).0 == key@,
        r@ is Node && parent@ is Node ==> forall|i: int|
            0 <= i < r@->Node_0.len() ==> node_has_key(
                parent@->Node_0,
                (#[trigger] r@->Node_0[i]).0,
            ) || r@->Node_0[i].0 == key@,
{
    if matches!(child, KeyNode::Nil) {
        return parent;
    }
    upsert_node(parent, key.clone(), child)
}

/// The sets of keys present only on one side and on both sides.
pub struct MapDifference {
    pub left_only: Option<Vec<String>>,
    pub right_only: Option<Vec<String>>,
    pub intersection: Option<Vec<String>>,
}

impl MapDifference {
    pub fn new(
        left_only: Option<Vec<String>>,
        right_only: Option<Vec<String>>,
        intersection: Option<Vec<String>>,
    ) -> (r: Self)
        ensures
            r.left_only == left_only,
            r.right_only == right_only,
            r.intersection == intersection,
    {
        Self { right_only, left_only, intersection }
    }
}

/// Whether the object pairs hold the key.
fn contains_key(v: &Vec<(String, JsonVal)>, k: &String) -> (r: bool)
    ensures
        r == has_key_v(pair_views_of(v@), k@),
{
    let ghost pv = pair_views_of(v@);
    proof {
        crate::json::lemma_pair_views_of_len(v@);
    }
    let n = v.len();
    let mut i: usize = 0;
    loop
        invariant
            0 <= i <= n,
            n == v@.len(),
            pv == pair_views_of(v@),
            pv.len() == n,
            forall|j: int| 0 <= j < i ==> (#[trigger] pv[j]).0 != k@,
        ensures
            (i < n && pv[i as int].0 == k@) || (i == n && forall|j: int|
                0 <= j < n ==> (#[trigger] pv[j]).0 != k@),
        decreases n - i,
    {
        if i >= n {
            break ;
        }
        proof {
            crate::json::lemma_pair_views_of_index(v@, i as int);
        }
        let keys_equal = v[i].0 == *k;
        if keys_equal {
            break ;
        }
        i = i + 1;
    }
    i < n
}

/// The position of the key among the object's pairs.
fn obj_find(v: &Vec<(String, JsonVal)>, k: &String) -> (r: usize)
    requires
        has_key_v(pair_views_of(v@), k@),
    ensures
        r < v@.len(),
        pair_views_of(v@)[r as int].0 == k@,
{
    let ghost pv = pair_views_of(v@);
    proof {
        crate::json::lemma_pair_views_of_len(v@);
    }
    let n = v.len();
    let mut i: usize = 0;
    loop
        invariant
            0 <= i <= n,
            n == v@.len(),
            pv == pair_views_of(v@),
            pv.len() == n,
            has_key_v(pv, k@),
            forall|j: int| 0 <= j < i ==> (#[trigger] pv[j]).0 != k@,
        ensures
            i < n,
            pv[i as int].0 == k@,
        decreases n - i,
    {
        if i >= n {
            proof {
                let j = choose|j: int|
                    0 <= j < pv.len() && (#[trigger] pv[j]).0 == k@;
                assert(false);
            }
            break ;
        }
        proof {
            crate::json::lemma_pair_views_of_index(v@, i as int);
        }
        let keys_equal = v[i].0 == *k;
        if keys_equal {
            break ;
        }
        i = i + 1;
    }
    i
}

/// Splits two objects' keys into the two one-sided sets and the shared
/// set; a set that would be empty is `None`.
fn intersect_maps(x: &Vec<(String, JsonVal)>, y: &Vec<(String, JsonVal)>) -> (r: MapDifference)
    ensures
        key_list_ok(r.left_only, pair_views_of(x@), pair_views_of(y@), false),
        key_list_ok(r.right_only, pair_views_of(y@), pair_views_of(x@), false),
        key_list_ok(r.intersection, pair_views_of(x@), pair_views_of(y@), true),
{
    let ghost xv = pair_views_of(x@);
    let ghost yv = pair_views_of(y@);
    proof {
        crate::json::lemma_pair_views_of_len(x@);
        crate::json::lemma_pair_views_of_len(y@);
    }
    let mut intersection: Vec<String> = Vec::new();
    let mut left: Vec<String> = Vec::new();
    let mut right: Vec<String> = Vec::new();
    let xn = x.len();
    for i in 0..xn
        invariant
            xn == x@.len(),
            xv == pair_views_of(x@),
            yv == pair_views_of(y@),
            xv.len() == xn,
            forall|w: int|
                0 <= w < left@.len() ==> has_key_v(xv, (#[trigger] left@[w])@) && !has_key_v(
                    yv,
                    left@[w]@,
                ),
            forall|w: int|
                0 <= w < intersection@.len() ==> has_key_v(
                    xv,
                    (#[trigger] intersection@[w])@,
                ) && has_key_v(yv, intersection@[w]@),
            forall|j: int|
                0 <= j < i ==> !has_key_v(yv, (#[trigger] xv[j]).0) ==> exists|w: int|
                    0 <= w < left@.len() && (#[trigger] left@[w])@ == xv[j].0,
            forall|j: int|
                0 <= j < i ==> has_key_v(yv, (#[trigger] xv[j]).0) ==> exists|w: int|
                    0 <= w < intersection@.len() && (#[trigger] intersection@[w])@ == xv[j].0,
    {
        proof {
            crate::json::lemma_pair_views_of_index(x@, i as int);
        }
        let k = x[i].0.clone();
        let ghost previ = intersection@;
        let ghost prevl = left@;
        if contains_key(y, &k) {
            intersection.push(k);
        } else {
            left.push(k);
        }
        proof {
            assert forall|j: int|
                0 <= j <= i && !has_key_v(yv, (#[trigger] xv[j]).0) implies exists|w: int|
                0 <= w < left@.len() && (#[trigger] left@[w])@ == xv[j].0 by {
                if j == i {
                    assert(left@[left@.len() - 1]@ == xv[i as int].0);
                } else {
                    let w0 = choose|w0: int|
                        0 <= w0 < prevl.len() && (#[trigger] prevl[w0])@ == xv[j].0;
                    assert(left@[w0]@ == xv[j].0);
                }
            }
            assert forall|j: int|
                0 <= j <= i && has_key_v(yv, (#[trigger] xv[j]).0) implies exists|w: int|
                0 <= w < intersection@.len() && (#[trigger] intersection@[w])@ == xv[j].0 by {
                if j == i {
                    assert(intersection@[intersection@.len() - 1]@ == xv[i as int].0);
                } else {
                    let w0 = choose|w0: int|
                        0 <= w0 < previ.len() && (#[trigger] previ[w0])@ == xv[j].0;
                    assert(intersection@[w0]@ == xv[j].0);
                }
            }
        }
    }
    let yn = y.len();
    for i in 0..yn
        invariant
            yn == y@.len(),
            xv == pair_views_of(x@),
            yv == pair_views_of(y@),
            yv.len() == yn,
            forall|w: int|
                0 <= w < right@.len() ==> has_key_v(yv, (#[trigger] right@[w])@) && !has_key_v(
                    xv,
                    right@[w]@,
                ),
            forall|j: int|
                0 <= j < i ==> !has_key_v(xv, (#[trigger] yv[j]).0) ==> exists|w: int|
                    0 <= w < right@.len() && (#[trigger] right@[w])@ == yv[j].0,
    {
        proof {
            crate::json::lemma_pair_views_of_index(y@, i as int);
        }
        let k = y[i].0.clone();
        let ghost prevr = right@;
        if !contains_key(x, &k) {
            right.push(k);
        }
        proof {
            assert forall|j: int|
                0 <= j <= i && !has_key_v(xv, (#[trigger] yv[j]).0) implies exists|w: int|
                0 <= w < right@.len() && (#[trigger] right@[w])@ == yv[j].0 by {
                if j == i {
                    assert(right@[right@.len() - 1]@ == yv[i as int].0);
                } else {
                    let w0 = choose|w0: int|
                        0 <= w0 < prevr.len() && (#[trigger] prevr[w0])@ == yv[j].0;
                    assert(right@[w0]@ == yv[j].0);
                }
            }
        }
    }
    let ghost lvec = left@;
    let ghost rvec = right@;
    let ghost ivec = intersection@;
    let left = if left.is_empty() {
        None
    } else {
        Some(left)
    };
    let right = if right.is_empty() {
        None
    } else {
        Some(right)
    };
    let intersection = if intersection.is_empty() {
        None
    } else {
        Some(intersection)
    };
    proof {
        assert forall|k: Seq<char>| #[trigger] has_key_v(xv, k) implies key_listed_if(
            left,
            intersection,
            yv,
            k,
        ) by {
            let j = choose|j: int| 0 <= j < xv.len() && (#[trigger] xv[j]).0 == k;
            if has_key_v(yv, k) {
                let w0 = choose|w0: int|
                    0 <= w0 < ivec.len() && (#[trigger] ivec[w0])@ == k;
                assert(intersection matches Some(v) && v@ == ivec);
                assert(listed_in(intersection, k));
            } else {
                let w0 = choose|w0: int|
                    0 <= w0 < lvec.len() && (#[trigger] lvec[w0])@ == k;
                assert(left matches Some(v) && v@ == lvec);
                assert(listed_in(left, k));
            }
        }
        assert forall|k: Seq<char>|
            #[trigger] has_key_v(yv, k) && !has_key_v(xv, k) implies listed_in(right, k) by {
            let j = choose|j: int| 0 <= j < yv.len() && (#[trigger] yv[j]).0 == k;
            let w0 = choose|w0: int| 0 <= w0 < rvec.len() && (#[trigger] rvec[w0])@ == k;
            assert(right matches Some(v) && v@ == rvec);
            assert(listed_in(right, k));
        }
    }
    MapDifference::new(left, right, intersection)
}

/// Whether `k` stands in the optional key list.
pub open spec fn listed_in(l: Option<Vec<String>>, k: Seq<char>) -> bool {
    l matches Some(v) && exists|w: int| 0 <= w < v@.len() && (#[trigger] v@[w])@ == k
}

/// Every key of `xs` stands in the side list or the shared list,
/// according to whether `ys` also holds it.
pub open spec fn key_listed_if(
    side: Option<Vec<String>>,
    shared: Option<Vec<String>>,
    ys: Seq<(Seq<char>, JsonV)>,
    k: Seq<char>,
) -> bool {
    if has_key_v(ys, k) {
        listed_in(shared, k)
    } else {
        listed_in(side, k)
    }
}

/// What a computed key list means: every listed key is a key of `xs`
/// whose presence in `ys` matches `want_shared`, and every such key is
/// listed.
pub open spec fn key_list_ok(
    l: Option<Vec<String>>,
    xs: Seq<(Seq<char>, JsonV)>,
    ys: Seq<(Seq<char>, JsonV)>,
    want_shared: bool,
) -> bool {
    &&& (l matches Some(v) ==> v@.len() > 0 && forall|w: int|
        0 <= w < v@.len() ==> has_key_v(xs, (#[trigger] v@[w])@) && has_key_v(ys, v@[w]@)
            == want_shared)
    &&& forall|k: Seq<char>|
        #[trigger] has_key_v(xs, k) && has_key_v(ys, k) == want_shared ==> listed_in(l, k)
}

/// Builds one side's channel from its one-sided keys: a node of bare
/// markers, or the empty tree.
fn get_map_of_keys(set: Option<Vec<String>>) -> (r: KeyNode)
    ensures
        r@.wf(),
        r@.marker_only(),
        set is None ==> r@ is Nil,
        set matches Some(v) ==> forall|w: int|
            0 <= w < v@.len() ==> node_maps_nil(r@, (#[trigger] v@[w])@),
        r@ is Node ==> forall|i: int|
            0 <= i < r@->Node_0.len() ==> listed_in(set, (#[trigger] r@->Node_0[i]).0),
{
    match set {
        Option::Some(v) => {
            let mut node = KeyNode::Nil;
            let n = v.len();
            let mut i: usize = 0;
            while i < n
                invariant
                    0 <= i <= n,
                    n == v@.len(),
                    node@.wf(),
                    node@.marker_only(),
                    !(node@ is Value),
                    forall|w: int| 0 <= w < i ==> node_maps_nil(node@, (#[trigger] v@[w])@),
                    node@ is Node ==> forall|q: int|
                        0 <= q < node@->Node_0.len() ==> exists|w: int|
                            0 <= w < i && (#[trigger] node@->Node_0[q]).0 == v@[w]@,
                decreases n - i,
            {
                let key = v[i].clone();
                let ghost prevn = node@;
                node = upsert_node(node, key, KeyNode::Nil);
                proof {
                    assert(node_maps(node@, v@[i as int]@, KeyNodeV::Nil));
                    assert forall|w: int| 0 <= w <= i implies node_maps_nil(
                        node@,
                        (#[trigger] v@[w])@,
                    ) by {
                        if v@[w]@ == v@[i as int]@ {
                            let j = choose|j: int|
                                0 <= j < node@->Node_0.len() && #[trigger] node@->Node_0[j] == (
                                v@[i as int]@,
                                KeyNodeV::Nil,
                                );
                        } else {
                            assert(node_maps_nil(prevn, v@[w]@));
                            let i0 = choose|i0: int|
                                0 <= i0 < prevn->Node_0.len() && (#[trigger] prevn->Node_0[
                                i0]).0 == v@[w]@ && prevn->Node_0[i0].1 is Nil;
                            assert(node_maps(prevn, v@[w]@, prevn->Node_0[i0].1));
                            assert(node_maps(node@, v@[w]@, prevn->Node_0[i0].1));
                            let j = choose|j: int|
                                0 <= j < node@->Node_0.len() && #[trigger] node@->Node_0[j] == (
                                v@[w]@,
                                prevn->Node_0[i0].1,
                                );
                        }
                    }
                    assert forall|q: int| node@ is Node && 0 <= q < node@->Node_0.len()
                        implies exists|w: int|
                        0 <= w < i + 1 && (#[trigger] node@->Node_0[q]).0 == v@[w]@ by {
                        let kk = node@->Node_0[q].0;
                        if kk == v@[i as int]@ {
                            assert(0 <= i < i + 1 && node@->Node_0[q].0 == v@[i as int]@);
                        } else {
                            assert(prevn is Node && node_has_key(prevn->Node_0, kk));
                            let i0 = choose|i0: int|
                                0 <= i0 < prevn->Node_0.len() && (#[trigger] prevn->Node_0[
                                i0]).0 == kk;
                            let w0 = choose|w0: int|
                                0 <= w0 < i && (#[trigger] prevn->Node_0[i0]).0 == v@[w0]@;
                            assert(0 <= w0 < i + 1 && node@->Node_0[q].0 == v@[w0]@);
                        }
                    }
                }
                i = i + 1;
            }
            node
        },
        Option::None => KeyNode::Nil,
    }
}

} // verus!
