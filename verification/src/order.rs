//! A total, deterministic order over documents, and the canonical form used
//! to compare arrays order-insensitively.
//!
//! The order ranks values by kind (null, then boolean, then number, then
//! string, then object, then array) and breaks ties lexicographically
//! inside each kind, recursing into arrays and objects.  Within the number
//! kind, integers come before numbers carried as canonical text.
//! The canonical form ([`norm`]) sorts every object's pairs by this order at
//! every depth, and, when order-insensitive array comparison is asked for,
//! also sorts every array's elements; two documents are equal up to array
//! order exactly when their canonical forms are equal.

use vstd::prelude::*;

use crate::json::{views_of, pair_views_of, JsonV, JsonVal};

verus! {

/// Three-way comparison of two character sequences, lexicographic by
/// code point.
pub open spec fn cmp_chars(a: Seq<char>, b: Seq<char>) -> int
    decreases a.len(),
{
    if a.len() == 0 && b.len() == 0 {
        0
    } else if a.len() == 0 {
        -1
    } else if b.len() == 0 {
        1
    } else if (a[0] as u32) < (b[0] as u32) {
        -1
    } else if (b[0] as u32) < (a[0] as u32) {
        1
    } else {
        cmp_chars(a.drop_first(), b.drop_first())
    }
}

/// The rank of a value's kind in the total order: null, then boolean,
/// then number (integers before numbers carried as text), then string,
/// then object, then array.
pub open spec fn type_rank(v: JsonV) -> int {
    match v {
        JsonV::Null => 0,
        JsonV::Bool(_) => 1,
        JsonV::Int(_) => 2,
        JsonV::Num(_) => 3,
        JsonV::Str(_) => 4,
        JsonV::Obj(_) => 5,
        JsonV::Arr(_) => 6,
    }
}

/// Three-way comparison of two documents.
pub open spec fn cmp_v(a: JsonV, b: JsonV) -> int
    decreases a, b, 1int,
{
    if type_rank(a) < type_rank(b) {
        -1
    } else if type_rank(b) < type_rank(a) {
        1
    } else {
        match (a, b) {
            (JsonV::Null, JsonV::Null) => 0,
            (JsonV::Bool(x), JsonV::Bool(y)) => {
                if x == y {
                    0
                } else if !x {
                    -1
                } else {
                    1
                }
            },
            (JsonV::Int(x), JsonV::Int(y)) => {
                if x < y {
                    -1
                } else if y < x {
                    1
                } else {
                    0
                }
            },
            (JsonV::Num(x), JsonV::Num(y)) => cmp_chars(x, y),
            (JsonV::Str(x), JsonV::Str(y)) => cmp_chars(x, y),
            (JsonV::Arr(x), JsonV::Arr(y)) => cmp_seq(x, y),
            (JsonV::Obj(x), JsonV::Obj(y)) => cmp_pairs(x, y),
            _ => 0,
        }
    }
}

/// Lexicographic comparison of two element sequences; a proper prefix is
/// smaller.
pub open spec fn cmp_seq(x: Seq<JsonV>, y: Seq<JsonV>) -> int
    decreases x, y, 0int,
{
    if x.len() == 0 && y.len() == 0 {
        0
    } else if x.len() == 0 {
        -1
    } else if y.len() == 0 {
        1
    } else {
        let c = cmp_v(x[0], y[0]);
        if c != 0 {
            c
        } else {
            cmp_seq(x.drop_first(), y.drop_first())
        }
    }
}

/// Comparison of two key/value pairs: by key, then by value.
pub open spec fn cmp_pair(p: (Seq<char>, JsonV), q: (Seq<char>, JsonV)) -> int
    decreases p.1, q.1, 2int,
{
    let c = cmp_chars(p.0, q.0);
    if c != 0 {
        c
    } else {
        cmp_v(p.1, q.1)
    }
}

/// Lexicographic comparison of two pair sequences.
pub open spec fn cmp_pairs(x: Seq<(Seq<char>, JsonV)>, y: Seq<(Seq<char>, JsonV)>) -> int
    decreases x, y, 0int,
{
    if x.len() == 0 && y.len() == 0 {
        0
    } else if x.len() == 0 {
        -1
    } else if y.len() == 0 {
        1
    } else {
        let c = cmp_pair(x[0], y[0]);
        if c != 0 {
            c
        } else {
            cmp_pairs(x.drop_first(), y.drop_first())
        }
    }
}

/// Inserting an element into a sorted sequence, keeping it sorted.
pub open spec fn insert_le(x: JsonV, s: Seq<JsonV>) -> Seq<JsonV>
    decreases s.len(),
{
    if s.len() == 0 {
        seq![x]
    } else if cmp_v(x, s[0]) <= 0 {
        seq![x] + s
    } else {
        seq![s[0]] + insert_le(x, s.drop_first())
    }
}

/// Insertion sort of an element sequence by the document order.
pub open spec fn sort_le(s: Seq<JsonV>) -> Seq<JsonV>
    decreases s.len(),
{
    if s.len() == 0 {
        Seq::empty()
    } else {
        insert_le(s[0], sort_le(s.drop_first()))
    }
}

/// Inserting a pair into a sorted pair sequence, keeping it sorted.
pub open spec fn pair_insert_le(x: (Seq<char>, JsonV), s: Seq<(Seq<char>, JsonV)>) -> Seq<
    (Seq<char>, JsonV),
>
    decreases s.len(),
{
    if s.len() == 0 {
        seq![x]
    } else if cmp_pair(x, s[0]) <= 0 {
        seq![x] + s
    } else {
        seq![s[0]] + pair_insert_le(x, s.drop_first())
    }
}

/// Insertion sort of a pair sequence.
pub open spec fn pair_sort_le(s: Seq<(Seq<char>, JsonV)>) -> Seq<(Seq<char>, JsonV)>
    decreases s.len(),
{
    if s.len() == 0 {
        Seq::empty()
    } else {
        pair_insert_le(s[0], pair_sort_le(s.drop_first()))
    }
}

/// The canonical form of a document.  Object pairs are sorted by
/// [`cmp_pair`] at every depth; when `sort_arrays` is set, array elements
/// are sorted by [`cmp_v`] at every depth as well.
pub open spec fn norm(v: JsonV, sort_arrays: bool) -> JsonV
    decreases v, 1int,
{
    match v {
        JsonV::Arr(s) => {
            let e = norm_each(s, sort_arrays);
            JsonV::Arr(
                if sort_arrays {
                    sort_le(e)
                } else {
                    e
                },
            )
        },
        JsonV::Obj(ps) => JsonV::Obj(pair_sort_le(norm_pairs(ps, sort_arrays))),
        _ => v,
    }
}

/// The canonical forms of the elements of an array, in order.
pub open spec fn norm_each(s: Seq<JsonV>, sort_arrays: bool) -> Seq<JsonV>
    decreases s, 0int,
{
    if s.len() == 0 {
        Seq::empty()
    } else {
        norm_each(s.drop_last(), sort_arrays).push(norm(s.last(), sort_arrays))
    }
}

/// The canonical forms of the pairs of an object, in stored order.
pub open spec fn norm_pairs(s: Seq<(Seq<char>, JsonV)>, sort_arrays: bool) -> Seq<
    (Seq<char>, JsonV),
>
    decreases s, 0int,
{
    if s.len() == 0 {
        Seq::empty()
    } else {
        norm_pairs(s.drop_last(), sort_arrays).push(
            (s.last().0, norm(s.last().1, sort_arrays)),
        )
    }
}

pub proof fn lemma_norm_each_len(s: Seq<JsonV>, sa: bool)
    ensures
        norm_each(s, sa).len() == s.len(),
    decreases s.len(),
{
    if s.len() > 0 {
        lemma_norm_each_len(s.drop_last(), sa);
    }
}

pub proof fn lemma_norm_each_index(s: Seq<JsonV>, sa: bool, i: int)
    requires
        0 <= i < s.len(),
    ensures
        norm_each(s, sa).len() == s.len(),
        norm_each(s, sa)[i] == norm(s[i], sa),
    decreases s.len(),
{
    lemma_norm_each_len(s, sa);
    if i < s.len() - 1 {
        lemma_norm_each_index(s.drop_last(), sa, i);
    }
}

pub proof fn lemma_norm_pairs_len(s: Seq<(Seq<char>, JsonV)>, sa: bool)
    ensures
        norm_pairs(s, sa).len() == s.len(),
    decreases s.len(),
{
    if s.len() > 0 {
        lemma_norm_pairs_len(s.drop_last(), sa);
    }
}

pub proof fn lemma_norm_pairs_index(s: Seq<(Seq<char>, JsonV)>, sa: bool, i: int)
    requires
        0 <= i < s.len(),
    ensures
        norm_pairs(s, sa).len() == s.len(),
        norm_pairs(s, sa)[i] == (s[i].0, norm(s[i].1, sa)),
    decreases s.len(),
{
    lemma_norm_pairs_len(s, sa);
    if i < s.len() - 1 {
        lemma_norm_pairs_index(s.drop_last(), sa, i);
    }
}

/// Inserting a pair keeps exactly the pairs that were there, plus the new
/// one.
proof fn lemma_pair_insert_le_multiset(x: (Seq<char>, JsonV), s: Seq<(Seq<char>, JsonV)>)
    ensures
        pair_insert_le(x, s).to_multiset() == s.push(x).to_multiset(),
    decreases s.len(),
{
    broadcast use vstd::seq_lib::group_to_multiset_ensures;

    if s.len() == 0 {
        assert(pair_insert_le(x, s) =~= Seq::empty().push(x));
        assert(s.push(x) =~= Seq::empty().push(x));
    } else if cmp_pair(x, s[0]) <= 0 {
        assert(pair_insert_le(x, s) =~= seq![x] + s);
        vstd::seq_lib::lemma_multiset_commutative(seq![x], s);
        assert(s + seq![x] =~= s.push(x));
    } else {
        let t = s.drop_first();
        lemma_pair_insert_le_multiset(x, t);
        assert(pair_insert_le(x, s) =~= seq![s[0]] + pair_insert_le(x, t));
        vstd::seq_lib::lemma_multiset_commutative(seq![s[0]], pair_insert_le(x, t));
        assert(pair_insert_le(x, t) + seq![s[0]] =~= pair_insert_le(x, t).push(s[0]));
        vstd::seq_lib::lemma_multiset_commutative(seq![s[0]], t.push(x));
        assert(t.push(x) + seq![s[0]] =~= t.push(x).push(s[0]));
        assert(seq![s[0]] + t =~= s);
        vstd::seq_lib::lemma_multiset_commutative(seq![s[0]], t);
        assert(t + seq![s[0]] =~= t.push(s[0]));
        assert(s.to_multiset() == t.to_multiset().insert(s[0]));
        assert(pair_insert_le(x, s).to_multiset() == t.to_multiset().insert(x).insert(s[0]));
        assert(t.to_multiset().insert(x).insert(s[0]) == t.to_multiset().insert(s[0]).insert(
            x,
        )) by {
            broadcast use vstd::multiset::group_multiset_axioms;

        }
        assert(s.push(x).to_multiset() == s.to_multiset().insert(x));
    }
}

/// Sorting an object's pairs keeps exactly the pairs that were there.
pub proof fn lemma_pair_sort_le_multiset(s: Seq<(Seq<char>, JsonV)>)
    ensures
        pair_sort_le(s).to_multiset() == s.to_multiset(),
    decreases s.len(),
{
    broadcast use vstd::seq_lib::group_to_multiset_ensures;

    if s.len() > 0 {
        let t = s.drop_first();
        lemma_pair_sort_le_multiset(t);
        lemma_pair_insert_le_multiset(s[0], pair_sort_le(t));
        assert(pair_sort_le(t).push(s[0]).to_multiset() == pair_sort_le(t).to_multiset().insert(
            s[0],
        ));
        assert(t.push(s[0]).to_multiset() == t.to_multiset().insert(s[0]));
        assert(t.push(s[0]).to_multiset() == s.to_multiset()) by {
            vstd::seq_lib::lemma_multiset_commutative(seq![s[0]], t);
            assert(seq![s[0]] + t =~= s);
            assert(t + seq![s[0]] =~= t.push(s[0]));
        }
    }
}

/// A key is a key of the canonical form exactly when it is a key of the
/// document.
pub proof fn lemma_norm_obj_keys(ps: Seq<(Seq<char>, JsonV)>, sa: bool, k: Seq<char>)
    ensures
        crate::json::has_key_v(norm(JsonV::Obj(ps), sa)->Obj_0, k) == crate::json::has_key_v(
            ps,
            k,
        ),
{
    broadcast use vstd::seq_lib::group_to_multiset_ensures;

    let t = norm_pairs(ps, sa);
    let sorted = pair_sort_le(t);
    lemma_pair_sort_le_multiset(t);
    lemma_norm_pairs_len(ps, sa);
    assert(norm(JsonV::Obj(ps), sa)->Obj_0 == sorted);
    if crate::json::has_key_v(sorted, k) {
        let i = choose|i: int| 0 <= i < sorted.len() && (#[trigger] sorted[i]).0 == k;
        assert(sorted.to_multiset().contains(sorted[i]));
        assert(t.to_multiset().contains(sorted[i]));
        assert(t.contains(sorted[i]));
        let j = choose|j: int| 0 <= j < t.len() && t[j] == sorted[i];
        lemma_norm_pairs_index(ps, sa, j);
        assert(ps[j].0 == k);
        assert(crate::json::has_key_v(ps, k));
    }
    if crate::json::has_key_v(ps, k) {
        let i = choose|i: int| 0 <= i < ps.len() && (#[trigger] ps[i]).0 == k;
        lemma_norm_pairs_index(ps, sa, i);
        assert(t[i].0 == k);
        assert(t.to_multiset().contains(t[i]));
        assert(sorted.to_multiset().contains(t[i]));
        assert(sorted.contains(t[i]));
        let j = choose|j: int| 0 <= j < sorted.len() && sorted[j] == t[i];
        assert(crate::json::has_key_v(sorted, k));
    }
}

/// Compares two strings lexicographically by code point.
fn cmp_str(a: &str, b: &str) -> (o: i8)
    ensures
        o as int == cmp_chars(a@, b@),
{
    let an = a.unicode_len();
    let bn = b.unicode_len();
    let mut i: usize = 0;
    proof {
        assert(a@.skip(0) =~= a@);
        assert(b@.skip(0) =~= b@);
    }
    loop
        invariant
            0 <= i <= an,
            i <= bn,
            an == a@.len(),
            bn == b@.len(),
            cmp_chars(a@, b@) == cmp_chars(a@.skip(i as int), b@.skip(i as int)),
        decreases an - i,
    {
        proof {
            assert(a@.skip(i as int).len() == an - i);
            assert(b@.skip(i as int).len() == bn - i);
        }
        if i == an && i == bn {
            return 0;
        }
        if i == an {
            return -1;
        }
        if i == bn {
            return 1;
        }
        let ca = a.get_char(i);
        let cb = b.get_char(i);
        proof {
            assert(a@.skip(i as int)[0] == a@[i as int]);
            assert(b@.skip(i as int)[0] == b@[i as int]);
        }
        if (ca as u32) < (cb as u32) {
            return -1;
        }
        if (cb as u32) < (ca as u32) {
            return 1;
        }
        proof {
            assert(a@.skip(i as int).drop_first() =~= a@.skip(i + 1));
            assert(b@.skip(i as int).drop_first() =~= b@.skip(i + 1));
        }
        i = i + 1;
    }
}

/// Compares two documents in the total order; returns the sign of
/// [`cmp_v`] on their views.
pub fn cmp_values(a: &JsonVal, b: &JsonVal) -> (o: i8)
    ensures
        o as int == cmp_v(a@, b@),
    decreases a, 1int,
{
    match (a, b) {
        (JsonVal::Null, JsonVal::Null) => 0,
        (JsonVal::Bool(x), JsonVal::Bool(y)) => {
            if *x == *y {
                0
            } else if !*x {
                -1
            } else {
                1
            }
        },
        (JsonVal::Int(x), JsonVal::Int(y)) => {
            if *x < *y {
                -1
            } else if *y < *x {
                1
            } else {
                0
            }
        },
        (JsonVal::Num(x), JsonVal::Num(y)) => cmp_str(x.as_str(), y.as_str()),
        (JsonVal::Str(x), JsonVal::Str(y)) => cmp_str(x.as_str(), y.as_str()),
        (JsonVal::Arr(x), JsonVal::Arr(y)) => cmp_arrays(a, b, x, y),
        (JsonVal::Obj(x), JsonVal::Obj(y)) => cmp_objects(a, b, x, y),
        _ => {
            let ra = rank_of(a);
            let rb = rank_of(b);
            if ra < rb {
                -1
            } else {
                1
            }
        },
    }
}

/// The rank of a value's kind, as executable code.
fn rank_of(v: &JsonVal) -> (r: u8)
    ensures
        r as int == type_rank(v@),
{
    match v {
        JsonVal::Null => 0,
        JsonVal::Bool(_) => 1,
        JsonVal::Int(_) => 2,
        JsonVal::Num(_) => 3,
        JsonVal::Str(_) => 4,
        JsonVal::Obj(_) => 5,
        JsonVal::Arr(_) => 6,
    }
}

fn cmp_arrays(a: &JsonVal, b: &JsonVal, x: &Vec<JsonVal>, y: &Vec<JsonVal>) -> (o: i8)
    requires
        *a == JsonVal::Arr(*x),
        *b == JsonVal::Arr(*y),
    ensures
        o as int == cmp_v(a@, b@),
    decreases a, 0int,
{
    let ghost xs = views_of(x@);
    let ghost ys = views_of(y@);
    proof {
        crate::json::lemma_views_of_len(x@);
        crate::json::lemma_views_of_len(y@);
        assert(cmp_v(a@, b@) == cmp_seq(xs, ys));
    }
    let xn = x.len();
    let yn = y.len();
    let mut i: usize = 0;
    proof {
        assert(xs.skip(0) =~= xs);
        assert(ys.skip(0) =~= ys);
    }
    loop
        invariant
            0 <= i <= xn,
            i <= yn,
            xn == x@.len(),
            yn == y@.len(),
            *a == JsonVal::Arr(*x),
            *b == JsonVal::Arr(*y),
            xs == views_of(x@),
            ys == views_of(y@),
            xs.len() == xn,
            ys.len() == yn,
            cmp_seq(xs, ys) == cmp_seq(xs.skip(i as int), ys.skip(i as int)),
            cmp_v(a@, b@) == cmp_seq(xs, ys),
        decreases xn - i,
    {
        proof {
            assert(xs.skip(i as int).len() == xn - i);
            assert(ys.skip(i as int).len() == yn - i);
        }
        if i == xn && i == yn {
            return 0;
        }
        if i == xn {
            return -1;
        }
        if i == yn {
            return 1;
        }
        proof {
            crate::json::lemma_views_of_index(x@, i as int);
            crate::json::lemma_views_of_index(y@, i as int);
            assert(xs.skip(i as int)[0] == xs[i as int]);
            assert(ys.skip(i as int)[0] == ys[i as int]);
        }
        let c = cmp_values(&x[i], &y[i]);
        if c != 0 {
            return c;
        }
        proof {
            assert(xs.skip(i as int).drop_first() =~= xs.skip(i + 1));
            assert(ys.skip(i as int).drop_first() =~= ys.skip(i + 1));
        }
        i = i + 1;
    }
}

fn cmp_objects(
    a: &JsonVal,
    b: &JsonVal,
    x: &Vec<(String, JsonVal)>,
    y: &Vec<(String, JsonVal)>,
) -> (o: i8)
    requires
        *a == JsonVal::Obj(*x),
        *b == JsonVal::Obj(*y),
    ensures
        o as int == cmp_v(a@, b@),
    decreases a, 0int,
{
    let ghost xs = pair_views_of(x@);
    let ghost ys = pair_views_of(y@);
    proof {
        crate::json::lemma_pair_views_of_len(x@);
        crate::json::lemma_pair_views_of_len(y@);
        assert(cmp_v(a@, b@) == cmp_pairs(xs, ys));
    }
    let xn = x.len();
    let yn = y.len();
    let mut i: usize = 0;
    proof {
        assert(xs.skip(0) =~= xs);
        assert(ys.skip(0) =~= ys);
    }
    loop
        invariant
            0 <= i <= xn,
            i <= yn,
            xn == x@.len(),
            yn == y@.len(),
            *a == JsonVal::Obj(*x),
            *b == JsonVal::Obj(*y),
            xs == pair_views_of(x@),
            ys == pair_views_of(y@),
            xs.len() == xn,
            ys.len() == yn,
            cmp_pairs(xs, ys) == cmp_pairs(xs.skip(i as int), ys.skip(i as int)),
            cmp_v(a@, b@) == cmp_pairs(xs, ys),
        decreases xn - i,
    {
        proof {
            assert(xs.skip(i as int).len() == xn - i);
            assert(ys.skip(i as int).len() == yn - i);
        }
        if i == xn && i == yn {
            return 0;
        }
        if i == xn {
            return -1;
        }
        if i == yn {
            return 1;
        }
        proof {
            crate::json::lemma_pair_views_of_index(x@, i as int);
            crate::json::lemma_pair_views_of_index(y@, i as int);
            assert(xs.skip(i as int)[0] == xs[i as int]);
            assert(ys.skip(i as int)[0] == ys[i as int]);
        }
        let ck = cmp_str(x[i].0.as_str(), y[i].0.as_str());
        if ck != 0 {
            proof {
                assert(cmp_pair(xs[i as int], ys[i as int]) == ck as int);
            }
            return ck;
        }
        let c = cmp_values(&x[i].1, &y[i].1);
        if c != 0 {
            proof {
                assert(cmp_pair(xs[i as int], ys[i as int]) == c as int);
            }
            return c;
        }
        proof {
            assert(cmp_pair(xs[i as int], ys[i as int]) == 0);
            assert(xs.skip(i as int).drop_first() =~= xs.skip(i + 1));
            assert(ys.skip(i as int).drop_first() =~= ys.skip(i + 1));
        }
        i = i + 1;
    }
}

proof fn lemma_insert_le_at(x: JsonV, s: Seq<JsonV>, pos: int)
    requires
        0 <= pos <= s.len(),
        forall|j: int| 0 <= j < pos ==> cmp_v(x, #[trigger] s[j]) > 0,
        pos < s.len() ==> cmp_v(x, s[pos]) <= 0,
    ensures
        insert_le(x, s) == s.subrange(0, pos) + seq![x] + s.subrange(pos, s.len() as int),
    decreases pos,
{
    if pos == 0 {
        if s.len() == 0 {
            assert(insert_le(x, s) =~= s.subrange(0, 0) + seq![x] + s.subrange(0, 0));
        } else {
            assert(insert_le(x, s) =~= s.subrange(0, 0) + seq![x] + s.subrange(0, s.len() as int));
        }
    } else {
        assert(cmp_v(x, s[0]) > 0);
        let t = s.drop_first();
        assert(forall|j: int| 0 <= j < pos - 1 ==> cmp_v(x, #[trigger] t[j]) > 0);
        lemma_insert_le_at(x, t, pos - 1);
        assert(insert_le(x, s) == seq![s[0]] + insert_le(x, t));
        assert(seq![s[0]] + (t.subrange(0, pos - 1) + seq![x] + t.subrange(pos - 1, t.len() as int))
            =~= s.subrange(0, pos) + seq![x] + s.subrange(pos, s.len() as int));
    }
}

proof fn lemma_pair_insert_le_at(x: (Seq<char>, JsonV), s: Seq<(Seq<char>, JsonV)>, pos: int)
    requires
        0 <= pos <= s.len(),
        forall|j: int| 0 <= j < pos ==> cmp_pair(x, #[trigger] s[j]) > 0,
        pos < s.len() ==> cmp_pair(x, s[pos]) <= 0,
    ensures
        pair_insert_le(x, s) == s.subrange(0, pos) + seq![x] + s.subrange(pos, s.len() as int),
    decreases pos,
{
    if pos == 0 {
        if s.len() == 0 {
            assert(pair_insert_le(x, s) =~= s.subrange(0, 0) + seq![x] + s.subrange(0, 0));
        } else {
            assert(pair_insert_le(x, s) =~= s.subrange(0, 0) + seq![x] + s.subrange(
                0,
                s.len() as int,
            ));
        }
    } else {
        assert(cmp_pair(x, s[0]) > 0);
        let t = s.drop_first();
        assert(forall|j: int| 0 <= j < pos - 1 ==> cmp_pair(x, #[trigger] t[j]) > 0);
        lemma_pair_insert_le_at(x, t, pos - 1);
        assert(pair_insert_le(x, s) == seq![s[0]] + pair_insert_le(x, t));
        assert(seq![s[0]] + (t.subrange(0, pos - 1) + seq![x] + t.subrange(
            pos - 1,
            t.len() as int,
        )) =~= s.subrange(0, pos) + seq![x] + s.subrange(pos, s.len() as int));
    }
}

/// Inserts a document into a vector kept sorted by the document order.
fn insert_sorted(v: &mut Vec<JsonVal>, x: JsonVal)
    ensures
        views_of(final(v)@) == insert_le(x@, views_of(old(v)@)),
{
    let ghost vs = views_of(v@);
    let n = v.len();
    proof {
        crate::json::lemma_views_of_len(v@);
    }
    let mut pos: usize = 0;
    loop
        invariant
            0 <= pos <= n,
            n == v@.len(),
            vs == views_of(v@),
            vs.len() == n,
            forall|j: int| 0 <= j < pos ==> cmp_v(x@, #[trigger] vs[j]) > 0,
        ensures
            0 <= pos <= n,
            forall|j: int| 0 <= j < pos ==> cmp_v(x@, #[trigger] vs[j]) > 0,
            pos < n ==> cmp_v(x@, vs[pos as int]) <= 0,
            n == v@.len(),
        decreases n - pos,
    {
        if pos >= n {
            break;
        }
        proof {
            crate::json::lemma_views_of_index(v@, pos as int);
        }
        let c = cmp_values(&x, &v[pos]);
        if c <= 0 {
            break;
        }
        pos = pos + 1;
    }
    proof {
        lemma_insert_le_at(x@, vs, pos as int);
    }
    v.insert(pos, x);
    proof {
        crate::json::lemma_views_of_len(v@);
        let ghost target = insert_le(x@, vs);
        assert forall|k: int| 0 <= k < v@.len() implies views_of(v@)[k] == target[k] by {
            crate::json::lemma_views_of_index(v@, k);
            if k < pos {
                crate::json::lemma_views_of_index(old(v)@, k);
            } else if k > pos {
                crate::json::lemma_views_of_index(old(v)@, k - 1);
            }
        }
        assert(views_of(v@) =~= insert_le(x@, vs));
    }
}

/// Inserts a key/value pair into a vector kept sorted by key, then value.
fn insert_sorted_pair(v: &mut Vec<(String, JsonVal)>, x: (String, JsonVal))
    ensures
        pair_views_of(final(v)@) == pair_insert_le((x.0@, x.1@), pair_views_of(old(v)@)),
{
    let ghost xv = (x.0@, x.1@);
    let ghost vs = pair_views_of(v@);
    let n = v.len();
    proof {
        crate::json::lemma_pair_views_of_len(v@);
    }
    let mut pos: usize = 0;
    loop
        invariant
            0 <= pos <= n,
            n == v@.len(),
            vs == pair_views_of(v@),
            vs.len() == n,
            xv == (x.0@, x.1@),
            forall|j: int| 0 <= j < pos ==> cmp_pair(xv, #[trigger] vs[j]) > 0,
        ensures
            0 <= pos <= n,
            forall|j: int| 0 <= j < pos ==> cmp_pair(xv, #[trigger] vs[j]) > 0,
            pos < n ==> cmp_pair(xv, vs[pos as int]) <= 0,
            n == v@.len(),
            xv == (x.0@, x.1@),
        decreases n - pos,
    {
        if pos >= n {
            break;
        }
        proof {
            crate::json::lemma_pair_views_of_index(v@, pos as int);
        }
        let ck = cmp_str(x.0.as_str(), v[pos].0.as_str());
        let c = if ck != 0 {
            ck
        } else {
            cmp_values(&x.1, &v[pos].1)
        };
        proof {
            assert(c as int == cmp_pair(xv, vs[pos as int]));
        }
        if c <= 0 {
            break;
        }
        pos = pos + 1;
    }
    proof {
        lemma_pair_insert_le_at(xv, vs, pos as int);
    }
    v.insert(pos, x);
    proof {
        crate::json::lemma_pair_views_of_len(v@);
        let ghost target = pair_insert_le(xv, vs);
        assert forall|k: int| 0 <= k < v@.len() implies pair_views_of(v@)[k] == target[k] by {
            crate::json::lemma_pair_views_of_index(v@, k);
            if k < pos {
                crate::json::lemma_pair_views_of_index(old(v)@, k);
            } else if k > pos {
                crate::json::lemma_pair_views_of_index(old(v)@, k - 1);
            }
        }
        assert(pair_views_of(v@) =~= pair_insert_le(xv, vs));
    }
}

/// Sorts the elements of an array by the document order.
fn sort_values(v: Vec<JsonVal>) -> (r: Vec<JsonVal>)
    ensures
        views_of(r@) == sort_le(views_of(v@)),
{
    let ghost vs = views_of(v@);
    let mut v = v;
    let mut acc: Vec<JsonVal> = Vec::new();
    proof {
        crate::json::lemma_views_of_len(v@);
        assert(vs.skip(vs.len() as int) =~= Seq::empty());
        assert(views_of(acc@) =~= Seq::empty());
    }
    loop
        invariant
            v@.len() <= vs.len(),
            views_of(v@) =~= vs.take(v@.len() as int),
            views_of(acc@) == sort_le(vs.skip(v@.len() as int)),
        ensures
            v@.len() == 0,
            views_of(acc@) == sort_le(vs.skip(0)),
        decreases v@.len(),
    {
        let i = v.len();
        if i == 0 {
            break;
        }
        proof {
            crate::json::lemma_views_of_len(v@);
            crate::json::lemma_views_of_index(v@, i - 1);
        }
        let ghost prev = v@;
        let x = v.pop().unwrap();
        proof {
            assert(x@ == vs[i - 1]);
            crate::json::lemma_views_of_len(v@);
            assert forall|k: int| 0 <= k < v@.len() implies views_of(v@)[k] == vs.take(i - 1)[k] by {
                crate::json::lemma_views_of_index(v@, k);
                crate::json::lemma_views_of_index(prev, k);
            }
        }
        insert_sorted(&mut acc, x);
        proof {
            let t = vs.skip(i - 1);
            assert(t[0] == vs[i - 1]);
            assert(t.drop_first() =~= vs.skip(i as int));
            assert(views_of(acc@) == sort_le(vs.skip(i - 1)));
        }
    }
    proof {
        assert(vs.skip(0) =~= vs);
    }
    acc
}

/// Sorts the pairs of an object by key, then value.
fn sort_pairs(v: Vec<(String, JsonVal)>) -> (r: Vec<(String, JsonVal)>)
    ensures
        pair_views_of(r@) == pair_sort_le(pair_views_of(v@)),
{
    let ghost vs = pair_views_of(v@);
    let mut v = v;
    let mut acc: Vec<(String, JsonVal)> = Vec::new();
    proof {
        crate::json::lemma_pair_views_of_len(v@);
        assert(vs.skip(vs.len() as int) =~= Seq::empty());
        assert(pair_views_of(acc@) =~= Seq::empty());
    }
    loop
        invariant
            v@.len() <= vs.len(),
            pair_views_of(v@) =~= vs.take(v@.len() as int),
            pair_views_of(acc@) == pair_sort_le(vs.skip(v@.len() as int)),
        ensures
            v@.len() == 0,
            pair_views_of(acc@) == pair_sort_le(vs.skip(0)),
        decreases v@.len(),
    {
        let i = v.len();
        if i == 0 {
            break;
        }
        proof {
            crate::json::lemma_pair_views_of_len(v@);
            crate::json::lemma_pair_views_of_index(v@, i - 1);
        }
        let ghost prev = v@;
        let x = v.pop().unwrap();
        proof {
            assert((x.0@, x.1@) == vs[i - 1]);
            crate::json::lemma_pair_views_of_len(v@);
            assert forall|k: int| 0 <= k < v@.len() implies pair_views_of(v@)[k] == vs.take(i - 1)[k] by {
                crate::json::lemma_pair_views_of_index(v@, k);
                crate::json::lemma_pair_views_of_index(prev, k);
            }
        }
        insert_sorted_pair(&mut acc, x);
        proof {
            let t = vs.skip(i - 1);
            assert(t[0] == vs[i - 1]);
            assert(t.drop_first() =~= vs.skip(i as int));
            assert(pair_views_of(acc@) == pair_sort_le(vs.skip(i - 1)));
        }
    }
    proof {
        assert(vs.skip(0) =~= vs);
    }
    acc
}

/// Builds the canonical form of a document: object pairs sorted at every
/// depth, and array elements sorted at every depth when `sort_arrays` is
/// set.
#[verifier::loop_isolation(false)]
pub fn deep_canon(v: &JsonVal, sort_arrays: bool) -> (r: JsonVal)
    ensures
        r@ == norm(v@, sort_arrays),
    decreases v,
{
    match v {
        JsonVal::Null => JsonVal::Null,
        JsonVal::Bool(b) => JsonVal::Bool(*b),
        JsonVal::Int(i) => JsonVal::Int(*i),
        JsonVal::Num(s) => JsonVal::Num(s.clone()),
        JsonVal::Str(s) => JsonVal::Str(s.clone()),
        JsonVal::Arr(xs) => {
            let ghost vs = views_of(xs@);
            proof {
                crate::json::lemma_views_of_len(xs@);
            }
            let mut out: Vec<JsonVal> = Vec::new();
            let n = xs.len();
            for i in 0..n
                invariant
                    out@.len() == i,
                    forall|j: int|
                        0 <= j < i ==> (#[trigger] out@[j])@ == norm(vs[j], sort_arrays),
            {
                proof {
                    crate::json::lemma_views_of_index(xs@, i as int);
                }
                out.push(deep_canon(&xs[i], sort_arrays));
            }
            proof {
                crate::json::lemma_views_of_len(out@);
                lemma_norm_each_len(vs, sort_arrays);
                let target = norm_each(vs, sort_arrays);
                assert forall|k: int| 0 <= k < n implies views_of(out@)[k] == target[k] by {
                    crate::json::lemma_views_of_index(out@, k);
                    lemma_norm_each_index(vs, sort_arrays, k);
                }
                assert(views_of(out@) =~= norm_each(vs, sort_arrays));
            }
            let out = if sort_arrays {
                sort_values(out)
            } else {
                out
            };
            JsonVal::Arr(out)
        },
        JsonVal::Obj(ps) => {
            let ghost vs = pair_views_of(ps@);
            proof {
                crate::json::lemma_pair_views_of_len(ps@);
            }
            let mut out: Vec<(String, JsonVal)> = Vec::new();
            let n = ps.len();
            for i in 0..n
                invariant
                    out@.len() == i,
                    forall|j: int|
                        0 <= j < i ==> (#[trigger] out@[j]).0@ == vs[j].0 && out@[j].1@ == norm(
                            vs[j].1,
                            sort_arrays,
                        ),
            {
                proof {
                    crate::json::lemma_pair_views_of_index(ps@, i as int);
                }
                let key = ps[i].0.clone();
                let val = deep_canon(&ps[i].1, sort_arrays);
                out.push((key, val));
            }
            proof {
                crate::json::lemma_pair_views_of_len(out@);
                lemma_norm_pairs_len(vs, sort_arrays);
                let target = norm_pairs(vs, sort_arrays);
                assert forall|k: int| 0 <= k < n implies pair_views_of(out@)[k] == target[k] by {
                    crate::json::lemma_pair_views_of_index(out@, k);
                    lemma_norm_pairs_index(vs, sort_arrays, k);
                }
                assert(pair_views_of(out@) =~= norm_pairs(vs, sort_arrays));
            }
            let out = sort_pairs(out);
            JsonVal::Obj(out)
        },
    }
}

proof fn lemma_char_eq(c: char, d: char)
    requires
        c as u32 == d as u32,
    ensures
        c == d,
{
    assert(c as int == c as u32 as int);
    assert(d as int == d as u32 as int);
}

proof fn lemma_cmp_chars_flip(a: Seq<char>, b: Seq<char>)
    ensures
        cmp_chars(a, b) == -cmp_chars(b, a),
    decreases a.len(),
{
    if a.len() > 0 && b.len() > 0 && !((a[0] as u32) < (b[0] as u32)) && !((b[0] as u32) < (
    a[0] as u32)) {
        lemma_cmp_chars_flip(a.drop_first(), b.drop_first());
    }
}

proof fn lemma_cmp_chars_zero(a: Seq<char>, b: Seq<char>)
    requires
        cmp_chars(a, b) == 0,
    ensures
        a == b,
    decreases a.len(),
{
    if a.len() == 0 {
        assert(b.len() == 0);
        assert(a =~= b);
    } else {
        assert(b.len() > 0);
        assert(!((a[0] as u32) < (b[0] as u32)) && !((b[0] as u32) < (a[0] as u32)));
        assert(a[0] as u32 == b[0] as u32);
        lemma_char_eq(a[0], b[0]);
        assert(a[0] == b[0]);
        lemma_cmp_chars_zero(a.drop_first(), b.drop_first());
        assert(a.len() == b.len());
        assert(a =~= b) by {
            assert forall|i: int| 0 <= i < a.len() implies a[i] == b[i] by {
                if i > 0 {
                    assert(a[i] == a.drop_first()[i - 1]);
                    assert(b[i] == b.drop_first()[i - 1]);
                }
            }
        }
    }
}

proof fn lemma_cmp_chars_trans(a: Seq<char>, b: Seq<char>, c: Seq<char>)
    requires
        cmp_chars(a, b) < 0,
        cmp_chars(b, c) < 0,
    ensures
        cmp_chars(a, c) < 0,
    decreases a.len() + b.len() + c.len(),
{
    if a.len() == 0 {
    } else {
        assert(b.len() > 0 && c.len() > 0);
        let a0 = a[0] as u32;
        let b0 = b[0] as u32;
        let c0 = c[0] as u32;
        if a0 < b0 || b0 < c0 {
        } else {
            lemma_cmp_chars_trans(a.drop_first(), b.drop_first(), c.drop_first());
        }
    }
}

proof fn lemma_cmp_flip(a: JsonV, b: JsonV)
    ensures
        cmp_v(a, b) == -cmp_v(b, a),
    decreases a, b, 1int,
{
    if type_rank(a) == type_rank(b) {
        match (a, b) {
            (JsonV::Num(x), JsonV::Num(y)) => lemma_cmp_chars_flip(x, y),
            (JsonV::Str(x), JsonV::Str(y)) => lemma_cmp_chars_flip(x, y),
            (JsonV::Arr(x), JsonV::Arr(y)) => lemma_cmp_seq_flip(x, y),
            (JsonV::Obj(x), JsonV::Obj(y)) => lemma_cmp_pairs_flip(x, y),
            _ => {},
        }
    }
}

proof fn lemma_cmp_seq_flip(x: Seq<JsonV>, y: Seq<JsonV>)
    ensures
        cmp_seq(x, y) == -cmp_seq(y, x),
    decreases x, y, 0int,
{
    if x.len() > 0 && y.len() > 0 {
        lemma_cmp_flip(x[0], y[0]);
        if cmp_v(x[0], y[0]) == 0 {
            lemma_cmp_seq_flip(x.drop_first(), y.drop_first());
        }
    }
}

proof fn lemma_cmp_pair_flip(p: (Seq<char>, JsonV), q: (Seq<char>, JsonV))
    ensures
        cmp_pair(p, q) == -cmp_pair(q, p),
    decreases p.1, q.1, 2int,
{
    lemma_cmp_chars_flip(p.0, q.0);
    if cmp_chars(p.0, q.0) == 0 {
        lemma_cmp_flip(p.1, q.1);
    }
}

proof fn lemma_cmp_pairs_flip(x: Seq<(Seq<char>, JsonV)>, y: Seq<(Seq<char>, JsonV)>)
    ensures
        cmp_pairs(x, y) == -cmp_pairs(y, x),
    decreases x, y, 0int,
{
    if x.len() > 0 && y.len() > 0 {
        lemma_cmp_pair_flip(x[0], y[0]);
        if cmp_pair(x[0], y[0]) == 0 {
            lemma_cmp_pairs_flip(x.drop_first(), y.drop_first());
        }
    }
}

proof fn lemma_cmp_zero(a: JsonV, b: JsonV)
    requires
        cmp_v(a, b) == 0,
    ensures
        a == b,
    decreases a, b, 1int,
{
    match (a, b) {
        (JsonV::Num(x), JsonV::Num(y)) => {
            lemma_cmp_chars_zero(x, y);
            assert(a =~= b);
        },
        (JsonV::Str(x), JsonV::Str(y)) => {
            lemma_cmp_chars_zero(x, y);
            assert(a =~= b);
        },
        (JsonV::Arr(x), JsonV::Arr(y)) => {
            lemma_cmp_seq_zero(x, y);
            assert(a =~= b);
        },
        (JsonV::Obj(x), JsonV::Obj(y)) => {
            lemma_cmp_pairs_zero(x, y);
            assert(a =~= b);
        },
        _ => {
            assert(a =~= b);
        },
    }
}

proof fn lemma_cmp_seq_zero(x: Seq<JsonV>, y: Seq<JsonV>)
    requires
        cmp_seq(x, y) == 0,
    ensures
        x == y,
    decreases x, y, 0int,
{
    if x.len() == 0 {
        assert(y.len() == 0);
        assert(x =~= y);
    } else {
        assert(y.len() > 0);
        assert(cmp_v(x[0], y[0]) == 0);
        lemma_cmp_zero(x[0], y[0]);
        lemma_cmp_seq_zero(x.drop_first(), y.drop_first());
        assert(x.len() == y.len());
        assert(x =~= y) by {
            assert forall|i: int| 0 <= i < x.len() implies x[i] == y[i] by {
                if i > 0 {
                    assert(x[i] == x.drop_first()[i - 1]);
                    assert(y[i] == y.drop_first()[i - 1]);
                }
            }
        }
    }
}

proof fn lemma_cmp_pairs_zero(x: Seq<(Seq<char>, JsonV)>, y: Seq<(Seq<char>, JsonV)>)
    requires
        cmp_pairs(x, y) == 0,
    ensures
        x == y,
    decreases x, y, 0int,
{
    if x.len() == 0 {
        assert(y.len() == 0);
        assert(x =~= y);
    } else {
        assert(y.len() > 0);
        assert(cmp_pair(x[0], y[0]) == 0);
        assert(cmp_chars(x[0].0, y[0].0) == 0);
        assert(cmp_v(x[0].1, y[0].1) == 0);
        lemma_cmp_chars_zero(x[0].0, y[0].0);
        lemma_cmp_zero(x[0].1, y[0].1);
        lemma_cmp_pairs_zero(x.drop_first(), y.drop_first());
        assert(x.len() == y.len());
        assert(x =~= y) by {
            assert forall|i: int| 0 <= i < x.len() implies x[i] == y[i] by {
                if i > 0 {
                    assert(x[i] == x.drop_first()[i - 1]);
                    assert(y[i] == y.drop_first()[i - 1]);
                } else {
                    assert(x[0] == (x[0].0, x[0].1));
                    assert(y[0] == (y[0].0, y[0].1));
                }
            }
        }
    }
}

proof fn lemma_cmp_trans(a: JsonV, b: JsonV, c: JsonV)
    requires
        cmp_v(a, b) < 0,
        cmp_v(b, c) < 0,
    ensures
        cmp_v(a, c) < 0,
    decreases a, b, 1int,
{
    if type_rank(a) < type_rank(c) {
    } else {
        assert(type_rank(a) == type_rank(b) && type_rank(b) == type_rank(c));
        match (a, b, c) {
            (JsonV::Num(x), JsonV::Num(y), JsonV::Num(z)) => {
                lemma_cmp_chars_strict_chain(x, y, z);
            },
            (JsonV::Str(x), JsonV::Str(y), JsonV::Str(z)) => {
                lemma_cmp_chars_strict_chain(x, y, z);
            },
            (JsonV::Arr(x), JsonV::Arr(y), JsonV::Arr(z)) => {
                lemma_cmp_seq_trans(x, y, z);
            },
            (JsonV::Obj(x), JsonV::Obj(y), JsonV::Obj(z)) => {
                lemma_cmp_pairs_trans(x, y, z);
            },
            _ => {},
        }
    }
}

proof fn lemma_cmp_chars_strict_chain(x: Seq<char>, y: Seq<char>, z: Seq<char>)
    requires
        cmp_chars(x, y) < 0,
        cmp_chars(y, z) < 0,
    ensures
        cmp_chars(x, z) < 0,
{
    lemma_cmp_chars_trans(x, y, z);
}

proof fn lemma_cmp_seq_trans(x: Seq<JsonV>, y: Seq<JsonV>, z: Seq<JsonV>)
    requires
        cmp_seq(x, y) < 0,
        cmp_seq(y, z) < 0,
    ensures
        cmp_seq(x, z) < 0,
    decreases x, y, 0int,
{
    if x.len() == 0 {
        assert(y.len() > 0 && z.len() > 0);
    } else {
        assert(y.len() > 0 && z.len() > 0);
        let c1 = cmp_v(x[0], y[0]);
        let c2 = cmp_v(y[0], z[0]);
        if c1 == 0 {
            lemma_cmp_zero(x[0], y[0]);
            if c2 == 0 {
                lemma_cmp_zero(y[0], z[0]);
                lemma_cmp_seq_trans(x.drop_first(), y.drop_first(), z.drop_first());
            }
        } else {
            assert(c1 < 0);
            if c2 == 0 {
                lemma_cmp_zero(y[0], z[0]);
            } else {
                assert(c2 < 0);
                lemma_cmp_trans(x[0], y[0], z[0]);
            }
        }
    }
}

proof fn lemma_cmp_pairs_trans(
    x: Seq<(Seq<char>, JsonV)>,
    y: Seq<(Seq<char>, JsonV)>,
    z: Seq<(Seq<char>, JsonV)>,
)
    requires
        cmp_pairs(x, y) < 0,
        cmp_pairs(y, z) < 0,
    ensures
        cmp_pairs(x, z) < 0,
    decreases x, y, 0int,
{
    if x.len() == 0 {
        assert(y.len() > 0 && z.len() > 0);
    } else {
        assert(y.len() > 0 && z.len() > 0);
        let c1 = cmp_pair(x[0], y[0]);
        let c2 = cmp_pair(y[0], z[0]);
        if c1 == 0 {
            lemma_cmp_pair_zero(x[0], y[0]);
            if c2 == 0 {
                lemma_cmp_pair_zero(y[0], z[0]);
                lemma_cmp_pairs_trans(x.drop_first(), y.drop_first(), z.drop_first());
            }
        } else {
            assert(c1 < 0);
            if c2 == 0 {
                lemma_cmp_pair_zero(y[0], z[0]);
            } else {
                assert(c2 < 0);
                lemma_cmp_pair_trans(x[0], y[0], z[0]);
            }
        }
    }
}

proof fn lemma_cmp_pair_zero(p: (Seq<char>, JsonV), q: (Seq<char>, JsonV))
    requires
        cmp_pair(p, q) == 0,
    ensures
        p == q,
    decreases p.1, q.1, 2int,
{
    lemma_cmp_chars_zero(p.0, q.0);
    lemma_cmp_zero(p.1, q.1);
    assert(p == (p.0, p.1));
    assert(q == (q.0, q.1));
}

proof fn lemma_cmp_pair_trans(p: (Seq<char>, JsonV), q: (Seq<char>, JsonV), r: (Seq<char>, JsonV))
    requires
        cmp_pair(p, q) < 0,
        cmp_pair(q, r) < 0,
    ensures
        cmp_pair(p, r) < 0,
    decreases p.1, q.1, 2int,
{
    let c1 = cmp_chars(p.0, q.0);
    let c2 = cmp_chars(q.0, r.0);
    if c1 == 0 {
        lemma_cmp_chars_zero(p.0, q.0);
        if c2 == 0 {
            lemma_cmp_chars_zero(q.0, r.0);
            lemma_cmp_trans(p.1, q.1, r.1);
        }
    } else {
        assert(c1 < 0);
        if c2 == 0 {
            lemma_cmp_chars_zero(q.0, r.0);
        } else {
            assert(c2 < 0);
            lemma_cmp_chars_trans(p.0, q.0, r.0);
        }
    }
}

/// The document order as a relation.
pub open spec fn jle() -> spec_fn(JsonV, JsonV) -> bool {
    |a: JsonV, b: JsonV| cmp_v(a, b) <= 0
}

/// The document order is a total order: reflexive, antisymmetric,
/// transitive, and any two documents are comparable.
pub proof fn lemma_jle_total_ordering()
    ensures
        vstd::relations::total_ordering(jle()),
{
    assert forall|x: JsonV| #[trigger] jle()(x, x) by {
        lemma_cmp_flip(x, x);
    }
    assert forall|x: JsonV, y: JsonV| #[trigger] jle()(x, y) && #[trigger] jle()(y, x) implies x
        == y by {
        lemma_cmp_flip(x, y);
        lemma_cmp_zero(x, y);
    }
    assert forall|x: JsonV, y: JsonV, z: JsonV|
        #[trigger] jle()(x, y) && #[trigger] jle()(y, z) implies jle()(x, z) by {
        if cmp_v(x, y) == 0 {
            lemma_cmp_zero(x, y);
        } else if cmp_v(y, z) == 0 {
            lemma_cmp_zero(y, z);
        } else {
            lemma_cmp_trans(x, y, z);
        }
    }
    assert forall|x: JsonV, y: JsonV| true implies #[trigger] jle()(x, y) || #[trigger] jle()(
        y,
        x,
    ) by {
        lemma_cmp_flip(x, y);
    }
}

proof fn lemma_insert_le_multiset(x: JsonV, s: Seq<JsonV>)
    ensures
        insert_le(x, s).to_multiset() == s.push(x).to_multiset(),
    decreases s.len(),
{
    broadcast use vstd::seq_lib::group_to_multiset_ensures;

    if s.len() == 0 {
        assert(insert_le(x, s) =~= Seq::empty().push(x));
        assert(s.push(x) =~= Seq::empty().push(x));
    } else if cmp_v(x, s[0]) <= 0 {
        assert(insert_le(x, s) =~= seq![x] + s);
        vstd::seq_lib::lemma_multiset_commutative(seq![x], s);
        assert(s + seq![x] =~= s.push(x));
    } else {
        let t = s.drop_first();
        lemma_insert_le_multiset(x, t);
        assert(insert_le(x, s) =~= seq![s[0]] + insert_le(x, t));
        vstd::seq_lib::lemma_multiset_commutative(seq![s[0]], insert_le(x, t));
        assert(insert_le(x, t) + seq![s[0]] =~= insert_le(x, t).push(s[0]));
        assert(s.to_multiset() == t.to_multiset().insert(s[0])) by {
            vstd::seq_lib::lemma_multiset_commutative(seq![s[0]], t);
            assert(seq![s[0]] + t =~= s);
            assert(t + seq![s[0]] =~= t.push(s[0]));
        }
        assert(insert_le(x, s).to_multiset() == t.to_multiset().insert(x).insert(s[0]));
        assert(t.to_multiset().insert(x).insert(s[0]) == t.to_multiset().insert(s[0]).insert(
            x,
        )) by {
            broadcast use vstd::multiset::group_multiset_axioms;

        }
        assert(s.push(x).to_multiset() == s.to_multiset().insert(x));
    }
}

/// Sorting an array's elements keeps exactly the elements that were there.
pub proof fn lemma_sort_le_multiset(s: Seq<JsonV>)
    ensures
        sort_le(s).to_multiset() == s.to_multiset(),
    decreases s.len(),
{
    broadcast use vstd::seq_lib::group_to_multiset_ensures;

    if s.len() > 0 {
        let t = s.drop_first();
        lemma_sort_le_multiset(t);
        lemma_insert_le_multiset(s[0], sort_le(t));
        assert(sort_le(t).push(s[0]).to_multiset() == sort_le(t).to_multiset().insert(s[0]));
        assert(t.push(s[0]).to_multiset() == t.to_multiset().insert(s[0]));
        assert(t.push(s[0]).to_multiset() == s.to_multiset()) by {
            vstd::seq_lib::lemma_multiset_commutative(seq![s[0]], t);
            assert(seq![s[0]] + t =~= s);
            assert(t + seq![s[0]] =~= t.push(s[0]));
        }
    }
}

proof fn lemma_insert_le_sorted(x: JsonV, s: Seq<JsonV>)
    requires
        vstd::relations::sorted_by(s, jle()),
    ensures
        vstd::relations::sorted_by(insert_le(x, s), jle()),
    decreases s.len(),
{
    broadcast use vstd::seq_lib::group_to_multiset_ensures;

    if s.len() == 0 {
    } else if cmp_v(x, s[0]) <= 0 {
        let r = seq![x] + s;
        assert forall|i: int, j: int| 0 <= i < j < r.len() implies jle()(r[i], r[j]) by {
            if i == 0 {
                if j > 1 {
                    assert(jle()(s[0], s[j - 1]));
                    if cmp_v(x, s[0]) == 0 {
                        lemma_cmp_zero(x, s[0]);
                    } else if cmp_v(s[0], s[j - 1]) == 0 {
                        lemma_cmp_zero(s[0], s[j - 1]);
                    } else {
                        lemma_cmp_trans(x, s[0], s[j - 1]);
                    }
                }
            } else {
                assert(jle()(s[i - 1], s[j - 1]));
            }
        }
    } else {
        let t = s.drop_first();
        assert(vstd::relations::sorted_by(t, jle())) by {
            assert forall|i: int, j: int| 0 <= i < j < t.len() implies jle()(t[i], t[j]) by {
                assert(jle()(s[i + 1], s[j + 1]));
            }
        }
        lemma_insert_le_sorted(x, t);
        let ins = insert_le(x, t);
        lemma_insert_le_multiset(x, t);
        let r = seq![s[0]] + ins;
        assert(insert_le(x, s) == r);
        assert forall|i: int, j: int| 0 <= i < j < r.len() implies jle()(r[i], r[j]) by {
            if i == 0 {
                let e = ins[j - 1];
                assert(ins.to_multiset().contains(e));
                assert(t.push(x).to_multiset().contains(e));
                assert(t.push(x).contains(e));
                if e == x {
                    lemma_cmp_flip(x, s[0]);
                } else {
                    let w = choose|w: int| 0 <= w < t.push(x).len() && t.push(x)[w] == e;
                    assert(w < t.len());
                    assert(e == t[w]);
                    assert(jle()(s[0], s[w + 1]));
                }
            } else {
                assert(jle()(ins[i - 1], ins[j - 1]));
            }
        }
    }
}

/// Sorting an array's elements leaves them in the document order.
pub proof fn lemma_sort_le_sorted(s: Seq<JsonV>)
    ensures
        vstd::relations::sorted_by(sort_le(s), jle()),
    decreases s.len(),
{
    if s.len() > 0 {
        lemma_sort_le_sorted(s.drop_first());
        lemma_insert_le_sorted(s[0], sort_le(s.drop_first()));
    }
}

/// Order-insensitivity: two arrays whose canonical elements form the same
/// multiset have the same canonical form, so comparing them with
/// order-insensitive array comparison finds no difference.
pub proof fn lemma_sorted_arrays_agree(xs: Seq<JsonV>, ys: Seq<JsonV>)
    requires
        norm_each(xs, true).to_multiset() == norm_each(ys, true).to_multiset(),
    ensures
        norm(JsonV::Arr(xs), true) == norm(JsonV::Arr(ys), true),
{
    let nx = norm_each(xs, true);
    let ny = norm_each(ys, true);
    lemma_jle_total_ordering();
    lemma_sort_le_sorted(nx);
    lemma_sort_le_sorted(ny);
    lemma_sort_le_multiset(nx);
    lemma_sort_le_multiset(ny);
    vstd::seq_lib::lemma_sorted_unique(sort_le(nx), sort_le(ny), jle());
    assert(sort_le(nx) =~= sort_le(ny));
}

} // verus!
