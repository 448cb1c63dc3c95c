//! The value model: a parsed JSON-like document.
//!
//! Numeric model: a number that fits in a signed 64-bit integer is held as
//! [`JsonVal::Int`] and compares by integer value.  Any other number (a
//! fraction, or an integer beyond the signed 64-bit range) is held as its
//! canonical decimal text in [`JsonVal::Num`] and compares by that text, so
//! `5` and `5.0` are distinct values.

use vstd::prelude::*;

verus! {

/// A parsed document: null, boolean, number, string, ordered array, or
/// key/value object.  Object keys are unique (see [`JsonV::wf`]); their
/// stored order carries no meaning for comparison.
#[derive(Debug, PartialEq)]
pub enum JsonVal {
    Null,
    Bool(bool),
    Int(i64),
    /// A number outside the signed 64-bit integers, as canonical decimal text.
    Num(String),
    Str(String),
    Arr(Vec<JsonVal>),
    Obj(Vec<(String, JsonVal)>),
}

/// The mathematical shape of a document, used by every contract.
#[verifier::ext_equal]
pub enum JsonV {
    Null,
    Bool(bool),
    Int(int),
    Num(Seq<char>),
    Str(Seq<char>),
    Arr(Seq<JsonV>),
    Obj(Seq<(Seq<char>, JsonV)>),
}

impl JsonVal {
    pub open spec fn deep_view(&self) -> JsonV
        decreases self, 1int,
    {
        match self {
            JsonVal::Null => JsonV::Null,
            JsonVal::Bool(b) => JsonV::Bool(*b),
            JsonVal::Int(i) => JsonV::Int(*i as int),
            JsonVal::Num(s) => JsonV::Num(s@),
            JsonVal::Str(s) => JsonV::Str(s@),
            JsonVal::Arr(v) => JsonV::Arr(views_of(v@)),
            JsonVal::Obj(v) => JsonV::Obj(pair_views_of(v@)),
        }
    }
}

impl View for JsonVal {
    type V = JsonV;

    open spec fn view(&self) -> JsonV {
        self.deep_view()
    }
}

/// The views of the elements of an array, in order.
pub open spec fn views_of(s: Seq<JsonVal>) -> Seq<JsonV>
    decreases s, 0int,
{
    if s.len() == 0 {
        Seq::empty()
    } else {
        views_of(s.drop_last()).push(s.last().deep_view())
    }
}

/// The views of the key/value pairs of an object, in order.
pub open spec fn pair_views_of(s: Seq<(String, JsonVal)>) -> Seq<(Seq<char>, JsonV)>
    decreases s, 0int,
{
    if s.len() == 0 {
        Seq::empty()
    } else {
        pair_views_of(s.drop_last()).push((s.last().0@, s.last().1.deep_view()))
    }
}

pub broadcast proof fn lemma_views_of_len(s: Seq<JsonVal>)
    ensures
        (#[trigger] views_of(s)).len() == s.len(),
    decreases s.len(),
{
    if s.len() > 0 {
        lemma_views_of_len(s.drop_last());
    }
}

pub broadcast proof fn lemma_views_of_index(s: Seq<JsonVal>, i: int)
    requires
        0 <= i < s.len(),
    ensures
        #[trigger] views_of(s)[i] == s[i].deep_view(),
    decreases s.len(),
{
    lemma_views_of_len(s);
    if i < s.len() - 1 {
        lemma_views_of_index(s.drop_last(), i);
        lemma_views_of_len(s.drop_last());
    }
}

pub broadcast proof fn lemma_pair_views_of_len(s: Seq<(String, JsonVal)>)
    ensures
        (#[trigger] pair_views_of(s)).len() == s.len(),
    decreases s.len(),
{
    if s.len() > 0 {
        lemma_pair_views_of_len(s.drop_last());
    }
}

pub broadcast proof fn lemma_pair_views_of_index(s: Seq<(String, JsonVal)>, i: int)
    requires
        0 <= i < s.len(),
    ensures
        #[trigger] pair_views_of(s)[i] == (s[i].0@, s[i].1.deep_view()),
    decreases s.len(),
{
    lemma_pair_views_of_len(s);
    if i < s.len() - 1 {
        lemma_pair_views_of_index(s.drop_last(), i);
        lemma_pair_views_of_len(s.drop_last());
    }
}

/// Whether an object's pairs hold the key `k`.
pub open spec fn has_key_v(ps: Seq<(Seq<char>, JsonV)>, k: Seq<char>) -> bool {
    exists|i: int| 0 <= i < ps.len() && (#[trigger] ps[i]).0 == k
}

impl JsonV {
    /// Well-formed: every object, at every depth, has pairwise distinct keys.
    pub open spec fn wf(self) -> bool
        decreases self,
    {
        match self {
            JsonV::Arr(s) => forall|i: int| 0 <= i < s.len() ==> #[trigger] s[i].wf(),
            JsonV::Obj(ps) => {
                &&& forall|i: int, j: int|
                    0 <= i < j < ps.len() ==> (#[trigger] ps[i].0) != (#[trigger] ps[j].0)
                &&& forall|i: int| 0 <= i < ps.len() ==> (#[trigger] ps[i].1).wf()
            },
            _ => true,
        }
    }
}

impl Clone for JsonVal {
    fn clone(&self) -> (res: Self)
        ensures
            res@ == self@,
        decreases self, 1int,
    {
        match self {
            JsonVal::Null => JsonVal::Null,
            JsonVal::Bool(b) => JsonVal::Bool(*b),
            JsonVal::Int(i) => JsonVal::Int(*i),
            JsonVal::Num(s) => JsonVal::Num(s.clone()),
            JsonVal::Str(s) => JsonVal::Str(s.clone()),
            JsonVal::Arr(v) => {
                let c = clone_values(v);
                proof {
                    lemma_views_of_len(c@);
                    lemma_views_of_len(v@);
                    assert forall|i: int| 0 <= i < v@.len() implies views_of(c@)[i] == views_of(
                        v@,
                    )[i] by {
                        lemma_views_of_index(c@, i);
                        lemma_views_of_index(v@, i);
                        assert(c@[i]@ == v@[i]@);
                    }
                    assert(views_of(c@) =~= views_of(v@));
                }
                JsonVal::Arr(c)
            },
            JsonVal::Obj(ps) => {
                let c = clone_pairs(ps);
                proof {
                    lemma_pair_views_of_len(c@);
                    lemma_pair_views_of_len(ps@);
                    assert forall|i: int|
                        0 <= i < ps@.len() implies pair_views_of(c@)[i] == pair_views_of(
                        ps@,
                    )[i] by {
                        lemma_pair_views_of_index(c@, i);
                        lemma_pair_views_of_index(ps@, i);
                        assert(c@[i].0@ == ps@[i].0@ && c@[i].1@ == ps@[i].1@);
                    }
                    assert(pair_views_of(c@) =~= pair_views_of(ps@));
                }
                JsonVal::Obj(c)
            },
        }
    }
}

fn clone_values(v: &Vec<JsonVal>) -> (res: Vec<JsonVal>)
    ensures
        res@.len() == v@.len(),
        forall|i: int| 0 <= i < v@.len() ==> (#[trigger] res@[i])@ == v@[i]@,
    decreases v, 0int,
{
    let mut out: Vec<JsonVal> = Vec::new();
    let n = v.len();
    for i in 0..n
        invariant
            n == v.len(),
            out@.len() == i,
            forall|j: int| 0 <= j < i ==> (#[trigger] out@[j])@ == v@[j]@,
    {
        out.push(v[i].clone());
    }
    out
}

fn clone_pairs(v: &Vec<(String, JsonVal)>) -> (res: Vec<(String, JsonVal)>)
    ensures
        res@.len() == v@.len(),
        forall|i: int|
            0 <= i < v@.len() ==> (#[trigger] res@[i]).0@ == v@[i].0@ && res@[i].1@ == v@[i].1@,
    decreases v, 0int,
{
    let mut out: Vec<(String, JsonVal)> = Vec::new();
    let n = v.len();
    for i in 0..n
        invariant
            n == v.len(),
            out@.len() == i,
            forall|j: int|
                0 <= j < i ==> (#[trigger] out@[j]).0@ == v@[j].0@ && out@[j].1@ == v@[j].1@,
    {
        out.push((v[i].0.clone(), v[i].1.clone()));
    }
    out
}

/// Deep structural equality of two documents; the equality used when the
/// comparison decides whether two positions differ.
pub fn deep_eq(a: &JsonVal, b: &JsonVal) -> (r: bool)
    ensures
        r == (a@ == b@),
    decreases a, 1int,
{
    match (a, b) {
        (JsonVal::Null, JsonVal::Null) => {
            proof {
                assert(a@ =~= b@);
            }
            true
        },
        (JsonVal::Bool(x), JsonVal::Bool(y)) => {
            let eqv = *x == *y;
            proof {
                assert(eqv ==> a@ =~= b@);
            }
            eqv
        },
        (JsonVal::Int(x), JsonVal::Int(y)) => {
            let eqv = *x == *y;
            proof {
                assert(eqv ==> a@ =~= b@);
            }
            eqv
        },
        (JsonVal::Num(x), JsonVal::Num(y)) => {
            let eqv = (*x) == (*y);
            proof {
                assert(eqv ==> a@ =~= b@);
            }
            eqv
        },
        (JsonVal::Str(x), JsonVal::Str(y)) => {
            let eqv = (*x) == (*y);
            proof {
                assert(eqv ==> a@ =~= b@);
            }
            eqv
        },
        (JsonVal::Arr(x), JsonVal::Arr(y)) => deep_eq_arrays(a, b, x, y),
        (JsonVal::Obj(x), JsonVal::Obj(y)) => deep_eq_objects(a, b, x, y),
        _ => false,
    }
}

fn deep_eq_arrays(a: &JsonVal, b: &JsonVal, x: &Vec<JsonVal>, y: &Vec<JsonVal>) -> (r: bool)
    requires
        *a == JsonVal::Arr(*x),
        *b == JsonVal::Arr(*y),
    ensures
        r == (a@ == b@),
    decreases a, 0int,
{
    proof {
        lemma_views_of_len(x@);
        lemma_views_of_len(y@);
    }
    if x.len() != y.len() {
        return false;
    }
    let n = x.len();
    for i in 0..n
        invariant
            n == x.len() == y.len(),
            *a == JsonVal::Arr(*x),
            *b == JsonVal::Arr(*y),
            forall|j: int| 0 <= j < i ==> (#[trigger] x@[j])@ == y@[j]@,
    {
        if !deep_eq(&x[i], &y[i]) {
            proof {
                lemma_views_of_len(x@);
                lemma_views_of_len(y@);
                lemma_views_of_index(x@, i as int);
                lemma_views_of_index(y@, i as int);
                assert(a@->Arr_0[i as int] != b@->Arr_0[i as int]);
            }
            return false;
        }
    }
    proof {
        lemma_views_of_len(x@);
        lemma_views_of_len(y@);
        assert forall|i: int| 0 <= i < x@.len() implies a@->Arr_0[i] == b@->Arr_0[i] by {
            lemma_views_of_index(x@, i);
            lemma_views_of_index(y@, i);
        }
        assert(a@->Arr_0 =~= b@->Arr_0);
    }
    true
}

fn deep_eq_objects(
    a: &JsonVal,
    b: &JsonVal,
    x: &Vec<(String, JsonVal)>,
    y: &Vec<(String, JsonVal)>,
) -> (r: bool)
    requires
        *a == JsonVal::Obj(*x),
        *b == JsonVal::Obj(*y),
    ensures
        r == (a@ == b@),
    decreases a, 0int,
{
    proof {
        lemma_pair_views_of_len(x@);
        lemma_pair_views_of_len(y@);
    }
    if x.len() != y.len() {
        return false;
    }
    let n = x.len();
    for i in 0..n
        invariant
            n == x.len() == y.len(),
            *a == JsonVal::Obj(*x),
            *b == JsonVal::Obj(*y),
            forall|j: int| 0 <= j < i ==> (#[trigger] x@[j]).0@ == y@[j].0@ && x@[j].1@ == y@[j].1@,
    {
        let keys_equal = x[i].0 == y[i].0;
        if !keys_equal {
            proof {
                lemma_pair_views_of_len(x@);
                lemma_pair_views_of_len(y@);
                lemma_pair_views_of_index(x@, i as int);
                lemma_pair_views_of_index(y@, i as int);
                assert(a@->Obj_0[i as int] != b@->Obj_0[i as int]);
            }
            return false;
        }
        if !deep_eq(&x[i].1, &y[i].1) {
            proof {
                lemma_pair_views_of_len(x@);
                lemma_pair_views_of_len(y@);
                lemma_pair_views_of_index(x@, i as int);
                lemma_pair_views_of_index(y@, i as int);
                assert(a@->Obj_0[i as int] != b@->Obj_0[i as int]);
            }
            return false;
        }
    }
    proof {
        lemma_pair_views_of_len(x@);
        lemma_pair_views_of_len(y@);
        assert forall|i: int| 0 <= i < x@.len() implies a@->Obj_0[i] == b@->Obj_0[i] by {
            lemma_pair_views_of_index(x@, i);
            lemma_pair_views_of_index(y@, i);
        }
        assert(a@->Obj_0 =~= b@->Obj_0);
    }
    true
}

} // verus!
