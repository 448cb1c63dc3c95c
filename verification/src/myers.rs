//! A minimal edit script between two element sequences, by Myers'
//! divide-and-conquer algorithm, with adjacent deletion and insertion runs
//! merged into replacement runs.
//!
//! The script drives the array reconciler's classification only; which of
//! several equally short scripts is produced is not part of the library's
//! contract.  The recorders below say exactly what they append, and the
//! search promises that every recorded run lies inside the spans it was
//! asked to diff; the reconciler still reads the runs defensively.

use vstd::prelude::*;

use crate::json::{deep_eq, JsonVal};

verus! {

/// Arrays longer than this are not diffed element by element; the bound
/// keeps every position sum far from overflow.
pub const ARR_LIMIT: usize = 0x4000_0000;

/// The clamp for the search front's stored positions; real positions never
/// reach it.
const FRONT_BOUND: i64 = 0x7000_0000;

/// Collects the runs of an edit script: replacements as
/// `(left start, left length, right start, right length)`, deletions as
/// `(left start, length)`, insertions as `(right start, length)`.
pub struct ListDiffHandler {
    pub replaced: Vec<(usize, usize, usize, usize)>,
    pub deletion: Vec<(usize, usize)>,
    pub insertion: Vec<(usize, usize)>,
}

impl ListDiffHandler {
    pub fn new() -> (r: Self)
        ensures
            r.replaced@.len() == 0,
            r.deletion@.len() == 0,
            r.insertion@.len() == 0,
    {
        Self { replaced: Vec::new(), deletion: Vec::new(), insertion: Vec::new() }
    }

    pub fn delete(&mut self, old_pos: usize, len: usize)
        ensures
            final(self).deletion@ == old(self).deletion@.push((old_pos, len)),
            final(self).insertion@ == old(self).insertion@,
            final(self).replaced@ == old(self).replaced@,
    {
        self.deletion.push((old_pos, len));
    }

    pub fn insert(&mut self, new_pos: usize, len: usize)
        ensures
            final(self).insertion@ == old(self).insertion@.push((new_pos, len)),
            final(self).deletion@ == old(self).deletion@,
            final(self).replaced@ == old(self).replaced@,
    {
        self.insertion.push((new_pos, len));
    }

    pub fn replace(&mut self, old_pos: usize, len: usize, new_pos: usize, new_len: usize)
        ensures
            final(self).replaced@ == old(self).replaced@.push((old_pos, len, new_pos, new_len)),
            final(self).deletion@ == old(self).deletion@,
            final(self).insertion@ == old(self).insertion@,
    {
        self.replaced.push((old_pos, len, new_pos, new_len));
    }
}

/// What flushing the pending deletion and insertion appends to the
/// replacement runs: an adjacent pair becomes one replacement.
pub open spec fn flush_replaced(s: Replace) -> Seq<(usize, usize, usize, usize)> {
    match (s.del, s.ins) {
        (Option::Some((o, l, _)), Option::Some((_, n1, nl1))) => seq![(o, l, n1, nl1)],
        _ => Seq::empty(),
    }
}

/// What flushing appends to the deletion runs: a pending deletion with no
/// insertion beside it.
pub open spec fn flush_deletion(s: Replace) -> Seq<(usize, usize)> {
    match (s.del, s.ins) {
        (Option::Some((o, l, _)), Option::None) => seq![(o, l)],
        _ => Seq::empty(),
    }
}

/// What flushing appends to the insertion runs: a pending insertion with
/// no deletion beside it.
pub open spec fn flush_insertion(s: Replace) -> Seq<(usize, usize)> {
    match (s.del, s.ins) {
        (Option::None, Option::Some((_, n, nl))) => seq![(n, nl)],
        _ => Seq::empty(),
    }
}

/// The recorded and pending runs all lie inside `[0, en)` on the left and
/// `[0, fm)` on the right.
pub open spec fn state_within(s: Replace, en: nat, fm: nat) -> bool {
    &&& forall|t: int|
        0 <= t < s.d.deletion@.len() ==> (#[trigger] s.d.deletion@[t]).0 + s.d.deletion@[t].1
            <= en
    &&& forall|t: int|
        0 <= t < s.d.insertion@.len() ==> (#[trigger] s.d.insertion@[t]).0 + s.d.insertion@[t].1
            <= fm
    &&& forall|t: int|
        0 <= t < s.d.replaced@.len() ==> (#[trigger] s.d.replaced@[t]).0 + s.d.replaced@[t].1
            <= en && s.d.replaced@[t].2 + s.d.replaced@[t].3 <= fm
    &&& (s.del matches Some((o, l, _)) ==> o + l <= en)
    &&& (s.ins matches Some((_, n, nl)) ==> n + nl <= fm)
}

/// Merges the raw edit operations into maximal runs: a deletion directly
/// followed by an insertion becomes one replacement.
pub struct Replace {
    pub d: ListDiffHandler,
    pub del: Option<(usize, usize, usize)>,
    pub ins: Option<(usize, usize, usize)>,
    pub eq: Option<(usize, usize, usize)>,
}

impl Replace {
    pub fn new() -> (r: Self)
        ensures
            r.d.replaced@.len() == 0,
            r.d.deletion@.len() == 0,
            r.d.insertion@.len() == 0,
            r.del is None,
            r.ins is None,
            r.eq is None,
    {
        Replace { d: ListDiffHandler::new(), del: None, ins: None, eq: None }
    }

    fn flush_edits(&mut self)
        ensures
            final(self).del is None,
            final(self).ins is None,
            final(self).eq == old(self).eq,
            final(self).d.replaced@ == old(self).d.replaced@ + flush_replaced(*old(self)),
            final(self).d.deletion@ == old(self).d.deletion@ + flush_deletion(*old(self)),
            final(self).d.insertion@ == old(self).d.insertion@ + flush_insertion(*old(self)),
    {
        proof {
            assert(self.d.replaced@ + flush_replaced(*self) =~= if flush_replaced(
                *self,
            ).len() == 0 {
                self.d.replaced@
            } else {
                self.d.replaced@.push(flush_replaced(*self)[0])
            });
            assert(self.d.deletion@ + flush_deletion(*self) =~= if flush_deletion(*self).len()
                == 0 {
                self.d.deletion@
            } else {
                self.d.deletion@.push(flush_deletion(*self)[0])
            });
            assert(self.d.insertion@ + flush_insertion(*self) =~= if flush_insertion(
                *self,
            ).len() == 0 {
                self.d.insertion@
            } else {
                self.d.insertion@.push(flush_insertion(*self)[0])
            });
        }
        if let Some((old0, len0, _new0)) = self.del.take() {
            if let Some((_, new1, new_len1)) = self.ins.take() {
                self.d.replace(old0, len0, new1, new_len1);
            } else {
                self.d.delete(old0, len0);
            }
        } else if let Some((_, new0, new_len0)) = self.ins.take() {
            self.d.insert(new0, new_len0);
        }
    }

    pub fn equal(&mut self, old_pos: usize, new_pos: usize, len: usize)
        ensures
            final(self).del is None,
            final(self).ins is None,
            final(self).d.replaced@ == old(self).d.replaced@ + flush_replaced(*old(self)),
            final(self).d.deletion@ == old(self).d.deletion@ + flush_deletion(*old(self)),
            final(self).d.insertion@ == old(self).d.insertion@ + flush_insertion(*old(self)),
            final(self).eq == (match old(self).eq {
                Option::Some((a, b, c)) => Option::Some(
                    (
                        a,
                        b,
                        if c <= usize::MAX - len {
                            (c + len) as usize
                        } else {
                            usize::MAX
                        },
                    ),
                ),
                Option::None => Option::Some((old_pos, new_pos, len)),
            }),
    {
        self.flush_edits();
        if let Some((a, b, c)) = self.eq.take() {
            let grown = if c <= usize::MAX - len {
                c + len
            } else {
                usize::MAX
            };
            self.eq = Some((a, b, grown));
        } else {
            self.eq = Some((old_pos, new_pos, len));
        }
    }

    pub fn delete(&mut self, old_pos: usize, len: usize, new_pos: usize)
        ensures
            final(self).eq is None,
            final(self).ins == old(self).ins,
            final(self).d.insertion@ == old(self).d.insertion@,
            final(self).d.replaced@ == old(self).d.replaced@,
            (match old(self).del {
                Option::Some((o0, l0, n0)) => if old_pos >= o0 && old_pos - o0 == l0 && l0
                    <= usize::MAX - len {
                    final(self).del == Option::Some((o0, (l0 + len) as usize, n0)) && final(self).d.deletion@ == old(self).d.deletion@
                } else {
                    final(self).del == Option::Some((old_pos, len, new_pos)) && final(self).d.deletion@ == old(self).d.deletion@.push((o0, l0))
                },
                Option::None => final(self).del == Option::Some((old_pos, len, new_pos))
                    && final(self).d.deletion@ == old(self).d.deletion@,
            }),
    {
        if let Some((a, b, c)) = self.eq.take() {
            self.d.equal_run(a, b, c);
        }
        if let Some((old0, len0, new0)) = self.del.take() {
            if old_pos >= old0 && old_pos - old0 == len0 && len0 <= usize::MAX - len {
                self.del = Some((old0, len0 + len, new0));
            } else {
                self.d.delete(old0, len0);
                self.del = Some((old_pos, len, new_pos));
            }
        } else {
            self.del = Some((old_pos, len, new_pos));
        }
    }

    pub fn insert(&mut self, old_pos: usize, new_pos: usize, new_len: usize)
        ensures
            final(self).eq is None,
            final(self).del == old(self).del,
            final(self).d.deletion@ == old(self).d.deletion@,
            final(self).d.replaced@ == old(self).d.replaced@,
            (match old(self).ins {
                Option::Some((o1, n1, nl1)) => if new_pos >= n1 && new_pos - n1 == nl1 && nl1
                    <= usize::MAX - new_len {
                    final(self).ins == Option::Some((o1, n1, (nl1 + new_len) as usize)) && final(self).d.insertion@ == old(self).d.insertion@
                } else {
                    final(self).ins == Option::Some((old_pos, new_pos, new_len)) && final(self).d.insertion@ == old(self).d.insertion@.push((n1, nl1))
                },
                Option::None => final(self).ins == Option::Some((old_pos, new_pos, new_len))
                    && final(self).d.insertion@ == old(self).d.insertion@,
            }),
    {
        if let Some((a, b, c)) = self.eq.take() {
            self.d.equal_run(a, b, c);
        }
        if let Some((old1, new1, new_len1)) = self.ins.take() {
            if new_pos >= new1 && new_pos - new1 == new_len1 && new_len1 <= usize::MAX - new_len {
                self.ins = Some((old1, new1, new_len1 + new_len));
            } else {
                self.d.insert(new1, new_len1);
                self.ins = Some((old_pos, new_pos, new_len));
            }
        } else {
            self.ins = Some((old_pos, new_pos, new_len));
        }
    }

    pub fn replace(&mut self, old_pos: usize, old_len: usize, new_pos: usize, new_len: usize)
        ensures
            final(self).eq is None,
            final(self).del is None,
            final(self).ins is None,
            final(self).d.replaced@ == (old(self).d.replaced@ + flush_replaced(*old(self))).push(
                (old_pos, old_len, new_pos, new_len),
            ),
            final(self).d.deletion@ == old(self).d.deletion@ + flush_deletion(*old(self)),
            final(self).d.insertion@ == old(self).d.insertion@ + flush_insertion(*old(self)),
    {
        if let Some((a, b, c)) = self.eq.take() {
            self.d.equal_run(a, b, c);
        }
        self.flush_edits();
        self.d.replace(old_pos, old_len, new_pos, new_len);
    }

    pub fn finish(&mut self)
        ensures
            final(self).eq is None,
            final(self).del is None,
            final(self).ins is None,
            final(self).d.replaced@ == old(self).d.replaced@ + flush_replaced(*old(self)),
            final(self).d.deletion@ == old(self).d.deletion@ + flush_deletion(*old(self)),
            final(self).d.insertion@ == old(self).d.insertion@ + flush_insertion(*old(self)),
    {
        if let Some((a, b, c)) = self.eq.take() {
            self.d.equal_run(a, b, c);
        }
        self.flush_edits();
    }
}

impl ListDiffHandler {
    /// Unchanged runs carry no difference, so nothing is recorded.
    fn equal_run(&mut self, _old: usize, _new: usize, _len: usize)
        ensures
            *final(self) == *old(self),
    {
    }
}

/// The nonnegative remainder of `a` modulo `b`.
fn modulo(a: i64, b: usize) -> (r: usize)
    requires
        0 < b <= 0x1_0000_0000,
    ensures
        r < b,
{
    let bi = b as i64;
    let m = ((a % bi) + bi) % bi;
    m as usize
}

/// Runs the whole algorithm over `e[e0..e1]` against `f[f0..f1]` and
/// flushes the pending runs.  Every recorded run stays inside the two
/// sequences: a deletion or replacement run's left span ends at or before
/// the left length, an insertion or replacement run's right span at or
/// before the right length.
pub fn myers_diff(
    d: &mut Replace,
    e: &Vec<JsonVal>,
    e0: usize,
    e1: usize,
    f: &Vec<JsonVal>,
    f0: usize,
    f1: usize,
)
    requires
        e0 <= e1 <= e@.len(),
        f0 <= f1 <= f@.len(),
        e@.len() <= ARR_LIMIT,
        f@.len() <= ARR_LIMIT,
    ensures
        state_within(*old(d), e@.len() as nat, f@.len() as nat) ==> state_within(
            *final(d),
            e@.len() as nat,
            f@.len() as nat,
        ),
        old(d).del is None && old(d).ins is None && e0 < e1 && f0 == f1 ==> final(d).d.deletion@ == old(d).d.deletion@.push((e0, (e1 - e0) as usize)) && final(d).d.insertion@ == old(d).d.insertion@ && final(d).d.replaced@ == old(d).d.replaced@,
        old(d).del is None && old(d).ins is None && e0 == e1 && f0 < f1 ==> final(d).d.insertion@ == old(d).d.insertion@.push((f0, (f1 - f0) as usize)) && final(d).d.deletion@ == old(d).d.deletion@ && final(d).d.replaced@ == old(d).d.replaced@,
        old(d).del is None && old(d).ins is None && e0 == e1 && f0 == f1 ==> final(d).d.deletion@ == old(d).d.deletion@ && final(d).d.insertion@ == old(d).d.insertion@
            && final(d).d.replaced@ == old(d).d.replaced@,
{
    let fuel = (e1 - e0) + (f1 - f0) + 2;
    diff_offsets(d, e, e0, e1, f, f0, f1, fuel);
    d.finish();
    proof {
        if old(d).del is None && old(d).ins is None {
            if e0 < e1 && f0 == f1 {
                assert(final(d).d.deletion@ =~= old(d).d.deletion@.push(
                    (e0, (e1 - e0) as usize),
                ));
                assert(final(d).d.insertion@ =~= old(d).d.insertion@);
                assert(final(d).d.replaced@ =~= old(d).d.replaced@);
            } else if e0 == e1 && f0 < f1 {
                assert(final(d).d.insertion@ =~= old(d).d.insertion@.push(
                    (f0, (f1 - f0) as usize),
                ));
                assert(final(d).d.deletion@ =~= old(d).d.deletion@);
                assert(final(d).d.replaced@ =~= old(d).d.replaced@);
            } else if e0 == e1 && f0 == f1 {
                assert(final(d).d.deletion@ =~= old(d).d.deletion@);
                assert(final(d).d.insertion@ =~= old(d).d.insertion@);
                assert(final(d).d.replaced@ =~= old(d).d.replaced@);
            }
        }
    }
}

/// One divide-and-conquer step: find the middle snake, emit the runs
/// around it, and recurse into the two remaining spans.
#[verifier::loop_isolation(false)]
fn diff_offsets(
    d: &mut Replace,
    e: &Vec<JsonVal>,
    i: usize,
    i_: usize,
    f: &Vec<JsonVal>,
    j: usize,
    j_: usize,
    fuel: usize,
)
    requires
        i <= i_ <= e@.len(),
        j <= j_ <= f@.len(),
        e@.len() <= ARR_LIMIT,
        f@.len() <= ARR_LIMIT,
    ensures
        state_within(*old(d), e@.len() as nat, f@.len() as nat) ==> state_within(
            *final(d),
            e@.len() as nat,
            f@.len() as nat,
        ),
        old(d).del is None && i < i_ && j == j_ ==> final(d).del == Some(
            (i, (i_ - i) as usize, j),
        ) && final(d).ins == old(d).ins && final(d).d.deletion@ == old(d).d.deletion@ && final(d).d.insertion@ == old(d).d.insertion@ && final(d).d.replaced@ == old(d).d.replaced@,
        old(d).ins is None && i == i_ && j < j_ ==> final(d).ins == Some(
            (i, j, (j_ - j) as usize),
        ) && final(d).del == old(d).del && final(d).d.deletion@ == old(d).d.deletion@ && final(d).d.insertion@ == old(d).d.insertion@ && final(d).d.replaced@ == old(d).d.replaced@,
        i == i_ && j == j_ ==> *final(d) == *old(d),
    decreases fuel, 1int,
{
    if fuel == 0 {
        // A safety net that no run of the search reaches: classify the
        // whole span at once rather than recurse without bound.
        if i_ > i && j_ > j {
            d.replace(i, i_ - i, j, j_ - j);
        } else if i_ > i {
            d.delete(i, i_ - i, j);
        } else if j_ > j {
            d.insert(i, j, j_ - j);
        }
        return ;
    }
    if i_ > i && j_ > j {
        let n = i_ - i;
        let m = j_ - j;
        let l: i64 = (n + m) as i64;
        let z: usize = 2 * (if n < m {
            n
        } else {
            m
        }) + 2;
        let mut g: Vec<i64> = Vec::new();
        let mut p: Vec<i64> = Vec::new();
        while g.len() < z
            invariant
                g@.len() <= z,
                forall|q: int| 0 <= q < g@.len() ==> 0 <= #[trigger] g@[q] <= FRONT_BOUND,
            decreases z - g@.len(),
        {
            g.push(0);
        }
        while p.len() < z
            invariant
                p@.len() <= z,
                forall|q: int| 0 <= q < p@.len() ==> 0 <= #[trigger] p@[q] <= FRONT_BOUND,
            decreases z - p@.len(),
        {
            p.push(0);
        }
        let hmax: i64 = l / 2 + l % 2;
        let mut h: i64 = 0;
        let mut split: Option<(i64, i64, i64, i64, i64, bool)> = None;
        while h <= hmax && split.is_none()
            invariant
                0 <= h <= hmax + 1,
                hmax <= l,
                g@.len() == z,
                p@.len() == z,
                forall|q: int| 0 <= q < z ==> 0 <= #[trigger] g@[q] <= FRONT_BOUND,
                forall|q: int| 0 <= q < z ==> 0 <= #[trigger] p@[q] <= FRONT_BOUND,
                split matches Some((x, y, u, v, hh, fw)) ==> 0 <= hh <= 2 * ARR_LIMIT as i64
                    + 2,
            decreases hmax - h + 1, (if split is None {
                1int
            } else {
                0int
            }),
        {
            let found = search_pass(e, i, i_, f, j, j_, h, true, &mut g, &p);
            if let Some((x, y, u, v)) = found {
                split = Some((x, y, u, v, h, true));
            } else {
                let found = search_pass(e, i, i_, f, j, j_, h, false, &mut p, &g);
                if let Some((x, y, u, v)) = found {
                    split = Some((x, y, u, v, h, false));
                } else {
                    h = h + 1;
                }
            }
        }
        if let Some((x, y, u, v, hh, fw)) = split {
            emit_split(d, e, i, i_, f, j, j_, x, y, u, v, hh, fw, fuel);
        } else {
            // The fronts always meet by the last step, so this is never
            // reached; rather than return silently, classify the whole
            // span at once.
            d.replace(i, n, j, m);
        }
    } else if i_ > i {
        d.delete(i, i_ - i, j);
    } else if j_ > j {
        d.insert(i, j, j_ - j);
    }
}

/// Emits the runs around a found middle snake and recurses into the spans
/// before and after it, after checking that the snake's coordinates are
/// sane; an insane snake, which no run of the search produces, classifies
/// the whole span at once.
fn emit_split(
    d: &mut Replace,
    e: &Vec<JsonVal>,
    i: usize,
    i_: usize,
    f: &Vec<JsonVal>,
    j: usize,
    j_: usize,
    x: i64,
    y: i64,
    u: i64,
    v: i64,
    h: i64,
    forward: bool,
    fuel: usize,
)
    requires
        fuel >= 1,
        i < i_ <= e@.len(),
        j < j_ <= f@.len(),
        e@.len() <= ARR_LIMIT,
        f@.len() <= ARR_LIMIT,
        0 <= h <= 2 * ARR_LIMIT as i64 + 2,
    ensures
        state_within(*old(d), e@.len() as nat, f@.len() as nat) ==> state_within(
            *final(d),
            e@.len() as nat,
            f@.len() as nat,
        ),
    decreases fuel, 0int,
{
    let n = i_ - i;
    let m = j_ - j;
    let sane = 0 <= x && x <= u && u <= n as i64 && 0 <= y && y <= v && v <= m as i64 && u - x == v
        - y;
    if !sane {
        d.replace(i, n, j, m);
        return ;
    }
    let xs = x as usize;
    let ys = y as usize;
    let us = u as usize;
    let vs = v as usize;
    let bound: i64 = if forward {
        h - 1
    } else {
        h
    };
    if h + bound > 1 || (xs != us && ys != vs) {
        diff_offsets(d, e, i, i + xs, f, j, j + ys, fuel - 1);
        if xs != us {
            d.equal(i + xs, j + ys, us - xs);
        }
        diff_offsets(d, e, i + us, i_, f, j + vs, j_, fuel - 1);
    } else if m > n {
        d.equal(i, j, n);
        d.insert(i + n, j + n, m - n);
    } else if m < n {
        d.equal(i, j, m);
        d.delete(i + m, n - m, j + m);
    }
}

/// One search front sweep at edit distance `h`, forward or backward;
/// returns the middle snake's coordinates when the two fronts meet.
#[verifier::loop_isolation(false)]
#[verifier::rlimit(100)]
fn search_pass(
    e: &Vec<JsonVal>,
    i: usize,
    i_: usize,
    f: &Vec<JsonVal>,
    j: usize,
    j_: usize,
    h: i64,
    forward: bool,
    c: &mut Vec<i64>,
    dv: &Vec<i64>,
) -> (found: Option<(i64, i64, i64, i64)>)
    requires
        i < i_ <= e@.len(),
        j < j_ <= f@.len(),
        e@.len() <= ARR_LIMIT,
        f@.len() <= ARR_LIMIT,
        0 <= h <= 2 * ARR_LIMIT as i64 + 1,
        old(c)@.len() == 2 * (if i_ - i < j_ - j {
            i_ - i
        } else {
            j_ - j
        }) + 2,
        dv@.len() == old(c)@.len(),
        forall|q: int| 0 <= q < old(c)@.len() ==> 0 <= #[trigger] old(c)@[q] <= FRONT_BOUND,
        forall|q: int| 0 <= q < dv@.len() ==> 0 <= #[trigger] dv@[q] <= FRONT_BOUND,
    ensures
        final(c)@.len() == old(c)@.len(),
        forall|q: int| 0 <= q < final(c)@.len() ==> 0 <= #[trigger] final(c)@[q] <= FRONT_BOUND,
{
    let n = i_ - i;
    let m = j_ - j;
    let ni = n as i64;
    let mi = m as i64;
    let li: i64 = ni + mi;
    let z = c.len();
    let w: i64 = ni - mi;
    let k0: i64 = -(h - 2 * (if h - mi > 0 {
        h - mi
    } else {
        0
    }));
    let k1: i64 = h - 2 * (if h - ni > 0 {
        h - ni
    } else {
        0
    }) + 1;
    let mut k: i64 = k0;
    while k < k1
        invariant
            c@.len() == z,
            0 < z <= 0x8000_0002,
            forall|q: int| 0 <= q < z ==> 0 <= #[trigger] c@[q] <= FRONT_BOUND,
            -(2 * ARR_LIMIT as i64 + 2) <= k <= 2 * ARR_LIMIT as i64 + 3,
        decreases k1 + 2 - k,
    {
        let idx_prev = modulo(k - 1, z);
        let idx_next = modulo(k + 1, z);
        let mut a: i64 = if k == -h || (k != h && c[idx_prev] < c[idx_next]) {
            c[idx_next]
        } else {
            c[idx_prev] + 1
        };
        let mut b: i64 = a - k;
        let s = a;
        let t = b;
        loop
            invariant
                b == a - k,
                0 <= a <= FRONT_BOUND + 1,
                c@.len() == z,
                forall|q: int| 0 <= q < z ==> 0 <= #[trigger] c@[q] <= FRONT_BOUND,
            decreases FRONT_BOUND + 2 - a,
        {
            if !(a < ni && b < mi && 0 <= b) {
                break ;
            }
            let e_i: usize = if forward {
                a as usize
            } else {
                n - (a as usize) - 1
            };
            let f_i: usize = if forward {
                b as usize
            } else {
                m - (b as usize) - 1
            };
            if !deep_eq(&e[i + e_i], &f[j + f_i]) {
                break ;
            }
            a = a + 1;
            b = b + 1;
        }
        let idx_k = modulo(k, z);
        let stored = if a > FRONT_BOUND {
            FRONT_BOUND
        } else if a < 0 {
            0
        } else {
            a
        };
        c.set(idx_k, stored);
        let bound: i64 = if forward {
            h - 1
        } else {
            h
        };
        if ((li % 2 == 1) == forward) && w - k >= -bound && w - k <= bound {
            let idx_w = modulo(w - k, z);
            if c[idx_k] + dv[idx_w] >= ni {
                if forward {
                    return Some((s, t, a, b));
                } else {
                    return Some((ni - a, mi - b, ni - s, mi - t));
                }
            }
        }
        k = k + 2;
    }
    None
}

} // verus!
