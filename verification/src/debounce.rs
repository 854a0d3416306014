//! The debounce buffer: at most one pending entry per distinct path,
//! overwritten by each new raw event (last write wins) and drained once
//! a path has been quiet for the tolerance window.

use vstd::prelude::*;
use vstd::pervasive::VecAdditionalExecFns;
use crate::paths::PathRep;
use crate::paths::path_copy;
use crate::paths::path_eq;

verus! {

/// How long a path must stay quiet before its pending entry is
/// emitted, in milliseconds.
pub const TOLERANCE_MILLIS: i64 = 100;

/// The kind of filesystem change last seen for a path.
#[derive(Clone, Copy, Debug, PartialEq, Eq, Structural)]
pub enum EventKind {
    Create,
    Modify,
    Remove,
    Access,
    Other,
}

/// One pending emission: a path, with the time and kind of the change
/// seen last.
pub struct PendingEvent {
    pub path: PathRep,
    pub millis: i64,
    pub kind: EventKind,
}

/// Whether an entry seen at `t` has been quiet long enough by `now`.
pub open spec fn is_expired(t: i64, now: i64, tol: i64) -> bool {
    now - t >= tol
}

/// Some entry in `s` is for path `p`.
pub open spec fn contains_path(s: Seq<PendingEvent>, p: Seq<Seq<u8>>) -> bool {
    exists|i: int| 0 <= i < s.len() && (#[trigger] s[i]).path@ == p
}

/// The time and kind held for path `p` (meaningful when the paths of
/// `s` are distinct and one of them is `p`).
pub open spec fn value_for(s: Seq<PendingEvent>, p: Seq<Seq<u8>>) -> (i64, EventKind) {
    let i = choose|i: int| 0 <= i < s.len() && (#[trigger] s[i]).path@ == p;
    (s[i].millis, s[i].kind)
}

/// No two entries are for the same path.
pub open spec fn distinct_paths(s: Seq<PendingEvent>) -> bool {
    forall|i: int, j: int|
        0 <= i < j < s.len() ==> (#[trigger] s[i]).path@ != (#[trigger] s[j]).path@
}

/// The mapping from pending path to its last-seen time and kind.
pub open spec fn entries_map(s: Seq<PendingEvent>) -> Map<Seq<Seq<u8>>, (i64, EventKind)> {
    Map::new(|p: Seq<Seq<u8>>| contains_path(s, p), |p: Seq<Seq<u8>>| value_for(s, p))
}

/// With distinct paths, the entry at `i` is what the map holds for its
/// path.
pub proof fn lemma_value_at(s: Seq<PendingEvent>, i: int)
    requires
        distinct_paths(s),
        0 <= i < s.len(),
    ensures
        entries_map(s).dom().contains(s[i].path@),
        entries_map(s)[s[i].path@] == (s[i].millis, s[i].kind),
{
    let p = s[i].path@;
    assert(contains_path(s, p));
    let j = choose|j: int| 0 <= j < s.len() && (#[trigger] s[j]).path@ == p;
    if i != j {
        assert(false);
    }
}

/// The debounce buffer, mutated by the event filter and drained by the
/// periodic flusher. It never holds two entries for one path.
pub struct DebounceStore {
    pub entries: Vec<PendingEvent>,
}

impl View for DebounceStore {
    type V = Map<Seq<Seq<u8>>, (i64, EventKind)>;

    open spec fn view(&self) -> Map<Seq<Seq<u8>>, (i64, EventKind)> {
        entries_map(self.entries@)
    }
}

impl DebounceStore {
    /// The store's invariant: one entry per path.
    pub open spec fn wf(&self) -> bool {
        distinct_paths(self.entries@)
    }

    /// The empty store.
    pub fn new() -> (r: DebounceStore)
        ensures
            r.wf(),
            r@ == Map::<Seq<Seq<u8>>, (i64, EventKind)>::empty(),
    {
        let r = DebounceStore { entries: Vec::new() };
        proof {
            assert(r@ =~= Map::<Seq<Seq<u8>>, (i64, EventKind)>::empty());
        }
        r
    }

    /// How many paths are pending.
    pub fn len(&self) -> (r: usize)
        requires
            self.wf(),
        ensures
            r == self.entries@.len(),
    {
        self.entries.len()
    }

    /// Notes a raw event: the entry for the path, if any, is
    /// overwritten with the new time and kind, so a rapid burst
    /// collapses to its latest state.
    pub fn record(&mut self, path: &PathRep, kind: EventKind, now: i64)
        requires
            old(self).wf(),
        ensures
            final(self).wf(),
            final(self)@ == old(self)@.insert(path@, (now, kind)),
    {
        let ghost s0 = self.entries@;
        let ghost p = path@;
        let entry = PendingEvent { path: path_copy(path), millis: now, kind };
        proof {
            assert(entry.path@ == p);
        }
        let mut i: usize = 0;
        while i < self.entries.len()
            invariant
                s0 == old(self).entries@,
                p == path@,
                self.entries@ == s0,
                distinct_paths(s0),
                entry.path@ == p,
                entry.millis == now,
                entry.kind == kind,
                0 <= i <= s0.len(),
                forall|k: int| 0 <= k < i ==> (#[trigger] s0[k]).path@ != p,
            decreases s0.len() - i,
        {
            if path_eq(&self.entries[i].path, &entry.path) {
                proof {
                    assert(s0[i as int].path@ == p);
                }
                self.entries.set(i, entry);
                proof {
                    assert(self.entries@[i as int].path@ == p);
                    lemma_record_update(s0, self.entries@, i as int, now, kind);
                    assert(entries_map(self.entries@) == entries_map(s0).insert(p, (now, kind)));
                }
                return ;
            }
            i = i + 1;
        }
        self.entries.push(entry);
        proof {
            lemma_record_push(s0, self.entries@, now, kind);
        }
    }
}

/// The store once every entry quiet since before `now - tol` is
/// removed: the non-expired part of `m`, unchanged.
pub open spec fn sweep_map(m: Map<Seq<Seq<u8>>, (i64, EventKind)>, now: i64, tol: i64) -> Map<
    Seq<Seq<u8>>,
    (i64, EventKind),
> {
    Map::new(
        |p: Seq<Seq<u8>>| m.dom().contains(p) && !is_expired(m[p].0, now, tol),
        |p: Seq<Seq<u8>>| m[p],
    )
}

/// Whether `now - t >= tol`, computed without overflow.
fn age_expired(t: i64, now: i64, tol: i64) -> (r: bool)
    ensures
        r == is_expired(t, now, tol),
{
    let d: i128 = now as i128 - t as i128;
    d >= tol as i128
}

/// Removing the entry at `i` removes the map entry for exactly its
/// path.
proof fn lemma_remove_at(s: Seq<PendingEvent>, i: int)
    requires
        distinct_paths(s),
        0 <= i < s.len(),
    ensures
        distinct_paths(s.remove(i)),
        entries_map(s.remove(i)) == entries_map(s).remove(s[i].path@),
{
    let t = s.remove(i);
    let p = s[i].path@;
    assert forall|a: int, b: int| 0 <= a < b < t.len() implies (#[trigger] t[a]).path@ != (
    #[trigger] t[b]).path@ by {
        let a0: int = if a < i { a } else { a + 1 };
        let b0: int = if b < i { b } else { b + 1 };
        assert(t[a] == s[a0] && t[b] == s[b0]);
    }
    let m = entries_map(s);
    assert forall|q: Seq<Seq<u8>>| entries_map(t).dom().contains(q) implies m.remove(p).dom()
        .contains(q) && entries_map(t)[q] == m.remove(p)[q] by {
        let k = choose|k: int| 0 <= k < t.len() && (#[trigger] t[k]).path@ == q;
        lemma_value_at(t, k);
        let k0: int = if k < i { k } else { k + 1 };
        assert(t[k] == s[k0]);
        lemma_value_at(s, k0);
        assert(k0 != i);
        assert(q != p);
    }
    assert forall|q: Seq<Seq<u8>>| m.remove(p).dom().contains(q) implies entries_map(t).dom()
        .contains(q) by {
        let k0 = choose|k0: int| 0 <= k0 < s.len() && (#[trigger] s[k0]).path@ == q;
        assert(k0 != i);
        let k: int = if k0 < i { k0 } else { k0 - 1 };
        assert(t[k] == s[k0]);
    }
    assert(entries_map(t) =~= m.remove(p));
}

impl DebounceStore {
    /// The index of some entry quiet for the tolerance window, if any.
    fn find_expired(&self, now: i64, tolerance: i64) -> (r: Option<usize>)
        ensures
            (r matches Some(i) ==> i < self.entries@.len() && is_expired(
                self.entries@[i as int].millis,
                now,
                tolerance,
            )),
            r is None ==> forall|j: int|
                0 <= j < self.entries@.len() ==> !is_expired(
                    (#[trigger] self.entries@[j]).millis,
                    now,
                    tolerance,
                ),
    {
        let mut i: usize = 0;
        while i < self.entries.len()
            invariant
                0 <= i <= self.entries@.len(),
                forall|j: int|
                    0 <= j < i ==> !is_expired(
                        (#[trigger] self.entries@[j]).millis,
                        now,
                        tolerance,
                    ),
            decreases self.entries@.len() - i,
        {
            if age_expired(self.entries[i].millis, now, tolerance) {
                return Some(i);
            }
            i = i + 1;
        }
        None
    }

    /// Removes every entry that has been quiet for the tolerance
    /// window and hands back its path and last kind, each expired path
    /// exactly once, in no promised order; quieter entries stay
    /// untouched.
    pub fn drain_expired(&mut self, now: i64, tolerance: i64) -> (out: Vec<(PathRep, EventKind)>)
        requires
            old(self).wf(),
        ensures
            final(self).wf(),
            final(self)@ == sweep_map(old(self)@, now, tolerance),
            forall|k: int|
                0 <= k < out@.len() ==> old(self)@.dom().contains((#[trigger] out@[k]).0@)
                    && is_expired(old(self)@[out@[k].0@].0, now, tolerance) && out@[k].1 == old(
                    self,
                )@[out@[k].0@].1,
            forall|q: Seq<Seq<u8>>|
                #[trigger] old(self)@.dom().contains(q) && is_expired(
                    old(self)@[q].0,
                    now,
                    tolerance,
                ) ==> exists|k: int| 0 <= k < out@.len() && (#[trigger] out@[k]).0@ == q,
            forall|j: int, k: int|
                0 <= j < k < out@.len() ==> (#[trigger] out@[j]).0@ != (#[trigger] out@[k]).0@,
    {
        let ghost m0 = entries_map(old(self).entries@);
        let ghost mut cur = m0;
        let mut out: Vec<(PathRep, EventKind)> = Vec::new();
        loop
            invariant
                m0 == old(self)@,
                self.wf(),
                cur == self@,
                forall|q: Seq<Seq<u8>>|
                    #[trigger] cur.dom().contains(q) ==> m0.dom().contains(q) && cur[q] == m0[q],
                forall|k: int|
                    0 <= k < out@.len() ==> m0.dom().contains((#[trigger] out@[k]).0@)
                        && is_expired(m0[out@[k].0@].0, now, tolerance) && out@[k].1
                        == m0[out@[k].0@].1 && !cur.dom().contains(out@[k].0@),
                forall|q: Seq<Seq<u8>>|
                    #[trigger] m0.dom().contains(q) ==> cur.dom().contains(q) || exists|k: int|
                        0 <= k < out@.len() && (#[trigger] out@[k]).0@ == q,
                forall|j: int, k: int|
                    0 <= j < k < out@.len() ==> (#[trigger] out@[j]).0@ != (#[trigger] out@[k]).0@,
            ensures
                m0 == old(self)@,
                self.wf(),
                cur == self@,
                forall|q: Seq<Seq<u8>>|
                    #[trigger] cur.dom().contains(q) ==> m0.dom().contains(q) && cur[q] == m0[q],
                forall|k: int|
                    0 <= k < out@.len() ==> m0.dom().contains((#[trigger] out@[k]).0@)
                        && is_expired(m0[out@[k].0@].0, now, tolerance) && out@[k].1
                        == m0[out@[k].0@].1 && !cur.dom().contains(out@[k].0@),
                forall|q: Seq<Seq<u8>>|
                    #[trigger] m0.dom().contains(q) ==> cur.dom().contains(q) || exists|k: int|
                        0 <= k < out@.len() && (#[trigger] out@[k]).0@ == q,
                forall|j: int, k: int|
                    0 <= j < k < out@.len() ==> (#[trigger] out@[j]).0@ != (#[trigger] out@[k]).0@,
                forall|j: int|
                    0 <= j < self.entries@.len() ==> !is_expired(
                        (#[trigger] self.entries@[j]).millis,
                        now,
                        tolerance,
                    ),
            decreases self.entries@.len(),
        {
            let i = match self.find_expired(now, tolerance) {
                None => { break },
                Some(i) => i,
            };
            let ghost s = self.entries@;
            let ghost cur0 = cur;
            let e = self.entries.remove(i);
            let ghost ev = e;
            proof {
                assert(ev == s[i as int]);
                lemma_remove_at(s, i as int);
                lemma_value_at(s, i as int);
                assert(cur0.dom().contains(ev.path@) && cur0[ev.path@] == (ev.millis, ev.kind));
                cur = cur0.remove(ev.path@);
                assert(cur == self@);
            }
            let pair = (e.path, e.kind);
            proof {
                assert(pair.0 == ev.path && pair.1 == ev.kind);
            }
            let ghost out_pre = out@;
            out.push(pair);
            proof {
                assert(out@ == out_pre.push((ev.path, ev.kind)));
                assert forall|k: int| 0 <= k < out@.len() implies m0.dom().contains(
                    (#[trigger] out@[k]).0@,
                ) && is_expired(m0[out@[k].0@].0, now, tolerance) && out@[k].1 == m0[out@[k].0@].1
                    && !cur.dom().contains(out@[k].0@) by {
                    if k < out@.len() - 1 {
                        assert(out@[k] == out_pre[k]);
                    } else {
                        assert(out@[k].0@ == ev.path@ && out@[k].1 == ev.kind);
                        assert(m0.dom().contains(ev.path@) && m0[ev.path@] == (
                            ev.millis,
                            ev.kind,
                        ));
                        assert(is_expired(ev.millis, now, tolerance));
                    }
                }
                assert forall|q: Seq<Seq<u8>>| #[trigger] m0.dom().contains(q) implies cur.dom()
                    .contains(q) || exists|k: int|
                    0 <= k < out@.len() && (#[trigger] out@[k]).0@ == q by {
                    if q == ev.path@ {
                        assert(out@[out@.len() - 1].0@ == q);
                    } else if !cur.dom().contains(q) {
                        assert(!cur0.dom().contains(q));
                        let k = choose|k: int|
                            0 <= k < out_pre.len() && (#[trigger] out_pre[k]).0@ == q;
                        assert(out@[k].0@ == q);
                    }
                }
            }
        }
        proof {
            let mf = cur;
            assert forall|q: Seq<Seq<u8>>| mf.dom().contains(q) implies sweep_map(
                m0,
                now,
                tolerance,
            ).dom().contains(q) && mf[q] == sweep_map(m0, now, tolerance)[q] by {
                let k = choose|k: int|
                    0 <= k < self.entries@.len() && (#[trigger] self.entries@[k]).path@ == q;
                lemma_value_at(self.entries@, k);
                assert(!is_expired(self.entries@[k].millis, now, tolerance));
            }
            assert forall|q: Seq<Seq<u8>>| sweep_map(m0, now, tolerance).dom().contains(
                q,
            ) implies mf.dom().contains(q) by {
                if !mf.dom().contains(q) {
                    let k = choose|k: int| 0 <= k < out@.len() && (#[trigger] out@[k]).0@ == q;
                    assert(is_expired(m0[q].0, now, tolerance));
                }
            }
            assert(mf =~= sweep_map(m0, now, tolerance));
            assert forall|q: Seq<Seq<u8>>|
                #[trigger] m0.dom().contains(q) && is_expired(m0[q].0, now, tolerance) implies exists|
                k: int,
            | 0 <= k < out@.len() && (#[trigger] out@[k]).0@ == q by {
                assert(!mf.dom().contains(q));
            }
        }
        out
    }
}

/// Replacing the entry at `i` with a same-path entry updates the map
/// at exactly that path.
proof fn lemma_record_update(s0: Seq<PendingEvent>, s1: Seq<PendingEvent>, i: int, now: i64, kind: EventKind)
    requires
        distinct_paths(s0),
        0 <= i < s0.len(),
        s1 == s0.update(i, PendingEvent { path: s1[i].path, millis: now, kind }),
        s1[i].path@ == s0[i].path@,
        s1[i].millis == now,
        s1[i].kind == kind,
    ensures
        distinct_paths(s1),
        entries_map(s1) == entries_map(s0).insert(s0[i].path@, (now, kind)),
{
    let p = s0[i].path@;
    assert forall|a: int, b: int| 0 <= a < b < s1.len() implies (#[trigger] s1[a]).path@ != (
    #[trigger] s1[b]).path@ by {
        assert(s1[a].path@ == s0[a].path@);
        assert(s1[b].path@ == s0[b].path@);
    }
    let m0 = entries_map(s0);
    let m1 = entries_map(s1);
    assert forall|q: Seq<Seq<u8>>| m1.dom().contains(q) implies m0.insert(p, (now, kind)).dom()
        .contains(q) by {
        let k = choose|k: int| 0 <= k < s1.len() && (#[trigger] s1[k]).path@ == q;
        assert(s0[k].path@ == q);
    }
    assert forall|q: Seq<Seq<u8>>| m0.insert(p, (now, kind)).dom().contains(q) implies m1.dom()
        .contains(q) by {
        if q == p {
            assert(s1[i].path@ == q);
        } else {
            let k = choose|k: int| 0 <= k < s0.len() && (#[trigger] s0[k]).path@ == q;
            assert(s1[k].path@ == q);
        }
    }
    assert forall|q: Seq<Seq<u8>>| m1.dom().contains(q) implies m1[q] == m0.insert(
        p,
        (now, kind),
    )[q] by {
        let k = choose|k: int| 0 <= k < s1.len() && (#[trigger] s1[k]).path@ == q;
        lemma_value_at(s1, k);
        if q == p {
            if k != i {
                assert(s0[k].path@ == s0[i].path@);
                assert(false);
            }
        } else {
            assert(s0[k].path@ == q);
            lemma_value_at(s0, k);
            assert(k != i);
            assert(s1[k] == s0[k]);
        }
    }
    assert(m1 =~= m0.insert(p, (now, kind)));
}

/// Appending an entry for a fresh path inserts exactly that path.
proof fn lemma_record_push(s0: Seq<PendingEvent>, s1: Seq<PendingEvent>, now: i64, kind: EventKind)
    requires
        distinct_paths(s0),
        s1.len() == s0.len() + 1,
        s1 == s0.push(s1.last()),
        s1.last().millis == now,
        s1.last().kind == kind,
        !contains_path(s0, s1.last().path@),
    ensures
        distinct_paths(s1),
        entries_map(s1) == entries_map(s0).insert(s1.last().path@, (now, kind)),
{
    let p = s1.last().path@;
    assert forall|a: int, b: int| 0 <= a < b < s1.len() implies (#[trigger] s1[a]).path@ != (
    #[trigger] s1[b]).path@ by {
        if b < s1.len() - 1 {
            assert(s1[a] == s0[a] && s1[b] == s0[b]);
        } else {
            assert(s1[a] == s0[a]);
            assert(s1[b].path@ == p);
        }
    }
    let m0 = entries_map(s0);
    let m1 = entries_map(s1);
    assert forall|q: Seq<Seq<u8>>| m1.dom().contains(q) implies m0.insert(p, (now, kind)).dom()
        .contains(q) by {
        let k = choose|k: int| 0 <= k < s1.len() && (#[trigger] s1[k]).path@ == q;
        if k < s0.len() {
            assert(s0[k].path@ == q);
        }
    }
    assert forall|q: Seq<Seq<u8>>| m0.insert(p, (now, kind)).dom().contains(q) implies m1.dom()
        .contains(q) by {
        if q == p {
            assert(s1[s1.len() - 1].path@ == q);
        } else {
            let k = choose|k: int| 0 <= k < s0.len() && (#[trigger] s0[k]).path@ == q;
            assert(s1[k].path@ == q);
        }
    }
    assert forall|q: Seq<Seq<u8>>| m1.dom().contains(q) implies m1[q] == m0.insert(
        p,
        (now, kind),
    )[q] by {
        let k = choose|k: int| 0 <= k < s1.len() && (#[trigger] s1[k]).path@ == q;
        lemma_value_at(s1, k);
        if q == p {
            if k != s1.len() - 1 {
                assert(s0[k].path@ == p);
                assert(false);
            }
        } else {
            assert(k < s0.len());
            assert(s0[k].path@ == q);
            lemma_value_at(s0, k);
        }
    }
    assert(m1 =~= m0.insert(p, (now, kind)));
}


/// One operation on a single path's pending state: a raw event noted
/// at a time, or a flusher sweep at a time.
#[derive(Clone, Copy, Debug, PartialEq, Eq, Structural)]
pub enum DebOp {
    Record(i64, EventKind),
    Sweep(i64),
}

/// The time an operation happens at.
pub open spec fn op_time(op: DebOp) -> i64 {
    match op {
        DebOp::Record(t, _) => t,
        DebOp::Sweep(t) => t,
    }
}

/// One path's pending state after an operation. A record overwrites
/// the state (`DebounceStore::record` inserts at the path); a sweep
/// clears it exactly when it has expired (`drain_expired` keeps a path
/// if and only if it is not expired).
pub open spec fn step_state(st: Option<(i64, EventKind)>, op: DebOp, tol: i64) -> Option<
    (i64, EventKind),
> {
    match op {
        DebOp::Record(t, k) => Some((t, k)),
        DebOp::Sweep(t) => match st {
            Some((u, _)) => if is_expired(u, t, tol) {
                None
            } else {
                st
            },
            None => None,
        },
    }
}

/// What one operation emits for the path: a sweep emits the pending
/// kind exactly when the entry has expired, as `drain_expired` does.
pub open spec fn step_emits(st: Option<(i64, EventKind)>, op: DebOp, tol: i64) -> Seq<EventKind> {
    match op {
        DebOp::Record(_, _) => Seq::empty(),
        DebOp::Sweep(t) => match st {
            Some((u, k)) => if is_expired(u, t, tol) {
                seq![k]
            } else {
                Seq::empty()
            },
            None => Seq::empty(),
        },
    }
}

/// The pending state after a whole sequence of operations.
pub open spec fn run_state(st0: Option<(i64, EventKind)>, ops: Seq<DebOp>, tol: i64) -> Option<
    (i64, EventKind),
>
    decreases ops.len(),
{
    if ops.len() == 0 {
        st0
    } else {
        step_state(run_state(st0, ops.drop_last(), tol), ops.last(), tol)
    }
}

/// Everything a sequence of operations emits for the path, in order.
pub open spec fn run_emits(st0: Option<(i64, EventKind)>, ops: Seq<DebOp>, tol: i64) -> Seq<
    EventKind,
>
    decreases ops.len(),
{
    if ops.len() == 0 {
        Seq::empty()
    } else {
        run_emits(st0, ops.drop_last(), tol) + step_emits(
            run_state(st0, ops.drop_last(), tol),
            ops.last(),
            tol,
        )
    }
}

/// The pending entry for one path, read out of the store's map.
pub open spec fn lookup(m: Map<Seq<Seq<u8>>, (i64, EventKind)>, p: Seq<Seq<u8>>) -> Option<
    (i64, EventKind),
> {
    if m.dom().contains(p) {
        Some(m[p])
    } else {
        None
    }
}

/// What `record` and `drain_expired` promise of the whole map acts on
/// each single path exactly as the model's step functions do.
pub proof fn lemma_store_ops_follow_model(
    m: Map<Seq<Seq<u8>>, (i64, EventKind)>,
    p: Seq<Seq<u8>>,
    q: Seq<Seq<u8>>,
    t: i64,
    k: EventKind,
    now: i64,
    tol: i64,
)
    ensures
        lookup(m.insert(p, (t, k)), p) == step_state(lookup(m, p), DebOp::Record(t, k), tol),
        p != q ==> lookup(m.insert(p, (t, k)), q) == lookup(m, q),
        lookup(sweep_map(m, now, tol), q) == step_state(lookup(m, q), DebOp::Sweep(now), tol),
{
}

/// A sweep that reaches a path still inside its tolerance window
/// emits nothing for it and leaves its pending entry as it was.
pub proof fn lemma_early_sweep_is_silent(st: Option<(i64, EventKind)>, at: i64, tol: i64)
    requires
        st matches Some(e) && !is_expired(e.0, at, tol),
    ensures
        step_state(st, DebOp::Sweep(at), tol) == st,
        step_emits(st, DebOp::Sweep(at), tol) == Seq::<EventKind>::empty(),
{
}

/// Records alone never emit: they only overwrite the pending state
/// with the latest time and kind.
proof fn lemma_records_coalesce(st0: Option<(i64, EventKind)>, recs: Seq<DebOp>, tol: i64)
    requires
        recs.len() > 0,
        forall|i: int| 0 <= i < recs.len() ==> (#[trigger] recs[i]) is Record,
    ensures
        run_state(st0, recs, tol) == Some(
            (op_time(recs.last()), recs.last()->Record_1),
        ),
        run_emits(st0, recs, tol) == Seq::<EventKind>::empty(),
    decreases recs.len(),
{
    if recs.len() > 1 {
        lemma_records_coalesce(st0, recs.drop_last(), tol);
    } else {
        assert(recs.drop_last().len() == 0);
        assert(run_emits(st0, recs.drop_last(), tol) == Seq::<EventKind>::empty());
        assert(run_state(st0, recs.drop_last(), tol) == st0);
    }
    assert(run_emits(st0, recs, tol) =~= Seq::<EventKind>::empty());
}

/// A burst of raw events on one path, however many and whatever their
/// kinds, followed by a sweep once the path has been quiet for the
/// tolerance window, yields exactly one emission, and it carries the
/// last event's kind.
pub proof fn lemma_burst_single_emission(recs: Seq<DebOp>, sweep_at: i64, tol: i64)
    requires
        recs.len() > 0,
        forall|i: int| 0 <= i < recs.len() ==> (#[trigger] recs[i]) is Record,
        is_expired(op_time(recs.last()), sweep_at, tol),
    ensures
        run_emits(None, recs.push(DebOp::Sweep(sweep_at)), tol) == seq![recs.last()->Record_1],
        run_state(None, recs.push(DebOp::Sweep(sweep_at)), tol) is None,
{
    let ops = recs.push(DebOp::Sweep(sweep_at));
    assert(ops.drop_last() =~= recs);
    lemma_records_coalesce(None, recs, tol);
    assert(run_emits(None, ops, tol) =~= seq![recs.last()->Record_1]);
}

/// Events on one path spaced so that each is followed by a sweep
/// after its own quiet window yield one emission each: the sequence
/// of emitted kinds is exactly the sequence of recorded kinds.
pub proof fn lemma_spaced_all_emitted(pairs: Seq<(i64, EventKind, i64)>, tol: i64)
    requires
        forall|i: int|
            0 <= i < pairs.len() ==> is_expired(
                (#[trigger] pairs[i]).0,
                pairs[i].2,
                tol,
            ),
    ensures
        run_emits(None, spaced_ops(pairs), tol) == pairs.map_values(
            |e: (i64, EventKind, i64)| e.1,
        ),
        run_state(None, spaced_ops(pairs), tol) is None,
    decreases pairs.len(),
{
    let ops = spaced_ops(pairs);
    if pairs.len() == 0 {
        assert(run_emits(None, ops, tol) =~= pairs.map_values(|e: (i64, EventKind, i64)| e.1));
    } else {
        let prev = pairs.drop_last();
        lemma_spaced_all_emitted(prev, tol);
        let last = pairs.last();
        assert(ops =~= spaced_ops(prev).push(DebOp::Record(last.0, last.1)).push(
            DebOp::Sweep(last.2),
        ));
        let mid = spaced_ops(prev).push(DebOp::Record(last.0, last.1));
        assert(ops.drop_last() =~= mid);
        assert(mid.drop_last() =~= spaced_ops(prev));
        assert(run_state(None, mid, tol) == Some((last.0, last.1)));
        assert(run_emits(None, mid, tol) =~= run_emits(None, spaced_ops(prev), tol));
        assert(run_emits(None, ops, tol) =~= pairs.map_values(|e: (i64, EventKind, i64)| e.1));
    }
}

/// The operations of a spaced series: each event recorded at its
/// time, then swept at its sweep time.
pub open spec fn spaced_ops(pairs: Seq<(i64, EventKind, i64)>) -> Seq<DebOp>
    decreases pairs.len(),
{
    if pairs.len() == 0 {
        Seq::empty()
    } else {
        spaced_ops(pairs.drop_last()).push(DebOp::Record(pairs.last().0, pairs.last().1)).push(
            DebOp::Sweep(pairs.last().2),
        )
    }
}


/// Through the burst (all operations before the last record), nothing
/// is emitted, and any pending entry was recorded inside the window.
proof fn lemma_burst_phase1(ops: Seq<DebOp>, t0: i64, li: int, tol: i64, n: int)
    requires
        tol > 0,
        0 <= li < ops.len(),
        ops[li] is Record,
        forall|i: int, j: int|
            0 <= i < j < ops.len() ==> op_time(#[trigger] ops[i]) <= op_time(#[trigger] ops[j]),
        forall|i: int|
            0 <= i < ops.len() && (#[trigger] ops[i]) is Record ==> t0 <= op_time(ops[i]) < t0
                + tol,
        0 <= n <= li,
    ensures
        run_emits(None, ops.take(n), tol) == Seq::<EventKind>::empty(),
        run_state(None, ops.take(n), tol) is None || (run_state(None, ops.take(n), tol) matches Some(
            p,
        ) && t0 <= p.0 < t0 + tol),
    decreases n,
{
    if n == 0 {
        assert(ops.take(0).len() == 0);
    } else {
        lemma_burst_phase1(ops, t0, li, tol, n - 1);
        assert(ops.take(n).drop_last() =~= ops.take(n - 1));
        assert(ops.take(n).last() == ops[n - 1]);
        let st = run_state(None, ops.take(n - 1), tol);
        match ops[n - 1] {
            DebOp::Record(t, _) => {
                assert(t0 <= op_time(ops[n - 1]) < t0 + tol);
            },
            DebOp::Sweep(v) => {
                assert(op_time(ops[n - 1]) <= op_time(ops[li]));
                assert(t0 <= op_time(ops[li]) < t0 + tol);
                if st is Some {
                    assert(!is_expired(st->Some_0.0, v, tol));
                }
            },
        }
        assert(run_emits(None, ops.take(n), tol) =~= Seq::<EventKind>::empty());
    }
}

/// After the last record of the burst, either nothing has been
/// emitted yet and its entry is still pending, or the one emission
/// with its kind has happened and the path is clear; and once any
/// later sweep has found the window elapsed, it is the latter.
proof fn lemma_burst_phase2(ops: Seq<DebOp>, t0: i64, li: int, tol: i64, n: int)
    requires
        tol > 0,
        0 <= li < ops.len(),
        ops[li] is Record,
        forall|i: int| li < i < ops.len() ==> (#[trigger] ops[i]) is Sweep,
        forall|i: int, j: int|
            0 <= i < j < ops.len() ==> op_time(#[trigger] ops[i]) <= op_time(#[trigger] ops[j]),
        forall|i: int|
            0 <= i < ops.len() && (#[trigger] ops[i]) is Record ==> t0 <= op_time(ops[i]) < t0
                + tol,
        li + 1 <= n <= ops.len(),
    ensures
        (run_emits(None, ops.take(n), tol) == Seq::<EventKind>::empty() && run_state(
            None,
            ops.take(n),
            tol,
        ) == Some((op_time(ops[li]), ops[li]->Record_1))) || (run_emits(None, ops.take(n), tol)
            == seq![ops[li]->Record_1] && run_state(None, ops.take(n), tol) is None),
        (exists|m: int|
            li < m < n && is_expired(op_time(ops[li]), op_time(#[trigger] ops[m]), tol))
            ==> run_state(None, ops.take(n), tol) is None && run_emits(None, ops.take(n), tol)
            == seq![ops[li]->Record_1],
    decreases n,
{
    if n == li + 1 {
        lemma_burst_phase1(ops, t0, li, tol, li);
        assert(ops.take(n).drop_last() =~= ops.take(li));
        assert(ops.take(n).last() == ops[li]);
        assert(run_emits(None, ops.take(n), tol) =~= Seq::<EventKind>::empty());
    } else {
        lemma_burst_phase2(ops, t0, li, tol, n - 1);
        assert(ops.take(n).drop_last() =~= ops.take(n - 1));
        assert(ops.take(n).last() == ops[n - 1]);
        assert(ops[n - 1] is Sweep);
        let st = run_state(None, ops.take(n - 1), tol);
        let v = op_time(ops[n - 1]);
        if st is Some && is_expired(op_time(ops[li]), v, tol) {
            assert(run_emits(None, ops.take(n), tol) =~= seq![ops[li]->Record_1]);
        } else {
            assert(run_emits(None, ops.take(n), tol) =~= run_emits(None, ops.take(n - 1), tol));
        }
        if exists|m: int|
            li < m < n && is_expired(op_time(ops[li]), op_time(#[trigger] ops[m]), tol) {
            let m = choose|m: int|
                li < m < n && is_expired(op_time(ops[li]), op_time(#[trigger] ops[m]), tol);
            if m < n - 1 {
                assert(run_state(None, ops.take(n - 1), tol) is None);
            } else {
                assert(is_expired(op_time(ops[li]), v, tol));
            }
        }
    }
}

/// A burst of raw events on one path inside one tolerance window,
/// with flusher sweeps falling anywhere among and after them in time
/// order, yields exactly one emission over the whole run, at the
/// first sweep that finds the path quiet for the window, and it
/// carries the last event\'s kind.
pub proof fn lemma_burst_with_sweeps(ops: Seq<DebOp>, t0: i64, li: int, tol: i64)
    requires
        tol > 0,
        0 <= li < ops.len() - 1,
        ops[li] is Record,
        forall|i: int| li < i < ops.len() ==> (#[trigger] ops[i]) is Sweep,
        forall|i: int, j: int|
            0 <= i < j < ops.len() ==> op_time(#[trigger] ops[i]) <= op_time(#[trigger] ops[j]),
        forall|i: int|
            0 <= i < ops.len() && (#[trigger] ops[i]) is Record ==> t0 <= op_time(ops[i]) < t0
                + tol,
        is_expired(op_time(ops[li]), op_time(ops.last()), tol),
    ensures
        run_emits(None, ops, tol) == seq![ops[li]->Record_1],
        run_state(None, ops, tol) is None,
{
    lemma_burst_phase2(ops, t0, li, tol, ops.len() as int);
    assert(li < ops.len() - 1 < ops.len() && is_expired(
        op_time(ops[li]),
        op_time(ops[ops.len() - 1]),
        tol,
    ));
    assert(ops.take(ops.len() as int) =~= ops);
}

} // verus!
