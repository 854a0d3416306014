//! The watch set and the raw-event filter: resolving user-supplied
//! path strings, and keeping only events whose absolutized path is
//! exactly a watched one.

use vstd::prelude::*;
use path_absolutize::Absolutize;
use crate::debounce::DebounceStore;
use crate::debounce::EventKind;
use crate::paths::PathRep;
use crate::paths::comps_view;
use crate::paths::path_copy;
use crate::paths::path_eq;

verus! {

/// The non-empty stretches of `s` between occurrences of `sep`, from
/// position `i` on, with the current stretch starting at `start`.
pub open spec fn split_nonempty(s: Seq<u8>, sep: u8, i: int, start: int) -> Seq<Seq<u8>>
    decreases s.len() - i,
    when 0 <= start <= i <= s.len()
{
    if i >= s.len() {
        if i > start {
            seq![s.subrange(start, i)]
        } else {
            Seq::empty()
        }
    } else if s[i] == sep {
        if i > start {
            seq![s.subrange(start, i)] + split_nonempty(s, sep, i + 1, i + 1)
        } else {
            split_nonempty(s, sep, i + 1, i + 1)
        }
    } else {
        split_nonempty(s, sep, i + 1, start)
    }
}

/// Splits `s` at `sep`, dropping empty stretches.
pub fn split_on_byte(s: &Vec<u8>, sep: u8) -> (r: Vec<Vec<u8>>)
    ensures
        comps_view(r@) == split_nonempty(s@, sep, 0, 0),
{
    let mut r: Vec<Vec<u8>> = Vec::new();
    let mut start: usize = 0;
    let mut i: usize = 0;
    while i < s.len()
        invariant
            0 <= start <= i <= s@.len(),
            split_nonempty(s@, sep, 0, 0) == comps_view(r@) + split_nonempty(
                s@,
                sep,
                i as int,
                start as int,
            ),
            forall|k: int| start <= k < i ==> s@[k] != sep,
        decreases s@.len() - i,
    {
        if s[i] == sep {
            if i > start {
                let ghost rpre = r@;
                let piece = crate::codec::subvec(s, start, i);
                let ghost pv = piece@;
                r.push(piece);
                proof {
                    assert(r@[r@.len() - 1]@ == pv);
                    assert(comps_view(r@) =~= comps_view(rpre).push(s@.subrange(
                        start as int,
                        i as int,
                    )));
                    assert(split_nonempty(s@, sep, i as int, start as int) == seq![
                        s@.subrange(start as int, i as int),
                    ] + split_nonempty(s@, sep, i + 1, i + 1));
                    assert(comps_view(rpre) + (seq![s@.subrange(start as int, i as int)]
                        + split_nonempty(s@, sep, i + 1, i + 1)) =~= comps_view(r@)
                        + split_nonempty(s@, sep, i + 1, i + 1));
                }
            }
            start = i + 1;
        }
        i = i + 1;
    }
    if i > start {
        let ghost rpre = r@;
        let piece = crate::codec::subvec(s, start, i);
        let ghost pv = piece@;
        r.push(piece);
        proof {
            assert(r@[r@.len() - 1]@ == pv);
            assert(comps_view(r@) =~= comps_view(rpre).push(s@.subrange(start as int, i as int)));
            assert(split_nonempty(s@, sep, i as int, start as int) == seq![
                s@.subrange(start as int, i as int),
            ]);
            assert(comps_view(rpre) + seq![s@.subrange(start as int, i as int)] =~= comps_view(
                r@,
            ));
        }
    } else {
        proof {
            assert(split_nonempty(s@, sep, i as int, start as int) == Seq::<Seq<u8>>::empty());
            assert(comps_view(r@) + Seq::<Seq<u8>>::empty() =~= comps_view(r@));
        }
    }
    r
}

/// A path component as the splitter yields it: never empty, never
/// holding the separator.
pub open spec fn clean_piece(piece: Seq<u8>, sep: u8) -> bool {
    piece.len() >= 1 && forall|j: int| 0 <= j < piece.len() ==> piece[j] != sep
}

/// Every component is a clean piece.
pub open spec fn clean_pieces(ps: Seq<Seq<u8>>, sep: u8) -> bool {
    forall|m: int| 0 <= m < ps.len() ==> clean_piece(#[trigger] ps[m], sep)
}

/// Whatever the splitter is given, each stretch it yields is
/// non-empty and free of the separator.
proof fn lemma_split_pieces_clean(s: Seq<u8>, sep: u8, i: int, start: int)
    requires
        0 <= start <= i <= s.len(),
        forall|k: int| start <= k < i ==> s[k] != sep,
    ensures
        clean_pieces(split_nonempty(s, sep, i, start), sep),
    decreases s.len() - i,
{
    if i >= s.len() {
        if i > start {
            assert(clean_piece(s.subrange(start, i), sep));
        }
    } else if s[i] == sep {
        lemma_split_pieces_clean(s, sep, i + 1, i + 1);
        if i > start {
            let head = seq![s.subrange(start, i)];
            let rest = split_nonempty(s, sep, i + 1, i + 1);
            assert(clean_piece(s.subrange(start, i), sep));
            assert forall|m: int| 0 <= m < (head + rest).len() implies clean_piece(
                #[trigger] (head + rest)[m],
                sep,
            ) by {
                if m >= 1 {
                    assert((head + rest)[m] == rest[m - 1]);
                }
            }
        }
    } else {
        lemma_split_pieces_clean(s, sep, i + 1, start);
    }
}

/// The path whose components are the non-empty stretches of `bytes`
/// between separators.
pub fn components_of(bytes: &Vec<u8>) -> (r: PathRep)
    ensures
        r@ == split_nonempty(bytes@, 47u8, 0, 0),
        clean_pieces(r@, 47u8),
{
    proof {
        lemma_split_pieces_clean(bytes@, 47u8, 0, 0);
    }
    PathRep { components: split_on_byte(bytes, 47u8) }
}

/// Relies on path_absolutize::Absolutize::absolutize for Path: turns
/// a path into an absolute one. The result depends on the process's
/// working directory, so nothing is promised of it.
#[verifier::external_body]
fn absolutize_raw(raw: &Vec<u8>) -> (r: Option<Vec<u8>>) {
    let text = String::from_utf8_lossy(raw.as_slice()).to_string();
    match std::path::Path::new(&text).absolutize() {
        Ok(p) => p.to_str().map(|t| t.as_bytes().to_vec()),
        Err(_) => None,
    }
}

/// Relies on chrono::Utc::now and DateTime::timestamp_millis for the
/// wall-clock time in milliseconds. The result depends on the clock,
/// so nothing is promised of it.
#[verifier::external_body]
pub(crate) fn now_millis() -> i64 {
    chrono::Utc::now().timestamp_millis()
}

/// Resolves one user-supplied path to its absolute components, or
/// nothing if the path cannot be absolutized. What the resolution
/// hands back is environment-dependent, but whatever comes back is a
/// well-formed component path.
pub fn resolve_path(raw: &Vec<u8>) -> (r: Option<PathRep>)
    ensures
        (r matches Some(p) ==> clean_pieces(p@, 47u8)),
{
    match absolutize_raw(raw) {
        None => None,
        Some(abs) => Some(components_of(&abs)),
    }
}

/// Resolves every user-supplied path, dropping exactly the ones that
/// cannot be absolutized; a path that resolves to the bare root stays
/// (its parent is the root itself).
pub fn resolve_watch_paths(raw: &Vec<Vec<u8>>) -> (r: Vec<PathRep>)
    ensures
        r@.len() <= raw@.len(),
        forall|i: int| 0 <= i < r@.len() ==> clean_pieces((#[trigger] r@[i])@, 47u8),
{
    let mut r: Vec<PathRep> = Vec::new();
    let mut i: usize = 0;
    while i < raw.len()
        invariant
            0 <= i <= raw@.len(),
            r@.len() <= i,
            forall|k: int| 0 <= k < r@.len() ==> clean_pieces((#[trigger] r@[k])@, 47u8),
        decreases raw@.len() - i,
    {
        match resolve_path(&raw[i]) {
            None => {},
            Some(p) => {
                r.push(p);
            },
        }
        i = i + 1;
    }
    r
}

/// The set of absolutized paths explicitly asked for. Membership is
/// exact path equality, never a prefix test.
pub struct WatchSet {
    pub paths: Vec<PathRep>,
}

/// `p` is one of the watched paths.
pub open spec fn watched(paths: Seq<PathRep>, p: Seq<Seq<u8>>) -> bool {
    exists|i: int| 0 <= i < paths.len() && (#[trigger] paths[i])@ == p
}

impl WatchSet {
    /// Whether this exact path is watched.
    pub fn contains(&self, p: &PathRep) -> (r: bool)
        ensures
            r == watched(self.paths@, p@),
    {
        let mut i: usize = 0;
        while i < self.paths.len()
            invariant
                0 <= i <= self.paths@.len(),
                forall|k: int| 0 <= k < i ==> (#[trigger] self.paths@[k])@ != p@,
            decreases self.paths@.len() - i,
        {
            if path_eq(&self.paths[i], p) {
                return true;
            }
            i = i + 1;
        }
        false
    }

    /// Keeps an already-resolved event exactly when its path is
    /// watched: a matching event passes with its path and kind
    /// untouched, a non-matching one is dropped.
    pub fn keep_if_watched(&self, p: &PathRep, kind: EventKind) -> (r: Option<
        (PathRep, EventKind),
    >)
        ensures
            r is Some <==> watched(self.paths@, p@),
            (r matches Some(pe) ==> pe.0@ == p@ && pe.1 == kind),
    {
        if self.contains(p) {
            Some((path_copy(p), kind))
        } else {
            None
        }
    }

    /// Filters one raw event: the path is absolutized and kept with
    /// its kind exactly when it is a watched path; anything else is
    /// dropped silently. The absolutization is environment-dependent;
    /// the keep decision after it is `keep_if_watched`.
    pub fn filter_event(&self, raw_path: &Vec<u8>, kind: EventKind) -> (r: Option<
        (PathRep, EventKind),
    >)
        ensures
            (r matches Some(pe) ==> watched(self.paths@, pe.0@) && pe.1 == kind),
    {
        match resolve_path(raw_path) {
            None => None,
            Some(p) => self.keep_if_watched(&p, kind),
        }
    }
}

/// Notes a raw event in the debounce store at the current wall-clock
/// time: the entry for the path is overwritten with the new kind at
/// some time the clock reported.
pub fn record_now(store: &mut DebounceStore, path: &PathRep, kind: EventKind)
    requires
        old(store).wf(),
    ensures
        final(store).wf(),
        exists|t: i64| final(store)@ == old(store)@.insert(path@, (t, kind)),
{
    let t = now_millis();
    store.record(path, kind, t);
}

} // verus!
