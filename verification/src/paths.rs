//! Absolutized watch paths and the common ancestor they share.
//!
//! A path is held as its sequence of components, so the ancestor
//! computation is a longest-common-prefix over component sequences,
//! compared from the root and stopped at the first divergence.

use vstd::prelude::*;

verus! {

/// Startup failure: no watch path could be resolved.
#[derive(Clone, Copy, Debug, PartialEq, Eq, Structural)]
pub enum ConfigError {
    NoPaths,
}

/// An absolute path, held as its components from the root down.
pub struct PathRep {
    pub components: Vec<Vec<u8>>,
}

/// The byte sequences held by a sequence of byte vectors.
pub open spec fn comps_view(s: Seq<Vec<u8>>) -> Seq<Seq<u8>> {
    Seq::new(s.len(), |i: int| s[i]@)
}

impl View for PathRep {
    type V = Seq<Seq<u8>>;

    open spec fn view(&self) -> Seq<Seq<u8>> {
        comps_view(self.components@)
    }
}

/// The component sequences of a sequence of paths.
pub open spec fn path_views(s: Seq<PathRep>) -> Seq<Seq<Seq<u8>>> {
    s.map_values(|p: PathRep| p@)
}

/// The parent of a path: the path with its last component dropped.
/// The bare root is its own parent.
pub open spec fn parent_view(p: Seq<Seq<u8>>) -> Seq<Seq<u8>> {
    if p.len() == 0 {
        p
    } else {
        p.drop_last()
    }
}

/// The parent of each path.
pub open spec fn parents_of(ps: Seq<Seq<Seq<u8>>>) -> Seq<Seq<Seq<u8>>> {
    ps.map_values(|p: Seq<Seq<u8>>| parent_view(p))
}

/// `c` is an ancestor-or-self prefix of every path in `ps`.
pub open spec fn common_prefix_of_all(c: Seq<Seq<u8>>, ps: Seq<Seq<Seq<u8>>>) -> bool {
    forall|i: int| 0 <= i < ps.len() ==> c.is_prefix_of(#[trigger] ps[i])
}

/// Whether two byte vectors hold the same bytes.
pub fn bytes_eq(a: &Vec<u8>, b: &Vec<u8>) -> (r: bool)
    ensures
        r == (a@ == b@),
{
    if a.len() != b.len() {
        return false;
    }
    let mut i: usize = 0;
    while i < a.len()
        invariant
            0 <= i <= a@.len(),
            a@.len() == b@.len(),
            forall|k: int| 0 <= k < i ==> a@[k] == b@[k],
        decreases a@.len() - i,
    {
        if a[i] != b[i] {
            return false;
        }
        i = i + 1;
    }
    proof {
        assert(a@ =~= b@);
    }
    true
}

/// Whether two paths are the same, component by component.
pub fn path_eq(a: &PathRep, b: &PathRep) -> (r: bool)
    ensures
        r == (a@ == b@),
{
    if a.components.len() != b.components.len() {
        return false;
    }
    let mut i: usize = 0;
    while i < a.components.len()
        invariant
            0 <= i <= a@.len(),
            a@.len() == a.components@.len(),
            b@.len() == b.components@.len(),
            a@.len() == b@.len(),
            forall|k: int| 0 <= k < i ==> a@[k] == b@[k],
        decreases a@.len() - i,
    {
        if !bytes_eq(&a.components[i], &b.components[i]) {
            proof {
                assert(a@[i as int] == a.components@[i as int]@);
                assert(b@[i as int] == b.components@[i as int]@);
                assert(a@ != b@);
            }
            return false;
        }
        i = i + 1;
    }
    proof {
        assert(a@ =~= b@);
    }
    true
}

/// The copy of a path.
pub fn path_copy(p: &PathRep) -> (r: PathRep)
    ensures
        r@ == p@,
{
    let components = copy_components(&p.components, p.components.len());
    proof {
        assert(p@.subrange(0, p@.len() as int) =~= p@);
    }
    PathRep { components }
}

/// The copy of the first `n` byte vectors of `v`.
pub(crate) fn copy_components(v: &Vec<Vec<u8>>, n: usize) -> (r: Vec<Vec<u8>>)
    requires
        n <= v@.len(),
    ensures
        comps_view(r@) == comps_view(v@).subrange(0, n as int),
{
    let mut r: Vec<Vec<u8>> = Vec::new();
    let mut i: usize = 0;
    while i < n
        invariant
            0 <= i <= n <= v@.len(),
            comps_view(r@) == comps_view(v@).subrange(0, i as int),
        decreases n - i,
    {
        let ghost pre = r@;
        let piece = crate::codec::subvec(&v[i], 0, v[i].len());
        let ghost pv = piece@;
        r.push(piece);
        proof {
            assert(pre.len() == comps_view(pre).len());
            assert(r@ == pre.push(r@[i as int]));
            assert(r@[i as int]@ == pv);
            assert(pv =~= v@[i as int]@);
            assert forall|k: int| 0 <= k < i + 1 implies comps_view(r@)[k] == comps_view(
                v@,
            ).subrange(0, i + 1)[k] by {
                if k < i {
                    assert(comps_view(pre)[k] == comps_view(v@).subrange(0, i as int)[k]);
                    assert(r@[k] == pre[k]);
                }
            }
            assert(comps_view(r@) =~= comps_view(v@).subrange(0, i + 1));
        }
        i = i + 1;
    }
    r
}

/// The last component of a path: the file's base name.
pub fn file_name(p: &PathRep) -> (r: Option<Vec<u8>>)
    ensures
        p@.len() >= 1 ==> (r matches Some(n) && n@ == p@.last()),
        p@.len() == 0 ==> r is None,
{
    if p.components.len() == 0 {
        return None;
    }
    let n = crate::codec::subvec(
        &p.components[p.components.len() - 1],
        0,
        p.components[p.components.len() - 1].len(),
    );
    proof {
        assert(n@ =~= p@.last());
    }
    Some(n)
}

/// The parent of a path: the path with its last component dropped.
pub fn parent(p: &PathRep) -> (r: PathRep)
    requires
        p@.len() >= 1,
    ensures
        r@ == p@.drop_last(),
{
    let components = copy_components(&p.components, p.components.len() - 1);
    proof {
        assert(p@.subrange(0, p@.len() - 1) =~= p@.drop_last());
    }
    PathRep { components }
}

/// The first `depth` components agree across all of `ps`.
pub open spec fn common_upto(ps: Seq<Seq<Seq<u8>>>, depth: int) -> bool {
    forall|m: int| 0 <= m < ps.len() ==> depth <= (#[trigger] ps[m]).len() && ps[m].subrange(
        0,
        depth,
    ) == ps[0].subrange(0, depth)
}

/// Whether every path in `parents` still has a component at `depth`,
/// equal to the first path's component there.
fn all_match_at(parents: &Vec<PathRep>, depth: usize) -> (r: bool)
    requires
        parents@.len() >= 1,
        depth < parents@[0]@.len(),
    ensures
        r == (forall|m: int|
            0 <= m < parents@.len() ==> depth < (#[trigger] path_views(parents@)[m]).len()
                && path_views(parents@)[m][depth as int] == path_views(parents@)[0][
                depth as int
            ]),
{
    let mut m: usize = 0;
    while m < parents.len()
        invariant
            parents@.len() >= 1,
            depth < parents@[0]@.len(),
            0 <= m <= parents@.len(),
            forall|k: int|
                0 <= k < m ==> depth < (#[trigger] path_views(parents@)[k]).len() && path_views(
                    parents@,
                )[k][depth as int] == path_views(parents@)[0][depth as int],
        decreases parents@.len() - m,
    {
        if depth >= parents[m].components.len() {
            proof {
                assert(!(depth < path_views(parents@)[m as int].len()));
            }
            return false;
        }
        if !bytes_eq(&parents[m].components[depth], &parents[0].components[depth]) {
            proof {
                assert(path_views(parents@)[m as int][depth as int] != path_views(parents@)[0][
                    depth as int
                ]);
            }
            return false;
        }
        m = m + 1;
    }
    true
}

/// No common prefix of all of `ps` is longer than `depth`, because the
/// path at `j` either ends there or diverges there from the first path.
proof fn lemma_maximal_at_divergence(ps: Seq<Seq<Seq<u8>>>, depth: int, j: int)
    requires
        0 <= j < ps.len(),
        0 <= depth,
        ps[j].len() <= depth || (depth < ps[0].len() && depth < ps[j].len() && ps[j][depth]
            != ps[0][depth]),
    ensures
        forall|d: Seq<Seq<u8>>| common_prefix_of_all(d, ps) ==> d.len() <= depth,
{
    assert forall|d: Seq<Seq<u8>>| common_prefix_of_all(d, ps) implies d.len() <= depth by {
        if d.len() > depth {
            assert(d.is_prefix_of(ps[j]));
            assert(d.len() <= ps[j].len());
            assert(d == ps[j].subrange(0, d.len() as int));
            assert(d[depth] == ps[j][depth]);
            assert(d.is_prefix_of(ps[0]));
            assert(d == ps[0].subrange(0, d.len() as int));
            assert(d[depth] == ps[0][depth]);
            assert(false);
        }
    }
}

/// The length of the longest prefix that every path in `parents` shares.
fn lcp_depth(parents: &Vec<PathRep>) -> (depth: usize)
    requires
        parents@.len() >= 1,
    ensures
        depth <= path_views(parents@)[0].len(),
        common_upto(path_views(parents@), depth as int),
        forall|d: Seq<Seq<u8>>|
            common_prefix_of_all(d, path_views(parents@)) ==> d.len() <= depth,
{
    let ghost ps = path_views(parents@);
    let flen = parents[0].components.len();
    let mut depth: usize = 0;
    proof {
        assert forall|m: int| 0 <= m < ps.len() implies 0 <= (#[trigger] ps[m]).len() && ps[
            m
        ].subrange(0, 0) == ps[0].subrange(0, 0) by {
            assert(ps[m].subrange(0, 0) =~= ps[0].subrange(0, 0));
        }
    }
    while depth < flen
        invariant
            parents@.len() >= 1,
            ps == path_views(parents@),
            flen == ps[0].len(),
            0 <= depth <= flen,
            common_upto(ps, depth as int),
        decreases flen - depth,
    {
        if !all_match_at(parents, depth) {
            proof {
                let j = choose|m: int|
                    0 <= m < ps.len() && !(depth < ps[m].len() && ps[m][depth as int] == ps[0][
                        depth as int
                    ]);
                lemma_maximal_at_divergence(ps, depth as int, j);
            }
            return depth;
        }
        proof {
            assert forall|m: int| 0 <= m < ps.len() implies depth + 1 <= (#[trigger] ps[m]).len()
                && ps[m].subrange(0, depth + 1) == ps[0].subrange(0, depth + 1) by {
                assert(depth < ps[m].len() && ps[m][depth as int] == ps[0][depth as int]);
                assert(ps[m].subrange(0, depth as int) == ps[0].subrange(0, depth as int));
                assert forall|k: int| 0 <= k < depth + 1 implies #[trigger] ps[m].subrange(
                    0,
                    depth + 1,
                )[k] == ps[0].subrange(0, depth + 1)[k] by {
                    if k < depth {
                        assert(ps[m].subrange(0, depth as int)[k] == ps[0].subrange(
                            0,
                            depth as int,
                        )[k]);
                    }
                }
                assert(ps[m].subrange(0, depth + 1) =~= ps[0].subrange(0, depth + 1));
            }
        }
        depth = depth + 1;
    }
    proof {
        assert forall|d: Seq<Seq<u8>>| common_prefix_of_all(d, ps) implies d.len() <= depth by {
            assert(d.is_prefix_of(ps[0]));
        }
    }
    depth
}

/// The narrowest single directory that covers every watched file: the
/// longest common prefix of the paths' parents, compared component by
/// component from the root. A single path yields its immediate parent
/// (the bare root its own self); an empty set is rejected.
pub fn common_ancestor(paths: &Vec<PathRep>) -> (r: Result<PathRep, ConfigError>)
    ensures
        r is Ok <==> paths@.len() >= 1,
        (r matches Ok(a) ==> common_prefix_of_all(a@, parents_of(path_views(paths@))) && forall|
            d: Seq<Seq<u8>>,
        |
            common_prefix_of_all(d, parents_of(path_views(paths@))) ==> d.len() <= a@.len()),
        (r matches Err(e) ==> e == ConfigError::NoPaths),
{
    if paths.len() == 0 {
        return Err(ConfigError::NoPaths);
    }
    let ghost want = parents_of(path_views(paths@));
    let mut parents_v: Vec<PathRep> = Vec::new();
    let mut i: usize = 0;
    while i < paths.len()
        invariant
            want == parents_of(path_views(paths@)),
            0 <= i <= paths@.len(),
            path_views(parents_v@) == want.subrange(0, i as int),
        decreases paths@.len() - i,
    {
        let ghost pre = parents_v@;
        let p = if paths[i].components.len() >= 1 {
            parent(&paths[i])
        } else {
            PathRep { components: Vec::new() }
        };
        let ghost pv = p@;
        proof {
            if paths@[i as int]@.len() == 0 {
                assert(pv =~= paths@[i as int]@);
            }
            assert(pv == parent_view(paths@[i as int]@));
        }
        parents_v.push(p);
        proof {
            assert(pre.len() == path_views(pre).len());
            assert(parents_v@ == pre.push(parents_v@[i as int]));
            assert(parents_v@[i as int]@ == pv);
            assert(want[i as int] == parent_view(path_views(paths@)[i as int]));
            assert forall|k: int| 0 <= k < i + 1 implies path_views(parents_v@)[k]
                == want.subrange(0, i + 1)[k] by {
                if k < i {
                    assert(path_views(pre)[k] == want.subrange(0, i as int)[k]);
                    assert(parents_v@[k] == pre[k]);
                }
            }
            assert(path_views(parents_v@) =~= want.subrange(0, i + 1));
        }
        i = i + 1;
    }
    proof {
        assert(want.subrange(0, want.len() as int) =~= want);
        assert(path_views(parents_v@) == want);
    }
    let depth = lcp_depth(&parents_v);
    let components = copy_components(&parents_v[0].components, depth);
    let a = PathRep { components };
    proof {
        let ps = path_views(parents_v@);
        assert(a@ == comps_view(parents_v@[0].components@).subrange(0, depth as int));
        assert(comps_view(parents_v@[0].components@) == ps[0]);
        assert forall|m: int| 0 <= m < ps.len() implies a@.is_prefix_of(#[trigger] ps[m]) by {
            assert(depth <= ps[m].len() && ps[m].subrange(0, depth as int) == ps[0].subrange(
                0,
                depth as int,
            ));
            assert(a@ =~= ps[m].subrange(0, a@.len() as int));
        }
    }
    Ok(a)
}

/// A set of paths has one narrowest covering ancestor: two common
/// prefixes of all the parents, neither of which any common prefix
/// exceeds in length, are the same sequence.
pub proof fn lemma_ancestor_unique(a: Seq<Seq<u8>>, b: Seq<Seq<u8>>, ps: Seq<Seq<Seq<u8>>>)
    requires
        ps.len() >= 1,
        common_prefix_of_all(a, ps),
        common_prefix_of_all(b, ps),
        forall|d: Seq<Seq<u8>>| common_prefix_of_all(d, ps) ==> d.len() <= a.len(),
        forall|d: Seq<Seq<u8>>| common_prefix_of_all(d, ps) ==> d.len() <= b.len(),
    ensures
        a == b,
{
    assert(a.len() <= b.len());
    assert(b.len() <= a.len());
    assert(a.is_prefix_of(ps[0]));
    assert(b.is_prefix_of(ps[0]));
    assert(a == ps[0].subrange(0, a.len() as int));
    assert(b == ps[0].subrange(0, b.len() as int));
}

} // verus!
