//! The hierarchy finds the same nearest hit as a scan of the list, and the
//! scan keeps the first of equally near hits when probes accept only
//! strictly closer ones.
//!
//! A surface is modelled by the hit it has within the caller's window, if
//! any (`cand`), and `t` orders hits by ray parameter. Probed with the
//! closest hit so far as bound, the surface yields its hit when that is no
//! farther than the bound: a sphere, which tries its near root and then its
//! far one, and a rectangle behave so.
use crate::bvh::{leaves, points_back, walk, walk_child, well_shaped, child_leaves, range_set, BvhChild, BvhNode, BvhBranch};
use crate::hittable_list::scan;
use vstd::prelude::*;

verus! {

/// `c` lies within the window that bound `b` leaves open.
pub open spec fn within<R>(c: R, b: Option<R>, t: spec_fn(R) -> int) -> bool {
    match b {
        None => true,
        Some(x) => t(c) <= t(x),
    }
}

/// The probe of a surface whose hit within the caller's window is `cand`.
pub open spec fn threshold<S, R>(cand: spec_fn(S) -> Option<R>, t: spec_fn(R) -> int) -> spec_fn(
    S,
    Option<R>,
) -> Option<R> {
    |s: S, b: Option<R>|
        match cand(s) {
            Some(c) => if within(c, b, t) {
                Some(c)
            } else {
                None
            },
            None => None,
        }
}

/// The same probe, reached by a surface's index in `objs`.
pub open spec fn indexed<S, R>(objs: Seq<S>, cand: spec_fn(S) -> Option<R>) -> spec_fn(usize) -> Option<R> {
    |s: usize| cand(objs[s as int])
}

/// A branch's box is missed only when no surface below it has a hit within
/// the bound.
pub open spec fn boxes_enclose<R>(
    bs: Seq<BvhBranch>,
    bm: spec_fn(usize, Option<R>) -> bool,
    sm: spec_fn(usize, Option<R>) -> Option<R>,
) -> bool {
    forall|j: int, b: Option<R>, s: usize|
        0 <= j < bs.len() && !#[trigger] bm(j as usize, b) && #[trigger] leaves(bs, j).contains(s)
            ==> sm(s, b).is_none()
}

/// `r` is a nearest hit within bound `b` among the surfaces of `members`,
/// or nothing when none of them has a hit within `b`.
pub open spec fn nearest_in<R>(
    r: Option<R>,
    members: Set<usize>,
    b: Option<R>,
    cand: spec_fn(usize) -> Option<R>,
    t: spec_fn(R) -> int,
) -> bool {
    match r {
        None => forall|s: usize| #[trigger] members.contains(s) && cand(s).is_some() ==> !within(
            cand(s).unwrap(),
            b,
            t,
        ),
        Some(c) => {
            &&& within(c, b, t)
            &&& exists|s: usize| #[trigger] members.contains(s) && cand(s) == Some(c)
            &&& forall|s: usize| #[trigger] members.contains(s) && cand(s).is_some() && within(cand(s).unwrap(), b, t)
                ==> t(c) <= t(cand(s).unwrap())
        },
    }
}

proof fn lemma_combine<R>(
    left: Option<R>,
    l: Set<usize>,
    right: Option<R>,
    r: Set<usize>,
    b: Option<R>,
    cand: spec_fn(usize) -> Option<R>,
    t: spec_fn(R) -> int,
)
    requires
        nearest_in(left, l, b, cand, t),
        nearest_in(right, r, if left.is_some() { left } else { b }, cand, t),
    ensures
        nearest_in(if right.is_some() { right } else { left }, l.union(r), b, cand, t),
{
    let u = l.union(r);
    match left {
        None => {
            match right {
                None => {
                    assert forall|s: usize| #[trigger] u.contains(s) && cand(s).is_some() implies !within(cand(s).unwrap(), b, t) by {
                        if l.contains(s) {
                        } else {
                            assert(r.contains(s));
                        }
                    }
                },
                Some(c) => {
                    let w = choose|s: usize| #[trigger] r.contains(s) && cand(s) == Some(c);
                    assert(u.contains(w));
                    assert forall|s: usize| #[trigger] u.contains(s) && cand(s).is_some() && within(cand(s).unwrap(), b, t)
                        implies t(c) <= t(cand(s).unwrap()) by {
                        if l.contains(s) {
                        } else {
                            assert(r.contains(s));
                        }
                    }
                },
            }
        },
        Some(cl) => {
            match right {
                None => {
                    let w = choose|s: usize| #[trigger] l.contains(s) && cand(s) == Some(cl);
                    assert(u.contains(w));
                    assert forall|s: usize| #[trigger] u.contains(s) && cand(s).is_some() && within(cand(s).unwrap(), b, t)
                        implies t(cl) <= t(cand(s).unwrap()) by {
                        if l.contains(s) {
                        } else {
                            assert(r.contains(s));
                        }
                    }
                },
                Some(c) => {
                    let w = choose|s: usize| #[trigger] r.contains(s) && cand(s) == Some(c);
                    assert(u.contains(w));
                    assert forall|s: usize| #[trigger] u.contains(s) && cand(s).is_some() && within(cand(s).unwrap(), b, t)
                        implies t(c) <= t(cand(s).unwrap()) by {
                        if l.contains(s) {
                        } else {
                            assert(r.contains(s));
                        }
                    }
                },
            }
        },
    }
}

proof fn lemma_child_nearest<S, R>(
    bs: Seq<BvhBranch>,
    c: BvhChild,
    j: int,
    b: Option<R>,
    bm: spec_fn(usize, Option<R>) -> bool,
    objs: Seq<S>,
    cand: spec_fn(S) -> Option<R>,
    t: spec_fn(R) -> int,
)
    requires
        well_shaped(bs),
        0 <= j < bs.len(),
        points_back(c, j),
        boxes_enclose(bs, bm, |s: usize, b: Option<R>| threshold(cand, t)(objs[s as int], b)),
    ensures
        nearest_in(
            walk_child(bs, c, b, bm, |s: usize, b: Option<R>| threshold(cand, t)(objs[s as int], b)),
            child_leaves(bs, c),
            b,
            indexed(objs, cand),
            t,
        ),
    decreases j, 0int,
{
    match c {
        BvhChild::Surface(s) => {
            assert(child_leaves(bs, c) =~= set![s]);
            let ic = indexed(objs, cand);
            let r = walk_child(bs, c, b, bm, |s: usize, b: Option<R>| threshold(cand, t)(objs[s as int], b));
            if r.is_some() {
                assert(child_leaves(bs, c).contains(s));
                assert(ic(s) == r);
            }
        },
        BvhChild::Branch(k) => {
            lemma_walk_nearest(bs, k as int, b, bm, objs, cand, t);
        },
    }
}

proof fn lemma_walk_nearest<S, R>(
    bs: Seq<BvhBranch>,
    j: int,
    b: Option<R>,
    bm: spec_fn(usize, Option<R>) -> bool,
    objs: Seq<S>,
    cand: spec_fn(S) -> Option<R>,
    t: spec_fn(R) -> int,
)
    requires
        well_shaped(bs),
        0 <= j < bs.len(),
        boxes_enclose(bs, bm, |s: usize, b: Option<R>| threshold(cand, t)(objs[s as int], b)),
    ensures
        nearest_in(
            walk(bs, j, b, bm, |s: usize, b: Option<R>| threshold(cand, t)(objs[s as int], b)),
            leaves(bs, j),
            b,
            indexed(objs, cand),
            t,
        ),
    decreases j, 1int,
{
    let sm = |s: usize, b: Option<R>| threshold(cand, t)(objs[s as int], b);
    let ic = indexed(objs, cand);
    assert(points_back(bs[j].left, j) && points_back(bs[j].right, j));
    let lset = child_leaves(bs, bs[j].left);
    let rset = child_leaves(bs, bs[j].right);
    assert(leaves(bs, j) == lset.union(rset));
    if !bm(j as usize, b) {
        assert forall|s: usize| #[trigger] leaves(bs, j).contains(s) && ic(s).is_some() implies !within(ic(s).unwrap(), b, t) by {
            assert(sm(s, b).is_none());
        }
    } else {
        let left = walk_child(bs, bs[j].left, b, bm, sm);
        lemma_child_nearest(bs, bs[j].left, j, b, bm, objs, cand, t);
        let rb = if left.is_some() { left } else { b };
        lemma_child_nearest(bs, bs[j].right, j, rb, bm, objs, cand, t);
        let right = walk_child(bs, bs[j].right, rb, bm, sm);
        lemma_combine(left, lset, right, rset, b, ic, t);
    }
}

proof fn lemma_scan_nearest<S, R>(objs: Seq<S>, n: int, cand: spec_fn(S) -> Option<R>, t: spec_fn(R) -> int)
    requires
        0 <= n <= objs.len(),
        n <= usize::MAX,
    ensures
        nearest_in(scan(objs, n, threshold(cand, t)), range_set(0, n), None, indexed(objs, cand), t),
    decreases n,
{
    let ic = indexed(objs, cand);
    if n == 0 {
        assert forall|s: usize| #[trigger] range_set(0, 0).contains(s) && ic(s).is_some() implies !within(ic(s).unwrap(), None, t) by {
        }
    } else {
        lemma_scan_nearest(objs, n - 1, cand, t);
        let prev = scan(objs, n - 1, threshold(cand, t));
        let rb = if prev.is_some() { prev } else { None };
        let last = threshold(cand, t)(objs[n - 1], prev);
        let one = set![(n - 1) as usize];
        assert(ic((n - 1) as usize) == cand(objs[n - 1]));
        if last.is_some() {
            assert(one.contains((n - 1) as usize));
        }
        assert(nearest_in(last, one, rb, ic, t));
        lemma_combine(prev, range_set(0, n - 1), last, one, None, ic, t);
        assert(range_set(0, n - 1).union(one) =~= range_set(0, n));
    }
}

/// Over the same surfaces, with boxes that enclose what lies below them, the
/// hierarchy finds a hit exactly when the list scan does, at the same ray
/// parameter; and when no two surfaces have hits at the same parameter, it
/// is the same hit.
pub proof fn lemma_bvh_matches_list<S, R>(
    tree: BvhNode,
    objs: Seq<S>,
    cand: spec_fn(S) -> Option<R>,
    t: spec_fn(R) -> int,
    bm: spec_fn(usize, Option<R>) -> bool,
)
    requires
        objs.len() <= usize::MAX,
        tree.shaped(),
        tree.members() == range_set(0, objs.len() as int),
        boxes_enclose(tree.branches@, bm, |s: usize, b: Option<R>| threshold(cand, t)(objs[s as int], b)),
    ensures
        ({
            let h = walk(
                tree.branches@,
                tree.root(),
                None,
                bm,
                |s: usize, b: Option<R>| threshold(cand, t)(objs[s as int], b),
            );
            let l = scan(objs, objs.len() as int, threshold(cand, t));
            &&& h.is_some() == l.is_some()
            &&& h.is_some() ==> t(h.unwrap()) == t(l.unwrap())
            &&& (forall|i: int, k: int|
                0 <= i < k < objs.len() && (#[trigger] cand(objs[i])).is_some() && (#[trigger] cand(
                    objs[k],
                )).is_some() ==> t(cand(objs[i]).unwrap()) != t(cand(objs[k]).unwrap())) ==> h == l
        }),
{
    let sm = |s: usize, b: Option<R>| threshold(cand, t)(objs[s as int], b);
    let ic = indexed(objs, cand);
    let all = range_set(0, objs.len() as int);
    let h = walk(tree.branches@, tree.root(), None, bm, sm);
    let l = scan(objs, objs.len() as int, threshold(cand, t));
    lemma_walk_nearest(tree.branches@, tree.root(), None, bm, objs, cand, t);
    lemma_scan_nearest(objs, objs.len() as int, cand, t);
    assert(leaves(tree.branches@, tree.root()) == all);
    match h {
        Some(ch) => {
            let sh = choose|s: usize| #[trigger] all.contains(s) && ic(s) == Some(ch);
            assert(ic(sh).is_some() && within(ic(sh).unwrap(), None, t));
            assert(l.is_some());
            let cl = l.unwrap();
            let sl = choose|s: usize| #[trigger] all.contains(s) && ic(s) == Some(cl);
            assert(within(ic(sl).unwrap(), None, t));
            assert(t(ch) <= t(cl));
            assert(t(cl) <= t(ch));
            if forall|i: int, k: int|
                0 <= i < k < objs.len() && (#[trigger] cand(objs[i])).is_some() && (#[trigger] cand(objs[k])).is_some()
                    ==> t(cand(objs[i]).unwrap()) != t(cand(objs[k]).unwrap()) {
                if sh < sl {
                    assert(cand(objs[sh as int]).is_some() && cand(objs[sl as int]).is_some());
                } else if sl < sh {
                    assert(cand(objs[sl as int]).is_some() && cand(objs[sh as int]).is_some());
                }
            }
        },
        None => {
            if l.is_some() {
                let cl = l.unwrap();
                let sl = choose|s: usize| #[trigger] all.contains(s) && ic(s) == Some(cl);
                assert(ic(sl).is_some());
            }
        },
    }
}

/// The probe of a surface that accepts its hit `cand` only when it is
/// strictly closer than the bound.
pub open spec fn strict<S, R>(cand: spec_fn(S) -> Option<R>, t: spec_fn(R) -> int) -> spec_fn(
    S,
    Option<R>,
) -> Option<R> {
    |s: S, b: Option<R>|
        match cand(s) {
            Some(c) => if b.is_none() || t(c) < t(b.unwrap()) {
                Some(c)
            } else {
                None
            },
            None => None,
        }
}

/// `r` is the hit of the first member among `objs[0..n]` whose hit is
/// nearest, or nothing when none of them has a hit.
pub open spec fn first_nearest<S, R>(
    r: Option<R>,
    objs: Seq<S>,
    n: int,
    cand: spec_fn(S) -> Option<R>,
    t: spec_fn(R) -> int,
) -> bool {
    match r {
        None => forall|k: int| 0 <= k < n ==> (#[trigger] cand(objs[k])).is_none(),
        Some(c) => exists|i: int|
            #![trigger cand(objs[i])]
            0 <= i < n && cand(objs[i]) == Some(c) && (forall|k: int|
                0 <= k < n && (#[trigger] cand(objs[k])).is_some() ==> t(c) <= t(cand(objs[k]).unwrap())
                    && (k < i ==> t(c) < t(cand(objs[k]).unwrap()))),
    }
}

/// With probes that accept only strictly closer hits, the scan of a list
/// yields the hit of the first member whose hit is nearest: a later member
/// at the same distance does not displace it.
pub proof fn lemma_scan_keeps_first_nearest<S, R>(
    objs: Seq<S>,
    n: int,
    cand: spec_fn(S) -> Option<R>,
    t: spec_fn(R) -> int,
)
    requires
        0 <= n <= objs.len(),
    ensures
        first_nearest(scan(objs, n, strict(cand, t)), objs, n, cand, t),
    decreases n,
{
    if n > 0 {
        lemma_scan_keeps_first_nearest(objs, n - 1, cand, t);
        let prev = scan(objs, n - 1, strict(cand, t));
        let last = cand(objs[n - 1]);
        match prev {
            None => {
                if let Some(c) = last {
                    assert(cand(objs[n - 1]) == Some(c));
                    assert forall|k: int| 0 <= k < n && (#[trigger] cand(objs[k])).is_some() implies t(c) <= t(
                        cand(objs[k]).unwrap(),
                    ) && (k < n - 1 ==> t(c) < t(cand(objs[k]).unwrap())) by {
                        if k < n - 1 {
                            assert(cand(objs[k]).is_none());
                        }
                    }
                }
            },
            Some(p) => {
                let i = choose|i: int|
                    #![trigger cand(objs[i])]
                    0 <= i < n - 1 && cand(objs[i]) == Some(p) && (forall|k: int|
                        0 <= k < n - 1 && (#[trigger] cand(objs[k])).is_some() ==> t(p) <= t(cand(objs[k]).unwrap())
                            && (k < i ==> t(p) < t(cand(objs[k]).unwrap())));
                match last {
                    Some(c) => {
                        if t(c) < t(p) {
                            assert forall|k: int| 0 <= k < n && (#[trigger] cand(objs[k])).is_some() implies t(c) <= t(
                                cand(objs[k]).unwrap(),
                            ) && (k < n - 1 ==> t(c) < t(cand(objs[k]).unwrap())) by {
                            }
                            assert(cand(objs[n - 1]) == Some(c));
                        } else {
                            assert forall|k: int| 0 <= k < n && (#[trigger] cand(objs[k])).is_some() implies t(p) <= t(
                                cand(objs[k]).unwrap(),
                            ) && (k < i ==> t(p) < t(cand(objs[k]).unwrap())) by {
                            }
                            assert(cand(objs[i]) == Some(p));
                        }
                    },
                    None => {
                        assert forall|k: int| 0 <= k < n && (#[trigger] cand(objs[k])).is_some() implies t(p) <= t(
                            cand(objs[k]).unwrap(),
                        ) && (k < i ==> t(p) < t(cand(objs[k]).unwrap())) by {
                        }
                        assert(cand(objs[i]) == Some(p));
                    },
                }
            },
        }
    }
}

} // verus!
