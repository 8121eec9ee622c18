//! Construction of the bounding volume hierarchy over a set of surfaces.
//!
//! A surface takes part only through the minimum corner of its bounding box,
//! given per axis as an order key (see `order`). The tree is an arena of
//! branches in which every branch comes after the branches below it, so the
//! root is the last one.
use crate::order::{bits_are_nan, is_nan, order_key, order_key_spec};
use crate::rng::random_axis;
use rand::rngs::StdRng;
use vstd::prelude::*;

verus! {

/// Order keys of a surface's minimum box corner, one per axis.
#[derive(Clone, Copy, Debug)]
pub struct BoxKeys {
    pub x: u64,
    pub y: u64,
    pub z: u64,
}

impl BoxKeys {
    /// Keys of a box whose minimum corner has these bit patterns; nothing
    /// when one of them is NaN, which has no place in the order.
    pub fn from_corner(x_bits: u64, y_bits: u64, z_bits: u64) -> (r: Option<BoxKeys>)
        ensures
            r.is_none() <==> (is_nan(x_bits) || is_nan(y_bits) || is_nan(z_bits)),
            r.is_some() ==> r.unwrap().x == order_key_spec(x_bits) && r.unwrap().y == order_key_spec(y_bits)
                && r.unwrap().z == order_key_spec(z_bits),
    {
        if bits_are_nan(x_bits) || bits_are_nan(y_bits) || bits_are_nan(z_bits) {
            None
        } else {
            Some(BoxKeys { x: order_key(x_bits), y: order_key(y_bits), z: order_key(z_bits) })
        }
    }

    /// Keys of a surface without a box, which sorts as if its corner were at
    /// the origin.
    pub fn unbounded() -> (r: BoxKeys)
        ensures
            r.x == order_key_spec(0) && r.y == order_key_spec(0) && r.z == order_key_spec(0),
    {
        BoxKeys { x: order_key(0), y: order_key(0), z: order_key(0) }
    }

    pub open spec fn spec_on(self, axis: int) -> u64 {
        if axis == 0 {
            self.x
        } else if axis == 1 {
            self.y
        } else {
            self.z
        }
    }

    pub fn on(&self, axis: usize) -> (r: u64)
        requires
            axis < 3,
        ensures
            r == self.spec_on(axis as int),
    {
        if axis == 0 {
            self.x
        } else if axis == 1 {
            self.y
        } else {
            self.z
        }
    }
}

/// One side of a branch: a surface, by its index, or an earlier branch.
#[derive(Clone, Copy, Debug, PartialEq, Eq, Structural)]
pub enum BvhChild {
    Surface(usize),
    Branch(usize),
}

/// An inner node: two children and the axis its members were ordered on.
#[derive(Clone, Copy, Debug)]
pub struct BvhBranch {
    pub left: BvhChild,
    pub right: BvhChild,
    pub axis: usize,
}

/// A hierarchy over surfaces `0..n`; its root is the last branch.
#[derive(Debug)]
pub struct BvhNode {
    pub branches: Vec<BvhBranch>,
}

pub open spec fn key_of(keys: Seq<BoxKeys>, s: usize, axis: int) -> u64 {
    keys[s as int].spec_on(axis)
}

/// The surfaces below branch `j`.
pub open spec fn leaves(bs: Seq<BvhBranch>, j: int) -> Set<usize>
    decreases j,
{
    if 0 <= j < bs.len() {
        let l = match bs[j].left {
            BvhChild::Surface(s) => set![s],
            BvhChild::Branch(k) => if k < j {
                leaves(bs, k as int)
            } else {
                Set::empty()
            },
        };
        let r = match bs[j].right {
            BvhChild::Surface(s) => set![s],
            BvhChild::Branch(k) => if k < j {
                leaves(bs, k as int)
            } else {
                Set::empty()
            },
        };
        l.union(r)
    } else {
        Set::empty()
    }
}

/// The surfaces below a child.
pub open spec fn child_leaves(bs: Seq<BvhBranch>, c: BvhChild) -> Set<usize> {
    match c {
        BvhChild::Surface(s) => set![s],
        BvhChild::Branch(k) => leaves(bs, k as int),
    }
}

/// A child of branch `j` names a surface below `n` or a branch before `j`.
pub open spec fn child_ok(c: BvhChild, j: int, n: int) -> bool {
    match c {
        BvhChild::Surface(s) => s < n,
        BvhChild::Branch(k) => k < j,
    }
}

/// Every surface on the left of branch `j` has a key on the branch's axis no
/// greater than every surface on its right.
pub open spec fn split_ordered(bs: Seq<BvhBranch>, j: int, keys: Seq<BoxKeys>) -> bool {
    forall|a: usize, b: usize|
        #![trigger child_leaves(bs, bs[j].left).contains(a), child_leaves(bs, bs[j].right).contains(b)]
        child_leaves(bs, bs[j].left).contains(a) && child_leaves(bs, bs[j].right).contains(b)
            ==> key_of(keys, a, bs[j].axis as int) <= key_of(keys, b, bs[j].axis as int)
}

/// Branch `j` over `n` surfaces has that one surface on both sides when
/// `n` is 1, two distinct surfaces when `n` is 2, and otherwise two branches
/// holding the lower `n / 2` and the upper `n - n / 2` of its surfaces.
pub open spec fn split_at_middle(bs: Seq<BvhBranch>, j: int) -> bool {
    let n = leaves(bs, j).len();
    match (bs[j].left, bs[j].right) {
        (BvhChild::Surface(a), BvhChild::Surface(b)) => (n == 1 && a == b) || (n == 2 && a != b),
        (BvhChild::Branch(_), BvhChild::Branch(_)) => {
            &&& n >= 3
            &&& child_leaves(bs, bs[j].left).len() == n / 2
            &&& child_leaves(bs, bs[j].right).len() == n - n / 2
            &&& child_leaves(bs, bs[j].left).disjoint(child_leaves(bs, bs[j].right))
        },
        _ => false,
    }
}

pub open spec fn branch_ok(bs: Seq<BvhBranch>, j: int, keys: Seq<BoxKeys>) -> bool {
    &&& child_ok(bs[j].left, j, keys.len() as int)
    &&& child_ok(bs[j].right, j, keys.len() as int)
    &&& bs[j].axis < 3
    &&& split_ordered(bs, j, keys)
    &&& split_at_middle(bs, j)
}

pub open spec fn branches_ok(bs: Seq<BvhBranch>, keys: Seq<BoxKeys>) -> bool {
    forall|j: int| 0 <= j < bs.len() ==> #[trigger] branch_ok(bs, j, keys)
}

pub open spec fn range_set(start: int, end: int) -> Set<usize> {
    Set::new(|s: usize| start <= s < end)
}

/// Extending the arena leaves what lies below an existing branch unchanged.
proof fn lemma_leaves_prefix(old_bs: Seq<BvhBranch>, new_bs: Seq<BvhBranch>, j: int)
    requires
        old_bs.len() <= new_bs.len(),
        forall|i: int| 0 <= i < old_bs.len() ==> new_bs[i] == old_bs[i],
    ensures
        0 <= j < old_bs.len() ==> leaves(new_bs, j) == leaves(old_bs, j),
    decreases j,
{
    if 0 <= j < old_bs.len() {
        if let BvhChild::Branch(k) = old_bs[j].left {
            if k < j {
                lemma_leaves_prefix(old_bs, new_bs, k as int);
            }
        }
        if let BvhChild::Branch(k) = old_bs[j].right {
            if k < j {
                lemma_leaves_prefix(old_bs, new_bs, k as int);
            }
        }
    }
}

proof fn lemma_branches_prefix(old_bs: Seq<BvhBranch>, new_bs: Seq<BvhBranch>, keys: Seq<BoxKeys>)
    requires
        old_bs.len() <= new_bs.len(),
        forall|i: int| 0 <= i < old_bs.len() ==> new_bs[i] == old_bs[i],
        branches_ok(old_bs, keys),
    ensures
        forall|j: int| 0 <= j < old_bs.len() ==> #[trigger] branch_ok(new_bs, j, keys),
{
    assert forall|j: int| 0 <= j < old_bs.len() implies #[trigger] branch_ok(new_bs, j, keys) by {
        assert(branch_ok(old_bs, j, keys));
        if let BvhChild::Branch(k) = old_bs[j].left {
            lemma_leaves_prefix(old_bs, new_bs, k as int);
        }
        if let BvhChild::Branch(k) = old_bs[j].right {
            lemma_leaves_prefix(old_bs, new_bs, k as int);
        }
        lemma_leaves_prefix(old_bs, new_bs, j);
        assert(child_leaves(new_bs, new_bs[j].left) == child_leaves(old_bs, old_bs[j].left));
        assert(child_leaves(new_bs, new_bs[j].right) == child_leaves(old_bs, old_bs[j].right));
    }
}

/// Whether `s` is sorted by key on `axis`.
pub open spec fn sorted_on(s: Seq<usize>, keys: Seq<BoxKeys>, axis: int) -> bool {
    forall|a: int, b: int|
        0 <= a < b < s.len() ==> key_of(keys, #[trigger] s[a], axis) <= key_of(
            keys,
            #[trigger] s[b],
            axis,
        )
}

/// Stable insertion sort of surface indices by key on `axis`.
fn sort_on_axis(items: &Vec<usize>, keys: &Vec<BoxKeys>, axis: usize) -> (r: Vec<usize>)
    requires
        axis < 3,
        forall|i: int| 0 <= i < items.len() ==> (#[trigger] items[i]) < keys.len(),
    ensures
        r.len() == items.len(),
        r@.to_set() == items@.to_set(),
        sorted_on(r@, keys@, axis as int),
        forall|i: int| 0 <= i < r.len() ==> (#[trigger] r[i]) < keys.len(),
        items@.no_duplicates() ==> r@.no_duplicates(),
{
    let mut r: Vec<usize> = Vec::new();
    let mut i: usize = 0;
    while i < items.len()
        invariant
            axis < 3,
            i <= items.len(),
            r.len() == i,
            forall|k: int| 0 <= k < items.len() ==> (#[trigger] items[k]) < keys.len(),
            r@.to_set() == items@.subrange(0, i as int).to_set(),
            sorted_on(r@, keys@, axis as int),
            forall|k: int| 0 <= k < r.len() ==> (#[trigger] r[k]) < keys.len(),
        decreases items.len() - i,
    {
        let x = items[i];
        let kx = keys[x].on(axis);
        let mut p: usize = 0;
        while p < r.len() && keys[r[p]].on(axis) <= kx
            invariant
                axis < 3,
                p <= r.len(),
                x < keys.len(),
                kx == key_of(keys@, x, axis as int),
                forall|k: int| 0 <= k < r.len() ==> (#[trigger] r[k]) < keys.len(),
                forall|k: int| 0 <= k < p ==> key_of(keys@, #[trigger] r@[k], axis as int) <= kx,
            decreases r.len() - p,
        {
            p = p + 1;
        }
        proof {
            // everything from p on is greater than x
            assert forall|k: int| p <= k < r.len() implies kx < key_of(keys@, #[trigger] r@[k], axis as int) by {
                assert(key_of(keys@, r@[p as int], axis as int) <= key_of(keys@, r@[k], axis as int)
                    || p as int == k);
            }
        }
        let ghost old_r = r@;
        r.insert(p, x);
        proof {
            let s = items@.subrange(0, i as int + 1);
            assert(s == items@.subrange(0, i as int) + seq![x]);
            Seq::<usize>::lemma_to_set_insert_commutes(items@.subrange(0, i as int), x);
            assert forall|y: usize| r@.to_set().contains(y) <==> old_r.to_set().insert(x).contains(y) by {
                if r@.to_set().contains(y) {
                    let k = choose|k: int| 0 <= k < r@.len() && r@[k] == y;
                    if k < p {
                        assert(old_r[k] == y);
                    } else if k > p {
                        assert(old_r[k - 1] == y);
                    }
                }
                if old_r.to_set().contains(y) {
                    let k = choose|k: int| 0 <= k < old_r.len() && old_r[k] == y;
                    if k < p {
                        assert(r@[k] == y);
                    } else {
                        assert(r@[k + 1] == y);
                    }
                }
                if y == x {
                    assert(r@[p as int] == x);
                }
            }
            assert(r@.to_set() =~= s.to_set());
            assert forall|a: int, b: int| 0 <= a < b < r@.len() implies key_of(keys@, #[trigger] r@[a], axis as int) <= key_of(keys@, #[trigger] r@[b], axis as int) by {
                if b < p {
                    assert(r@[a] == old_r[a] && r@[b] == old_r[b]);
                } else if b == p {
                    assert(r@[a] == old_r[a]);
                } else if a < p {
                    assert(r@[a] == old_r[a] && r@[b] == old_r[b - 1]);
                } else if a == p {
                    assert(r@[b] == old_r[b - 1]);
                } else {
                    assert(r@[a] == old_r[a - 1] && r@[b] == old_r[b - 1]);
                }
            }
            assert forall|k: int| 0 <= k < r.len() implies (#[trigger] r[k]) < keys.len() by {
                if k < p {
                    assert(r@[k] == old_r[k]);
                } else if k > p {
                    assert(r@[k] == old_r[k - 1]);
                }
            }
        }
        i = i + 1;
    }
    assert(items@.subrange(0, items.len() as int) == items@);
    proof {
        if items@.no_duplicates() {
            items@.unique_seq_to_set();
            r@.lemma_no_dup_set_cardinality();
        }
    }
    r
}

fn copy_range(v: &Vec<usize>, lo: usize, hi: usize) -> (r: Vec<usize>)
    requires
        lo <= hi <= v.len(),
    ensures
        r@ == v@.subrange(lo as int, hi as int),
{
    let mut r: Vec<usize> = Vec::new();
    let mut i: usize = lo;
    while i < hi
        invariant
            lo <= i <= hi <= v.len(),
            r@ == v@.subrange(lo as int, i as int),
        decreases hi - i,
    {
        r.push(v[i]);
        i = i + 1;
    }
    r
}

proof fn lemma_split_to_set(s: Seq<usize>, mid: int)
    requires
        0 <= mid <= s.len(),
    ensures
        s.subrange(0, mid).to_set().union(s.subrange(mid, s.len() as int).to_set()) == s.to_set(),
{
    let lo = s.subrange(0, mid);
    let hi = s.subrange(mid, s.len() as int);
    assert forall|y: usize| #[trigger] s.to_set().contains(y) implies lo.to_set().union(hi.to_set()).contains(y) by {
        let k = choose|k: int| 0 <= k < s.len() && s[k] == y;
        if k < mid {
            assert(lo[k] == y);
        } else {
            assert(hi[k - mid] == y);
        }
    }
    assert forall|y: usize| #[trigger] lo.to_set().union(hi.to_set()).contains(y) implies s.to_set().contains(y) by {
        if lo.to_set().contains(y) {
            let k = choose|k: int| 0 <= k < lo.len() && lo[k] == y;
            assert(s[k] == y);
        } else {
            let k = choose|k: int| 0 <= k < hi.len() && hi[k] == y;
            assert(s[k + mid] == y);
        }
    }
    assert(lo.to_set().union(hi.to_set()) =~= s.to_set());
}

/// Builds the subtree over `items`, pushing its branches in bottom-up order,
/// and returns the index of its top branch.
fn build(
    branches: &mut Vec<BvhBranch>,
    items: &Vec<usize>,
    keys: &Vec<BoxKeys>,
    rng: &mut StdRng,
) -> (r: usize)
    requires
        items.len() >= 1,
        items@.no_duplicates(),
        forall|i: int| 0 <= i < items.len() ==> (#[trigger] items[i]) < keys.len(),
        branches_ok(old(branches)@, keys@),
    ensures
        final(branches).len() > old(branches).len(),
        r == final(branches).len() - 1,
        forall|i: int| 0 <= i < old(branches).len() ==> final(branches)[i] == old(branches)[i],
        branches_ok(final(branches)@, keys@),
        leaves(final(branches)@, r as int) == items@.to_set(),
    decreases items.len(),
{
    let axis = random_axis(rng);
    let n = items.len();
    let ghost mut lo_set: Set<usize> = Set::empty();
    let ghost mut hi_set: Set<usize> = Set::empty();
    let branch = if n == 1 {
        let s = items[0];
        proof {
            lo_set = set![s];
            hi_set = set![s];
        }
        BvhBranch { left: BvhChild::Surface(s), right: BvhChild::Surface(s), axis }
    } else if n == 2 {
        let a = items[0];
        let b = items[1];
        if keys[a].on(axis) < keys[b].on(axis) {
            proof {
                lo_set = set![a];
                hi_set = set![b];
            }
            BvhBranch { left: BvhChild::Surface(a), right: BvhChild::Surface(b), axis }
        } else {
            proof {
                lo_set = set![b];
                hi_set = set![a];
            }
            BvhBranch { left: BvhChild::Surface(b), right: BvhChild::Surface(a), axis }
        }
    } else {
        let sorted = sort_on_axis(items, keys, axis);
        let mid = n / 2;
        let lo = copy_range(&sorted, 0, mid);
        let hi = copy_range(&sorted, mid, n);
        let l = build(branches, &lo, keys, rng);
        let ghost between = branches@;
        let r = build(branches, &hi, keys, rng);
        proof {
            lemma_leaves_prefix(between, branches@, l as int);
            lemma_split_to_set(sorted@, mid as int);
            lo_set = lo@.to_set();
            hi_set = hi@.to_set();
            assert(lo@.no_duplicates());
            assert(hi@.no_duplicates());
            lo@.unique_seq_to_set();
            hi@.unique_seq_to_set();
            assert(lo_set.disjoint(hi_set)) by {
                assert forall|y: usize| lo_set.contains(y) implies !hi_set.contains(y) by {
                    let i = choose|i: int| 0 <= i < lo@.len() && lo@[i] == y;
                    if hi_set.contains(y) {
                        let k = choose|k: int| 0 <= k < hi@.len() && hi@[k] == y;
                        assert(sorted@[i] == sorted@[k + mid]);
                    }
                }
            }
            assert forall|a: usize, b: usize|
                lo_set.contains(a) && hi_set.contains(b) implies key_of(keys@, a, axis as int)
                <= key_of(keys@, b, axis as int) by {
                let i = choose|i: int| 0 <= i < lo@.len() && lo@[i] == a;
                let k = choose|k: int| 0 <= k < hi@.len() && hi@[k] == b;
                assert(sorted@[i] == a);
                assert(sorted@[k + mid] == b);
            }
        }
        BvhBranch { left: BvhChild::Branch(l), right: BvhChild::Branch(r), axis }
    };
    let ghost before = branches@;
    branches.push(branch);
    proof {
        let bs = branches@;
        let j = bs.len() - 1;
        lemma_branches_prefix(before, bs, keys@);
        if n >= 3 {
            if let BvhChild::Branch(l) = branch.left {
                lemma_leaves_prefix(before, bs, l as int);
            }
            if let BvhChild::Branch(r) = branch.right {
                lemma_leaves_prefix(before, bs, r as int);
            }
        } else if n == 2 {
            assert(items@.to_set() =~= set![items[0], items[1]]) by {
                assert forall|y: usize| items@.to_set().contains(y) implies y == items[0] || y == items[1] by {
                    let k = choose|k: int| 0 <= k < items@.len() && items@[k] == y;
                }
                assert(items@[0] == items[0]);
                assert(items@[1] == items[1]);
            }
        } else {
            assert(items@.to_set() =~= set![items[0]]) by {
                assert forall|y: usize| items@.to_set().contains(y) implies y == items[0] by {
                    let k = choose|k: int| 0 <= k < items@.len() && items@[k] == y;
                }
                assert(items@[0] == items[0]);
            }
        }
        assert(child_leaves(bs, bs[j].left) == lo_set);
        assert(child_leaves(bs, bs[j].right) == hi_set);
        assert(lo_set.union(hi_set) =~= items@.to_set());
        items@.unique_seq_to_set();
        assert(leaves(bs, j).len() == n);
        if n == 2 {
            assert(items@[0] != items@[1]);
        }
        assert(split_at_middle(bs, j));
        assert(branch_ok(bs, j, keys@));
    }
    branches.len() - 1
}

impl BvhNode {
    pub open spec fn root(&self) -> int {
        self.branches@.len() - 1
    }

    /// The hierarchy is well formed over `keys`: its arena is not empty, every
    /// child points at a valid surface or an earlier branch, and every branch
    /// is split in key order on its axis.
    pub open spec fn wf(&self, keys: Seq<BoxKeys>) -> bool {
        self.branches@.len() >= 1 && branches_ok(self.branches@, keys)
    }

    /// The surfaces the hierarchy holds.
    pub open spec fn members(&self) -> Set<usize> {
        leaves(self.branches@, self.root())
    }

    /// Builds a hierarchy over surfaces `start..end`, choosing each branch's
    /// axis with `rng`.
    pub fn from(keys: &Vec<BoxKeys>, start: usize, end: usize, rng: &mut StdRng) -> (r: BvhNode)
        requires
            start < end <= keys.len(),
        ensures
            r.wf(keys@),
            r.shaped(),
            r.members() == range_set(start as int, end as int),
    {
        let mut items: Vec<usize> = Vec::new();
        let mut i: usize = start;
        while i < end
            invariant
                start <= i <= end <= keys.len(),
                items.len() == i - start,
                forall|k: int| 0 <= k < items.len() ==> items@[k] == start + k,
            decreases end - i,
        {
            items.push(i);
            i = i + 1;
        }
        proof {
            assert forall|y: usize| items@.to_set().contains(y) <==> range_set(start as int, end as int).contains(y) by {
                if start <= y < end {
                    assert(items@[y - start] == y);
                }
            }
            assert(items@.to_set() =~= range_set(start as int, end as int));
        }
        assert(items@.no_duplicates());
        let mut branches: Vec<BvhBranch> = Vec::new();
        build(&mut branches, &items, keys, rng);
        proof {
            assert forall|j: int| 0 <= j < branches@.len() implies points_back(#[trigger] branches@[j].left, j)
                && points_back(branches@[j].right, j) by {
                assert(branch_ok(branches@, j, keys@));
            }
        }
        BvhNode { branches }
    }

    /// Builds a hierarchy over every surface of the list that `keys` describes.
    pub fn from_list(keys: &Vec<BoxKeys>, rng: &mut StdRng) -> (r: BvhNode)
        requires
            keys.len() >= 1,
        ensures
            r.wf(keys@),
            r.shaped(),
            r.members() == range_set(0, keys.len() as int),
    {
        BvhNode::from(keys, 0, keys.len(), rng)
    }
}

/// Every branch points only at earlier branches.
pub open spec fn well_shaped(bs: Seq<BvhBranch>) -> bool {
    forall|j: int|
        0 <= j < bs.len() ==> points_back(#[trigger] bs[j].left, j) && points_back(bs[j].right, j)
}

pub open spec fn points_back(c: BvhChild, j: int) -> bool {
    match c {
        BvhChild::Surface(_) => true,
        BvhChild::Branch(k) => k < j,
    }
}

/// What a box test of branch `j` answers, given the closest hit so far.
pub open spec fn box_test_follows<R, F: Fn(usize, &Option<R>) -> bool>(
    test: F,
    m: spec_fn(usize, Option<R>) -> bool,
) -> bool {
    forall|j: usize, b: &Option<R>, out: bool| #[trigger] test.ensures((j, b), out) ==> out == m(j, *b)
}

/// What a probe of surface `s` yields, given the closest hit so far.
pub open spec fn surface_probe_follows<R, F: Fn(usize, &Option<R>) -> Option<R>>(
    probe: F,
    m: spec_fn(usize, Option<R>) -> Option<R>,
) -> bool {
    forall|s: usize, b: &Option<R>, out: Option<R>| #[trigger] probe.ensures((s, b), out) ==> out == m(s, *b)
}

/// Traversal of branch `j` with bound `b`: nothing if its box is missed;
/// else the left side under `b`, then the right side under the left's hit
/// (or `b`), and the right's hit if any, else the left's.
pub open spec fn walk<R>(
    bs: Seq<BvhBranch>,
    j: int,
    b: Option<R>,
    bm: spec_fn(usize, Option<R>) -> bool,
    sm: spec_fn(usize, Option<R>) -> Option<R>,
) -> Option<R>
    decreases j,
{
    if 0 <= j < bs.len() && bm(j as usize, b) {
        let left = match bs[j].left {
            BvhChild::Surface(s) => sm(s, b),
            BvhChild::Branch(k) => if k < j {
                walk(bs, k as int, b, bm, sm)
            } else {
                None
            },
        };
        let rb = match left {
            Some(_) => left,
            None => b,
        };
        let right = match bs[j].right {
            BvhChild::Surface(s) => sm(s, rb),
            BvhChild::Branch(k) => if k < j {
                walk(bs, k as int, rb, bm, sm)
            } else {
                None
            },
        };
        match right {
            Some(_) => right,
            None => left,
        }
    } else {
        None
    }
}

pub open spec fn walk_child<R>(
    bs: Seq<BvhBranch>,
    c: BvhChild,
    b: Option<R>,
    bm: spec_fn(usize, Option<R>) -> bool,
    sm: spec_fn(usize, Option<R>) -> Option<R>,
) -> Option<R> {
    match c {
        BvhChild::Surface(s) => sm(s, b),
        BvhChild::Branch(k) => walk(bs, k as int, b, bm, sm),
    }
}

/// What `surface_box` answers for surface `s`.
pub open spec fn surface_box_follows<B, F: Fn(usize) -> Option<B>>(surface_box: F, m: spec_fn(usize) -> Option<B>) -> bool {
    forall|s: usize, out: Option<B>| #[trigger] surface_box.ensures((s,), out) ==> out == m(s)
}

/// What `merge` answers for two boxes.
pub open spec fn merge_follows<B, F: Fn(&B, &B) -> B>(merge: F, m: spec_fn(B, B) -> B) -> bool {
    forall|a: &B, b: &B, out: B| #[trigger] merge.ensures((a, b), out) ==> out == m(*a, *b)
}

/// The box of branch `j`: the union of its children's boxes, where a surface
/// without a box counts as `empty`.
pub open spec fn branch_box<B>(
    bs: Seq<BvhBranch>,
    j: int,
    sb: spec_fn(usize) -> Option<B>,
    um: spec_fn(B, B) -> B,
    empty: B,
) -> B
    decreases j,
{
    if 0 <= j < bs.len() {
        let l = match bs[j].left {
            BvhChild::Surface(s) => match sb(s) {
                Some(x) => x,
                None => empty,
            },
            BvhChild::Branch(k) => if k < j {
                branch_box(bs, k as int, sb, um, empty)
            } else {
                empty
            },
        };
        let r = match bs[j].right {
            BvhChild::Surface(s) => match sb(s) {
                Some(x) => x,
                None => empty,
            },
            BvhChild::Branch(k) => if k < j {
                branch_box(bs, k as int, sb, um, empty)
            } else {
                empty
            },
        };
        um(l, r)
    } else {
        empty
    }
}

impl BvhNode {
    pub open spec fn shaped(&self) -> bool {
        self.branches@.len() >= 1 && well_shaped(self.branches@)
    }

    fn hit_child<R, FB, FS>(
        &self,
        c: BvhChild,
        j: Ghost<int>,
        bound: &Option<R>,
        box_hit: &FB,
        surface_hit: &FS,
    ) -> (r: Option<R>) where FB: Fn(usize, &Option<R>) -> bool, FS: Fn(usize, &Option<R>) -> Option<R>
        requires
            well_shaped(self.branches@),
            points_back(c, j@),
            j@ < self.branches@.len(),
            forall|k: usize, b: &Option<R>| #[trigger] box_hit.requires((k, b)),
            forall|s: usize, b: &Option<R>| #[trigger] surface_hit.requires((s, b)),
        ensures
            forall|bm: spec_fn(usize, Option<R>) -> bool, sm: spec_fn(usize, Option<R>) -> Option<R>|
                #[trigger] box_test_follows(*box_hit, bm) && #[trigger] surface_probe_follows(*surface_hit, sm)
                    ==> r == walk_child(self.branches@, c, *bound, bm, sm),
        decreases j@, 0int,
    {
        match c {
            BvhChild::Surface(s) => {
                let r = surface_hit(s, bound);
                assert forall|bm: spec_fn(usize, Option<R>) -> bool, sm: spec_fn(usize, Option<R>) -> Option<R>|
                    #[trigger] box_test_follows(*box_hit, bm) && #[trigger] surface_probe_follows(*surface_hit, sm)
                    implies r == walk_child(self.branches@, c, *bound, bm, sm) by {
                    assert(surface_hit.ensures((s, bound), r));
                }
                r
            },
            BvhChild::Branch(k) => self.hit_branch(k, bound, box_hit, surface_hit),
        }
    }

    fn hit_branch<R, FB, FS>(
        &self,
        j: usize,
        bound: &Option<R>,
        box_hit: &FB,
        surface_hit: &FS,
    ) -> (r: Option<R>) where FB: Fn(usize, &Option<R>) -> bool, FS: Fn(usize, &Option<R>) -> Option<R>
        requires
            well_shaped(self.branches@),
            j < self.branches@.len(),
            forall|k: usize, b: &Option<R>| #[trigger] box_hit.requires((k, b)),
            forall|s: usize, b: &Option<R>| #[trigger] surface_hit.requires((s, b)),
        ensures
            forall|bm: spec_fn(usize, Option<R>) -> bool, sm: spec_fn(usize, Option<R>) -> Option<R>|
                #[trigger] box_test_follows(*box_hit, bm) && #[trigger] surface_probe_follows(*surface_hit, sm)
                    ==> r == walk(self.branches@, j as int, *bound, bm, sm),
        decreases j, 1int,
    {
        let inside = box_hit(j, bound);
        if !inside {
            assert forall|bm: spec_fn(usize, Option<R>) -> bool, sm: spec_fn(usize, Option<R>) -> Option<R>|
                #[trigger] box_test_follows(*box_hit, bm) && #[trigger] surface_probe_follows(*surface_hit, sm)
                implies None::<R> == walk(self.branches@, j as int, *bound, bm, sm) by {
                assert(box_hit.ensures((j, bound), inside));
            }
            return None;
        }
        let branch = self.branches[j];
        assert(points_back(self.branches@[j as int].left, j as int));
        let left = self.hit_child(branch.left, Ghost(j as int), bound, box_hit, surface_hit);
        let right = match &left {
            Some(_) => self.hit_child(branch.right, Ghost(j as int), &left, box_hit, surface_hit),
            None => self.hit_child(branch.right, Ghost(j as int), bound, box_hit, surface_hit),
        };
        let r = match right {
            Some(rec) => Some(rec),
            None => left,
        };
        assert forall|bm: spec_fn(usize, Option<R>) -> bool, sm: spec_fn(usize, Option<R>) -> Option<R>|
            #[trigger] box_test_follows(*box_hit, bm) && #[trigger] surface_probe_follows(*surface_hit, sm)
            implies r == walk(self.branches@, j as int, *bound, bm, sm) by {
            assert(box_hit.ensures((j, bound), inside));
        }
        r
    }

    fn child_box<B: Copy, FB: Fn(usize) -> Option<B>>(
        c: BvhChild,
        boxes: &Vec<B>,
        surface_box: &FB,
        empty: B,
    ) -> (r: B)
        requires
            forall|s: usize| #[trigger] surface_box.requires((s,)),
            match c {
                BvhChild::Surface(_) => true,
                BvhChild::Branch(k) => k < boxes.len(),
            },
        ensures
            match c {
                BvhChild::Surface(s) => forall|sb: spec_fn(usize) -> Option<B>|
                    #[trigger] surface_box_follows(*surface_box, sb) ==> r == match sb(s) {
                        Some(x) => x,
                        None => empty,
                    },
                BvhChild::Branch(k) => r == boxes[k as int],
            },
    {
        match c {
            BvhChild::Surface(s) => {
                let found = surface_box(s);
                assert(surface_box.ensures((s,), found));
                match found {
                    Some(x) => x,
                    None => empty,
                }
            },
            BvhChild::Branch(k) => boxes[k],
        }
    }

    /// The box of every branch, in arena order: the union of its children's
    /// boxes, where a surface without a box counts as `empty`.
    pub fn bounding_boxes<B: Copy, FB: Fn(usize) -> Option<B>, FU: Fn(&B, &B) -> B>(
        &self,
        surface_box: &FB,
        merge: &FU,
        empty: B,
    ) -> (r: Vec<B>)
        requires
            self.shaped(),
            forall|s: usize| #[trigger] surface_box.requires((s,)),
            forall|a: &B, b: &B| #[trigger] merge.requires((a, b)),
        ensures
            r.len() == self.branches.len(),
            forall|sb: spec_fn(usize) -> Option<B>, um: spec_fn(B, B) -> B|
                #[trigger] surface_box_follows(*surface_box, sb) && #[trigger] merge_follows(*merge, um) ==> forall|j: int|
                    0 <= j < r.len() ==> #[trigger] r[j] == branch_box(self.branches@, j, sb, um, empty),
    {
        let mut boxes: Vec<B> = Vec::new();
        let mut j: usize = 0;
        while j < self.branches.len()
            invariant
                self.shaped(),
                j <= self.branches.len(),
                boxes.len() == j,
                forall|s: usize| #[trigger] surface_box.requires((s,)),
                forall|a: &B, b: &B| #[trigger] merge.requires((a, b)),
                forall|sb: spec_fn(usize) -> Option<B>, um: spec_fn(B, B) -> B|
                    #[trigger] surface_box_follows(*surface_box, sb) && #[trigger] merge_follows(*merge, um) ==> forall|i: int|
                        0 <= i < boxes.len() ==> #[trigger] boxes[i] == branch_box(self.branches@, i, sb, um, empty),
            decreases self.branches.len() - j,
        {
            let branch = self.branches[j];
            assert(points_back(self.branches@[j as int].left, j as int));
            let l = BvhNode::child_box(branch.left, &boxes, surface_box, empty);
            let r = BvhNode::child_box(branch.right, &boxes, surface_box, empty);
            let b = merge(&l, &r);
            let ghost old_boxes = boxes@;
            boxes.push(b);
            assert forall|sb: spec_fn(usize) -> Option<B>, um: spec_fn(B, B) -> B|
                #[trigger] surface_box_follows(*surface_box, sb) && #[trigger] merge_follows(*merge, um) implies forall|i: int|
                    0 <= i < boxes.len() ==> #[trigger] boxes[i] == branch_box(self.branches@, i, sb, um, empty) by {
                assert(merge.ensures((&l, &r), b));
                assert forall|i: int| 0 <= i < boxes.len() implies #[trigger] boxes[i] == branch_box(self.branches@, i, sb, um, empty) by {
                    if i < j {
                        assert(boxes[i] == old_boxes[i]);
                    }
                }
            }
            j = j + 1;
        }
        boxes
    }

    /// The nearest hit below the root. `box_hit` tests a branch's box, and
    /// `surface_hit` one surface, each within the window that the closest hit
    /// so far leaves open.
    pub fn hit<R, FB, FS>(&self, box_hit: &FB, surface_hit: &FS) -> (r: Option<R>) where
        FB: Fn(usize, &Option<R>) -> bool,
        FS: Fn(usize, &Option<R>) -> Option<R>,
        requires
            self.shaped(),
            forall|k: usize, b: &Option<R>| #[trigger] box_hit.requires((k, b)),
            forall|s: usize, b: &Option<R>| #[trigger] surface_hit.requires((s, b)),
        ensures
            forall|bm: spec_fn(usize, Option<R>) -> bool, sm: spec_fn(usize, Option<R>) -> Option<R>|
                #[trigger] box_test_follows(*box_hit, bm) && #[trigger] surface_probe_follows(*surface_hit, sm)
                    ==> r == walk(self.branches@, self.root(), None, bm, sm),
    {
        let none: Option<R> = None;
        self.hit_branch(self.branches.len() - 1, &none, box_hit, surface_hit)
    }
}

} // verus!
