//! A flat list of surfaces and its closest-hit scan.
use vstd::prelude::*;

verus! {

/// What a probe of one surface yields, given the closest hit found so far
/// (`None`: the caller's own upper bound stands). The probe accepts a hit
/// only up to that bound.
pub open spec fn probe_follows<S, R, F: Fn(&S, &Option<R>) -> Option<R>>(
    probe: F,
    m: spec_fn(S, Option<R>) -> Option<R>,
) -> bool {
    forall|s: &S, b: &Option<R>, out: Option<R>| #[trigger] probe.ensures((s, b), out) ==> out == m(*s, *b)
}

/// The closest-hit scan over the first `n` members: each member is probed
/// with the latest accepted hit as bound, and an accepted hit replaces it.
pub open spec fn scan<S, R>(objs: Seq<S>, n: int, m: spec_fn(S, Option<R>) -> Option<R>) -> Option<R>
    decreases n,
{
    if n <= 0 {
        None
    } else {
        let prev = scan(objs, n - 1, m);
        match m(objs[n - 1], prev) {
            Some(r) => Some(r),
            None => prev,
        }
    }
}

/// What `box_of` answers for a surface.
pub open spec fn box_follows<S, B, F: Fn(&S) -> Option<B>>(box_of: F, m: spec_fn(S) -> Option<B>) -> bool {
    forall|s: &S, out: Option<B>| #[trigger] box_of.ensures((s,), out) ==> out == m(*s)
}

/// What `union` answers for two boxes.
pub open spec fn union_follows<B, F: Fn(&B, &B) -> B>(merge: F, m: spec_fn(B, B) -> B) -> bool {
    forall|a: &B, b: &B, out: B| #[trigger] merge.ensures((a, b), out) ==> out == m(*a, *b)
}

/// The box of the first `n` members: nothing for no members or when one of
/// them has no box, else the union of their boxes, taken in order.
pub open spec fn list_box<S, B>(
    objs: Seq<S>,
    n: int,
    bm: spec_fn(S) -> Option<B>,
    um: spec_fn(B, B) -> B,
) -> Option<B>
    decreases n,
{
    if n <= 0 {
        None
    } else if n == 1 {
        bm(objs[0])
    } else {
        match (list_box(objs, n - 1, bm, um), bm(objs[n - 1])) {
            (Some(acc), Some(b)) => Some(um(acc, b)),
            _ => None,
        }
    }
}

proof fn lemma_list_box_none<S, B>(objs: Seq<S>, n: int, bm: spec_fn(S) -> Option<B>, um: spec_fn(B, B) -> B)
    requires
        0 <= n <= objs.len(),
    ensures
        list_box(objs, n, bm, um).is_none() <==> (n == 0 || exists|i: int|
            0 <= i < n && (#[trigger] bm(objs[i])).is_none()),
    decreases n,
{
    if n > 1 {
        lemma_list_box_none(objs, n - 1, bm, um);
        if list_box(objs, n - 1, bm, um).is_none() && n - 1 != 0 {
            let i = choose|i: int| 0 <= i < n - 1 && (#[trigger] bm(objs[i])).is_none();
            assert(0 <= i < n);
        }
        if bm(objs[n - 1]).is_none() {
            assert(0 <= n - 1 < n);
        }
    } else if n == 1 {
        if bm(objs[0]).is_none() {
            assert(0 <= 0 < n);
        }
    }
}

/// Surfaces in insertion order.
pub struct HittableList<S> {
    pub objects: Vec<S>,
}

impl<S> HittableList<S> {
    pub fn new() -> (r: Self)
        ensures
            r.objects@.len() == 0,
    {
        HittableList { objects: Vec::new() }
    }

    pub fn push(&mut self, object: S)
        ensures
            final(self).objects@ == old(self).objects@.push(object),
    {
        self.objects.push(object);
    }

    /// The closest hit among the members. `probe` tests one member against
    /// the closest hit so far, which narrows the window of the test.
    pub fn hit<R, F: Fn(&S, &Option<R>) -> Option<R>>(&self, probe: &F) -> (r: Option<R>)
        requires
            forall|s: &S, b: &Option<R>| #[trigger] probe.requires((s, b)),
        ensures
            forall|m: spec_fn(S, Option<R>) -> Option<R>|
                #[trigger] probe_follows(*probe, m) ==> r == scan(self.objects@, self.objects@.len() as int, m),
    {
        let mut record: Option<R> = None;
        let mut i: usize = 0;
        while i < self.objects.len()
            invariant
                i <= self.objects.len(),
                forall|s: &S, b: &Option<R>| #[trigger] probe.requires((s, b)),
                forall|m: spec_fn(S, Option<R>) -> Option<R>|
                    #[trigger] probe_follows(*probe, m) ==> record == scan(self.objects@, i as int, m),
            decreases self.objects.len() - i,
        {
            let found = probe(&self.objects[i], &record);
            let ghost prev = record;
            match found {
                Some(rec) => {
                    record = Some(rec);
                },
                None => {},
            }
            assert forall|m: spec_fn(S, Option<R>) -> Option<R>|
                #[trigger] probe_follows(*probe, m) implies record == scan(self.objects@, i + 1, m) by {
                assert(probe.ensures((&self.objects[i as int], &prev), found));
            }
            i = i + 1;
        }
        record
    }

    /// The box around every member, or nothing when the list is empty or a
    /// member has no box.
    pub fn bounding_box<B, FB: Fn(&S) -> Option<B>, FU: Fn(&B, &B) -> B>(
        &self,
        box_of: &FB,
        merge: &FU,
    ) -> (r: Option<B>)
        requires
            forall|s: &S| #[trigger] box_of.requires((s,)),
            forall|p: &B, q: &B| #[trigger] merge.requires((p, q)),
        ensures
            forall|bm: spec_fn(S) -> Option<B>, um: spec_fn(B, B) -> B|
                #[trigger] box_follows(*box_of, bm) && #[trigger] union_follows(*merge, um) ==> {
                    &&& r == list_box(self.objects@, self.objects@.len() as int, bm, um)
                    &&& r.is_none() <==> (self.objects@.len() == 0 || exists|i: int|
                        0 <= i < self.objects@.len() && (#[trigger] bm(self.objects@[i])).is_none())
                },
    {
        let n = self.objects.len();
        if n == 0 {
            proof {
                assert forall|bm: spec_fn(S) -> Option<B>, um: spec_fn(B, B) -> B|
                    #[trigger] box_follows(*box_of, bm) && #[trigger] union_follows(*merge, um) implies
                    list_box(self.objects@, 0, bm, um).is_none() by {
                }
            }
            return None;
        }
        let first = box_of(&self.objects[0]);
        let mut out_box: B = match first {
            Some(b) => b,
            None => {
                proof {
                    assert forall|bm: spec_fn(S) -> Option<B>, um: spec_fn(B, B) -> B|
                        #[trigger] box_follows(*box_of, bm) && #[trigger] union_follows(*merge, um) implies {
                        &&& None::<B> == list_box(self.objects@, self.objects@.len() as int, bm, um)
                        &&& (self.objects@.len() == 0 || exists|i: int|
                            0 <= i < self.objects@.len() && (#[trigger] bm(self.objects@[i])).is_none())
                    } by {
                        assert(box_of.ensures((&self.objects[0],), first));
                        assert(bm(self.objects@[0]).is_none());
                        lemma_list_box_none(self.objects@, self.objects@.len() as int, bm, um);
                    }
                }
                return None;
            },
        };
        let mut i: usize = 1;
        while i < n
            invariant
                1 <= i <= n == self.objects.len(),
                forall|s: &S| #[trigger] box_of.requires((s,)),
                forall|p: &B, q: &B| #[trigger] merge.requires((p, q)),
                forall|bm: spec_fn(S) -> Option<B>, um: spec_fn(B, B) -> B|
                    #[trigger] box_follows(*box_of, bm) && #[trigger] union_follows(*merge, um) ==> list_box(
                        self.objects@,
                        i as int,
                        bm,
                        um,
                    ) == Some(out_box),
            decreases n - i,
        {
            let next = box_of(&self.objects[i]);
            match next {
                Some(bx) => {
                    let prev = out_box;
                    out_box = merge(&prev, &bx);
                    assert forall|bm: spec_fn(S) -> Option<B>, um: spec_fn(B, B) -> B|
                        #[trigger] box_follows(*box_of, bm) && #[trigger] union_follows(*merge, um) implies list_box(
                        self.objects@,
                        i + 1,
                        bm,
                        um,
                    ) == Some(out_box) by {
                        assert(box_of.ensures((&self.objects[i as int],), next));
                        assert(merge.ensures((&prev, &bx), out_box));
                    }
                },
                None => {
                    proof {
                        assert forall|bm: spec_fn(S) -> Option<B>, um: spec_fn(B, B) -> B|
                            #[trigger] box_follows(*box_of, bm) && #[trigger] union_follows(*merge, um) implies {
                            &&& None::<B> == list_box(self.objects@, self.objects@.len() as int, bm, um)
                            &&& (self.objects@.len() == 0 || exists|k: int|
                                0 <= k < self.objects@.len() && (#[trigger] bm(self.objects@[k])).is_none())
                        } by {
                            assert(box_of.ensures((&self.objects[i as int],), next));
                            assert(bm(self.objects@[i as int]).is_none());
                            lemma_list_box_none(self.objects@, self.objects@.len() as int, bm, um);
                        }
                    }
                    return None;
                },
            }
            i = i + 1;
        }
        proof {
            assert forall|bm: spec_fn(S) -> Option<B>, um: spec_fn(B, B) -> B|
                #[trigger] box_follows(*box_of, bm) && #[trigger] union_follows(*merge, um) implies
                !(self.objects@.len() == 0 || exists|k: int|
                    0 <= k < self.objects@.len() && (#[trigger] bm(self.objects@[k])).is_none()) by {
                lemma_list_box_none(self.objects@, self.objects@.len() as int, bm, um);
            }
        }
        Some(out_box)
    }
}

} // verus!
