//! Axis-aligned boxes whose bounds are binary64 values held as bit patterns,
//! and their union.
use crate::order::{
    bits_are_nan, double_eq, double_lt, is_nan, lemma_order_key_matches_double_order, order_key,
};
use vstd::prelude::*;

verus! {

/// A point whose coordinates are binary64 bit patterns.
#[derive(Clone, Copy, Debug, PartialEq, Eq, Structural)]
pub struct Corner {
    pub x: u64,
    pub y: u64,
    pub z: u64,
}

impl Corner {
    pub open spec fn spec_on(self, axis: int) -> u64 {
        if axis == 0 {
            self.x
        } else if axis == 1 {
            self.y
        } else {
            self.z
        }
    }
}

/// A box from `min` to `max`.
#[derive(Clone, Copy, Debug, PartialEq, Eq, Structural)]
pub struct Aabb {
    pub min: Corner,
    pub max: Corner,
}

/// `a <= b` as binary64 numbers.
pub open spec fn double_le(a: u64, b: u64) -> bool {
    double_lt(a, b) || double_eq(a, b)
}

/// The smaller of two values, NaN giving way to the other value.
pub open spec fn min_spec(a: u64, b: u64) -> u64 {
    if is_nan(a) {
        b
    } else if is_nan(b) {
        a
    } else if double_lt(b, a) {
        b
    } else {
        a
    }
}

/// The larger of two values, NaN giving way to the other value.
pub open spec fn max_spec(a: u64, b: u64) -> u64 {
    if is_nan(a) {
        b
    } else if is_nan(b) {
        a
    } else if double_lt(a, b) {
        b
    } else {
        a
    }
}

/// `inner` lies within `outer` on every axis.
pub open spec fn contains(outer: Aabb, inner: Aabb) -> bool {
    forall|axis: int|
        0 <= axis < 3 ==> double_le(outer.min.spec_on(axis), #[trigger] inner.min.spec_on(axis))
            && double_le(inner.max.spec_on(axis), outer.max.spec_on(axis))
}

/// No bound of the box is NaN.
pub open spec fn no_nan(b: Aabb) -> bool {
    &&& !is_nan(b.min.x) && !is_nan(b.min.y) && !is_nan(b.min.z)
    &&& !is_nan(b.max.x) && !is_nan(b.max.y) && !is_nan(b.max.z)
}

fn min_bits(a: u64, b: u64) -> (r: u64)
    ensures
        r == min_spec(a, b),
{
    if bits_are_nan(a) {
        b
    } else if bits_are_nan(b) {
        a
    } else {
        proof {
            lemma_order_key_matches_double_order(b, a);
        }
        if order_key(b) < order_key(a) {
            b
        } else {
            a
        }
    }
}

fn max_bits(a: u64, b: u64) -> (r: u64)
    ensures
        r == max_spec(a, b),
{
    if bits_are_nan(a) {
        b
    } else if bits_are_nan(b) {
        a
    } else {
        proof {
            lemma_order_key_matches_double_order(a, b);
        }
        if order_key(a) < order_key(b) {
            b
        } else {
            a
        }
    }
}

impl Aabb {
    /// The box with both corners at the origin.
    pub fn new() -> (r: Aabb)
        ensures
            r.min == (Corner { x: 0, y: 0, z: 0 }),
            r.max == (Corner { x: 0, y: 0, z: 0 }),
    {
        Aabb { min: Corner { x: 0, y: 0, z: 0 }, max: Corner { x: 0, y: 0, z: 0 } }
    }

    pub fn from(a: Corner, b: Corner) -> (r: Aabb)
        ensures
            r.min == a,
            r.max == b,
    {
        Aabb { min: a, max: b }
    }
}

impl Default for Aabb {
    fn default() -> (r: Aabb)
        ensures
            r.min == (Corner { x: 0, y: 0, z: 0 }),
            r.max == (Corner { x: 0, y: 0, z: 0 }),
    {
        Aabb::new()
    }
}

/// The box around two boxes: the smaller minimum and the larger maximum on
/// each axis.
pub open spec fn surrounding_box_spec(box0: Aabb, box1: Aabb) -> Aabb {
    Aabb {
        min: Corner {
            x: min_spec(box0.min.x, box1.min.x),
            y: min_spec(box0.min.y, box1.min.y),
            z: min_spec(box0.min.z, box1.min.z),
        },
        max: Corner {
            x: max_spec(box0.max.x, box1.max.x),
            y: max_spec(box0.max.y, box1.max.y),
            z: max_spec(box0.max.z, box1.max.z),
        },
    }
}

pub fn surrounding_box(box0: Aabb, box1: Aabb) -> (r: Aabb)
    ensures
        r == surrounding_box_spec(box0, box1),
{
    let small = Corner {
        x: min_bits(box0.min.x, box1.min.x),
        y: min_bits(box0.min.y, box1.min.y),
        z: min_bits(box0.min.z, box1.min.z),
    };
    let big = Corner {
        x: max_bits(box0.max.x, box1.max.x),
        y: max_bits(box0.max.y, box1.max.y),
        z: max_bits(box0.max.z, box1.max.z),
    };
    Aabb::from(small, big)
}

proof fn lemma_min_max_bound(a: u64, b: u64)
    requires
        !is_nan(a),
        !is_nan(b),
    ensures
        double_le(min_spec(a, b), a),
        double_le(min_spec(a, b), b),
        double_le(a, max_spec(a, b)),
        double_le(b, max_spec(a, b)),
{
    lemma_order_key_matches_double_order(a, b);
    lemma_order_key_matches_double_order(b, a);
    lemma_order_key_matches_double_order(a, a);
    lemma_order_key_matches_double_order(b, b);
}

/// The union of two boxes without NaN bounds contains both of them.
pub proof fn lemma_surrounding_box_contains(box0: Aabb, box1: Aabb)
    requires
        no_nan(box0),
        no_nan(box1),
    ensures
        contains(surrounding_box_spec(box0, box1), box0),
        contains(surrounding_box_spec(box0, box1), box1),
{
    let r = surrounding_box_spec(box0, box1);
    lemma_min_max_bound(box0.min.x, box1.min.x);
    lemma_min_max_bound(box0.min.y, box1.min.y);
    lemma_min_max_bound(box0.min.z, box1.min.z);
    lemma_min_max_bound(box0.max.x, box1.max.x);
    lemma_min_max_bound(box0.max.y, box1.max.y);
    lemma_min_max_bound(box0.max.z, box1.max.z);
    assert forall|axis: int| 0 <= axis < 3 implies double_le(r.min.spec_on(axis), #[trigger] box0.min.spec_on(axis))
        && double_le(box0.max.spec_on(axis), r.max.spec_on(axis)) by {
    }
    assert forall|axis: int| 0 <= axis < 3 implies double_le(r.min.spec_on(axis), #[trigger] box1.min.spec_on(axis))
        && double_le(box1.max.spec_on(axis), r.max.spec_on(axis)) by {
    }
}

} // verus!
