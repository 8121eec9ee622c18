use raytracer::hittable_list::HittableList;

fn merge(a: &(i32, i32), b: &(i32, i32)) -> (i32, i32) {
    (a.0.min(b.0), a.1.max(b.1))
}

#[test]
fn new_list_is_empty_and_push_appends() {
    let mut list: HittableList<u8> = HittableList::new();
    assert!(list.objects.is_empty());
    list.push(3);
    list.push(1);
    assert_eq!(list.objects, vec![3, 1]);
}

#[test]
fn empty_list_has_no_box() {
    let list: HittableList<(i32, i32)> = HittableList::new();
    assert_eq!(list.bounding_box(&|s: &(i32, i32)| Some(*s), &merge), None);
}

#[test]
fn box_is_the_union_of_members() {
    let mut list = HittableList::new();
    list.push((0, 2));
    list.push((-3, 1));
    list.push((1, 8));
    assert_eq!(list.bounding_box(&|s: &(i32, i32)| Some(*s), &merge), Some((-3, 8)));
}

#[test]
fn one_unbounded_member_leaves_no_box() {
    let mut list = HittableList::new();
    list.push(Some((0, 2)));
    list.push(None);
    list.push(Some((1, 8)));
    assert_eq!(list.bounding_box(&|s: &Option<(i32, i32)>| *s, &merge), None);
}

#[test]
fn later_equal_hit_replaces_earlier() {
    // each member hits at its value when that is within the bound
    let mut list = HittableList::new();
    list.push((4, 'a'));
    list.push((2, 'b'));
    list.push((2, 'c'));
    list.push((3, 'd'));
    let probe = |s: &(i32, char), best: &Option<(i32, char)>| {
        let limit = best.map_or(i32::MAX, |b| b.0);
        if s.0 <= limit {
            Some(*s)
        } else {
            None
        }
    };
    assert_eq!(list.hit(&probe), Some((2, 'c')));
}

#[test]
fn strict_probe_keeps_the_earlier_of_equal_hits() {
    let mut list = HittableList::new();
    list.push((4, 'a'));
    list.push((2, 'b'));
    list.push((2, 'c'));
    list.push((3, 'd'));
    let probe = |s: &(i32, char), best: &Option<(i32, char)>| match best {
        Some(b) if s.0 >= b.0 => None,
        _ => Some(*s),
    };
    assert_eq!(list.hit(&probe), Some((2, 'b')));
}

#[test]
fn nothing_hit_gives_none() {
    let mut list = HittableList::new();
    list.push(1u8);
    list.push(2u8);
    let probe = |_: &u8, _: &Option<u8>| None::<u8>;
    assert_eq!(list.hit(&probe), None);
}
