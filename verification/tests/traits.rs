use seqtree::{Info, PathInfo, SubOrd, SupOrd};
use std::cmp::Ordering;

#[test]
fn count_gathers_by_addition() {
    assert_eq!(3usize.gather(4), 7);
    assert_eq!(0usize.gather(0), 0);
    assert_eq!(4usize.gather(3), 3usize.gather(4));
    assert_eq!(1usize.gather(2).gather(3), 1usize.gather(2usize.gather(3)));
}

#[test]
fn count_gathers_modulo_the_word() {
    assert_eq!(usize::MAX.gather(1), 0);
    assert_eq!(usize::MAX.gather(usize::MAX), usize::MAX - 1);
}

#[test]
fn unit_gathers_to_unit() {
    assert_eq!(().gather(()), ());
}

#[test]
fn offset_extends_by_addition() {
    assert_eq!(PathInfo::<usize>::extend(10usize, 5), 15);
    assert_eq!(PathInfo::<usize>::extend_inv(15usize, 5), 10);
    assert_eq!(<usize as PathInfo<usize>>::identity(), 0);
    assert_eq!(PathInfo::<usize>::extend(usize::MAX, 2), 1);
    assert_eq!(PathInfo::<usize>::extend_inv(1usize, 2), usize::MAX);
}

#[test]
fn offset_extend_inv_undoes_extend() {
    for c0 in [0usize, 1, 17, usize::MAX - 1, usize::MAX] {
        for x in [0usize, 1, 5, usize::MAX / 2, usize::MAX] {
            let there = PathInfo::<usize>::extend(c0, x);
            assert_eq!(PathInfo::<usize>::extend_inv(there, x), c0);
        }
        let zero = <usize as PathInfo<usize>>::identity();
        assert_eq!(PathInfo::<usize>::extend(c0, zero), c0);
    }
}

#[test]
fn unit_path_info_stays_unit() {
    assert_eq!(PathInfo::<usize>::extend((), 5), ());
    assert_eq!(PathInfo::<usize>::extend_inv((), 5), ());
    assert_eq!(<() as PathInfo<usize>>::identity(), ());
    assert_eq!(PathInfo::<()>::extend((), ()), ());
}

#[test]
fn ordered_values_compare_as_substructures_of_themselves() {
    assert_eq!(3u32.sub_cmp(&5), Ordering::Less);
    assert_eq!(5u32.sub_cmp(&5), Ordering::Equal);
    assert_eq!(7u32.sub_cmp(&5), Ordering::Greater);
    assert_eq!("a".sub_cmp(&"b"), Ordering::Less);
    assert_eq!(3u32.sup_cmp(&5), Ordering::Less);
    assert_eq!(5u32.sup_cmp(&5), Ordering::Equal);
    assert_eq!(7u32.sup_cmp(&5), Ordering::Greater);
}

struct Point {
    line: u32,
    column: u32,
}

struct Line(u32);

impl SubOrd<Point> for Line {
    fn obeys_sub_cmp_spec() -> bool {
        true
    }

    fn sub_cmp_spec(&self, rhs: &Point) -> Ordering {
        self.0.cmp(&rhs.line)
    }

    fn sub_cmp(&self, rhs: &Point) -> Ordering {
        self.0.cmp(&rhs.line)
    }
}

#[test]
fn superstructure_order_mirrors_substructure_order() {
    let point = Point { line: 4, column: 9 };
    assert_eq!(point.column, 9);
    assert_eq!(Line(3).sub_cmp(&point), Ordering::Less);
    assert_eq!(Line(4).sub_cmp(&point), Ordering::Equal);
    assert_eq!(Line(5).sub_cmp(&point), Ordering::Greater);
    assert_eq!(point.sup_cmp(&Line(3)), Ordering::Greater);
    assert_eq!(point.sup_cmp(&Line(4)), Ordering::Equal);
    assert_eq!(point.sup_cmp(&Line(5)), Ordering::Less);
}
