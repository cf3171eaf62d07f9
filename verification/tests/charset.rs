use cocorust::dfa::{CharSet, Range, MAX_CHAR};

fn range(from: i32, to: i32) -> CharSet {
    let mut s = CharSet::new();
    let mut i = from;
    while i <= to {
        s.set(i);
        i += 1;
    }
    s
}

fn members(s: &CharSet, from: i32, to: i32) -> Vec<i32> {
    (from..=to).filter(|i| s.get(*i)).collect()
}

#[test]
fn range_new_keeps_both_ends() {
    let r = Range::new(3, 9);
    assert_eq!(r.from, 3);
    assert_eq!(r.to, 9);
}

#[test]
fn empty_set_answers_nothing() {
    let s = CharSet::new();
    assert!(!s.get(0));
    assert!(!s.get(65));
    assert!(!s.get(MAX_CHAR));
    assert_eq!(s.elements(), 0);
    assert_eq!(s.first(), -1);
    let other = CharSet::new();
    assert!(s.equals(&other));
    assert!(s.includes(&other));
    assert!(!s.intersects(&other));
}

#[test]
fn three_insertions_make_one_interval() {
    let mut s = CharSet::new();
    s.set(5);
    s.set(7);
    assert_eq!(s.elements(), 2);
    assert!(!s.get(6));
    s.set(6);
    assert_eq!(s.elements(), 3);
    assert!(s.get(5));
    assert!(s.get(6));
    assert!(s.get(7));
    assert!(!s.get(8));
    assert!(!s.get(4));
    assert_eq!(s.first(), 5);
    assert!(s.equals(&range(5, 7)));
}

#[test]
fn setting_a_covered_point_changes_nothing() {
    let mut s = range(10, 20);
    let before = s.clone();
    s.set(15);
    s.set(10);
    s.set(20);
    assert!(s.equals(&before));
    assert!(before.equals(&s));
    assert_eq!(s.elements(), 11);
}

#[test]
fn insertion_order_does_not_matter() {
    let mut a = CharSet::new();
    for i in [9, 1, 5, 3, 7, 2, 8, 4, 6] {
        a.set(i);
    }
    let b = range(1, 9);
    assert!(a.equals(&b));
    assert_eq!(a.elements(), 9);
    assert_eq!(members(&a, 0, 12), vec![1, 2, 3, 4, 5, 6, 7, 8, 9]);
}

#[test]
fn get_agrees_with_inserted_points() {
    let points = [40, 2, 41, 1000, 3, 0, 42, 999, 1114111, 5];
    let mut s = CharSet::new();
    for p in points {
        s.set(p);
    }
    for i in 0..1100 {
        assert_eq!(s.get(i), points.contains(&i));
    }
    assert!(s.get(1114111));
    assert!(!s.get(1114110));
    assert_eq!(s.elements(), 10);
    assert_eq!(s.first(), 0);
}

#[test]
fn growing_an_interval_downwards_and_upwards() {
    let mut s = range(10, 12);
    s.set(9);
    assert_eq!(members(&s, 0, 20), vec![9, 10, 11, 12]);
    s.set(13);
    assert_eq!(members(&s, 0, 20), vec![9, 10, 11, 12, 13]);
    s.set(20);
    s.set(0);
    assert_eq!(members(&s, 0, 20), vec![0, 9, 10, 11, 12, 13, 20]);
    assert_eq!(s.elements(), 7);
    assert_eq!(s.first(), 0);
}

#[test]
fn letters_and_upper_half() {
    let a = 'a' as i32;
    let l = 'l' as i32;
    let m = 'm' as i32;
    let z = 'z' as i32;
    let mut both = range(a, z);
    both.and(&range(m, z));
    assert!(both.equals(&range(m, z)));
    assert_eq!(both.elements(), 14);
    let mut rest = range(a, z);
    rest.subtract(&range(m, z));
    assert!(rest.equals(&range(a, l)));
    assert_eq!(rest.elements(), 12);
    assert_eq!(rest.first(), a);
    assert!(!rest.get(m));
    assert!(rest.get(l));
}

#[test]
fn union_joins_neighbours() {
    let mut s = range(1, 3);
    s.or(&range(4, 6));
    assert!(s.equals(&range(1, 6)));
    let mut t = range(10, 12);
    t.or(&range(20, 22));
    t.or(&range(13, 19));
    assert!(t.equals(&range(10, 22)));
    assert_eq!(t.elements(), 13);
}

#[test]
fn a_set_with_itself() {
    let mut x = range(3, 8);
    x.set(20);
    x.set(30);
    let mut same = x.clone();
    let mut y = x.clone();
    y.or(&same);
    assert!(y.equals(&x));
    let mut z = x.clone();
    z.and(&same);
    assert!(z.equals(&x));
    let mut w = x.clone();
    w.subtract(&same);
    assert_eq!(w.elements(), 0);
    assert_eq!(w.first(), -1);
    assert!(w.equals(&CharSet::new()));
    let copy = same.clone();
    assert!(same.equals(&copy));
}

#[test]
fn cardinality_after_mixed_operations() {
    let mut s = range(0, 99);
    s.subtract(&range(10, 19));
    assert_eq!(s.elements(), 90);
    s.and(&range(5, 50));
    assert_eq!(s.elements(), 36);
    s.or(&range(45, 60));
    assert_eq!(s.elements(), 46);
    assert_eq!(members(&s, 0, 100).len(), 46);
    assert_eq!(s.first(), 5);
}

#[test]
fn includes_exactly_if_nothing_is_left() {
    let big = range(10, 40);
    let mut inside = range(12, 15);
    inside.set(40);
    let mut across = range(35, 45);
    across.set(12);
    assert!(big.includes(&inside));
    let mut left = inside.clone();
    left.subtract(&big);
    assert_eq!(left.elements(), 0);
    assert!(!big.includes(&across));
    let mut left = across.clone();
    left.subtract(&big);
    assert_eq!(left.elements(), 5);
    assert!(left.equals(&range(41, 45)));
    assert!(big.includes(&CharSet::new()));
    assert!(!CharSet::new().includes(&big));
}

#[test]
fn intersects_needs_a_common_point() {
    let a = range(10, 20);
    assert!(a.intersects(&range(20, 30)));
    assert!(!a.intersects(&range(21, 30)));
    assert!(a.intersects(&range(0, 10)));
    assert!(!a.intersects(&range(0, 9)));
    assert!(!a.intersects(&CharSet::new()));
}

#[test]
fn clone_is_equal_and_independent() {
    let mut a = range(1, 5);
    let mut b = a.clone();
    assert!(a.equals(&b));
    b.set(9);
    assert!(!a.equals(&b));
    assert!(!a.get(9));
    assert_eq!(a.elements(), 5);
    assert_eq!(b.elements(), 6);
}

#[test]
fn equals_tells_sets_apart() {
    assert!(!range(1, 5).equals(&range(1, 6)));
    assert!(!range(1, 5).equals(&range(2, 5)));
    let mut two = range(1, 2);
    two.set(4);
    two.set(5);
    assert!(!two.equals(&range(1, 5)));
    two.set(3);
    assert!(two.equals(&range(1, 5)));
}

#[test]
fn fill_spans_every_code_point() {
    let mut s = range(100, 200);
    s.fill();
    assert_eq!(s.elements(), 0x110000);
    assert_eq!(s.first(), 0);
    assert!(s.get(0));
    assert!(s.get(char::MAX as i32));
    assert!(!s.get(char::MAX as i32 + 1));
    assert!(!s.get(-1));
    assert!(s.includes(&range(0, 300)));
    assert_eq!(MAX_CHAR, char::MAX as i32);
}

#[test]
fn get_outside_the_code_points_is_false() {
    let s = range(0, 10);
    assert!(!s.get(-1));
    assert!(!s.get(i32::MIN));
    assert!(!s.get(i32::MAX));
}

#[test]
fn joining_at_both_ends_of_the_code_points() {
    let mut s = CharSet::new();
    s.set(MAX_CHAR);
    s.set(0);
    s.set(MAX_CHAR - 1);
    s.set(1);
    assert_eq!(s.elements(), 4);
    assert_eq!(s.first(), 0);
    assert!(s.get(MAX_CHAR - 1));
    assert!(!s.get(2));
}
