use bit_set::BitSet;
use cocorust::tab::Sets;

fn set_of(items: &[usize]) -> BitSet {
    let mut s = BitSet::new();
    for i in items {
        s.insert(*i);
    }
    s
}

#[test]
fn elements_counts_members() {
    assert_eq!(Sets::elements(&BitSet::new()), 0);
    assert_eq!(Sets::elements(&set_of(&[0, 3, 64, 65, 1000])), 5);
    assert_eq!(Sets::elements(&set_of(&[7, 7, 7])), 1);
}

#[test]
fn equals_ignores_capacity() {
    let a = set_of(&[1, 2, 3]);
    let mut b = BitSet::with_capacity(4096);
    b.insert(3);
    b.insert(2);
    b.insert(1);
    assert!(Sets::equals(&a, &b));
    assert!(Sets::equals(&b, &a));
    b.insert(4000);
    assert!(!Sets::equals(&a, &b));
    b.remove(4000);
    assert!(Sets::equals(&a, &b));
    assert!(Sets::equals(&BitSet::new(), &BitSet::with_capacity(100)));
}

#[test]
fn intersects_looks_for_a_shared_member() {
    let a = set_of(&[1, 5, 200]);
    assert!(Sets::intersects(&a, &set_of(&[200])));
    assert!(Sets::intersects(&a, &set_of(&[0, 5, 6])));
    assert!(!Sets::intersects(&a, &set_of(&[0, 2, 199, 201])));
    assert!(!Sets::intersects(&a, &BitSet::new()));
    assert!(!Sets::intersects(&BitSet::new(), &a));
    assert!(!Sets::intersects(&set_of(&[3]), &set_of(&[300])));
    assert!(Sets::intersects(&set_of(&[300, 3]), &set_of(&[300])));
}

#[test]
fn subtract_takes_members_out() {
    let mut a = set_of(&[1, 2, 3, 100]);
    Sets::subtract(&mut a, &set_of(&[2, 100, 500]));
    assert!(Sets::equals(&a, &set_of(&[1, 3])));
    assert_eq!(Sets::elements(&a), 2);
    assert!(a.contains(1));
    assert!(!a.contains(2));
    let same = a.clone();
    Sets::subtract(&mut a, &same);
    assert_eq!(Sets::elements(&a), 0);
    let mut b = set_of(&[9]);
    Sets::subtract(&mut b, &BitSet::new());
    assert!(Sets::equals(&b, &set_of(&[9])));
}
