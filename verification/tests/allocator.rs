use anybase::allocate;
use std::collections::HashSet;

fn set_of(items: &[usize]) -> HashSet<usize> {
    let mut s = HashSet::new();
    for &i in items {
        s.insert(i);
    }
    s
}

#[test]
fn test_allocate_after_contiguous_block() {
    assert_eq!(allocate(&set_of(&[1, 2, 3])), 4);
}

#[test]
fn test_allocate_finds_gap() {
    assert_eq!(allocate(&set_of(&[1, 3])), 2);
    assert_eq!(allocate(&set_of(&[1, 2, 4])), 3);
}

#[test]
fn test_allocate_empty_set() {
    assert_eq!(allocate(&set_of(&[])), 1);
}

#[test]
fn test_allocate_ignores_zero() {
    // 0 is not an ordinal, so its presence changes nothing.
    assert_eq!(allocate(&set_of(&[0])), 1);
    assert_eq!(allocate(&set_of(&[0, 1, 2])), 3);
}
