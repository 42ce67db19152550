use bloodhound::matching::fragment::Fragment;

#[test]
pub fn next_index_returns_initial_index_plus_length() {
    assert_eq!(Fragment::new(10).next_index(), 11);
}

#[test]
pub fn increase_length_increments_next_index_value() {
    let mut fragment = Fragment::new(10);
    fragment.increase_length();
    assert_eq!(fragment.next_index(), 12);
}

#[test]
fn new_fragment_has_length_one() {
    let fragment = Fragment::new(7);
    assert_eq!(fragment.length, 1);
    assert_eq!(fragment.index, 7);
}

#[test]
fn increase_length_leaves_the_start_alone() {
    let mut fragment = Fragment::new(0);
    fragment.increase_length();
    fragment.increase_length();
    assert_eq!(fragment.length, 3);
    assert_eq!(fragment.index, 0);
    assert_eq!(fragment.next_index(), 3);
}
