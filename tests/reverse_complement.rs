use handlegraph2::util::{reverse_complement, reverse_complement_char, reverse_complement_inplace};

#[test]
fn reverse_complement_table_entries() {
    assert_eq!(reverse_complement_char(43), 36);
    assert_eq!(reverse_complement_char(73), 84);
    assert_eq!(reverse_complement_char(129), 114);
    assert_eq!(reverse_complement_char(b'A'), 78);
    assert_eq!(reverse_complement_char(0), 78);
}

#[test]
fn reverse_complement_reverses_and_maps() {
    assert_eq!(reverse_complement(&[43, 73, 0]), vec![78, 84, 36]);
    assert_eq!(reverse_complement(&[]), Vec::<u8>::new());
}

#[test]
fn reverse_complement_in_place_matches() {

    for input in [vec![43u8, 73, 0], vec![], vec![105u8], vec![43u8, 44, 53, 73]] {
        let mut v = input.clone();
        reverse_complement_inplace(&mut v);
        assert_eq!(v, reverse_complement(&input));
    }
}
