use minesweeper::utils::{num_to_str_cord_name, str_cord_name_to_num};

#[test]
fn column_labels_of_small_indices() {
    assert_eq!(num_to_str_cord_name(0), "a");
    assert_eq!(num_to_str_cord_name(1), "b");
    assert_eq!(num_to_str_cord_name(25), "z");
}

#[test]
fn column_labels_of_larger_indices() {
    // Plain base-26 digits: 26 is (1, 0), 52 is (2, 0), 675 is (25, 25).
    assert_eq!(num_to_str_cord_name(26), "ba");
    assert_eq!(num_to_str_cord_name(52), "ca");
    assert_eq!(num_to_str_cord_name(675), "zz");
}

#[test]
fn parsing_single_letters() {
    assert_eq!(str_cord_name_to_num(String::from("a")), Ok(0));
    assert_eq!(str_cord_name_to_num(String::from("k")), Ok(10));
    assert_eq!(str_cord_name_to_num(String::from("z")), Ok(25));
}

#[test]
fn parsing_counts_leading_letters_from_one() {
    // Bijective base-26: "aa" follows "z".
    assert_eq!(str_cord_name_to_num(String::from("aa")), Ok(26));
    assert_eq!(str_cord_name_to_num(String::from("ba")), Ok(52));
    assert_eq!(str_cord_name_to_num(String::from("az")), Ok(51));
}

#[test]
fn parsing_rejects_non_letters() {
    assert_eq!(str_cord_name_to_num(String::from("a1")), Err(()));
    assert_eq!(str_cord_name_to_num(String::from("?")), Err(()));
    assert_eq!(str_cord_name_to_num(String::from("a b")), Err(()));
}

#[test]
fn empty_label_parses_to_zero() {
    assert_eq!(str_cord_name_to_num(String::new()), Ok(0));
}

#[test]
fn single_letter_labels_round_trip() {
    for i in 0..26usize {
        let label = num_to_str_cord_name(i);
        assert_eq!(str_cord_name_to_num(label), Ok(i));
    }
}
