use sd_cwt::input::build_full_path;

#[test]
fn a_path_is_its_segments_joined_by_slashes() {
    let path = vec![String::from("address"), String::from("street")];
    assert_eq!(build_full_path(&path, "number"), "address/street/number");
}

#[test]
fn a_path_below_the_root_starts_with_a_slash() {
    assert_eq!(build_full_path(&Vec::new(), "given_name"), "/given_name");
}

#[test]
fn a_path_of_one_segment() {
    assert_eq!(build_full_path(&vec![String::from("0")], "x"), "0/x");
    assert_eq!(build_full_path(&vec![String::from("a")], ""), "a/");
}
