use ooo::split_names;

#[test]
fn one_name_is_both_names() {
    assert_eq!(split_names("dir/a.txt"), ("dir/a.txt", "dir/a.txt"));
    assert_eq!(split_names(""), ("", ""));
}

#[test]
fn the_first_colon_parts_two_names() {
    assert_eq!(split_names("in.txt:out.txt"), ("in.txt", "out.txt"));
    assert_eq!(split_names("a:b:c"), ("a", "b:c"));
    assert_eq!(split_names(":b"), ("", "b"));
    assert_eq!(split_names("a:"), ("a", ""));
}
