use top_stats::split::split_sections;

#[test]
fn splitter_without_delimiter_yields_whole_buffer() {
    let buf = "June 1st, 2021\n1 users\n2 lessons\n3 subs\n4 likes\n";
    let sections = split_sections(buf);
    assert_eq!(sections, vec![buf]);
}

#[test]
fn splitter_cuts_at_each_delimiter() {
    let buf = "first\n==============\nsecond\n==============\nthird";
    let sections = split_sections(buf);
    assert_eq!(sections, vec!["first\n", "\nsecond\n", "\nthird"]);
}

#[test]
fn splitter_keeps_boundary_sections() {
    let buf = "==============middle==============";
    let sections = split_sections(buf);
    assert_eq!(sections, vec!["", "middle", ""]);
}

#[test]
fn splitter_of_empty_buffer_is_one_empty_section() {
    let sections = split_sections("");
    assert_eq!(sections, vec![""]);
}
