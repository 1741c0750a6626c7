use line_utils::group::{group, group_hashmap, join, sort_unique, ungroup};

fn lines(text: &[&str]) -> Vec<Vec<u8>> {
    text.iter().map(|line| line.as_bytes().to_vec()).collect()
}

#[test]
fn groups_sorted_input() {
    let input = lines(&["1\ta", "1\tc", "1\ta", "2\tb"]);
    assert_eq!(group(&input, "\t", ",", false), lines(&["1\ta,c,a", "2\tb"]));
}

#[test]
fn groups_sorted_input_unique() {
    let input = lines(&["1\ta", "1\tc", "1\ta", "2\tb", "2\tb", "2\ta"]);
    assert_eq!(group(&input, "\t", ",", true), lines(&["1\ta,c", "2\ta,b"]));
}

#[test]
fn groups_runs_only() {
    let input = lines(&["1 a", "2 b", "1 c", "1 a"]);
    assert_eq!(group(&input, " ", ",", false), lines(&["1\ta", "2\tb", "1\tc,a"]));
}

#[test]
fn groups_unsorted_input() {
    let input = lines(&["1 a", "2 b", "1 c", "1 a"]);
    assert_eq!(group_hashmap(&input, " ", ",", false), lines(&["1\ta,c,a", "2\tb"]));
    assert_eq!(group_hashmap(&input, " ", ",", true), lines(&["1\ta,c", "2\tb"]));
}

#[test]
fn groups_pass_over_lines_with_one_field() {
    let input = lines(&["lonely", "1\ta", "", "1\tb\tignored", "2\t"]);
    assert_eq!(group(&input, "\t", "|", false), lines(&["1\ta|b", "2\t"]));
    assert_eq!(group_hashmap(&input, "\t", "|", false), lines(&["1\ta|b", "2\t"]));
}

#[test]
fn groups_of_nothing() {
    assert!(group(&Vec::new(), "\t", ",", false).is_empty());
    assert!(group(&lines(&["a", "b"]), "\t", ",", true).is_empty());
    assert!(group_hashmap(&Vec::new(), "\t", ",", false).is_empty());
    assert!(ungroup(&Vec::new(), "\t", ",", false).is_empty());
}

#[test]
fn ungroups() {
    let input = lines(&["1\ta,c,a", "2\tb"]);
    assert_eq!(ungroup(&input, "\t", ",", false), lines(&["1\ta", "1\tc", "1\ta", "2\tb"]));
    assert_eq!(ungroup(&input, "\t", ",", true), lines(&["1\ta", "1\tc", "2\tb"]));
}

#[test]
fn ungroups_empty_tokens_and_long_delimiters() {
    let input = lines(&["k=>a::b::", "solo", "j=>=>x"]);
    assert_eq!(ungroup(&input, "=>", "::", false), lines(&["k\ta", "k\tb", "k\t", "j\t"]));
    assert_eq!(ungroup(&input, "=>", "::", true), lines(&["k\t", "k\ta", "k\tb", "j\t"]));
}

#[test]
fn ungroup_inverts_group() {
    let input = lines(&["1\ta", "1\tc", "1\ta", "2\tb"]);
    assert_eq!(ungroup(&group(&input, "\t", ",", false), "\t", ",", false), input);
}

#[test]
fn sort_unique_sorts_by_bytes() {
    let tokens = lines(&["b", "a", "ab", "", "b", "B", "a"]);
    assert_eq!(sort_unique(&tokens), lines(&["", "B", "a", "ab", "b"]));
    let mut expected = tokens.clone();
    expected.sort();
    expected.dedup();
    assert_eq!(sort_unique(&tokens), expected);
    assert!(sort_unique(&Vec::new()).is_empty());
}

#[test]
fn join_puts_delimiter_between() {
    assert_eq!(join(&lines(&["a", "b", "c"]), b", "), b"a, b, c");
    assert_eq!(join(&lines(&["a"]), b","), b"a");
    assert_eq!(join(&lines(&["", ""]), b","), b",");
    assert_eq!(join(&Vec::new(), b","), b"");
}
