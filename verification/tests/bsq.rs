use line_utils::bsq::expand::{expand, get_match_range, MatchType};
use line_utils::bsq::field::{field, nth_pos};
use line_utils::bsq::locate::{lower_bound, lower_bound_bytes};
use line_utils::bsq::records::resolve;
use line_utils::bsq::{find, find_each, find_span, parse_arguments, Arguments};

const WORDS: &str = "a\nab\nabc\nabcd\nabe";
const NUMBERED: &str = "0 a\n1 ab\n2 abc\n3 abcd\n4 abe";

#[test]
fn test_lower_bound1() {
    let delim = b' ';
    let database = "a\nab\nabc\nabcd\nabe".as_bytes();
    assert_eq!(lower_bound("a", database, delim, 0), 0);
    assert_eq!(lower_bound("ab", database, delim, 0), 2);
    assert_eq!(lower_bound("abc", database, delim, 0), 5);
    assert_eq!(lower_bound("abcd", database, delim, 0), 9);
    assert_eq!(lower_bound("abe", database, delim, 0), 14);
}

#[test]
fn test_lower_bound2() {
    let delim = b' ';
    let database = "0 a\n1 ab\n2 abc\n3 abcd\n4 abe".as_bytes();
    assert_eq!(lower_bound("a", database, delim, 1), 0);
    assert_eq!(lower_bound("ab", database, delim, 1), 4);
    assert_eq!(lower_bound("abc", database, delim, 1), 9);
    assert_eq!(lower_bound("abcd", database, delim, 1), 15);
    assert_eq!(lower_bound("abe", database, delim, 1), 22);
}

#[test]
fn test_lower_bound3() {
    let delim = b' ';
    let database = "0 x a\n1 y ab\n2 z abc\n3 w abcd\n4 u abe".as_bytes();
    assert_eq!(lower_bound("a", database, delim, 2), 0);
    assert_eq!(lower_bound("ab", database, delim, 2), 6);
    assert_eq!(lower_bound("abc", database, delim, 2), 13);
    assert_eq!(lower_bound("abcd", database, delim, 2), 21);
    assert_eq!(lower_bound("abe", database, delim, 2), 30);
}

#[test]
fn lower_bound_of_absent_keys() {
    let database = WORDS.as_bytes();
    assert_eq!(lower_bound("", database, b' ', 0), 0);
    assert_eq!(lower_bound("0", database, b' ', 0), 0);
    assert_eq!(lower_bound("aa", database, b' ', 0), 2);
    assert_eq!(lower_bound("abb", database, b' ', 0), 5);
    assert_eq!(lower_bound("abd", database, b' ', 0), 14);
    assert_eq!(lower_bound("abf", database, b' ', 0), 17);
    assert_eq!(lower_bound("zzz", database, b' ', 0), 17);
}

#[test]
fn lower_bound_with_trailing_separator() {
    let database = "a\nb\nc\n".as_bytes();
    assert_eq!(lower_bound("a", database, b'\t', 0), 0);
    assert_eq!(lower_bound("b", database, b'\t', 0), 2);
    assert_eq!(lower_bound("c", database, b'\t', 0), 4);
    assert_eq!(lower_bound("d", database, b'\t', 0), 6);
    assert_eq!(lower_bound_bytes(b"bb", database, b'\t', 0), 4);
}

#[test]
fn lower_bound_on_empty_and_single_record() {
    assert_eq!(lower_bound("a", b"", b' ', 0), 0);
    assert_eq!(lower_bound("", b"", b' ', 3), 0);
    assert_eq!(lower_bound("a", b"b", b' ', 0), 0);
    assert_eq!(lower_bound("b", b"b", b' ', 0), 0);
    assert_eq!(lower_bound("c", b"b", b' ', 0), 1);
    assert_eq!(lower_bound("c", b"b\n", b' ', 0), 2);
}

#[test]
fn lower_bound_sees_empty_records() {
    let database = b"\n\nb";
    assert_eq!(lower_bound("", database, b' ', 0), 0);
    assert_eq!(lower_bound("a", database, b' ', 0), 2);
    assert_eq!(lower_bound("b", database, b' ', 0), 2);
    assert_eq!(lower_bound("c", database, b' ', 0), 3);
}

#[test]
fn lower_bound_neighbours_differ_on_every_query() {
    let database = WORDS.as_bytes();
    let queries = ["", "a", "aa", "ab", "abc", "abcd", "abcde", "abd", "abe", "b"];
    for query in queries {
        let r = lower_bound(query, database, b' ', 0);
        if r < database.len() {
            let (start, end) = resolve(database, r);
            assert_eq!(start, r);
            assert!(query.as_bytes() <= &database[start..end]);
        }
        if r > 0 {
            let (start, end) = resolve(database, r - 1);
            assert!(&database[start..end] < query.as_bytes());
        }
    }
}

#[test]
fn resolve_gives_the_owning_record() {
    let database = WORDS.as_bytes();
    assert_eq!(resolve(database, 0), (0, 1));
    assert_eq!(resolve(database, 1), (0, 1));
    assert_eq!(resolve(database, 2), (2, 4));
    assert_eq!(resolve(database, 4), (2, 4));
    assert_eq!(resolve(database, 5), (5, 8));
    assert_eq!(resolve(database, 16), (14, 17));
    assert_eq!(resolve(database, 17), (14, 17));
    assert_eq!(resolve(b"", 0), (0, 0));
    assert_eq!(resolve(b"\n", 0), (0, 0));
    assert_eq!(resolve(b"\n", 1), (1, 1));
}

#[test]
fn nth_pos_counts_from_one() {
    assert_eq!(nth_pos(b"a b c", b' ', 0), None);
    assert_eq!(nth_pos(b"a b c", b' ', 1), Some(1));
    assert_eq!(nth_pos(b"a b c", b' ', 2), Some(3));
    assert_eq!(nth_pos(b"a b c", b' ', 3), None);
    assert_eq!(nth_pos(b"", b' ', 1), None);
    assert_eq!(nth_pos(b"  ", b' ', 2), Some(1));
}

#[test]
fn field_spans() {
    let database = b"0 x a\n1 y ab";
    assert_eq!(field(database, 0, 5, b' ', 0), (0, 1));
    assert_eq!(field(database, 0, 5, b' ', 1), (2, 3));
    assert_eq!(field(database, 0, 5, b' ', 2), (4, 5));
    assert_eq!(field(database, 6, 12, b' ', 2), (10, 12));
    assert_eq!(field(database, 6, 12, b' ', 0), (6, 7));
}

#[test]
fn field_absent_is_empty_at_record_end() {
    let database = b"0 x a\n1 y ab";
    assert_eq!(field(database, 0, 5, b' ', 3), (5, 5));
    assert_eq!(field(database, 0, 5, b' ', 9), (5, 5));
    assert_eq!(field(b"ab ", 0, 3, b' ', 1), (3, 3));
    assert_eq!(field(b"ab ", 0, 3, b' ', 2), (3, 3));
    assert_eq!(field(b"", 0, 0, b' ', 0), (0, 0));
    assert_eq!(field(b"", 0, 0, b' ', 1), (0, 0));
}

#[test]
fn absent_field_sorts_before_any_query() {
    let database = b"x\ny 1\ny 2";
    assert_eq!(lower_bound("1", database, b' ', 1), 2);
    assert_eq!(lower_bound("0", database, b' ', 1), 2);
    assert_eq!(lower_bound("", database, b' ', 1), 0);
    assert_eq!(find(database, "", b' ', 1, &MatchType::ExactMatch), b"x\n");
}

#[test]
fn get_match_range_tests_one_record() {
    let database = WORDS.as_bytes();
    let exact = MatchType::ExactMatch;
    let prefix = MatchType::PrefixMatch;
    assert_eq!(get_match_range(database, 0, b"a", 0, b' ', &exact), Some((0, 2)));
    assert_eq!(get_match_range(database, 2, b"a", 0, b' ', &exact), None);
    assert_eq!(get_match_range(database, 2, b"a", 0, b' ', &prefix), Some((2, 5)));
    assert_eq!(get_match_range(database, 14, b"abe", 0, b' ', &exact), Some((14, 17)));
    assert_eq!(get_match_range(database, 17, b"abe", 0, b' ', &exact), None);
    assert_eq!(get_match_range(database, 99, b"", 0, b' ', &prefix), None);
    assert_eq!(get_match_range(database, 0, b"a", 1, b' ', &exact), None);
    assert_eq!(get_match_range(database, 0, b"", 1, b' ', &exact), Some((0, 2)));
}

#[test]
fn expand_walks_the_run() {
    let database = WORDS.as_bytes();
    let exact = MatchType::ExactMatch;
    let prefix = MatchType::PrefixMatch;
    assert_eq!(expand(database, 0, b"a", 0, b' ', &prefix), Some((0, 17)));
    assert_eq!(expand(database, 2, b"ab", 0, b' ', &prefix), Some((2, 17)));
    assert_eq!(expand(database, 5, b"abc", 0, b' ', &prefix), Some((5, 14)));
    assert_eq!(expand(database, 5, b"abc", 0, b' ', &exact), Some((5, 9)));
    assert_eq!(expand(database, 14, b"abc", 0, b' ', &prefix), None);
    assert_eq!(expand(database, 17, b"a", 0, b' ', &prefix), None);
}

#[test]
fn exact_query_a() {
    assert_eq!(find(WORDS.as_bytes(), "a", b' ', 0, &MatchType::ExactMatch), b"a\n");
}

#[test]
fn exact_query_ab() {
    assert_eq!(find(WORDS.as_bytes(), "ab", b' ', 0, &MatchType::ExactMatch), b"ab\n");
}

#[test]
fn exact_query_abc() {
    assert_eq!(find(WORDS.as_bytes(), "abc", b' ', 0, &MatchType::ExactMatch), b"abc\n");
}

#[test]
fn exact_query_last_record_has_no_separator() {
    assert_eq!(find(WORDS.as_bytes(), "abe", b' ', 0, &MatchType::ExactMatch), b"abe");
}

#[test]
fn exact_query_absent_key() {
    assert_eq!(find(WORDS.as_bytes(), "zzz", b' ', 0, &MatchType::ExactMatch), b"");
    assert_eq!(find_span(WORDS.as_bytes(), "zzz", b' ', 0, &MatchType::ExactMatch), None);
    assert_eq!(find(WORDS.as_bytes(), "abd", b' ', 0, &MatchType::ExactMatch), b"");
}

#[test]
fn exact_query_on_second_field() {
    assert_eq!(find(NUMBERED.as_bytes(), "ab", b' ', 1, &MatchType::ExactMatch), b"1 ab\n");
    assert_eq!(find_span(NUMBERED.as_bytes(), "ab", b' ', 1, &MatchType::ExactMatch), Some((4, 9)));
}

#[test]
fn prefix_query_holds_exact_query() {
    let database = WORDS.as_bytes();
    for query in ["", "a", "ab", "abc", "abcd", "abe", "abd", "b"] {
        let exact = find_span(database, query, b' ', 0, &MatchType::ExactMatch);
        let prefix = find_span(database, query, b' ', 0, &MatchType::PrefixMatch);
        if let Some((start, end)) = exact {
            let (prefix_start, prefix_end) = prefix.unwrap();
            assert_eq!(prefix_start, start);
            assert!(end <= prefix_end);
        }
    }
    assert_eq!(find(database, "ab", b' ', 0, &MatchType::PrefixMatch), b"ab\nabc\nabcd\nabe");
    assert_eq!(find(database, "abc", b' ', 0, &MatchType::PrefixMatch), b"abc\nabcd\n");
    assert_eq!(find(NUMBERED.as_bytes(), "abc", b' ', 1, &MatchType::PrefixMatch), b"2 abc\n3 abcd\n");
}

#[test]
fn duplicate_keys_come_out_together() {
    let database = b"1\tone\n19\tnineteen\n19\tanother nineteen\n192\tone hundred ninety two\n24\ttwenty four\n3\tthree\n64\tsixty four\n";
    assert_eq!(
        find(database, "19", b'\t', 0, &MatchType::PrefixMatch),
        b"19\tnineteen\n19\tanother nineteen\n192\tone hundred ninety two\n"
    );
    assert_eq!(
        find(database, "19", b'\t', 0, &MatchType::ExactMatch),
        b"19\tnineteen\n19\tanother nineteen\n"
    );
    assert_eq!(find(database, "64", b'\t', 0, &MatchType::ExactMatch), b"64\tsixty four\n");
    assert_eq!(find(database, "7", b'\t', 0, &MatchType::PrefixMatch), b"");
}

#[test]
fn same_query_twice_gives_same_bytes() {
    let database = NUMBERED.as_bytes();
    let first = find(database, "ab", b' ', 1, &MatchType::PrefixMatch);
    let second = find(database, "ab", b' ', 1, &MatchType::PrefixMatch);
    assert_eq!(first, second);
    assert_eq!(first, b"1 ab\n2 abc\n3 abcd\n4 abe");
}

#[test]
fn empty_database_gives_nothing() {
    assert_eq!(find(b"", "a", b' ', 0, &MatchType::PrefixMatch), b"");
    assert_eq!(find(b"", "", b' ', 0, &MatchType::PrefixMatch), b"");
    assert_eq!(find(b"", "", b' ', 2, &MatchType::ExactMatch), b"");
    assert_eq!(find_span(b"", "a", b' ', 0, &MatchType::ExactMatch), None);
}

#[test]
fn parse_arguments_refuses_field_zero() {
    let args = Arguments {
        delimiter: '\t',
        exact_match: false,
        index_field: 0,
        database: "db".to_owned(),
        query: None,
    };
    match parse_arguments(args) {
        Err(msg) => assert_eq!(msg, "index field must be positive"),
        Ok(_) => panic!("field zero was taken"),
    }
}

#[test]
fn parse_arguments_counts_from_zero() {
    let args = Arguments {
        delimiter: '\t',
        exact_match: true,
        index_field: 3,
        database: "db".to_owned(),
        query: Some("q".to_owned()),
    };
    let option = parse_arguments(args).ok().unwrap();
    assert_eq!(option.delim, b'\t');
    assert_eq!(option.key_idx, 2);
    assert_eq!(option.match_type, MatchType::ExactMatch);
    assert_eq!(option.database, "db");
    assert_eq!(option.query, Some("q".to_owned()));
}

#[test]
fn parse_arguments_takes_first_byte_of_delimiter() {
    let args = Arguments {
        delimiter: 'é',
        exact_match: false,
        index_field: 1,
        database: String::new(),
        query: None,
    };
    let option = parse_arguments(args).ok().unwrap();
    assert_eq!(option.delim, 0xC3);
    assert_eq!(option.key_idx, 0);
    assert_eq!(option.match_type, MatchType::PrefixMatch);
}

#[test]
fn batch_puts_out_each_answer_in_turn() {
    let queries: Vec<String> = ["abc", "zzz", "a", "abc"].iter().map(|q| q.to_string()).collect();
    let out = find_each(WORDS.as_bytes(), &queries, b' ', 0, &MatchType::ExactMatch);
    assert_eq!(out, b"abc\na\nabc\n");
    let out = find_each(WORDS.as_bytes(), &queries, b' ', 0, &MatchType::PrefixMatch);
    assert_eq!(out, b"abc\nabcd\na\nab\nabc\nabcd\nabeabc\nabcd\n");
    assert!(find_each(WORDS.as_bytes(), &Vec::new(), b' ', 0, &MatchType::PrefixMatch).is_empty());
    assert!(find_each(b"", &queries, b' ', 0, &MatchType::PrefixMatch).is_empty());
}

#[test]
fn span_holds_every_match_of_a_sorted_database() {
    let database = b"1\tone\n19\tnineteen\n19\tanother nineteen\n192\tx\n24\ty\n3\tthree\n";
    for query in ["", "1", "19", "192", "2", "24", "3", "4", "0"] {
        for mode in [MatchType::ExactMatch, MatchType::PrefixMatch] {
            let got = find(database, query, b'\t', 0, &mode);
            let mut expected = Vec::new();
            for line in database.split_inclusive(|&b| b == b'\n') {
                let key = line.split(|&b| b == b'\t').next().unwrap();
                let hit = match mode {
                    MatchType::ExactMatch => key == query.as_bytes(),
                    MatchType::PrefixMatch => key.starts_with(query.as_bytes()),
                };
                if hit {
                    expected.extend_from_slice(line);
                }
            }
            assert_eq!(got, &expected[..]);
        }
    }
}
