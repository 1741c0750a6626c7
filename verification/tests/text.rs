use line_utils::input::input_path;
use line_utils::number::{parse_i64, push_decimal};
use line_utils::order::{bytes_eq, bytes_le, bytes_start_with};
use line_utils::rank::{insert_ranked, rank_position, Ranked};
use line_utils::text::{chars_of, find_first, leading_byte, nth_piece, split};

#[test]
fn bytes_order_is_lexicographic() {
    let words: [&[u8]; 8] = [b"", b"a", b"ab", b"abc", b"abd", b"b", b"\xff", b"a\x00"];
    for a in words {
        for b in words {
            assert_eq!(bytes_le(a, b), a <= b);
            assert_eq!(bytes_eq(a, b), a == b);
            assert_eq!(bytes_start_with(a, b), a.starts_with(b));
        }
    }
}

#[test]
fn find_first_occurrence() {
    assert_eq!(find_first(b"a,b,c", b",", 0), 1);
    assert_eq!(find_first(b"a,b,c", b",", 1), 1);
    assert_eq!(find_first(b"a,b,c", b",", 2), 3);
    assert_eq!(find_first(b"a,b,c", b",", 4), 5);
    assert_eq!(find_first(b"aab", b"ab", 0), 1);
    assert_eq!(find_first(b"ab", b"abc", 0), 2);
    assert_eq!(find_first(b"", b"a", 0), 0);
    assert_eq!(find_first(b"abc", b"", 1), 1);
}

#[test]
fn nth_piece_is_split_nth() {
    let cases = ["a,b,c", "", ",", "a,", ",a", "a,,b", "abc"];
    for line in cases {
        let expected: Vec<&str> = line.split(',').collect();
        for index in 0..5 {
            let got = nth_piece(line.as_bytes(), b",", index).map(|(a, b)| &line[a..b]);
            assert_eq!(got, expected.get(index).copied());
        }
        let all: Vec<&str> = split(line.as_bytes(), b",").iter().map(|&(a, b)| &line[a..b]).collect();
        assert_eq!(all, expected);
    }
    assert_eq!(nth_piece(b"aaa", b"aa", 1), Some((2, 3)));
    assert_eq!(nth_piece(b"aaa", b"aa", 2), None);
}

#[test]
fn leading_byte_of_characters() {
    assert_eq!(leading_byte('\t'), 9);
    assert_eq!(leading_byte('a'), b'a');
    assert_eq!(leading_byte('é'), 0xC3);
    assert_eq!(leading_byte('€'), 0xE2);
    assert_eq!(leading_byte('😀'), 0xF0);
}

#[test]
fn chars_of_text() {
    assert_eq!(chars_of("aé€"), vec!['a', 'é', '€']);
    assert!(chars_of("").is_empty());
}

#[test]
fn parse_i64_is_str_parse() {
    for token in ["0", "-1", "+1", "12345678901234567890", "92233720368547758070", "1a", "", "-", "٣"] {
        assert_eq!(parse_i64(token.as_bytes()), token.parse::<i64>().ok());
    }
}

#[test]
fn push_decimal_writes_digits() {
    for n in [0usize, 7, 10, 99, 100, 1234567890, usize::MAX] {
        let mut out = b"n=".to_vec();
        push_decimal(&mut out, n);
        assert_eq!(out, format!("n={}", n).into_bytes());
    }
}

#[test]
fn input_path_defaults_to_standard_input() {
    assert_eq!(input_path(None), "/dev/stdin");
    assert_eq!(input_path(Some("-".to_owned())), "/dev/stdin");
    assert_eq!(input_path(Some("file".to_owned())), "file");
    assert_eq!(input_path(Some("".to_owned())), "");
}

#[test]
fn rank_orders_agree_with_std() {
    let ints = [3i64, -1, 3, i64::MIN, i64::MAX];
    for a in ints {
        for b in ints {
            assert_eq!(a.at_most(&b), a <= b);
            assert_eq!((a, b"x".to_vec()).at_most(&(b, b"w".to_vec())), (a, "x") <= (b, "w"));
        }
    }
    let words = ["", "a", "é", "z", "zz", "😀"];
    for a in words {
        for b in words {
            let (ca, cb): (Vec<char>, Vec<char>) = (a.chars().collect(), b.chars().collect());
            assert_eq!(ca.at_most(&cb), ca <= cb);
            assert_eq!(a.as_bytes().to_vec().at_most(&b.as_bytes().to_vec()), a <= b);
        }
    }
}

#[test]
fn insert_ranked_goes_behind_equals() {
    let mut items: Vec<(i64, Vec<u8>)> = Vec::new();
    for (key, line) in [(2, "b"), (1, "a"), (2, "a"), (3, "c"), (1, "a")] {
        insert_ranked(&mut items, (key, line.as_bytes().to_vec()));
    }
    let keys: Vec<(i64, &[u8])> = items.iter().map(|(k, l)| (*k, l.as_slice())).collect();
    assert_eq!(keys, vec![(1, &b"a"[..]), (1, b"a"), (2, b"a"), (2, b"b"), (3, b"c")]);
    assert_eq!(rank_position(&vec![1i64, 2, 2, 5], &2), 3);
    assert_eq!(rank_position(&vec![1i64, 2, 2, 5], &0), 0);
}
