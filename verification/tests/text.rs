use advent_puzzles::text::{
    comes_first, copy_range, find, find_name, format_u128, is_digit_byte, is_space_byte, join,
    join_with, lines, occurs_at, parse_i128, parse_i32, parse_u128, parse_u32, parse_u64,
    parse_u8, same_bytes, sort_names, split, split_once, to_text, trim, words,
};

fn strings(v: &Vec<Vec<u8>>) -> Vec<String> {
    v.iter().map(|b| String::from_utf8(b.clone()).unwrap()).collect()
}

const SAMPLES: [&str; 14] = [
    "",
    "\n",
    "a",
    "a\n",
    "a\nb",
    "a\r\nb\r\n",
    "a\rb\n",
    "tail\r",
    "\n\na\n\n",
    "  lead and trail  ",
    "one\ttwo  three\n four",
    " \t\r\n\x0b\x0c ",
    "x--y---z",
    "a\n\nb\n\n\nc",
];

#[test]
fn text_lines_as_the_standard_library_has_them() {
    for s in SAMPLES {
        let expected: Vec<String> = s.lines().map(|l| l.to_string()).collect();
        assert_eq!(strings(&lines(s.as_bytes())), expected, "lines of {:?}", s);
    }
}

#[test]
fn text_words_as_the_standard_library_has_them() {
    for s in SAMPLES {
        let expected: Vec<String> = s.split_whitespace().map(|l| l.to_string()).collect();
        assert_eq!(strings(&words(s.as_bytes())), expected, "words of {:?}", s);
    }
}

#[test]
fn text_trim_as_the_standard_library_has_it() {
    for s in SAMPLES {
        assert_eq!(trim(s.as_bytes()), s.trim().as_bytes().to_vec(), "trim of {:?}", s);
    }
}

#[test]
fn text_split_as_the_standard_library_has_it() {
    for s in SAMPLES {
        for pat in ["\n", "\n\n", "-", "--", ", ", "a"] {
            let expected: Vec<String> = s.split(pat).map(|l| l.to_string()).collect();
            assert_eq!(
                strings(&split(s.as_bytes(), pat.as_bytes())),
                expected,
                "split of {:?} at {:?}",
                s,
                pat
            );
            let once = split_once(s.as_bytes(), pat.as_bytes())
                .map(|(a, b)| (String::from_utf8(a).unwrap(), String::from_utf8(b).unwrap()));
            let expected = s.split_once(pat).map(|(a, b)| (a.to_string(), b.to_string()));
            assert_eq!(once, expected, "split once of {:?} at {:?}", s, pat);
        }
    }
}

#[test]
fn text_find() {
    assert_eq!(find(b"abcabc", b"bc", 0), Some(1));
    assert_eq!(find(b"abcabc", b"bc", 2), Some(4));
    assert_eq!(find(b"abcabc", b"bc", 5), None);
    assert_eq!(find(b"abcabc", b"", 6), Some(6));
    assert_eq!(find(b"abcabc", b"", 7), None);
    assert_eq!(find(b"abc", b"abcd", 0), None);
    assert!(occurs_at(b"abcabc", b"cab", 2));
    assert!(!occurs_at(b"abcabc", b"cab", 3));
    assert!(!occurs_at(b"abc", b"c", 3));
    assert!(occurs_at(b"abc", b"", 3));
}

#[test]
fn text_numbers_as_the_standard_library_reads_them() {
    let samples = [
        "0", "7", "007", "+5", "-5", "+", "-", "", " 5", "5 ", "1_000", "255", "256", "4294967295",
        "4294967296", "-2147483648", "-2147483649", "2147483647", "2147483648",
        "18446744073709551615", "18446744073709551616", "340282366920938463463374607431768211455",
        "340282366920938463463374607431768211456", "-170141183460469231731687303715884105728",
        "-170141183460469231731687303715884105729", "170141183460469231731687303715884105727",
        "170141183460469231731687303715884105728", "+-5", "--5", "5a", "0x10",
        "00000000000000000000000000000000000000000000000000000000000000000000001",
    ];
    for s in samples {
        assert_eq!(parse_u8(s.as_bytes()), s.parse::<u8>().ok(), "u8 of {:?}", s);
        assert_eq!(parse_u32(s.as_bytes()), s.parse::<u32>().ok(), "u32 of {:?}", s);
        assert_eq!(parse_u64(s.as_bytes()), s.parse::<u64>().ok(), "u64 of {:?}", s);
        assert_eq!(parse_u128(s.as_bytes()), s.parse::<u128>().ok(), "u128 of {:?}", s);
        assert_eq!(parse_i32(s.as_bytes()), s.parse::<i32>().ok(), "i32 of {:?}", s);
        assert_eq!(parse_i128(s.as_bytes()), s.parse::<i128>().ok(), "i128 of {:?}", s);
    }
}

#[test]
fn text_numbers_written_and_read_back() {
    for n in [0u128, 1, 9, 10, 99, 100, 12345, u64::MAX as u128, u128::MAX] {
        let digits = format_u128(n);
        assert_eq!(digits, n.to_string().into_bytes());
        assert_eq!(parse_u128(&digits), Some(n));
    }
}

#[test]
fn text_bytes() {
    assert!(same_bytes(b"abc", b"abc"));
    assert!(!same_bytes(b"abc", b"abd"));
    assert!(!same_bytes(b"abc", b"ab"));
    assert!(same_bytes(b"", b""));
    assert_eq!(copy_range(b"abcdef", 2, 4), b"cd".to_vec());
    assert_eq!(copy_range(b"abcdef", 6, 6), Vec::<u8>::new());
    for b in 0..=255u8 {
        assert_eq!(is_digit_byte(b), b.is_ascii_digit());
        assert_eq!(is_space_byte(b), (b as char).is_ascii() && (b as char).is_whitespace());
    }
}

#[test]
fn text_joining() {
    let rows = vec![b"ab".to_vec(), b"".to_vec(), b"c".to_vec()];
    assert_eq!(join(&rows), b"abc".to_vec());
    assert_eq!(join_with(&rows, b','), b"ab,,c".to_vec());
    assert_eq!(join_with(&vec![b"x".to_vec()], b','), b"x".to_vec());
    assert_eq!(join_with(&vec![], b','), Vec::<u8>::new());
}

#[test]
fn text_order_of_the_dictionary() {
    let names = ["", "a", "ab", "b", "aa", "B", "a", "zz", "z"];
    for a in names {
        for b in names {
            assert_eq!(comes_first(a.as_bytes(), b.as_bytes()), a < b, "{:?} < {:?}", a, b);
        }
    }
    let v: Vec<Vec<u8>> = names.iter().map(|n| n.as_bytes().to_vec()).collect();
    let mut expected: Vec<Vec<u8>> = v.clone();
    expected.sort();
    expected.dedup();
    assert_eq!(sort_names(&v), expected);
    assert_eq!(find_name(&v, b"b"), 3);
    assert_eq!(find_name(&v, b"a"), 1);
    assert_eq!(find_name(&v, b"nope"), v.len());
}

#[test]
fn text_from_bytes() {
    assert_eq!(to_text(b"4,6,3".to_vec()), Some("4,6,3".to_string()));
    assert_eq!(to_text(Vec::new()), Some(String::new()));
    assert_eq!(to_text("gr\u{fc}n".as_bytes().to_vec()), Some("gr\u{fc}n".to_string()));
    assert_eq!(to_text(vec![0x67, 0xff]), None);
    assert_eq!(to_text(vec![0xc3]), None);
}
