use advent_puzzles::grid::{
    count_distinct, find_first, get, get_at, get_rel, has_place, put, put_rel, shift,
};

fn map() -> Vec<Vec<u8>> {
    vec![b"abc".to_vec(), b"d".to_vec(), b"efgh".to_vec()]
}

#[test]
fn grid_reading_and_writing() {
    let mut g = map();
    assert_eq!(get(&g, 0, 2), Some(b'c'));
    assert_eq!(get(&g, 1, 1), None);
    assert_eq!(get(&g, 3, 0), None);
    assert_eq!(get_at(&g, 2, 3), Some(b'h'));
    assert_eq!(get_at(&g, -1, 0), None);
    assert_eq!(get_at(&g, 0, -1), None);
    assert_eq!(get_at(&g, 1, 1), None);
    assert_eq!(get_at(&g, 3, 0), None);
    assert_eq!(get_at(&g, i128::MAX, i128::MAX), None);
    assert!(put(&mut g, 2, 3, b'X'));
    assert_eq!(g[2], b"efgX".to_vec());
    assert!(!put(&mut g, 1, 1, b'X'));
    assert_eq!(g[1], b"d".to_vec());
}

#[test]
fn grid_steps() {
    assert_eq!(shift(5, 1, 3), Some(8));
    assert_eq!(shift(5, -1, 3), Some(2));
    assert_eq!(shift(5, -1, 5), Some(0));
    assert_eq!(shift(5, -1, 6), None);
    assert_eq!(shift(5, 0, 100), Some(5));
    assert_eq!(shift(usize::MAX, 1, 1), None);
    let mut g = map();
    assert_eq!(get_rel(&g, 1, 0, 1, 1, 1), Some(b'f'));
    assert_eq!(get_rel(&g, 1, 0, -1, 1, 1), Some(b'b'));
    assert_eq!(get_rel(&g, 0, 0, -1, 0, 1), None);
    assert_eq!(get_rel(&g, 0, 0, 0, -1, 1), None);
    assert_eq!(get_rel(&g, 0, 0, 1, 0, 2), Some(b'e'));
    assert!(put_rel(&mut g, 0, 0, 1, 1, 2, b'Z'));
    assert_eq!(g[2], b"efZh".to_vec());
    assert!(!put_rel(&mut g, 0, 0, 1, 1, 3, b'Z'));
}

#[test]
fn grid_first_mark() {
    let g = vec![b"..x".to_vec(), b".x.".to_vec()];
    assert_eq!(find_first(&g, 3, b'x'), Some((0, 2)));
    assert_eq!(find_first(&g, 2, b'x'), Some((1, 1)));
    assert_eq!(find_first(&g, 3, b'y'), Some((0, 0)));
    // a row shorter than the width asked for
    assert_eq!(find_first(&map(), 3, b'h'), None);
    assert_eq!(find_first(&map(), 1, b'e'), Some((2, 0)));
    assert_eq!(find_first(&Vec::new(), 3, b'x'), Some((0, 0)));
}

#[test]
fn grid_places() {
    let v = vec![(1, 2), (3, 4), (1, 2), (2, 1), (3, 4), (1, 2)];
    assert!(has_place(&v, (2, 1)));
    assert!(!has_place(&v, (2, 2)));
    assert_eq!(count_distinct(&v), 3);
    assert_eq!(count_distinct(&Vec::new()), 0);
}
