use advent_puzzles::day23::{bron_kerbosch, part_one, part_two, triple_network};

const EXAMPLE: &str = "kh-tc
qp-kh
de-cg
ka-co
yn-aq
qp-ub
cg-tb
vc-aq
tb-ka
wh-tc
yn-cg
kh-ub
ta-co
de-co
tc-td
tb-wq
wh-td
ta-ka
td-qp
aq-cg
wq-ub
ub-vc
de-ta
wq-aq
wq-vc
wh-yn
ka-de
kh-ta
co-tc
wh-qp
tb-vc
td-yn
";

#[test]
fn day23_example() {
    assert_eq!(part_one(EXAMPLE), Some(7));
    assert_eq!(part_two(EXAMPLE), Some("co,de,ka,ta".to_string()));
}

#[test]
fn day23_one_triangle() {
    assert_eq!(part_one("a-b\nb-c\nc-a\n"), Some(0));
    assert_eq!(part_one("a-b\nb-tc\ntc-a\n"), Some(1));
    assert_eq!(part_one("a-b\nb-tc\n"), Some(0));
    assert_eq!(part_two("a-b\nb-c\nc-a\nc-d\n"), Some("a,b,c".to_string()));
}

#[test]
fn day23_empty_and_malformed() {
    assert_eq!(part_one(""), Some(0));
    assert_eq!(part_two(""), Some(String::new()));
    assert_eq!(part_one("a-b\nbc\n"), None);
    assert_eq!(part_two("a-b\nbc\n"), None);
}

#[test]
fn day23_triples_by_number() {
    // 0 - 1, 1 - 2, 2 - 0, 2 - 3
    let mut lists = vec![vec![1, 2], vec![0, 2], vec![1, 0, 3], vec![2]];
    assert_eq!(triple_network(&mut lists), vec![(0, 1, 2)]);
}

#[test]
fn day23_largest_set() {
    // 0 - 1 - 2 - 0 and 2 - 3
    let lists = vec![vec![1, 2], vec![0, 2], vec![1, 0, 3], vec![2]];
    let mut best: Vec<usize> = Vec::new();
    let mut p = vec![0, 1, 2, 3];
    let mut r = Vec::new();
    let mut x = Vec::new();
    assert!(bron_kerbosch(&lists, &mut best, &mut p, &mut r, &mut x));
    best.sort();
    assert_eq!(best, vec![0, 1, 2]);
    assert!(r.is_empty());
    // the pivot is 0: the computers not linked to it have had their turns
    assert_eq!(p, vec![1, 2]);
    assert_eq!(x, vec![0, 3]);
    // a computer that is not of the network
    let mut p = vec![7];
    assert!(!bron_kerbosch(&lists, &mut best, &mut p, &mut r, &mut x));
    // nothing may join and nothing has had its turn: the set in the making is noted if it is larger
    let mut best: Vec<usize> = vec![5];
    let mut r = vec![3, 2];
    assert!(bron_kerbosch(&lists, &mut best, &mut Vec::new(), &mut r, &mut Vec::new()));
    assert_eq!(best, vec![3, 2]);
}
