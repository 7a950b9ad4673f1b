use bytepair::{compress, expand, get_unused_byte, replace, CountsTable, Pair};

#[test]
fn test_replace() {
    let res = replace(b"AA", Pair(b'A', b'A'), b'B');
    assert_eq!(res, vec![b'B']);
}

#[test]
fn test_compress() {
    let (out, table) = compress("He Hello World AAA XYZ".as_bytes());
    assert_eq!(
        table,
        vec![
            (Pair(b'H', b'e'), b'B'), //
            (Pair(b'A', b'A'), b'C'),
        ]
    );
    assert_eq!(out, "B Bllo World CA XYZ".as_bytes());
}

#[test]
fn replace_never_overlaps() {
    // Three A's hold the pair (A,A) twice, but the occurrences overlap:
    // the greedy scan substitutes only the first and keeps the third A.
    let res = replace(b"AAA", Pair(b'A', b'A'), b'B');
    assert_eq!(res, vec![b'B', b'A']);
}

#[test]
fn replace_scans_left_to_right() {
    let res = replace(b"xAAyAAz", Pair(b'A', b'A'), b'Q');
    assert_eq!(res, vec![b'x', b'Q', b'y', b'Q', b'z']);
}

#[test]
fn replace_without_occurrence_copies() {
    let res = replace(b"hello", Pair(b'A', b'A'), b'B');
    assert_eq!(res, b"hello".to_vec());
}

#[test]
fn replace_on_short_buffers() {
    assert_eq!(replace(b"", Pair(b'A', b'A'), b'B'), Vec::<u8>::new());
    assert_eq!(replace(b"A", Pair(b'A', b'A'), b'B'), vec![b'A']);
}

#[test]
fn compress_of_empty_input() {
    let (out, table) = compress(b"");
    assert_eq!(out, Vec::<u8>::new());
    assert!(table.is_empty());
}

#[test]
fn compress_of_single_symbol() {
    let (out, table) = compress(b"Q");
    assert_eq!(out, vec![b'Q']);
    assert!(table.is_empty());
}

#[test]
fn compress_without_repeated_pair_is_identity() {
    let (out, table) = compress(b"abcdef");
    assert_eq!(out, b"abcdef".to_vec());
    assert!(table.is_empty());
}

#[test]
fn compress_ties_go_to_the_greater_pair() {
    // (H,e) and (A,A) both occur twice; (H,e) ranks higher and goes first.
    let (out, table) = compress(b"HeHeAAA");
    assert_eq!(table, vec![(Pair(b'H', b'e'), b'B'), (Pair(b'A', b'A'), b'C')]);
    assert_eq!(out, vec![b'B', b'B', b'C', b'A']);
}

#[test]
fn compress_is_deterministic() {
    let input = b"He Hello World AAA XYZ";
    let first = compress(input);
    let second = compress(input);
    assert_eq!(first, second);
}

#[test]
fn round_trip_restores_the_input() {
    let inputs: Vec<&[u8]> = vec![
        b"He Hello World AAA XYZ",
        b"AAA",
        b"abxabx",
        b"aaaaaaaaaaaaaaaa",
        b"mississippi mississippi",
        b"x",
        b"",
    ];
    for input in inputs {
        let (out, table) = compress(input);
        assert_eq!(expand(&out, &table), input.to_vec());
    }
}

#[test]
fn expand_with_empty_table_is_identity() {
    assert_eq!(expand(b"hello", &[]), b"hello".to_vec());
}

#[test]
fn expand_replays_the_table_in_reverse() {
    let compressed = vec![b'B', b' ', b'B', b'l', b'l', b'o'];
    let table = vec![(Pair(b'H', b'e'), b'B')];
    assert_eq!(expand(&compressed, &table), b"He Hello".to_vec());
}

#[test]
fn top_pair_picks_the_most_frequent() {
    let counts = CountsTable::new(b"ababab");
    assert_eq!(counts.top_pair(), Some(Pair(b'a', b'b')));
}

#[test]
fn top_pair_needs_more_than_one_occurrence() {
    assert_eq!(CountsTable::new(b"ab").top_pair(), None);
    assert_eq!(CountsTable::new(b"abc").top_pair(), None);
    assert_eq!(CountsTable::new(b"").top_pair(), None);
    assert_eq!(CountsTable::new(b"a").top_pair(), None);
}

#[test]
fn top_pair_breaks_ties_by_rank() {
    // (H,e) and (A,A) both occur twice; the greater pair wins the tie.
    let counts = CountsTable::new(b"HeHeAAA");
    assert_eq!(counts.top_pair(), Some(Pair(b'H', b'e')));
}

#[test]
fn unused_byte_is_the_smallest_absent() {
    assert_eq!(get_unused_byte(b""), Some(b'A'));
    assert_eq!(get_unused_byte(b"hello"), Some(b'A'));
    assert_eq!(get_unused_byte(b"A"), Some(b'B'));
    assert_eq!(get_unused_byte(b"BA"), Some(b'C'));
}

#[test]
fn unused_byte_on_a_full_range() {
    let all: Vec<u8> = (65u8..=91).collect();
    assert_eq!(get_unused_byte(&all), None);
}

#[test]
fn compress_halts_when_the_range_is_exhausted() {
    // A buffer holding every candidate id, with one pair still repeating:
    // compression must stop at once and hand the buffer back unchanged.
    let mut input: Vec<u8> = (65u8..=91).collect();
    input.extend_from_slice(b"zzzz");
    let (out, table) = compress(&input);
    assert_eq!(out, input);
    assert!(table.is_empty());
    assert_eq!(expand(&out, &table), input);
}
