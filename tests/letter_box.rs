use letter_box::{valid_permutations, Board, BoardEncodedWord, BoardError};

fn classic_board() -> Board {
    Board::new("ABCDEFGHIJKL").unwrap()
}

fn encoded(word: &str, start: u8, end: u8, spots_filled: u16) -> BoardEncodedWord {
    BoardEncodedWord::new(word.to_string(), start, end, spots_filled)
}

fn all_solutions(words: &[BoardEncodedWord], max_words: usize, board: &Board) -> Vec<Vec<usize>> {
    let mut search = valid_permutations(words, max_words, board);
    let mut out = Vec::new();
    while let Some(p) = search.next_solution() {
        out.push(p);
    }
    out
}

#[test]
fn test_encode_word() {
    let board = classic_board();
    let cases: Vec<(&str, Option<BoardEncodedWord>)> = vec![
        ("AEI", Some(encoded("AEI", 0, 8, 0b000_100_010_001))),
        ("ICDL", Some(encoded("ICDL", 8, 11, 0b100_100_001_100))),
        ("AAA", None),
        ("ABC", None),
        ("ABX", None),
    ];
    for (word, expected) in cases {
        assert_eq!(board.encode_word(word), expected, "word {word}");
    }
}

#[test]
fn test_board_new_valid() {
    let cases: Vec<(&str, [[char; 3]; 4])> = vec![
        ("ABCDEFGHIJKL", [['A', 'B', 'C'], ['D', 'E', 'F'], ['G', 'H', 'I'], ['J', 'K', 'L']]),
        ("abcdefghijkl", [['a', 'b', 'c'], ['d', 'e', 'f'], ['g', 'h', 'i'], ['j', 'k', 'l']]),
        ("123456789012", [['1', '2', '3'], ['4', '5', '6'], ['7', '8', '9'], ['0', '1', '2']]),
    ];
    for (input, expected) in cases {
        let board = Board::new(input).unwrap();
        for g in 0..4 {
            assert_eq!(board.side(g), expected[g].to_vec());
        }
    }
}

#[test]
fn test_board_new_invalid() {
    for (input, found) in [("ABCDEFGHIJK", 11), ("ABCDEFGHIJKLM", 13), ("", 0)] {
        assert_eq!(
            Board::new(input).unwrap_err(),
            BoardError::WrongLetterCount { expected: 12, found }
        );
    }
}

#[test]
fn board_ignores_white_space() {
    let board = Board::new("abc def\tghi\njkl").unwrap();
    assert_eq!(board.side(0), vec!['a', 'b', 'c']);
    assert_eq!(board.side(3), vec!['j', 'k', 'l']);
    assert_eq!(
        Board::new("abc def ghi jk").unwrap_err(),
        BoardError::WrongLetterCount { expected: 12, found: 11 }
    );
}

#[test]
fn board_side_lengths() {
    let board = Board::with_side_len("ABCD EFGH IJKL MNOP", 4).unwrap();
    assert_eq!(board.side(1), vec!['E', 'F', 'G', 'H']);
    assert_eq!(board.full_mask_value(), 0xFFFF);
    assert_eq!(classic_board().full_mask_value(), 0x0FFF);
    assert_eq!(
        Board::with_side_len("ABCD", 0).unwrap_err(),
        BoardError::UnsupportedSideLength { side_len: 0 }
    );
    assert_eq!(
        Board::with_side_len("ABCDEFGHIJKLMNOPQRST", 5).unwrap_err(),
        BoardError::UnsupportedSideLength { side_len: 5 }
    );
    assert_eq!(
        Board::with_side_len("ABCDEFGHIJKL", 4).unwrap_err(),
        BoardError::WrongLetterCount { expected: 16, found: 12 }
    );
}

#[test]
fn repeated_letter_rejected() {
    assert_eq!(classic_board().encode_word("AAA"), None);
}

#[test]
fn same_side_neighbours_rejected() {
    let board = classic_board();
    assert_eq!(board.encode_word("ADG"), Some(encoded("ADG", 0, 6, 0b000_001_001_001)));
    assert_eq!(board.encode_word("ADEG"), None);
    assert_eq!(board.encode_word("LK"), None);
}

#[test]
fn absent_letter_rejected() {
    let board = classic_board();
    assert_eq!(board.encode_word("Z"), None);
    assert_eq!(board.encode_word("ADz"), None);
    assert_eq!(board.encode_word("adg"), None);
}

#[test]
fn empty_and_single_letter_words() {
    let board = classic_board();
    assert_eq!(board.encode_word(""), None);
    assert_eq!(board.encode_word("E"), Some(encoded("E", 4, 4, 1 << 4)));
}

#[test]
fn first_side_wins_for_duplicate_letters() {
    let board = Board::new("ABC DEF GHI JKA").unwrap();
    assert_eq!(board.encode_word("A"), Some(encoded("A", 0, 0, 1)));
    assert_eq!(board.encode_word("DA"), Some(encoded("DA", 3, 0, 0b1001)));
    assert_eq!(board.encode_word("KA"), Some(encoded("KA", 10, 0, (1 << 10) | 1)));
    assert_eq!(board.encode_word("BA"), None);
}

#[test]
fn encoding_mask_matches_walk() {
    let board = classic_board();
    let e = board.encode_word("LIFAKE").unwrap();
    // L=11 I=8 F=5 A=0 K=10 E=4
    assert_eq!(e.start, 11);
    assert_eq!(e.end, 4);
    let visited: Vec<u16> = (0..16).filter(|b| e.spots_filled >> b & 1 == 1).collect();
    assert_eq!(visited, vec![0, 4, 5, 8, 10, 11]);
    assert_eq!(e.word, "LIFAKE");
}

#[test]
fn debug_spots_filled_digits() {
    assert_eq!(encoded("AEI", 0, 8, 0b000_100_010_001).debug_spots_filled(), "000100010001");
    assert_eq!(encoded("", 0, 0, 0).debug_spots_filled(), "000000000000");
    assert_eq!(encoded("", 0, 0, 0xFFFF).debug_spots_filled(), "1111111111111111");
    assert_eq!(encoded("", 0, 0, 0x1001).debug_spots_filled(), "1000000000001");
}

#[test]
fn shape_keeps_fields() {
    let s = encoded("AEI", 0, 8, 0x111).shape();
    assert_eq!((s.start, s.end, s.spots_filled), (0, 8, 0x111));
}

#[test]
fn search_on_empty_word_set_is_empty() {
    let board = classic_board();
    for k in 0..4 {
        assert!(all_solutions(&[], k, &board).is_empty());
    }
}

#[test]
fn search_longer_than_word_count_is_empty() {
    let board = classic_board();
    let words = vec![encoded("X", 0, 1, 0x0FFF), encoded("Y", 1, 0, 0x0FFF)];
    assert!(all_solutions(&words, 3, &board).is_empty());
}

#[test]
fn single_common_words_do_not_cover_board() {
    let board = classic_board();
    let dictionary = [
        "A", "BE", "FAD", "FACE", "HIDE", "LAKE", "BADGE", "JADE", "CAFE", "LIKE", "BIKE", "FIG",
        "DIG", "BAG", "HAD", "BID", "KID", "LID", "AID", "AGE", "ICE", "HEAL", "LEAK", "FLAKE",
        "BLEACH", "JACKAL", "HIKE",
    ];
    let words: Vec<BoardEncodedWord> = dictionary.iter().filter_map(|w| board.encode_word(w)).collect();
    assert!(!words.is_empty());
    assert!(all_solutions(&words, 1, &board).is_empty());
}

#[test]
fn two_chaining_words_found_once() {
    let board = Board::with_side_len("ABCD EFGH IJKL MNOP", 4).unwrap();
    let words = vec![
        encoded("ABCD", 0, 3, 0b0000_0000_0000_1111),
        encoded("DEFGHIJKLMNOP", 3, 15, 0b1111_1111_1111_1000),
        encoded("DPOM", 3, 12, (1 << 3) | (1 << 15) | (1 << 14) | (1 << 12)),
    ];
    assert_eq!(all_solutions(&words, 2, &board), vec![vec![0, 1]]);
}

#[test]
fn solutions_chain_and_cover() {
    let board = classic_board();
    let words = vec![
        encoded("w0", 0, 5, 0b0000_0011_1111),
        encoded("w1", 5, 9, 0b1111_1110_0000),
        encoded("w2", 9, 0, 0b0000_0000_0001),
        encoded("w3", 5, 0, 0b1111_1100_0000),
        encoded("w4", 0, 5, 0b0000_0010_0001),
    ];
    let found = all_solutions(&words, 2, &board);
    assert_eq!(found, vec![vec![0, 1], vec![0, 3], vec![3, 0]]);
    for p in &found {
        for pair in p.windows(2) {
            assert_eq!(words[pair[0]].end, words[pair[1]].start);
        }
        let cover = p.iter().fold(0u16, |acc, &i| acc | words[i].spots_filled);
        assert_eq!(cover, board.full_mask_value());
    }
}

#[test]
fn search_stays_exhausted() {
    let board = classic_board();
    let words = vec![encoded("X", 0, 1, 0x0FFF)];
    let mut search = valid_permutations(&words, 1, &board);
    assert_eq!(search.next_solution(), Some(vec![0]));
    assert_eq!(search.next_solution(), None);
    assert_eq!(search.next_solution(), None);
}

#[test]
fn three_word_chains() {
    let board = classic_board();
    let words = vec![
        encoded("a", 0, 1, 0b0000_0000_1111),
        encoded("b", 1, 2, 0b0000_1111_0000),
        encoded("c", 2, 3, 0b1111_0000_0000),
        encoded("d", 3, 0, 0b0000_0000_0001),
    ];
    assert_eq!(all_solutions(&words, 3, &board), vec![vec![0, 1, 2]]);
    assert!(all_solutions(&words, 2, &board).is_empty());
}
