use waffle_iron::util::puzzle_str_to_bytes;

#[test]
fn a_text_of_81_digits_is_a_grid() {
    let text = "530070000600195000098000060800060003400803001700020006060000280000419005000080079";
    let grid = puzzle_str_to_bytes(text).unwrap();
    assert_eq!(grid[0], 5);
    assert_eq!(grid[1], 3);
    assert_eq!(grid[2], 0);
    assert_eq!(grid[4], 7);
    assert_eq!(grid[80], 9);
    assert_eq!(grid.iter().filter(|&&d| d == 0).count(), 51);
}

#[test]
fn a_text_of_another_length_is_no_grid() {
    assert!(puzzle_str_to_bytes("").is_none());
    assert!(puzzle_str_to_bytes("123").is_none());
    let long = "5300700006001950000980000608000600034008030017000200060600002800004190050000800790";
    assert_eq!(long.len(), 82);
    assert!(puzzle_str_to_bytes(long).is_none());
    let short = "53007000060019500009800006080006000340080300170002000606000028000041900500008007";
    assert_eq!(short.len(), 80);
    assert!(puzzle_str_to_bytes(short).is_none());
}

#[test]
fn a_text_with_another_character_is_no_grid() {
    let dot = "53..7....6..195....98....6.8...6...34..8.3..17...2...6.6....28....419..5....8..79";
    assert_eq!(dot.len(), 81);
    assert!(puzzle_str_to_bytes(dot).is_none());
    let slash = "/30070000600195000098000060800060003400803001700020006060000280000419005000080079";
    assert!(puzzle_str_to_bytes(slash).is_none());
    let colon = ":30070000600195000098000060800060003400803001700020006060000280000419005000080079";
    assert!(puzzle_str_to_bytes(colon).is_none());
}

#[test]
fn all_ten_digits_are_read() {
    let text = "012345678901234567890123456789012345678901234567890123456789012345678901234567890";
    let grid = puzzle_str_to_bytes(text).unwrap();
    for i in 0..81usize {
        assert_eq!(grid[i] as usize, i % 10);
    }
}
