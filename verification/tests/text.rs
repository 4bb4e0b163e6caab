use chess_engine::text::{chars_of, split_bounds, trim_bounds};

#[test]
fn split_gives_every_piece_between_separators() {
    let s = chars_of("a,,bc,");
    assert_eq!(split_bounds(&s, ','), vec![(0, 1), (2, 2), (3, 5), (6, 6)]);
    assert_eq!(split_bounds(&chars_of(""), ','), vec![(0, 0)]);
}

#[test]
fn trim_drops_whitespace_at_both_ends() {
    let s = chars_of(" \t e2e4 \n");
    assert_eq!(trim_bounds(&s, 0, s.len()), (3, 7));
    let blank = chars_of("   ");
    let (a, b) = trim_bounds(&blank, 0, blank.len());
    assert_eq!(a, b);
}

#[test]
fn white_space_is_what_char_says_it_is() {
    for c in (0u32..0x11_0000).filter_map(char::from_u32) {
        assert_eq!(chess_engine::text::is_whitespace(c), c.is_whitespace(), "{:x}", c as u32);
    }
}
