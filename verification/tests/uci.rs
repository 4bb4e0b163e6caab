use chess_engine::uci::{parse_uci, UciMove, KNIGHT, QUEEN};

#[test]
fn parses_normal_moves_squares_from_a1() {
    assert_eq!(parse_uci("e2e4"), Some(UciMove::Normal { from: 12, to: 28, promotion: None }));
    assert_eq!(parse_uci("a1h8"), Some(UciMove::Normal { from: 0, to: 63, promotion: None }));
}

#[test]
fn parses_promotions_drops_and_the_null_move() {
    assert_eq!(parse_uci("e7e8q"), Some(UciMove::Normal { from: 52, to: 60, promotion: Some(QUEEN) }));
    assert_eq!(parse_uci("b2b1n"), Some(UciMove::Normal { from: 9, to: 1, promotion: Some(KNIGHT) }));
    assert_eq!(parse_uci("Q@f7"), Some(UciMove::Put { role: QUEEN, to: 53 }));
    assert_eq!(parse_uci("0000"), Some(UciMove::Null));
}

#[test]
fn rejects_text_that_is_not_uci() {
    for bad in ["", "e2", "e2e9", "i2e4", "e2e4x", "e2e4qq", "e2-e4", "X@e4"] {
        assert_eq!(parse_uci(bad), None, "{bad}");
    }
}

#[test]
fn text_reads_back_as_the_same_move() {
    for text in ["e2e4", "a7a8q", "h2h1n", "N@c3", "0000", "e1g1"] {
        let m = parse_uci(text).unwrap();
        assert_eq!(m.to_uci_string(), text);
        assert_eq!(parse_uci(&m.to_uci_string()), Some(m));
    }
}

#[test]
fn codes_tell_moves_apart() {
    let moves: Vec<UciMove> =
        ["e2e4", "e4e2", "e7e8q", "e7e8n", "Q@e8", "N@e8", "0000"].iter().map(|t| parse_uci(t).unwrap()).collect();
    for (i, a) in moves.iter().enumerate() {
        for (j, b) in moves.iter().enumerate() {
            assert_eq!(a.code() == b.code(), i == j);
        }
    }
    assert_eq!(parse_uci("e2e4").unwrap().code(), 12 + 64 * 28);
    assert_eq!(UciMove::Null.code(), 40000);
}
