//! Moves in the notation of the Universal Chess Interface.
//!
//! Squares are numbered `file + 8 * rank` (a1 = 0, h8 = 63) and piece types
//! are numbered pawn = 1, knight = 2, bishop = 3, rook = 4, queen = 5,
//! king = 6.

use vstd::prelude::*;

verus! {

/// Piece type number of a pawn.
pub const PAWN: u8 = 1;
/// Piece type number of a knight.
pub const KNIGHT: u8 = 2;
/// Piece type number of a bishop.
pub const BISHOP: u8 = 3;
/// Piece type number of a rook.
pub const ROOK: u8 = 4;
/// Piece type number of a queen.
pub const QUEEN: u8 = 5;
/// Piece type number of a king.
pub const KING: u8 = 6;

/// A move as written in UCI: `e2e4`, `h2h1q`, `Q@f7` or the null move `0000`.
#[derive(Clone, Copy, PartialEq, Eq, Structural, Hash, Debug)]
pub enum UciMove {
    Normal { from: u8, to: u8, promotion: Option<u8> },
    Put { role: u8, to: u8 },
    Null,
}

/// A piece type number lies in `1..=6`.
pub open spec fn role_ok(r: u8) -> bool {
    1 <= r <= 6
}

/// The file (`a..h`) named by a character.
pub open spec fn file_of(c: char) -> Option<u8> {
    if 'a' <= c <= 'h' {
        Some((c as u32 - 'a' as u32) as u8)
    } else {
        None
    }
}

/// The rank (`1..8`) named by a character, counted from zero.
pub open spec fn rank_of(c: char) -> Option<u8> {
    if '1' <= c <= '8' {
        Some((c as u32 - '1' as u32) as u8)
    } else {
        None
    }
}

/// The piece type named by a letter, in either case.
pub open spec fn role_of(c: char) -> Option<u8> {
    if c == 'P' || c == 'p' {
        Some(1u8)
    } else if c == 'N' || c == 'n' {
        Some(2u8)
    } else if c == 'B' || c == 'b' {
        Some(3u8)
    } else if c == 'R' || c == 'r' {
        Some(4u8)
    } else if c == 'Q' || c == 'q' {
        Some(5u8)
    } else if c == 'K' || c == 'k' {
        Some(6u8)
    } else {
        None
    }
}

/// The square named by a file character and a rank character.
pub open spec fn square_of(f: char, r: char) -> Option<u8> {
    match (file_of(f), rank_of(r)) {
        (Some(x), Some(y)) => Some((x + 8 * y) as u8),
        _ => None,
    }
}

/// What a text reads as in UCI notation, if anything.
pub open spec fn spec_parse_uci(s: Seq<char>) -> Option<UciMove> {
    if s.len() == 4 {
        if s[0] == '0' && s[1] == '0' && s[2] == '0' && s[3] == '0' {
            Some(UciMove::Null)
        } else if s[1] == '@' {
            match (role_of(s[0]), square_of(s[2], s[3])) {
                (Some(role), Some(to)) => Some(UciMove::Put { role, to }),
                _ => None,
            }
        } else {
            match (square_of(s[0], s[1]), square_of(s[2], s[3])) {
                (Some(from), Some(to)) => Some(UciMove::Normal { from, to, promotion: None }),
                _ => None,
            }
        }
    } else if s.len() == 5 {
        match (square_of(s[0], s[1]), square_of(s[2], s[3]), role_of(s[4])) {
            (Some(from), Some(to), Some(p)) => Some(
                UciMove::Normal { from, to, promotion: Some(p) },
            ),
            _ => None,
        }
    } else {
        None
    }
}

/// The two characters that name a square.
pub open spec fn square_text(sq: u8) -> Seq<char> {
    seq![(('a' as u32) + (sq % 8) as u32) as char, (('1' as u32) + (sq / 8) as u32) as char]
}

/// The lower-case letter of a piece type.
pub open spec fn role_lower(r: u8) -> char {
    if r == 1 {
        'p'
    } else if r == 2 {
        'n'
    } else if r == 3 {
        'b'
    } else if r == 4 {
        'r'
    } else if r == 5 {
        'q'
    } else {
        'k'
    }
}

/// The upper-case letter of a piece type.
pub open spec fn role_upper(r: u8) -> char {
    if r == 1 {
        'P'
    } else if r == 2 {
        'N'
    } else if r == 3 {
        'B'
    } else if r == 4 {
        'R'
    } else if r == 5 {
        'Q'
    } else {
        'K'
    }
}

impl UciMove {
    /// Squares lie on the board and piece types are known.
    pub open spec fn wf(self) -> bool {
        match self {
            UciMove::Normal { from, to, promotion } => from < 64 && to < 64 && match promotion {
                Some(p) => role_ok(p),
                None => true,
            },
            UciMove::Put { role, to } => role_ok(role) && to < 64,
            UciMove::Null => true,
        }
    }

    /// The UCI text of the move.
    pub open spec fn text(self) -> Seq<char> {
        match self {
            UciMove::Normal { from, to, promotion } => square_text(from) + square_text(to) + match promotion {
                Some(p) => seq![role_lower(p)],
                None => Seq::empty(),
            },
            UciMove::Put { role, to } => seq![role_upper(role), '@'] + square_text(to),
            UciMove::Null => seq!['0', '0', '0', '0'],
        }
    }

    /// A number that identifies a well-formed move.
    pub open spec fn spec_code(&self) -> u32 {
        match self {
            UciMove::Normal { from, to, promotion } => match promotion {
                None => (from as u32 + 64 * to as u32) as u32,
                Some(p) => (4096 * p as u32 + from as u32 + 64 * to as u32) as u32,
            },
            UciMove::Put { role, to } => (32768 + 64 * role as u32 + to as u32) as u32,
            UciMove::Null => 40000u32,
        }
    }

    /// A number that identifies the move among well-formed moves.
    #[verifier::when_used_as_spec(spec_code)]
    pub fn code(&self) -> (c: u32)
        requires
            self.wf(),
        ensures
            c == self.spec_code(),
    {
        match *self {
            UciMove::Normal { from, to, promotion } => match promotion {
                None => from as u32 + 64 * to as u32,
                Some(p) => 4096 * p as u32 + from as u32 + 64 * to as u32,
            },
            UciMove::Put { role, to } => 32768 + 64 * role as u32 + to as u32,
            UciMove::Null => 40000,
        }
    }

    /// The UCI text of the move, e.g. `"e2e4"`.
    pub fn to_uci_string(&self) -> (s: String)
        requires
            self.wf(),
        ensures
            s@ == self.text(),
    {
        uci_text(*self)
    }
}

/// What a text reads as is a well-formed move.
pub proof fn lemma_parse_wf(s: Seq<char>)
    ensures
        spec_parse_uci(s) matches Some(m) ==> m.wf(),
{
}

proof fn lemma_square_text(sq: u8)
    requires
        sq < 64,
    ensures
        square_of(square_text(sq)[0], square_text(sq)[1]) == Some(sq),
{
    let f = sq % 8;
    let r = sq / 8;
    assert(f + 8 * r == sq);
    let cf = (('a' as u32) + f as u32) as char;
    let cr = (('1' as u32) + r as u32) as char;
    assert(cf as u32 == 97 + f);
    assert(cr as u32 == 49 + r);
}

/// Reading the UCI text of a well-formed move gives the move back.
pub proof fn law_parse_text(m: UciMove)
    requires
        m.wf(),
    ensures
        spec_parse_uci(m.text()) == Some(m),
{
    match m {
        UciMove::Normal { from, to, promotion } => {
            lemma_square_text(from);
            lemma_square_text(to);
            let t = m.text();
            assert(t[0] == square_text(from)[0] && t[1] == square_text(from)[1]);
            assert(t[2] == square_text(to)[0] && t[3] == square_text(to)[1]);
            assert(t[1] != '@');
            if let Some(p) = promotion {
                assert(t[4] == role_lower(p));
            }
        },
        UciMove::Put { role, to } => {
            lemma_square_text(to);
            let t = m.text();
            assert(t[0] == role_upper(role) && t[1] == '@');
            assert(t[2] == square_text(to)[0] && t[3] == square_text(to)[1]);
        },
        UciMove::Null => {},
    }
}

/// Two well-formed moves with the same code are the same move.
pub proof fn lemma_code_injective(a: UciMove, b: UciMove)
    requires
        a.wf(),
        b.wf(),
        a.spec_code() == b.spec_code(),
    ensures
        a == b,
{
}

/// `shakmaty::uci::UciMove::from_ascii`: reads the text of a move; the
/// contract restates the grammar that its source accepts (four characters for
/// a normal move or a drop, five for a promotion, `0000` for the null move).
#[verifier::external_body]
fn read_uci(token: &str) -> (m: Option<UciMove>)
    ensures
        m == spec_parse_uci(token@),
{
    match shakmaty::uci::UciMove::from_ascii(token.as_bytes()) {
        Ok(shakmaty::uci::UciMove::Normal { from, to, promotion }) => Some(
            UciMove::Normal { from: u8::from(from), to: u8::from(to), promotion: promotion.map(u8::from) },
        ),
        Ok(shakmaty::uci::UciMove::Put { role, to }) => Some(UciMove::Put { role: u8::from(role), to: u8::from(to) }),
        Ok(shakmaty::uci::UciMove::Null) => Some(UciMove::Null),
        Err(_) => None,
    }
}

/// Reads a move written in UCI notation, such as `e2e4`, `e7e8q`, `Q@f7` or
/// `0000`; the move is well formed.
pub fn parse_uci(token: &str) -> (m: Option<UciMove>)
    ensures
        m == spec_parse_uci(token@),
        m matches Some(u) ==> u.wf(),
{
    proof {
        lemma_parse_wf(token@);
    }
    read_uci(token)
}

/// The `Display` of `shakmaty::uci::UciMove`: writes the text of a move, the
/// squares as file and rank, a promotion in lower case, a dropped piece in
/// upper case before `@`.
#[verifier::external_body]
fn uci_text(m: UciMove) -> (s: String)
    requires
        m.wf(),
    ensures
        s@ == m.text(),
{
    match m {
        UciMove::Normal { from, to, promotion } => shakmaty::uci::UciMove::Normal {
            from: shakmaty::Square::new(from as u32),
            to: shakmaty::Square::new(to as u32),
            promotion: match promotion { Some(p) => shakmaty::Role::try_from(p).ok(), None => None },
        }.to_string(),
        UciMove::Put { role, to } => shakmaty::uci::UciMove::Put {
            role: shakmaty::Role::try_from(role).unwrap(),
            to: shakmaty::Square::new(to as u32),
        }.to_string(),
        UciMove::Null => shakmaty::uci::UciMove::Null.to_string(),
    }
}

} // verus!
