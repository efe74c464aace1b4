use vstd::prelude::*;

use crate::piece::{
    board_wf, occupant, position_to_piece, Game, Piece, Side, BISHOP, KING, KIND_COUNT, KNIGHT,
    PAWN, QUEEN, ROOK,
};

verus! {

/// The kind and side that a placement letter stands for: lower case for
/// Black, upper case for White.
pub open spec fn letter_piece(c: char) -> Option<(usize, Side)> {
    if c == 'p' {
        Some((PAWN, Side::Black))
    } else if c == 'r' {
        Some((ROOK, Side::Black))
    } else if c == 'n' {
        Some((KNIGHT, Side::Black))
    } else if c == 'b' {
        Some((BISHOP, Side::Black))
    } else if c == 'q' {
        Some((QUEEN, Side::Black))
    } else if c == 'k' {
        Some((KING, Side::Black))
    } else if c == 'P' {
        Some((PAWN, Side::White))
    } else if c == 'R' {
        Some((ROOK, Side::White))
    } else if c == 'N' {
        Some((KNIGHT, Side::White))
    } else if c == 'B' {
        Some((BISHOP, Side::White))
    } else if c == 'Q' {
        Some((QUEEN, Side::White))
    } else if c == 'K' {
        Some((KING, Side::White))
    } else {
        None
    }
}

/// The run of empty squares that a digit stands for.
pub open spec fn letter_gap(c: char) -> Option<int> {
    if c == '1' {
        Some(1)
    } else if c == '2' {
        Some(2)
    } else if c == '3' {
        Some(3)
    } else if c == '4' {
        Some(4)
    } else if c == '5' {
        Some(5)
    } else if c == '6' {
        Some(6)
    } else if c == '7' {
        Some(7)
    } else if c == '8' {
        Some(8)
    } else {
        None
    }
}

/// A piece as a placement string sets it down: unmoved and in play.
pub open spec fn placed(kind: usize, side: Side, rank: int, file: int) -> Piece {
    Piece {
        typ_index: kind,
        position: (rank as usize, file as usize),
        times_moved: 0,
        side,
        captured: false,
    }
}

/// Reading state of a placement string: the rank and file of the next
/// square, whether the placement field has ended, and the pieces so far.
pub type ScanState = (int, int, bool, Seq<Piece>);

/// One character of a placement string. The field ends at the first space or
/// line break; what follows is not read. `/` moves to the next rank once the
/// current one is full (at most eight ranks), a digit skips that many squares
/// and a letter sets down a piece (never past the eighth file). Ending the
/// field before the eighth rank is full, or anything else, is malformed.
pub open spec fn scan_step(st: Option<ScanState>, c: char) -> Option<ScanState> {
    match st {
        None => None,
        Some((rank, file, done, ps)) => if done {
            st
        } else if c == ' ' || c == '\n' {
            if rank == 7 && file == 8 {
                Some((rank, file, true, ps))
            } else {
                None
            }
        } else if c == '/' {
            if rank < 7 && file == 8 {
                Some((rank + 1, 0, false, ps))
            } else {
                None
            }
        } else if letter_gap(c) is Some {
            if file + letter_gap(c)->0 <= 8 {
                Some((rank, file + letter_gap(c)->0, false, ps))
            } else {
                None
            }
        } else if letter_piece(c) is Some {
            if file < 8 {
                let (kind, side) = letter_piece(c)->0;
                Some((rank, file + 1, false, ps.push(placed(kind, side, rank, file))))
            } else {
                None
            }
        } else {
            None
        },
    }
}

/// The reading state after the characters `s`.
pub open spec fn scan(s: Seq<char>) -> Option<ScanState>
    decreases s.len(),
{
    if s.len() == 0 {
        Some((0, 0, false, Seq::empty()))
    } else {
        scan_step(scan(s.drop_last()), s.last())
    }
}

/// The pieces that the placement field of `s` sets down, rank 0 first and
/// each rank from file 0, or `None` where it is malformed: the field must
/// describe exactly eight ranks of exactly eight squares each.
pub open spec fn fen_pieces(s: Seq<char>) -> Option<Seq<Piece>> {
    match scan(s) {
        Some(st) => if st.0 == 7 && st.1 == 8 {
            Some(st.3)
        } else {
            None
        },
        None => None,
    }
}

/// The kind and side that a placement letter stands for.
fn letter_to_piece(c: char) -> (r: Option<(usize, Side)>)
    ensures
        r == letter_piece(c),
{
    match c {
        'p' => Some((PAWN, Side::Black)),
        'r' => Some((ROOK, Side::Black)),
        'n' => Some((KNIGHT, Side::Black)),
        'b' => Some((BISHOP, Side::Black)),
        'q' => Some((QUEEN, Side::Black)),
        'k' => Some((KING, Side::Black)),
        'P' => Some((PAWN, Side::White)),
        'R' => Some((ROOK, Side::White)),
        'N' => Some((KNIGHT, Side::White)),
        'B' => Some((BISHOP, Side::White)),
        'Q' => Some((QUEEN, Side::White)),
        'K' => Some((KING, Side::White)),
        _ => None,
    }
}

/// The run of empty squares that a digit stands for.
fn letter_to_gap(c: char) -> (r: Option<usize>)
    ensures
        match r {
            Some(n) => letter_gap(c) == Some(n as int),
            None => letter_gap(c) is None,
        },
{
    match c {
        '1' => Some(1),
        '2' => Some(2),
        '3' => Some(3),
        '4' => Some(4),
        '5' => Some(5),
        '6' => Some(6),
        '7' => Some(7),
        '8' => Some(8),
        _ => None,
    }
}

/// The board square order: rank first, then file.
pub open spec fn square_key(sq: (usize, usize)) -> int {
    sq.0 * 8 + sq.1
}

/// Reads the placement field of a position string (`rnbqkbnr/pppppppp/8/...`)
/// into the pieces it sets down. The fields after the first space are not
/// used. `None` where the field is malformed.
pub fn fen_to_board(fen: &str) -> (r: Option<Vec<Piece>>)
    ensures
        match r {
            Some(b) => fen_pieces(fen@) == Some(b@) && board_wf(b@),
            None => fen_pieces(fen@) is None,
        },
{
    let n = fen.unicode_len();
    let mut board: Vec<Piece> = Vec::new();
    let mut x: usize = 0;
    let mut y: usize = 0;
    let mut done = false;
    let mut failed = false;
    let mut i: usize = 0;
    while i < n
        invariant
            n == fen@.len(),
            0 <= i <= n,
            failed ==> scan(fen@.take(i as int)) is None,
            !failed ==> scan(fen@.take(i as int)) == Some(
                (x as int, y as int, done, board@),
            ),
            !failed ==> x < 8 && y <= 8,
            forall|j: int|
                0 <= j < board@.len() ==> {
                    let p = #[trigger] board@[j];
                    &&& p.typ_index < KIND_COUNT
                    &&& p.position.0 < 8
                    &&& p.position.1 < 8
                    &&& !p.captured
                    &&& square_key(p.position) < x * 8 + y
                },
            forall|j: int, l: int|
                0 <= j < l < board@.len() ==> square_key((#[trigger] board@[j]).position)
                    < square_key((#[trigger] board@[l]).position),
        decreases n - i,
    {
        let c = fen.get_char(i);
        proof {
            assert(fen@.take(i as int + 1).drop_last() =~= fen@.take(i as int));
            assert(fen@.take(i as int + 1).last() == c);
        }
        if !failed && !done {
            if c == ' ' || c == '\n' {
                if x == 7 && y == 8 {
                    done = true;
                } else {
                    failed = true;
                }
            } else if c == '/' {
                if x < 7 && y == 8 {
                    x = x + 1;
                    y = 0;
                } else {
                    failed = true;
                }
            } else {
                match letter_to_gap(c) {
                    Some(gap) => {
                        if y + gap <= 8 {
                            y = y + gap;
                        } else {
                            failed = true;
                        }
                    },
                    None => {
                        match letter_to_piece(c) {
                            Some((kind, side)) => {
                                if y < 8 {
                                    board.push(
                                        Piece {
                                            typ_index: kind,
                                            position: (x, y),
                                            times_moved: 0,
                                            side,
                                            captured: false,
                                        },
                                    );
                                    y = y + 1;
                                } else {
                                    failed = true;
                                }
                            },
                            None => {
                                failed = true;
                            },
                        }
                    },
                }
            }
        }
        i = i + 1;
    }
    proof {
        assert(fen@.take(n as int) =~= fen@);
    }
    if failed || x != 7 || y != 8 {
        None
    } else {
        proof {
            assert forall|j: int, l: int|
                0 <= j < board@.len() && 0 <= l < board@.len() && j != l && !(
                #[trigger] board@[j]).captured && !(#[trigger] board@[l]).captured implies board@[j].position
                != board@[l].position by {
                if j < l {
                    assert(square_key(board@[j].position) < square_key(board@[l].position));
                } else {
                    assert(square_key(board@[l].position) < square_key(board@[j].position));
                }
            }
        }
        Some(board)
    }
}

/// A placement string that does not describe a board.
#[derive(Debug, Clone, Copy, PartialEq, Eq, Structural)]
pub struct FenError;

/// An input line that asks for a fresh game: a lone line break.
pub open spec fn asks_fresh_game(s: Seq<char>) -> bool {
    s == seq!['\n']
}

/// The game that an input line starts. `Ok(None)` for a lone line break,
/// which leaves the choice of a fresh game to the caller; else the position
/// that the line's placement field gives, White to move, or `FenError` where
/// that field is malformed.
pub fn parse_fen(line: &str) -> (r: Result<Option<Game>, FenError>)
    ensures
        match r {
            Ok(None) => asks_fresh_game(line@),
            Ok(Some(g)) => {
                &&& !asks_fresh_game(line@)
                &&& g.side == Side::White
                &&& board_wf(g.pieces@)
                &&& fen_pieces(line@) == Some(g.pieces@)
            },
            Err(_) => !asks_fresh_game(line@) && fen_pieces(line@) is None,
        },
{
    let n = line.unicode_len();
    if n == 1 && line.get_char(0) == '\n' {
        proof {
            assert(line@ =~= seq!['\n']);
        }
        return Ok(None);
    }
    proof {
        if line@ == seq!['\n'] {
            assert(line@[0] == '\n');
        }
    }
    match fen_to_board(line) {
        Some(pieces) => Ok(Some(Game { pieces, side: Side::White })),
        None => Err(FenError),
    }
}

/// The letter that stands for a piece of kind `kind` and side `side`.
pub open spec fn piece_letter(kind: usize, side: Side) -> char {
    let c = if kind == PAWN {
        'p'
    } else if kind == ROOK {
        'r'
    } else if kind == KNIGHT {
        'n'
    } else if kind == BISHOP {
        'b'
    } else if kind == QUEEN {
        'q'
    } else {
        'k'
    };
    match side {
        Side::Black => c,
        Side::White => if c == 'p' {
            'P'
        } else if c == 'r' {
            'R'
        } else if c == 'n' {
            'N'
        } else if c == 'b' {
            'B'
        } else if c == 'q' {
            'Q'
        } else {
            'K'
        },
    }
}

/// The digit for a run of `n` empty squares, 1 to 8.
pub open spec fn gap_digit(n: int) -> char {
    if n == 1 {
        '1'
    } else if n == 2 {
        '2'
    } else if n == 3 {
        '3'
    } else if n == 4 {
        '4'
    } else if n == 5 {
        '5'
    } else if n == 6 {
        '6'
    } else if n == 7 {
        '7'
    } else {
        '8'
    }
}

/// The digit for a pending run of `run` empty squares, or nothing.
pub open spec fn gap_text(run: int) -> Seq<char> {
    if run > 0 {
        seq![gap_digit(run)]
    } else {
        Seq::empty()
    }
}

/// The text of rank `r` from file `f` on, after `run` empty squares not yet
/// written: a letter for each piece in play, a digit for each run of empty
/// squares.
pub open spec fn rank_text(b: Seq<Piece>, r: int, f: int, run: int) -> Seq<char>
    decreases 8 - f,
{
    if f >= 8 {
        gap_text(run)
    } else {
        match occupant(b, (r as usize, f as usize)) {
            None => rank_text(b, r, f + 1, run + 1),
            Some(i) => gap_text(run) + seq![piece_letter(b[i].typ_index, b[i].side)] + rank_text(
                b,
                r,
                f + 1,
                0,
            ),
        }
    }
}

/// The text of the ranks from `r` on, separated by `/`.
pub open spec fn ranks_text(b: Seq<Piece>, r: int) -> Seq<char>
    decreases 8 - r,
{
    if r >= 7 {
        rank_text(b, 7, 0, 0)
    } else {
        rank_text(b, r, 0, 0) + seq!['/'] + ranks_text(b, r + 1)
    }
}

/// The placement field that describes the pieces in play on `b`, rank 0 first.
pub open spec fn placement_text(b: Seq<Piece>) -> Seq<char> {
    ranks_text(b, 0)
}

/// Relies on `String::push`: the character is appended at the end.
#[verifier::external_body]
fn push_char(s: &mut String, c: char)
    ensures
        final(s)@ == old(s)@.push(c),
{
    s.push(c);
}

fn letter_of_piece(kind: usize, side: Side) -> (r: char)
    ensures
        r == piece_letter(kind, side),
{
    match side {
        Side::Black => if kind == PAWN {
            'p'
        } else if kind == ROOK {
            'r'
        } else if kind == KNIGHT {
            'n'
        } else if kind == BISHOP {
            'b'
        } else if kind == QUEEN {
            'q'
        } else {
            'k'
        },
        Side::White => if kind == PAWN {
            'P'
        } else if kind == ROOK {
            'R'
        } else if kind == KNIGHT {
            'N'
        } else if kind == BISHOP {
            'B'
        } else if kind == QUEEN {
            'Q'
        } else {
            'K'
        },
    }
}

fn digit_of_gap(n: usize) -> (r: char)
    requires
        1 <= n <= 8,
    ensures
        r == gap_digit(n as int),
{
    match n {
        1 => '1',
        2 => '2',
        3 => '3',
        4 => '4',
        5 => '5',
        6 => '6',
        7 => '7',
        _ => '8',
    }
}

/// Writes the placement field of a position string for the pieces in play
/// on `board`, rank 0 first: the inverse direction of `fen_to_board`.
pub fn board_to_fen(board: &Vec<Piece>) -> (r: String)
    ensures
        r@ == placement_text(board@),
{
    let ghost b = board@;
    let mut out = String::new();
    let mut x: usize = 0;
    while x < 8
        invariant
            0 <= x <= 8,
            b == board@,
            x < 8 ==> out@ + ranks_text(b, x as int) == placement_text(b),
            x == 8 ==> out@ == placement_text(b),
        decreases 8 - x,
    {
        let ghost start = out@;
        let mut y: usize = 0;
        let mut run: usize = 0;
        while y < 8
            invariant
                0 <= x < 8,
                0 <= y <= 8,
                run <= y,
                b == board@,
                out@ + rank_text(b, x as int, y as int, run as int) == start + rank_text(
                    b,
                    x as int,
                    0,
                    0,
                ),
            decreases 8 - y,
        {
            let ghost before = out@;
            match position_to_piece(board, (x, y)) {
                None => {
                    run = run + 1;
                },
                Some(i) => {
                    if run > 0 {
                        push_char(&mut out, digit_of_gap(run));
                    }
                    push_char(&mut out, letter_of_piece(board[i].typ_index, board[i].side));
                    proof {
                        assert(out@ =~= before + gap_text(run as int) + seq![
                            piece_letter(b[i as int].typ_index, b[i as int].side),
                        ]);
                        assert(out@ + rank_text(b, x as int, y as int + 1, 0) =~= before
                            + rank_text(b, x as int, y as int, run as int));
                    }
                    run = 0;
                },
            }
            y = y + 1;
        }
        let ghost before = out@;
        if run > 0 {
            push_char(&mut out, digit_of_gap(run));
        }
        assert(out@ =~= start + rank_text(b, x as int, 0, 0));
        if x < 7 {
            push_char(&mut out, '/');
            assert(out@ + ranks_text(b, x as int + 1) =~= start + ranks_text(b, x as int));
        } else {
            assert(out@ =~= start + ranks_text(b, x as int));
            assert(start + ranks_text(b, x as int) =~= placement_text(b));
        }
        x = x + 1;
    }
    out
}

} // verus!
