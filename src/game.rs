use vstd::prelude::*;

use crate::piece::{
    board_ok, board_wf, can_reach, is_first_at, lemma_occupant_of_wf, lemma_reach_not_own_side,
    forward, lemma_moved_pawn_single_steps, occupant, occupies, offset, on_board, piece_ok,
    position_to_piece, Game, Piece, Side, PAWN, QUEEN,
};

verus! {

/// Why a move request was turned down. A rejected request changes nothing.
#[derive(Debug, Clone, Copy, PartialEq, Eq, Structural)]
pub enum MoveError {
    /// The destination lies outside the 8 by 8 grid.
    OutOfBounds,
    /// No piece in play stands on the source square.
    NoPieceAtSource,
    /// The piece on the source square belongs to the side not moving.
    WrongSideToMove,
    /// The piece cannot move to the destination.
    IllegalDestination,
}

/// The rank of either back row, where a pawn is promoted.
pub open spec fn last_rank(r: usize) -> bool {
    r == 0 || r == 7
}

/// The piece after it moved to `to`: relocated, its move count raised (held
/// at the largest value the counter can hold), and a pawn that reached a back
/// row made a queen.
pub open spec fn moved_piece(p: Piece, to: (usize, usize)) -> Piece {
    Piece {
        typ_index: if p.typ_index == PAWN && last_rank(to.0) {
            QUEEN
        } else {
            p.typ_index
        },
        position: to,
        times_moved: if p.times_moved < usize::MAX {
            (p.times_moved + 1) as usize
        } else {
            p.times_moved
        },
        side: p.side,
        captured: p.captured,
    }
}

/// The piece after it was taken.
pub open spec fn taken_piece(p: Piece) -> Piece {
    Piece { captured: true, ..p }
}

/// What moving the piece on `from` to `to` for side `turn` does to board `b`:
/// the new board, or why the request is turned down. The checks come in this
/// order: destination on the board, a piece on the source square, its side,
/// and the destination among its moves.
pub open spec fn apply_move(b: Seq<Piece>, from: (usize, usize), to: (usize, usize), turn: Side) -> Result<
    Seq<Piece>,
    MoveError,
> {
    if !on_board(to) {
        Err(MoveError::OutOfBounds)
    } else {
        match occupant(b, from) {
            None => Err(MoveError::NoPieceAtSource),
            Some(i) => if b[i].side != turn {
                Err(MoveError::WrongSideToMove)
            } else if !can_reach(b, b[i], to) {
                Err(MoveError::IllegalDestination)
            } else {
                let b1 = match occupant(b, to) {
                    Some(c) => b.update(c, taken_piece(b[c])),
                    None => b,
                };
                Ok(b1.update(i, moved_piece(b[i], to)))
            },
        }
    }
}

/// The board that a move request leaves behind: the new board when the
/// request succeeds, else the board unchanged.
pub open spec fn board_after(
    b: Seq<Piece>,
    from: (usize, usize),
    to: (usize, usize),
    turn: Side,
) -> Seq<Piece> {
    match apply_move(b, from, to, turn) {
        Ok(nb) => nb,
        Err(_) => b,
    }
}

/// Whether `t` is among `v`.
fn contains_square(v: &Vec<(usize, usize)>, t: (usize, usize)) -> (r: bool)
    ensures
        r == v@.contains(t),
{
    let mut i: usize = 0;
    while i < v.len()
        invariant
            0 <= i <= v@.len(),
            forall|j: int| 0 <= j < i ==> v@[j] != t,
        decreases v@.len() - i,
    {
        let s = v[i];
        if s.0 == t.0 && s.1 == t.1 {
            return true;
        }
        i = i + 1;
    }
    false
}

/// Moves the piece on `requested_piece` to `destination` for side `turn`, taking the
/// piece that stands there and promoting a pawn that reaches a back row.
pub fn move_piece(
    pieces: &mut Vec<Piece>,
    requested_piece: (usize, usize),
    destination: (usize, usize),
    turn: Side,
) -> (r: Result<(), MoveError>)
    requires
        board_ok(old(pieces)@),
    ensures
        match apply_move(old(pieces)@, requested_piece, destination, turn) {
            Ok(b) => r is Ok && final(pieces)@ == b,
            Err(e) => r == Err::<(), MoveError>(e) && final(pieces)@ == old(pieces)@,
        },
        final(pieces)@ == board_after(old(pieces)@, requested_piece, destination, turn),
        board_ok(final(pieces)@),
        board_wf(old(pieces)@) ==> board_wf(final(pieces)@),
{
    if destination.0 >= 8 || destination.1 >= 8 {
        return Err(MoveError::OutOfBounds);
    }
    let maybe_piece = position_to_piece(pieces, requested_piece);
    let maybe_piece_at_destination = position_to_piece(pieces, destination);
    match maybe_piece {
        None => Err(MoveError::NoPieceAtSource),
        Some(piece_index) => {
            let piece = pieces[piece_index];
            if piece.side != turn {
                return Err(MoveError::WrongSideToMove);
            }
            let allowed_positions = piece.valid_movements(pieces);
            if !contains_square(&allowed_positions, destination) {
                return Err(MoveError::IllegalDestination);
            }
            match maybe_piece_at_destination {
                Some(other_piece_index) => {
                    let mut other = pieces[other_piece_index];
                    other.captured = true;
                    pieces.set(other_piece_index, other);
                },
                None => {},
            }
            let mut moved = piece;
            moved.position = destination;
            if moved.times_moved < usize::MAX {
                moved.times_moved = moved.times_moved + 1;
            }
            if moved.typ_index == PAWN && (destination.0 == 0 || destination.0 == 7) {
                moved.typ_index = QUEEN;
            }
            pieces.set(piece_index, moved);
            proof {
                lemma_move_keeps_board_wf(old(pieces)@, requested_piece, destination, turn);
            }
            Ok(())
        },
    }
}

impl Game {
    /// Plays a move for the side whose turn it is; on success the turn passes
    /// to the other side, and on a rejection nothing changes.
    pub fn play_move(&mut self, from: (usize, usize), to: (usize, usize)) -> (r: Result<(), MoveError>)
        requires
            board_ok(old(self).pieces@),
        ensures
            match apply_move(old(self).pieces@, from, to, old(self).side) {
                Ok(b) => r is Ok && final(self).pieces@ == b && final(self).side != old(self).side,
                Err(e) => r == Err::<(), MoveError>(e) && final(self).pieces@ == old(self).pieces@
                    && final(self).side == old(self).side,
            },
            board_ok(final(self).pieces@),
            board_wf(old(self).pieces@) ==> board_wf(final(self).pieces@),
    {
        let r = move_piece(&mut self.pieces, from, to, self.side);
        if r.is_ok() {
            self.side = self.side.opponent();
        }
        r
    }
}

/// A successful move keeps a well-formed board well formed: every piece of a
/// known kind on the board, and no two pieces in play on one square.
pub proof fn lemma_move_keeps_board_wf(
    b: Seq<Piece>,
    from: (usize, usize),
    to: (usize, usize),
    turn: Side,
)
    requires
        board_ok(b),
        apply_move(b, from, to, turn) is Ok,
    ensures
        board_ok(apply_move(b, from, to, turn)->Ok_0),
        board_wf(b) ==> board_wf(apply_move(b, from, to, turn)->Ok_0),
{
    let i = occupant(b, from)->0;
    let nb = apply_move(b, from, to, turn)->Ok_0;
    assert(is_first_at(b, from, i));
    let c = occupant(b, to);
    if c is Some {
        assert(is_first_at(b, to, c->0));
    }
    assert(nb.len() == b.len());
    assert forall|j: int| 0 <= j < nb.len() implies piece_ok(#[trigger] nb[j]) by {
        assert(piece_ok(b[j]));
    }
    if board_wf(b) {
        lemma_reach_not_own_side(b, b[i], to);
        assert forall|j: int, l: int|
            0 <= j < nb.len() && 0 <= l < nb.len() && j != l && !(#[trigger] nb[j]).captured
                && !(#[trigger] nb[l]).captured implies nb[j].position != nb[l].position by {
            if j != i && l != i {
                assert(nb[j] == b[j] || nb[j] == taken_piece(b[j]));
                assert(nb[l] == b[l] || nb[l] == taken_piece(b[l]));
            } else {
                let o = if j == i {
                    l
                } else {
                    j
                };
                if nb[o].position == to {
                    assert(!b[o].captured);
                    assert(occupies(b[o], to));
                    lemma_occupant_of_wf(b, to, o);
                }
            }
        }
    }
}

/// A pawn that moves onto a back row becomes a queen; a piece of any other
/// kind keeps its kind, so a queen stays a queen.
pub proof fn lemma_promotion(b: Seq<Piece>, from: (usize, usize), to: (usize, usize), turn: Side)
    requires
        apply_move(b, from, to, turn) is Ok,
    ensures
        ({
            let i = occupant(b, from)->0;
            let nb = apply_move(b, from, to, turn)->Ok_0;
            &&& b[i].typ_index == PAWN && last_rank(to.0) ==> nb[i].typ_index == QUEEN
            &&& b[i].typ_index != PAWN ==> nb[i].typ_index == b[i].typ_index
            &&& nb[i].position == to
        }),
{
    let i = occupant(b, from)->0;
    assert(is_first_at(b, from, i));
}

/// After one successful move, a piece that is still a pawn never has the
/// square two ahead of it among its moves, whatever the board it then stands on.
pub proof fn lemma_no_double_step_after_move(
    b: Seq<Piece>,
    from: (usize, usize),
    to: (usize, usize),
    turn: Side,
    later: Seq<Piece>,
    t: (usize, usize),
)
    requires
        apply_move(b, from, to, turn) is Ok,
        apply_move(b, from, to, turn)->Ok_0[occupant(b, from)->0].typ_index == PAWN,
        offset(
            apply_move(b, from, to, turn)->Ok_0[occupant(b, from)->0].position,
            2 * forward(turn),
            0,
        ) == Some(t),
    ensures
        !can_reach(later, apply_move(b, from, to, turn)->Ok_0[occupant(b, from)->0], t),
{
    let i = occupant(b, from)->0;
    assert(is_first_at(b, from, i));
    let p = apply_move(b, from, to, turn)->Ok_0[i];
    assert(p.times_moved > 0);
    assert(p.side == turn);
    lemma_moved_pawn_single_steps(later, p, t);
}

/// A rejected request leaves the board as it was, so making the same request
/// a second time meets the same rejection and again leaves the board as it was.
pub proof fn lemma_rejection_repeats(
    b: Seq<Piece>,
    from: (usize, usize),
    to: (usize, usize),
    turn: Side,
    e: MoveError,
)
    requires
        apply_move(b, from, to, turn) == Err::<Seq<Piece>, MoveError>(e),
    ensures
        board_after(b, from, to, turn) == b,
        apply_move(board_after(b, from, to, turn), from, to, turn) == Err::<Seq<Piece>, MoveError>(
            e,
        ),
        board_after(board_after(b, from, to, turn), from, to, turn) == b,
{
}

/// The characters of `s` without its line breaks.
pub open spec fn without_newlines(s: Seq<char>) -> Seq<char>
    decreases s.len(),
{
    if s.len() == 0 {
        s
    } else if s.last() == '\n' {
        without_newlines(s.drop_last())
    } else {
        without_newlines(s.drop_last()).push(s.last())
    }
}

/// The file that a letter `a` to `h` names.
pub open spec fn file_of(c: char) -> Option<usize> {
    if c == 'a' {
        Some(0usize)
    } else if c == 'b' {
        Some(1usize)
    } else if c == 'c' {
        Some(2usize)
    } else if c == 'd' {
        Some(3usize)
    } else if c == 'e' {
        Some(4usize)
    } else if c == 'f' {
        Some(5usize)
    } else if c == 'g' {
        Some(6usize)
    } else if c == 'h' {
        Some(7usize)
    } else {
        None
    }
}

/// The rank that a digit `1` to `8` names: `1` is rank 7, White's back rank.
pub open spec fn rank_of(c: char) -> Option<usize> {
    if c == '1' {
        Some(7usize)
    } else if c == '2' {
        Some(6usize)
    } else if c == '3' {
        Some(5usize)
    } else if c == '4' {
        Some(4usize)
    } else if c == '5' {
        Some(3usize)
    } else if c == '6' {
        Some(2usize)
    } else if c == '7' {
        Some(1usize)
    } else if c == '8' {
        Some(0usize)
    } else {
        None
    }
}

/// The square that a letter and a digit name, such as `e2`.
pub open spec fn square_named(f: char, r: char) -> Option<(usize, usize)> {
    if file_of(f) is Some && rank_of(r) is Some {
        Some((rank_of(r)->0, file_of(f)->0))
    } else {
        None
    }
}

/// The move request that a line such as `e2 e4` makes, line breaks aside:
/// two squares, each a file letter and a rank digit, with one space between.
pub open spec fn movement_of(s: Seq<char>) -> Option<((usize, usize), (usize, usize))> {
    let t = without_newlines(s);
    if t.len() == 5 && t[2] == ' ' && square_named(t[0], t[1]) is Some && square_named(t[3], t[4]) is Some {
        Some((square_named(t[0], t[1])->0, square_named(t[3], t[4])->0))
    } else {
        None
    }
}

fn file_of_letter(c: char) -> (r: Option<usize>)
    ensures
        r == file_of(c),
{
    match c {
        'a' => Some(0),
        'b' => Some(1),
        'c' => Some(2),
        'd' => Some(3),
        'e' => Some(4),
        'f' => Some(5),
        'g' => Some(6),
        'h' => Some(7),
        _ => None,
    }
}

fn rank_of_digit(c: char) -> (r: Option<usize>)
    ensures
        r == rank_of(c),
{
    match c {
        '1' => Some(7),
        '2' => Some(6),
        '3' => Some(5),
        '4' => Some(4),
        '5' => Some(3),
        '6' => Some(2),
        '7' => Some(1),
        '8' => Some(0),
        _ => None,
    }
}

fn square_of(f: char, r: char) -> (res: Option<(usize, usize)>)
    ensures
        res == square_named(f, r),
{
    match (file_of_letter(f), rank_of_digit(r)) {
        (Some(file), Some(rank)) => Some((rank, file)),
        _ => None,
    }
}

/// Reads a move request such as `e2 e4` into (source, destination) squares,
/// each as (rank, file). `None` where the line is not of that form.
pub fn parse_movement(line: &str) -> (r: Option<((usize, usize), (usize, usize))>)
    ensures
        r == movement_of(line@),
{
    let n = line.unicode_len();
    let mut chars: Vec<char> = Vec::new();
    let mut i: usize = 0;
    while i < n
        invariant
            n == line@.len(),
            0 <= i <= n,
            chars@ == without_newlines(line@.take(i as int)),
        decreases n - i,
    {
        let c = line.get_char(i);
        proof {
            assert(line@.take(i as int + 1).drop_last() =~= line@.take(i as int));
        }
        if c != '\n' {
            chars.push(c);
        }
        i = i + 1;
    }
    proof {
        assert(line@.take(n as int) =~= line@);
    }
    if chars.len() != 5 || chars[2] != ' ' {
        return None;
    }
    match (square_of(chars[0], chars[1]), square_of(chars[3], chars[4])) {
        (Some(from), Some(to)) => Some((from, to)),
        _ => None,
    }
}

} // verus!
