use vstd::prelude::*;

verus! {

broadcast use vstd::seq_lib::lemma_seq_contains_after_push;

/// Index of the pawn among the piece kinds.
pub const PAWN: usize = 0;

/// Index of the rook among the piece kinds.
pub const ROOK: usize = 1;

/// Index of the knight among the piece kinds.
pub const KNIGHT: usize = 2;

/// Index of the bishop among the piece kinds.
pub const BISHOP: usize = 3;

/// Index of the queen among the piece kinds.
pub const QUEEN: usize = 4;

/// Index of the king among the piece kinds.
pub const KING: usize = 5;

/// Number of piece kinds.
pub const KIND_COUNT: usize = 6;

/// The two competing parties.
#[derive(Debug, Clone, Copy, PartialEq, Eq, Structural)]
pub enum Side {
    White,
    Black,
}

impl Side {
    /// The other party.
    pub fn opponent(&self) -> (r: Side)
        ensures
            r != *self,
    {
        match self {
            Side::White => Side::Black,
            Side::Black => Side::White,
        }
    }
}

/// A piece of the game. Its identity is its index in the board's piece list.
///
/// `position` is (rank, file); rank 0 is Black's back rank and rank 7 White's.
/// A captured piece stays in the list, frozen where it was taken, and no
/// longer occupies any square.
#[derive(Debug, Clone, Copy, PartialEq, Eq)]
pub struct Piece {
    pub typ_index: usize,
    pub position: (usize, usize),
    pub times_moved: usize,
    pub side: Side,
    pub captured: bool,
}

/// A board together with the side whose turn it is.
pub struct Game {
    pub pieces: Vec<Piece>,
    pub side: Side,
}

pub open spec fn on_board(sq: (usize, usize)) -> bool {
    sq.0 < 8 && sq.1 < 8
}

/// A piece of a known kind standing on the board.
pub open spec fn piece_ok(p: Piece) -> bool {
    p.typ_index < KIND_COUNT && on_board(p.position)
}

/// Every piece of the board is of a known kind and stands on the board.
pub open spec fn board_ok(b: Seq<Piece>) -> bool {
    forall|i: int| 0 <= i < b.len() ==> piece_ok(#[trigger] b[i])
}

/// A board as the game keeps it: `board_ok`, and no two pieces that are
/// still in play share a square.
pub open spec fn board_wf(b: Seq<Piece>) -> bool {
    &&& board_ok(b)
    &&& forall|i: int, j: int|
        0 <= i < b.len() && 0 <= j < b.len() && i != j && !(#[trigger] b[i]).captured
            && !(#[trigger] b[j]).captured ==> b[i].position != b[j].position
}

/// The piece is in play and stands on `sq`.
pub open spec fn occupies(p: Piece, sq: (usize, usize)) -> bool {
    !p.captured && p.position == sq
}

/// `i` is the first index of the board whose piece occupies `sq`.
pub open spec fn is_first_at(b: Seq<Piece>, sq: (usize, usize), i: int) -> bool {
    &&& 0 <= i < b.len()
    &&& occupies(b[i], sq)
    &&& forall|j: int| 0 <= j < i ==> !occupies(#[trigger] b[j], sq)
}

/// The index of the piece that occupies `sq`, if any.
pub open spec fn occupant(b: Seq<Piece>, sq: (usize, usize)) -> Option<int> {
    if exists|i: int| is_first_at(b, sq, i) {
        Some(choose|i: int| is_first_at(b, sq, i))
    } else {
        None
    }
}

/// The side of the piece that occupies `sq`, if any.
pub open spec fn side_at(b: Seq<Piece>, sq: (usize, usize)) -> Option<Side> {
    match occupant(b, sq) {
        Some(i) => Some(b[i].side),
        None => None,
    }
}

/// At most one index is the first to occupy a square.
pub proof fn lemma_first_at_unique(b: Seq<Piece>, sq: (usize, usize), i: int, j: int)
    requires
        is_first_at(b, sq, i),
        is_first_at(b, sq, j),
    ensures
        i == j,
{
    if i < j {
        assert(!occupies(b[i], sq));
    } else if j < i {
        assert(!occupies(b[j], sq));
    }
}

/// On a well-formed board the occupant of a square is the one piece in play there.
pub proof fn lemma_occupant_of_wf(b: Seq<Piece>, sq: (usize, usize), k: int)
    requires
        board_wf(b),
        0 <= k < b.len(),
        occupies(b[k], sq),
    ensures
        occupant(b, sq) == Some(k),
        side_at(b, sq) == Some(b[k].side),
{
    assert forall|j: int| 0 <= j < k implies !occupies(#[trigger] b[j], sq) by {
        if occupies(b[j], sq) {
            assert(b[j].position != b[k].position);
        }
    }
    assert(is_first_at(b, sq, k));
    let c = choose|i: int| is_first_at(b, sq, i);
    lemma_first_at_unique(b, sq, c, k);
}

/// The index of the piece in play that stands on `position`, if any.
pub fn position_to_piece(pieces: &Vec<Piece>, position: (usize, usize)) -> (r: Option<usize>)
    ensures
        match r {
            Some(i) => occupant(pieces@, position) == Some(i as int),
            None => occupant(pieces@, position) is None,
        },
        r is None <==> forall|i: int| 0 <= i < pieces@.len() ==> !occupies(#[trigger] pieces@[i], position),
{
    let mut i: usize = 0;
    while i < pieces.len()
        invariant
            0 <= i <= pieces@.len(),
            forall|j: int| 0 <= j < i ==> !occupies(#[trigger] pieces@[j], position),
        decreases pieces@.len() - i,
    {
        let p = pieces[i];
        if !p.captured && p.position.0 == position.0 && p.position.1 == position.1 {
            proof {
                assert(is_first_at(pieces@, position, i as int));
                let c = choose|k: int| is_first_at(pieces@, position, k);
                lemma_first_at_unique(pieces@, position, c, i as int);
            }
            return Some(i);
        }
        i = i + 1;
    }
    proof {
        assert forall|k: int| !is_first_at(pieces@, position, k) by {
            if 0 <= k < pieces@.len() {
                assert(!occupies(pieces@[k], position));
            }
        }
    }
    None
}

/// The side of the piece in play on `sq`, if any.
fn side_on(pieces: &Vec<Piece>, sq: (usize, usize)) -> (r: Option<Side>)
    ensures
        r == side_at(pieces@, sq),
{
    match position_to_piece(pieces, sq) {
        Some(i) => Some(pieces[i].side),
        None => None,
    }
}

/// The square `dr` ranks and `dc` files away from `sq`, if it is on the board.
pub open spec fn offset(sq: (usize, usize), dr: int, dc: int) -> Option<(usize, usize)> {
    let r = sq.0 + dr;
    let c = sq.1 + dc;
    if 0 <= r < 8 && 0 <= c < 8 {
        Some((r as usize, c as usize))
    } else {
        None
    }
}

/// Rank step of direction `d`: up, down, left, right, up-left, down-right,
/// down-left, up-right. The first four are straight, the last four diagonal.
pub open spec fn dir_row(d: int) -> int {
    if d == 0 || d == 4 || d == 7 {
        -1
    } else if d == 1 || d == 5 || d == 6 {
        1
    } else {
        0
    }
}

/// File step of direction `d` (see `dir_row`).
pub open spec fn dir_col(d: int) -> int {
    if d == 2 || d == 4 || d == 6 {
        -1
    } else if d == 3 || d == 5 || d == 7 {
        1
    } else {
        0
    }
}

/// `u * k` for a unit step `u` in -1, 0, 1.
pub open spec fn scaled(u: int, k: int) -> int {
    if u == 0 {
        0
    } else if u == 1 {
        k
    } else {
        -k
    }
}

/// The square at distance `k` from `sq` in direction `d`, if it is on the board.
pub open spec fn ray_square(sq: (usize, usize), d: int, k: int) -> Option<(usize, usize)> {
    offset(sq, scaled(dir_row(d), k), scaled(dir_col(d), k))
}

/// The square is on the board and no piece in play stands on it.
pub open spec fn empty_square(b: Seq<Piece>, sq: Option<(usize, usize)>) -> bool {
    sq is Some && side_at(b, sq->0) is None
}

/// Every square strictly between `sq` and distance `k` along direction `d` is
/// on the board and empty.
pub open spec fn ray_open(b: Seq<Piece>, sq: (usize, usize), d: int, k: int) -> bool {
    forall|j: int| 1 <= j < k ==> empty_square(b, #[trigger] ray_square(sq, d, j))
}

/// Sliding `k` squares along direction `d` takes the piece to `t`: the way is
/// open and `t` is empty or held by the other side.
pub open spec fn ray_reaches(b: Seq<Piece>, p: Piece, d: int, k: int, t: (usize, usize)) -> bool {
    &&& 1 <= k
    &&& ray_square(p.position, d, k) == Some(t)
    &&& ray_open(b, p.position, d, k)
    &&& side_at(b, t) != Some(p.side)
}

/// Direction `d` is one of the straight ones when `straight` holds, or one
/// of the diagonal ones when `diagonal` holds.
pub open spec fn dir_used(d: int, straight: bool, diagonal: bool) -> bool {
    0 <= d < 8 && (if d < 4 {
        straight
    } else {
        diagonal
    })
}

/// The piece slides to `t` along one of the allowed directions, at most
/// `max_dist` squares.
pub open spec fn slides_to(
    b: Seq<Piece>,
    p: Piece,
    straight: bool,
    diagonal: bool,
    max_dist: int,
    t: (usize, usize),
) -> bool {
    exists|d: int, k: int|
        dir_used(d, straight, diagonal) && k <= max_dist && #[trigger] ray_reaches(b, p, d, k, t)
}

/// Rank part of the `i`-th knight jump.
pub open spec fn knight_row(i: int) -> int {
    if i == 0 || i == 1 {
        -2
    } else if i == 2 || i == 3 {
        2
    } else if i == 4 || i == 7 {
        -1
    } else {
        1
    }
}

/// File part of the `i`-th knight jump.
pub open spec fn knight_col(i: int) -> int {
    if i == 0 || i == 2 {
        -1
    } else if i == 1 || i == 3 {
        1
    } else if i == 4 || i == 5 {
        2
    } else {
        -2
    }
}

/// The `i`-th knight jump takes the piece to `t`, which is empty or enemy.
pub open spec fn knight_jump(b: Seq<Piece>, p: Piece, i: int, t: (usize, usize)) -> bool {
    &&& 0 <= i < 8
    &&& offset(p.position, knight_row(i), knight_col(i)) == Some(t)
    &&& side_at(b, t) != Some(p.side)
}

/// The rank step of a pawn of side `s`: White moves towards rank 0.
pub open spec fn forward(s: Side) -> int {
    match s {
        Side::White => -1,
        Side::Black => 1,
    }
}

/// A pawn steps one square forward onto an empty square; on its first move
/// two squares forward when both are empty; or one square diagonally forward
/// onto a piece of the other side.
pub open spec fn pawn_reaches(b: Seq<Piece>, p: Piece, t: (usize, usize)) -> bool {
    let f = forward(p.side);
    let one = offset(p.position, f, 0);
    ||| one == Some(t) && side_at(b, t) is None
    ||| p.times_moved == 0 && offset(p.position, 2 * f, 0) == Some(t) && side_at(b, t) is None
        && empty_square(b, one)
    ||| (offset(p.position, f, -1) == Some(t) || offset(p.position, f, 1) == Some(t))
        && side_at(b, t) is Some && side_at(b, t)->0 != p.side
}

/// The piece may move to `t` on board `b`.
pub open spec fn can_reach(b: Seq<Piece>, p: Piece, t: (usize, usize)) -> bool {
    if p.typ_index == PAWN {
        pawn_reaches(b, p, t)
    } else if p.typ_index == ROOK {
        slides_to(b, p, true, false, 7, t)
    } else if p.typ_index == KNIGHT {
        exists|i: int| #[trigger] knight_jump(b, p, i, t)
    } else if p.typ_index == BISHOP {
        slides_to(b, p, false, true, 7, t)
    } else if p.typ_index == QUEEN {
        slides_to(b, p, true, true, 7, t)
    } else if p.typ_index == KING {
        slides_to(b, p, true, true, 1, t)
    } else {
        false
    }
}

/// The square `dr` ranks and `dc` files away from `sq`, if it is on the board.
fn offset_square(sq: (usize, usize), dr: i64, dc: i64) -> (r: Option<(usize, usize)>)
    requires
        on_board(sq),
        -8 <= dr <= 8,
        -8 <= dc <= 8,
    ensures
        r == offset(sq, dr as int, dc as int),
{
    let r: i64 = sq.0 as i64 + dr;
    let c: i64 = sq.1 as i64 + dc;
    if 0 <= r && r < 8 && 0 <= c && c < 8 {
        Some((r as usize, c as usize))
    } else {
        None
    }
}

/// The unit steps of direction `d`.
fn direction(d: usize) -> (r: (i64, i64))
    requires
        d < 8,
    ensures
        r.0 == dir_row(d as int),
        r.1 == dir_col(d as int),
{
    match d {
        0 => (-1, 0),
        1 => (1, 0),
        2 => (0, -1),
        3 => (0, 1),
        4 => (-1, -1),
        5 => (1, 1),
        6 => (1, -1),
        _ => (-1, 1),
    }
}

/// `u * k` for a unit step `u`.
fn scale(u: i64, k: usize) -> (r: i64)
    requires
        -1 <= u <= 1,
        k <= 8,
    ensures
        r == scaled(u as int, k as int),
{
    if u == 0 {
        0
    } else if u == 1 {
        k as i64
    } else {
        -(k as i64)
    }
}

/// The `i`-th knight jump.
fn knight_offset(i: usize) -> (r: (i64, i64))
    requires
        i < 8,
    ensures
        r.0 == knight_row(i as int),
        r.1 == knight_col(i as int),
{
    match i {
        0 => (-2, -1),
        1 => (-2, 1),
        2 => (2, -1),
        3 => (2, 1),
        4 => (-1, 2),
        5 => (1, 2),
        6 => (1, -2),
        _ => (-1, -2),
    }
}

/// Once the square at distance `k` is off the board or taken, no square
/// beyond it is reached along that direction.
proof fn lemma_ray_stops(b: Seq<Piece>, p: Piece, d: int, k: int)
    requires
        1 <= k,
        !empty_square(b, ray_square(p.position, d, k)),
    ensures
        forall|t: (usize, usize), j: int| j > k ==> !#[trigger] ray_reaches(b, p, d, j, t),
{
    assert forall|t: (usize, usize), j: int| j > k implies !#[trigger] ray_reaches(b, p, d, j, t) by {
        if ray_reaches(b, p, d, j, t) {
            assert(empty_square(b, ray_square(p.position, d, k)));
        }
    }
}

/// The square at distance `k` is in a list made of `base`, which holds no
/// square of the ray, and the squares reached below `k` only if it is in
/// neither.
proof fn lemma_ray_square_fresh(
    b: Seq<Piece>,
    p: Piece,
    d: int,
    k: int,
    base: Seq<(usize, usize)>,
    out: Seq<(usize, usize)>,
)
    requires
        on_board(p.position),
        0 <= d < 8,
        1 <= k,
        ray_square(p.position, d, k) is Some,
        !base.contains(ray_square(p.position, d, k)->0),
        forall|t: (usize, usize)|
            #![trigger out.contains(t)]
            out.contains(t) <==> (base.contains(t) || exists|j: int|
                1 <= j < k && #[trigger] ray_reaches(b, p, d, j, t)),
    ensures
        !out.contains(ray_square(p.position, d, k)->0),
{
    let t = ray_square(p.position, d, k)->0;
    if out.contains(t) {
        let j = choose|j: int| 1 <= j < k && #[trigger] ray_reaches(b, p, d, j, t);
        lemma_ray_unique(p.position, d, k, d, j);
    }
}

/// Appends to `out` the squares that the piece reaches along direction `d`
/// within `max_dist` squares.
fn cast_ray(
    pieces: &Vec<Piece>,
    piece: &Piece,
    d: usize,
    max_dist: usize,
    out: &mut Vec<(usize, usize)>,
)
    requires
        d < 8,
        max_dist <= 7,
        on_board(piece.position),
        old(out)@.no_duplicates(),
        forall|k: int|
            1 <= k && #[trigger] ray_square(piece.position, d as int, k) is Some ==> !old(
                out,
            )@.contains(ray_square(piece.position, d as int, k)->0),
    ensures
        forall|t: (usize, usize)|
            final(out)@.contains(t) <==> (old(out)@.contains(t) || exists|k: int|
                1 <= k <= max_dist && #[trigger] ray_reaches(pieces@, *piece, d as int, k, t)),
        final(out)@.no_duplicates(),
{
    let ghost b = pieces@;
    let ghost out0 = out@;
    let (dr, dc) = direction(d);
    let mut k: usize = 1;
    while k <= max_dist
        invariant
            1 <= k <= max_dist + 1,
            max_dist <= 7,
            d < 8,
            b == pieces@,
            out0 == old(out)@,
            on_board(piece.position),
            dr == dir_row(d as int),
            dc == dir_col(d as int),
            ray_open(b, piece.position, d as int, k as int),
            out@.no_duplicates(),
            forall|m: int|
                1 <= m && #[trigger] ray_square(piece.position, d as int, m) is Some ==> !out0.contains(
                    ray_square(piece.position, d as int, m)->0,
                ),
            forall|t: (usize, usize)|
                #![trigger out@.contains(t)]
                out@.contains(t) <==> (out0.contains(t) || exists|j: int|
                    1 <= j < k && #[trigger] ray_reaches(b, *piece, d as int, j, t)),
        decreases max_dist + 1 - k,
    {
        let sq = offset_square(piece.position, scale(dr, k), scale(dc, k));
        assert(sq == ray_square(piece.position, d as int, k as int));
        match sq {
            None => {
                proof {
                    lemma_ray_stops(b, *piece, d as int, k as int);
                    assert forall|t: (usize, usize), j: int|
                        1 <= j <= max_dist && #[trigger] ray_reaches(b, *piece, d as int, j, t) implies j < k by {}
                }
                return ;
            },
            Some(s) => {
                match side_on(pieces, s) {
                    Some(other) => {
                        let ghost before = out@;
                        proof {
                            lemma_ray_square_fresh(b, *piece, d as int, k as int, out0, before);
                        }
                        if other != piece.side {
                            out.push(s);
                        }
                        proof {
                            lemma_ray_stops(b, *piece, d as int, k as int);
                            assert forall|t: (usize, usize), j: int|
                                1 <= j <= max_dist && #[trigger] ray_reaches(b, *piece, d as int, j, t) implies j < k + 1 by {}
                            assert forall|t: (usize, usize)|
                                out@.contains(t) <==> (out0.contains(t) || exists|j: int|
                                    1 <= j < k + 1 && #[trigger] ray_reaches(
                                        b,
                                        *piece,
                                        d as int,
                                        j,
                                        t,
                                    )) by {
                                assert(before.contains(t) <==> (out0.contains(t) || exists|j: int|
                                    1 <= j < k && #[trigger] ray_reaches(b, *piece, d as int, j, t)));
                                if out@.contains(t) && !before.contains(t) {
                                    assert(ray_reaches(b, *piece, d as int, k as int, t));
                                }
                                if exists|j: int|
                                    1 <= j < k + 1 && #[trigger] ray_reaches(b, *piece, d as int, j, t) {
                                    let j = choose|j: int|
                                        1 <= j < k + 1 && #[trigger] ray_reaches(
                                            b,
                                            *piece,
                                            d as int,
                                            j,
                                            t,
                                        );
                                    if j == k {
                                        assert(t == s);
                                    }
                                }
                            }
                        }
                        return ;
                    },
                    None => {
                        let ghost before = out@;
                        proof {
                            lemma_ray_square_fresh(b, *piece, d as int, k as int, out0, before);
                        }
                        out.push(s);
                        proof {
                            assert forall|t: (usize, usize)|
                                out@.contains(t) <==> (out0.contains(t) || exists|j: int|
                                    1 <= j < k + 1 && #[trigger] ray_reaches(
                                        b,
                                        *piece,
                                        d as int,
                                        j,
                                        t,
                                    )) by {
                                assert(before.contains(t) <==> (out0.contains(t) || exists|j: int|
                                    1 <= j < k && #[trigger] ray_reaches(b, *piece, d as int, j, t)));
                                if t == s {
                                    assert(ray_reaches(b, *piece, d as int, k as int, t));
                                }
                            }
                            assert forall|j: int| 1 <= j < k + 1 implies empty_square(
                                b,
                                #[trigger] ray_square(piece.position, d as int, j),
                            ) by {}
                        }
                        k = k + 1;
                    },
                }
            },
        }
    }
}

/// Appends to `out` the squares that the piece reaches by sliding at most
/// `max_dist` squares along the straight and/or diagonal directions.
fn find_all_movements(
    pieces: &Vec<Piece>,
    piece: &Piece,
    out: &mut Vec<(usize, usize)>,
    straight: bool,
    diagonal: bool,
    max_dist: usize,
)
    requires
        max_dist <= 7,
        on_board(piece.position),
        old(out)@.len() == 0,
    ensures
        forall|t: (usize, usize)| final(out)@.contains(t) <==> slides_to(
            pieces@,
            *piece,
            straight,
            diagonal,
            max_dist as int,
            t,
        ),
        final(out)@.no_duplicates(),
{
    let ghost b = pieces@;
    let ghost out0 = out@;
    let mut d: usize = 0;
    while d < 8
        invariant
            0 <= d <= 8,
            max_dist <= 7,
            b == pieces@,
            out0 == old(out)@,
            out0.len() == 0,
            on_board(piece.position),
            out@.no_duplicates(),
            forall|t: (usize, usize)|
                #![trigger out@.contains(t)]
                out@.contains(t) <==> (out0.contains(t) || exists|e: int, k: int|
                    e < d && dir_used(e, straight, diagonal) && k <= max_dist
                        && #[trigger] ray_reaches(b, *piece, e, k, t)),
        decreases 8 - d,
    {
        let used = if d < 4 {
            straight
        } else {
            diagonal
        };
        let ghost before = out@;
        proof {
            assert forall|k: int|
                1 <= k && #[trigger] ray_square(piece.position, d as int, k) is Some implies !before.contains(
                ray_square(piece.position, d as int, k)->0) by {
                let t = ray_square(piece.position, d as int, k)->0;
                if before.contains(t) {
                    let (e, m) = choose|e: int, m: int|
                        e < d && dir_used(e, straight, diagonal) && m <= max_dist
                            && #[trigger] ray_reaches(b, *piece, e, m, t);
                    lemma_ray_unique(piece.position, d as int, k, e, m);
                }
            }
        }
        if used {
            cast_ray(pieces, piece, d, max_dist, out);
        }
        proof {
            assert forall|t: (usize, usize)|
                #![trigger out@.contains(t)]
                out@.contains(t) <==> (out0.contains(t) || exists|e: int, k: int|
                    e < d + 1 && dir_used(e, straight, diagonal) && k <= max_dist
                        && #[trigger] ray_reaches(b, *piece, e, k, t)) by {
                assert(before.contains(t) <==> (out0.contains(t) || exists|e: int, k: int|
                    e < d && dir_used(e, straight, diagonal) && k <= max_dist
                        && #[trigger] ray_reaches(b, *piece, e, k, t)));
                if exists|e: int, k: int|
                    e < d + 1 && dir_used(e, straight, diagonal) && k <= max_dist
                        && #[trigger] ray_reaches(b, *piece, e, k, t) {
                    let (e, k) = choose|e: int, k: int|
                        e < d + 1 && dir_used(e, straight, diagonal) && k <= max_dist
                            && #[trigger] ray_reaches(b, *piece, e, k, t);
                    if e == d {
                        assert(1 <= k <= max_dist && ray_reaches(b, *piece, d as int, k, t));
                    }
                }
            }
        }
        d = d + 1;
    }
}

/// Appends to `out` the squares that a knight reaches.
fn knight_movements(pieces: &Vec<Piece>, piece: &Piece, out: &mut Vec<(usize, usize)>)
    requires
        on_board(piece.position),
        old(out)@.len() == 0,
    ensures
        forall|t: (usize, usize)|
            final(out)@.contains(t) <==> exists|i: int| #[trigger] knight_jump(pieces@, *piece, i, t),
        final(out)@.no_duplicates(),
{
    let ghost b = pieces@;
    let ghost out0 = out@;
    let mut i: usize = 0;
    while i < 8
        invariant
            0 <= i <= 8,
            b == pieces@,
            out0 == old(out)@,
            out0.len() == 0,
            on_board(piece.position),
            out@.no_duplicates(),
            forall|t: (usize, usize)|
                #![trigger out@.contains(t)]
                out@.contains(t) <==> (out0.contains(t) || exists|j: int|
                    j < i && #[trigger] knight_jump(b, *piece, j, t)),
        decreases 8 - i,
    {
        let (dr, dc) = knight_offset(i);
        let ghost before = out@;
        let target = offset_square(piece.position, dr, dc);
        match target {
            Some(sq) => {
                proof {
                    if before.contains(sq) {
                        let j = choose|j: int| j < i && #[trigger] knight_jump(b, *piece, j, sq);
                        assert(knight_row(j) == knight_row(i as int));
                        assert(knight_col(j) == knight_col(i as int));
                    }
                }
                let occupied = side_on(pieces, sq);
                if occupied != Some(piece.side) {
                    out.push(sq);
                }
            },
            None => {},
        }
        proof {
            assert forall|t: (usize, usize)|
                #![trigger out@.contains(t)]
                out@.contains(t) <==> (out0.contains(t) || exists|j: int|
                    j < i + 1 && #[trigger] knight_jump(b, *piece, j, t)) by {
                assert(before.contains(t) <==> (out0.contains(t) || exists|j: int|
                    j < i && #[trigger] knight_jump(b, *piece, j, t)));
                if out@.contains(t) && !before.contains(t) {
                    assert(knight_jump(b, *piece, i as int, t));
                }
                if exists|j: int| j < i + 1 && #[trigger] knight_jump(b, *piece, j, t) {
                    let j = choose|j: int| j < i + 1 && #[trigger] knight_jump(b, *piece, j, t);
                    if j == i {
                        assert(target == Some(t));
                    }
                }
            }
        }
        i = i + 1;
    }
}

/// Appends to `out` the squares that a pawn reaches.
fn pawn_movements(pieces: &Vec<Piece>, piece: &Piece, out: &mut Vec<(usize, usize)>)
    requires
        on_board(piece.position),
        old(out)@.len() == 0,
    ensures
        forall|t: (usize, usize)| final(out)@.contains(t) <==> pawn_reaches(pieces@, *piece, t),
        final(out)@.no_duplicates(),
{
    let ghost b = pieces@;
    let ghost out0 = out@;
    let f: i64 = match piece.side {
        Side::White => -1,
        Side::Black => 1,
    };
    // One square forward, onto an empty square.
    let one = offset_square(piece.position, f, 0);
    let mut one_empty = false;
    match one {
        Some(sq) => {
            if side_on(pieces, sq).is_none() {
                out.push(sq);
                one_empty = true;
            }
        },
        None => {},
    }
    let ghost out1 = out@;
    // Two squares forward on the first move, over and onto empty squares.
    if piece.times_moved == 0 && one_empty {
        match offset_square(piece.position, 2 * f, 0) {
            Some(sq) => {
                if side_on(pieces, sq).is_none() {
                    out.push(sq);
                }
            },
            None => {},
        }
    }
    let ghost out2 = out@;
    // One square diagonally forward, onto a piece of the other side only.
    let right = offset_square(piece.position, f, 1);
    match right {
        Some(sq) => {
            match side_on(pieces, sq) {
                Some(s) => {
                    if s != piece.side {
                        out.push(sq);
                    }
                },
                None => {},
            }
        },
        None => {},
    }
    let left = offset_square(piece.position, f, -1);
    match left {
        Some(sq) => {
            match side_on(pieces, sq) {
                Some(s) => {
                    if s != piece.side {
                        out.push(sq);
                    }
                },
                None => {},
            }
        },
        None => {},
    }
    proof {
        assert(f == forward(piece.side));
    }
}

/// The display name of the `i`-th piece kind, padded to six characters.
pub open spec fn kind_name(i: int) -> Seq<char> {
    if i == PAWN {
        "pawn  "@
    } else if i == ROOK {
        "rook  "@
    } else if i == KNIGHT {
        "knight"@
    } else if i == BISHOP {
        "bishop"@
    } else if i == QUEEN {
        "queen "@
    } else {
        "king  "@
    }
}

/// Whether two strings hold the same characters.
fn same_text(a: &str, b: &str) -> (r: bool)
    ensures
        r == (a@ == b@),
{
    let n = a.unicode_len();
    if n != b.unicode_len() {
        return false;
    }
    let mut i: usize = 0;
    while i < n
        invariant
            n == a@.len(),
            n == b@.len(),
            0 <= i <= n,
            forall|j: int| 0 <= j < i ==> a@[j] == b@[j],
        decreases n - i,
    {
        if a.get_char(i) != b.get_char(i) {
            return false;
        }
        i = i + 1;
    }
    assert(a@ =~= b@);
    true
}

/// The display name of the `i`-th piece kind.
fn name_of_kind(i: usize) -> (r: &'static str)
    requires
        i < KIND_COUNT,
    ensures
        r@ == kind_name(i as int),
{
    if i == PAWN {
        "pawn  "
    } else if i == ROOK {
        "rook  "
    } else if i == KNIGHT {
        "knight"
    } else if i == BISHOP {
        "bishop"
    } else if i == QUEEN {
        "queen "
    } else {
        "king  "
    }
}

impl Piece {
    /// The display name of this piece's kind.
    pub fn typ(&self) -> (r: &'static str)
        requires
            self.typ_index < KIND_COUNT,
        ensures
            r@ == kind_name(self.typ_index as int),
    {
        name_of_kind(self.typ_index)
    }

    /// Changes this piece's kind to the one whose display name is `new_typ`.
    pub fn transform_typ(&mut self, new_typ: &str)
        requires
            exists|i: int| 0 <= i < KIND_COUNT && kind_name(i) == new_typ@,
        ensures
            final(self).typ_index < KIND_COUNT,
            kind_name(final(self).typ_index as int) == new_typ@,
            final(self).position == old(self).position,
            final(self).times_moved == old(self).times_moved,
            final(self).side == old(self).side,
            final(self).captured == old(self).captured,
    {
        let mut i: usize = 0;
        while i < KIND_COUNT
            invariant
                0 <= i <= KIND_COUNT,
                forall|j: int| 0 <= j < i ==> kind_name(j) != new_typ@,
                *self == *old(self),
                exists|k: int| 0 <= k < KIND_COUNT && kind_name(k) == new_typ@,
            decreases KIND_COUNT - i,
        {
            if same_text(name_of_kind(i), new_typ) {
                self.typ_index = i;
                return;
            }
            i = i + 1;
        }
    }

    /// The squares this piece may move to on the board `pieces`, each
    /// listed once, in no promised order.
    pub fn valid_movements(&self, pieces: &Vec<Piece>) -> (r: Vec<(usize, usize)>)
        requires
            on_board(self.position),
        ensures
            forall|t: (usize, usize)| r@.contains(t) <==> can_reach(pieces@, *self, t),
            r@.no_duplicates(),
    {
        let mut all_valid_movements: Vec<(usize, usize)> = Vec::new();
        if self.typ_index == PAWN {
            pawn_movements(pieces, self, &mut all_valid_movements);
        } else if self.typ_index == ROOK {
            find_all_movements(pieces, self, &mut all_valid_movements, true, false, 7);
        } else if self.typ_index == KNIGHT {
            knight_movements(pieces, self, &mut all_valid_movements);
        } else if self.typ_index == BISHOP {
            find_all_movements(pieces, self, &mut all_valid_movements, false, true, 7);
        } else if self.typ_index == QUEEN {
            find_all_movements(pieces, self, &mut all_valid_movements, true, true, 7);
        } else if self.typ_index == KING {
            find_all_movements(pieces, self, &mut all_valid_movements, true, true, 1);
        }
        all_valid_movements
    }
}

/// Every destination of a piece is empty or held by the other side.
pub proof fn lemma_reach_not_own_side(b: Seq<Piece>, p: Piece, t: (usize, usize))
    requires
        can_reach(b, p, t),
    ensures
        side_at(b, t) != Some(p.side),
{
    if p.typ_index == KNIGHT {
        let i = choose|i: int| #[trigger] knight_jump(b, p, i, t);
    } else if p.typ_index != PAWN {
        let (d, k) = choose|d: int, k: int|
            dir_used(d, true, true) && #[trigger] ray_reaches(b, p, d, k, t);
    }
}

/// On a well-formed board, no piece can move onto a square where a piece of
/// its own side stands.
pub proof fn lemma_no_friendly_destination(b: Seq<Piece>, p: Piece, t: (usize, usize), k: int)
    requires
        board_wf(b),
        can_reach(b, p, t),
        0 <= k < b.len(),
        occupies(b[k], t),
    ensures
        b[k].side != p.side,
{
    lemma_occupant_of_wf(b, t, k);
    lemma_reach_not_own_side(b, p, t);
}

/// From a square on the board, two rays that land on the same square are the
/// same direction and distance.
pub proof fn lemma_ray_unique(sq: (usize, usize), d: int, k: int, e: int, m: int)
    requires
        on_board(sq),
        0 <= d < 8,
        0 <= e < 8,
        1 <= k,
        1 <= m,
        ray_square(sq, d, k) is Some,
        ray_square(sq, d, k) == ray_square(sq, e, m),
    ensures
        d == e,
        k == m,
{
}

/// A rook, bishop, queen or king never moves past the first occupied square
/// of a ray: every square strictly between it and its destination is empty.
pub proof fn lemma_slide_stops_at_first_piece(
    b: Seq<Piece>,
    p: Piece,
    t: (usize, usize),
    d: int,
    k: int,
)
    requires
        p.typ_index == ROOK || p.typ_index == BISHOP || p.typ_index == QUEEN || p.typ_index
            == KING,
        on_board(p.position),
        can_reach(b, p, t),
        0 <= d < 8,
        1 <= k,
        ray_square(p.position, d, k) == Some(t),
    ensures
        forall|j: int| 1 <= j < k ==> empty_square(b, #[trigger] ray_square(p.position, d, j)),
{
    let (e, m) = choose|e: int, m: int|
        dir_used(e, true, true) && #[trigger] ray_reaches(b, p, e, m, t);
    lemma_ray_unique(p.position, d, k, e, m);
}

/// A pawn that has not moved, with both squares ahead of it empty, may step
/// two squares forward.
pub proof fn lemma_pawn_double_step(b: Seq<Piece>, p: Piece)
    requires
        p.typ_index == PAWN,
        p.times_moved == 0,
        empty_square(b, offset(p.position, forward(p.side), 0)),
        empty_square(b, offset(p.position, 2 * forward(p.side), 0)),
    ensures
        can_reach(b, p, offset(p.position, 2 * forward(p.side), 0)->0),
{
}

/// A pawn that has moved never steps two squares forward, whatever the board.
pub proof fn lemma_moved_pawn_single_steps(b: Seq<Piece>, p: Piece, t: (usize, usize))
    requires
        p.typ_index == PAWN,
        p.times_moved > 0,
        on_board(p.position),
        offset(p.position, 2 * forward(p.side), 0) == Some(t),
    ensures
        !can_reach(b, p, t),
{
}

/// On a well-formed board, a pawn may move to a square diagonally in front of
/// it exactly when a piece of the other side stands there; never onto an
/// empty one.
pub proof fn lemma_pawn_diagonal(b: Seq<Piece>, p: Piece, dc: int, t: (usize, usize))
    requires
        board_wf(b),
        p.typ_index == PAWN,
        on_board(p.position),
        dc == 1 || dc == -1,
        offset(p.position, forward(p.side), dc) == Some(t),
    ensures
        can_reach(b, p, t) <==> exists|k: int|
            0 <= k < b.len() && occupies(#[trigger] b[k], t) && b[k].side != p.side,
        (forall|k: int| 0 <= k < b.len() ==> !occupies(#[trigger] b[k], t)) ==> !can_reach(
            b,
            p,
            t,
        ),
{
    if exists|k: int| 0 <= k < b.len() && occupies(#[trigger] b[k], t) {
        let k = choose|k: int| 0 <= k < b.len() && occupies(#[trigger] b[k], t);
        lemma_occupant_of_wf(b, t, k);
        assert forall|j: int| 0 <= j < b.len() && occupies(#[trigger] b[j], t) implies j == k by {
            lemma_occupant_of_wf(b, t, j);
        }
    } else {
        if occupant(b, t) is Some {
            let i = occupant(b, t)->0;
            assert(is_first_at(b, t, i));
        }
    }
}

/// The kind on file `f` of either back rank at the start.
pub open spec fn back_rank_kind(f: int) -> usize {
    if f == 0 || f == 7 {
        ROOK
    } else if f == 1 || f == 6 {
        KNIGHT
    } else if f == 2 || f == 5 {
        BISHOP
    } else if f == 3 {
        QUEEN
    } else {
        KING
    }
}

/// The `i`-th of the 32 pieces at the start: Black's back rank (rank 0) and
/// pawns (rank 1), then White's pawns (rank 6) and back rank (rank 7), each
/// from file 0 to file 7, unmoved and in play.
pub open spec fn start_piece(i: int) -> Piece {
    let (rank, file, kind, side) = if i < 8 {
        (0usize, i, back_rank_kind(i), Side::Black)
    } else if i < 16 {
        (1usize, i - 8, PAWN, Side::Black)
    } else if i < 24 {
        (6usize, i - 16, PAWN, Side::White)
    } else {
        (7usize, i - 24, back_rank_kind(i - 24), Side::White)
    };
    Piece { typ_index: kind, position: (rank, file as usize), times_moved: 0, side, captured: false }
}

/// The starting layout as a sequence of pieces.
pub open spec fn start_layout() -> Seq<Piece> {
    Seq::new(32, |i: int| start_piece(i))
}

fn back_rank_kind_of(f: usize) -> (r: usize)
    requires
        f < 8,
    ensures
        r == back_rank_kind(f as int),
{
    if f == 0 || f == 7 {
        ROOK
    } else if f == 1 || f == 6 {
        KNIGHT
    } else if f == 2 || f == 5 {
        BISHOP
    } else if f == 3 {
        QUEEN
    } else {
        KING
    }
}

/// The pieces of a fresh game in the standard layout.
pub fn starting_pieces() -> (r: Vec<Piece>)
    ensures
        r@ == start_layout(),
        board_wf(r@),
{
    let mut pieces: Vec<Piece> = Vec::new();
    let mut i: usize = 0;
    while i < 32
        invariant
            0 <= i <= 32,
            pieces@.len() == i,
            forall|j: int| 0 <= j < i ==> pieces@[j] == start_piece(j),
        decreases 32 - i,
    {
        let p = if i < 8 {
            Piece {
                typ_index: back_rank_kind_of(i),
                position: (0, i),
                times_moved: 0,
                side: Side::Black,
                captured: false,
            }
        } else if i < 16 {
            Piece {
                typ_index: PAWN,
                position: (1, i - 8),
                times_moved: 0,
                side: Side::Black,
                captured: false,
            }
        } else if i < 24 {
            Piece {
                typ_index: PAWN,
                position: (6, i - 16),
                times_moved: 0,
                side: Side::White,
                captured: false,
            }
        } else {
            Piece {
                typ_index: back_rank_kind_of(i - 24),
                position: (7, i - 24),
                times_moved: 0,
                side: Side::White,
                captured: false,
            }
        };
        pieces.push(p);
        i = i + 1;
    }
    assert(pieces@ =~= start_layout());
    pieces
}

} // verus!
