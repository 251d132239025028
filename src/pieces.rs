use vstd::prelude::*;
use crate::board::{Board, Color, Square, cell, flagged, in_bounds, opposite};

verus! {

/// The six kinds of piece.
#[derive(Clone, Copy, Debug, PartialEq, Eq, Structural, PartialOrd, Ord, Hash)]
pub enum Pieces {
    Pawn,
    Rook,
    Knight,
    Bishop,
    Queen,
    King,
}

/// A piece: its kind and its side.
#[derive(Clone, Copy, Debug, PartialEq, Eq, Structural)]
pub struct Piece {
    pub kind: Pieces,
    pub color: Color,
}

/// The letter that shows a piece: lower case for Black, upper case for White.
pub open spec fn letter(p: Piece) -> char {
    match (p.kind, p.color) {
        (Pieces::Pawn, Color::Black) => 'p',
        (Pieces::Rook, Color::Black) => 'r',
        (Pieces::Knight, Color::Black) => 'n',
        (Pieces::Bishop, Color::Black) => 'b',
        (Pieces::Queen, Color::Black) => 'q',
        (Pieces::King, Color::Black) => 'k',
        (Pieces::Pawn, Color::White) => 'P',
        (Pieces::Rook, Color::White) => 'R',
        (Pieces::Knight, Color::White) => 'N',
        (Pieces::Bishop, Color::White) => 'B',
        (Pieces::Queen, Color::White) => 'Q',
        (Pieces::King, Color::White) => 'K',
    }
}

/// What stands at (x, y) in an occupancy sequence indexed by `cell`.
pub open spec fn at(occ: Seq<Option<Piece>>, x: int, y: int) -> Option<Piece> {
    occ[cell(x, y)]
}

pub open spec fn abs(d: int) -> int {
    if d < 0 {
        -d
    } else {
        d
    }
}

pub open spec fn sign(d: int) -> int {
    if d > 0 {
        1
    } else if d < 0 {
        -1
    } else {
        0
    }
}

/// The coordinate `k` steps from `a` in direction `s`.
pub open spec fn step(a: int, s: int, k: int) -> int {
    if s > 0 {
        a + k
    } else if s < 0 {
        a - k
    } else {
        a
    }
}

/// The rank direction in which `c`'s pawns advance.
pub open spec fn forward(c: Color) -> int {
    match c {
        Color::White => 1,
        Color::Black => -1,
    }
}

pub open spec fn straight(dx: int, dy: int) -> bool {
    (dx == 0) != (dy == 0) && -7 <= dx <= 7 && -7 <= dy <= 7
}

pub open spec fn diagonal(dx: int, dy: int) -> bool {
    dx != 0 && (dx == dy || dx == -dy) && -7 <= dx <= 7
}

pub open spec fn knight_jump(dx: int, dy: int) -> bool {
    (abs(dx) == 1 && abs(dy) == 2) || (abs(dx) == 2 && abs(dy) == 1)
}

/// The offsets that a piece's kind allows, before any look at the board.
pub open spec fn shape(p: Piece, dx: int, dy: int) -> bool {
    match p.kind {
        Pieces::Pawn => (dx == 0 && (dy == forward(p.color) || dy == 2 * forward(p.color))) || (
        (dx == 1 || dx == -1) && dy == forward(p.color)),
        Pieces::Rook => straight(dx, dy),
        Pieces::Knight => knight_jump(dx, dy),
        Pieces::Bishop => diagonal(dx, dy),
        Pieces::Queen => straight(dx, dy) || diagonal(dx, dy),
        Pieces::King => -1 <= dx <= 1 && -1 <= dy <= 1 && (dx != 0 || dy != 0),
    }
}

/// Every square strictly between (px, py) and (px + dx, py + dy) on their line is empty.
pub open spec fn path_clear(occ: Seq<Option<Piece>>, px: int, py: int, dx: int, dy: int) -> bool {
    forall|k: int|
        0 < k < (if abs(dx) > abs(dy) {
            abs(dx)
        } else {
            abs(dy)
        }) ==> (#[trigger] at(occ, step(px, sign(dx), k), step(py, sign(dy), k))).is_none()
}

/// A piece of color `c` stands at (x, y).
pub open spec fn holds_color(occ: Seq<Option<Piece>>, x: int, y: int, c: Color) -> bool {
    at(occ, x, y) is Some && at(occ, x, y).unwrap().color == c
}

/// A pawn moves straight only onto an empty square, and diagonally only to take an enemy piece
/// or a pawn that may be taken en passant on the target's file.
pub open spec fn pawn_rule(occ: Seq<Option<Piece>>, mask: u16, p: Piece, tx: int, ty: int, dx: int) -> bool {
    if dx == 0 {
        at(occ, tx, ty).is_none()
    } else {
        holds_color(occ, tx, ty, opposite(p.color)) || flagged(mask, opposite(p.color), tx)
    }
}

/// The cells after `p` is taken from (px, py) to (tx, ty).
pub open spec fn relocated(occ: Seq<Option<Piece>>, p: Piece, px: int, py: int, tx: int, ty: int) -> Seq<Option<Piece>> {
    occ.update(cell(tx, ty), Some(p)).update(cell(px, py), None)
}

pub open spec fn king_of(c: Color) -> Option<Piece> {
    Some(Piece { kind: Pieces::King, color: c })
}

/// Cell `i` holds `c`'s king and no cell before it does.
pub open spec fn first_king(occ: Seq<Option<Piece>>, c: Color, i: int) -> bool {
    &&& 0 <= i < 64
    &&& occ[i] == king_of(c)
    &&& forall|j: int| 0 <= j < i ==> #[trigger] occ[j] != king_of(c)
}

pub open spec fn unit(sx: int, sy: int) -> bool {
    -1 <= sx <= 1 && -1 <= sy <= 1 && !(sx == 0 && sy == 0)
}

/// The `k`-th square from (x, y) in direction (sx, sy) is the first occupied one.
pub open spec fn first_hit(occ: Seq<Option<Piece>>, x: int, y: int, sx: int, sy: int, k: int) -> bool {
    &&& 1 <= k
    &&& in_bounds(step(x, sx, k), step(y, sy, k))
    &&& at(occ, step(x, sx, k), step(y, sy, k)) is Some
    &&& forall|j: int| 1 <= j < k ==> (#[trigger] at(occ, step(x, sx, j), step(y, sy, j))).is_none()
}

/// A piece `q`, first met `k` steps from `c`'s king in direction (sx, sy), attacks it.
pub open spec fn threatens(q: Piece, sx: int, sy: int, k: int, c: Color) -> bool {
    &&& q.color != c
    &&& {
        ||| (sx == 0 || sy == 0) && (q.kind == Pieces::Rook || q.kind == Pieces::Queen)
        ||| sx != 0 && sy != 0 && (q.kind == Pieces::Bishop || q.kind == Pieces::Queen)
        ||| k == 1 && q.kind == Pieces::King
        ||| k == 1 && q.kind == Pieces::Pawn && sx != 0 && sy == forward(c)
    }
}

pub open spec fn ray_threat(occ: Seq<Option<Piece>>, x: int, y: int, sx: int, sy: int, c: Color) -> bool {
    exists|k: int|
        #[trigger] first_hit(occ, x, y, sx, sy, k) && threatens(
            at(occ, step(x, sx, k), step(y, sy, k)).unwrap(),
            sx,
            sy,
            k,
            c,
        )
}

pub open spec fn enemy_knight(occ: Seq<Option<Piece>>, x: int, y: int, c: Color) -> bool {
    in_bounds(x, y) && at(occ, x, y) is Some && at(occ, x, y).unwrap().kind == Pieces::Knight
        && at(occ, x, y).unwrap().color != c
}

/// A piece not of color `c` attacks (x, y), for a king of color `c` standing there.
pub open spec fn attacked(occ: Seq<Option<Piece>>, x: int, y: int, c: Color) -> bool {
    ||| exists|sx: int, sy: int| unit(sx, sy) && #[trigger] ray_threat(occ, x, y, sx, sy, c)
    ||| exists|dx: int, dy: int| knight_jump(dx, dy) && #[trigger] enemy_knight(occ, x + dx, y + dy, c)
}

/// `c`'s king (the first one found, rank by rank) is attacked.
pub open spec fn exposed(occ: Seq<Option<Piece>>, c: Color) -> bool {
    exists|i: int| #[trigger] first_king(occ, c, i) && attacked(occ, i % 8, i / 8, c)
}

/// `p`, standing on (px, py), may move to (tx, ty) by the rules of its kind and the board,
/// before any look at its own king.
pub open spec fn pseudo_legal(occ: Seq<Option<Piece>>, mask: u16, p: Piece, px: int, py: int, tx: int, ty: int) -> bool {
    &&& in_bounds(tx, ty)
    &&& shape(p, tx - px, ty - py)
    &&& !holds_color(occ, tx, ty, p.color)
    &&& (p.kind == Pieces::Knight || path_clear(occ, px, py, tx - px, ty - py))
    &&& (p.kind != Pieces::Pawn || pawn_rule(occ, mask, p, tx, ty, tx - px))
}

/// `p`, standing on (px, py), may move to (tx, ty): the move is pseudo-legal and does not leave
/// `p`'s own king attacked.
pub open spec fn legal_target(occ: Seq<Option<Piece>>, mask: u16, p: Piece, px: int, py: int, tx: int, ty: int) -> bool {
    &&& pseudo_legal(occ, mask, p, px, py, tx, ty)
    &&& !exposed(relocated(occ, p, px, py, tx, ty), p.color)
}

/// The packed coordinate `t` names a square to which `p` on (px, py) may move.
pub open spec fn legal_packed(b: Board, p: Piece, px: int, py: int, t: int) -> bool {
    t / 16 < 8 && t % 16 < 8 && legal_target(b@, b.mask_bits(), p, px, py, t / 16, t % 16)
}

fn threatens_exec(q: Piece, sx: i8, sy: i8, k: i8, c: Color) -> (r: bool)
    ensures
        r == threatens(q, sx as int, sy as int, k as int, c),
{
    if q.color == c {
        return false;
    }
    let slider = if sx == 0 || sy == 0 {
        q.kind == Pieces::Rook || q.kind == Pieces::Queen
    } else {
        q.kind == Pieces::Bishop || q.kind == Pieces::Queen
    };
    let ahead: i8 = match c {
        Color::White => 1,
        Color::Black => -1,
    };
    let near = k == 1 && (q.kind == Pieces::King || (q.kind == Pieces::Pawn && sx != 0 && sy
        == ahead));
    slider || near
}

/// Walks from (x, y) in direction (sx, sy) to the first occupied square, and says whether what
/// stands there attacks a king of color `c` on (x, y).
fn ray_threat_exec(h: &Board, x: u8, y: u8, sx: i8, sy: i8, c: Color) -> (r: bool)
    requires
        x < 8,
        y < 8,
        unit(sx as int, sy as int),
    ensures
        r == ray_threat(h@, x as int, y as int, sx as int, sy as int, c),
{
    let mut k: i8 = 1;
    while k < 8
        invariant
            1 <= k <= 8,
            x < 8,
            y < 8,
            unit(sx as int, sy as int),
            forall|j: int|
                1 <= j < k ==> in_bounds(step(x as int, sx as int, j), step(y as int, sy as int, j))
                    && (#[trigger] at(h@, step(x as int, sx as int, j), step(y as int, sy as int, j))).is_none(),
        decreases 8 - k,
    {
        let tx: i8 = if sx > 0 {
            x as i8 + k
        } else if sx < 0 {
            x as i8 - k
        } else {
            x as i8
        };
        let ty: i8 = if sy > 0 {
            y as i8 + k
        } else if sy < 0 {
            y as i8 - k
        } else {
            y as i8
        };
        if tx < 0 || tx > 7 || ty < 0 || ty > 7 {
            proof {
                assert forall|m: int| !#[trigger] first_hit(h@, x as int, y as int, sx as int, sy as int, m) by {
                    if 1 <= m < k {
                        assert(at(h@, step(x as int, sx as int, m), step(y as int, sy as int, m)).is_none());
                    }
                }
            }
            return false;
        }
        match h.get_index(tx as u8, ty as u8).get_piece() {
            Some(q) => {
                let t = threatens_exec(q, sx, sy, k, c);
                proof {
                    let kk = k as int;
                    assert(first_hit(h@, x as int, y as int, sx as int, sy as int, kk));
                    assert forall|m: int| #[trigger] first_hit(h@, x as int, y as int, sx as int, sy as int, m)
                        implies m == kk by {
                        if m < kk {
                            assert(at(h@, step(x as int, sx as int, m), step(y as int, sy as int, m)).is_none());
                        } else if m > kk {
                            assert(at(h@, step(x as int, sx as int, kk), step(y as int, sy as int, kk)).is_none());
                        }
                    }
                }
                return t;
            },
            None => {},
        }
        k = k + 1;
    }
    proof {
        assert forall|m: int| !#[trigger] first_hit(h@, x as int, y as int, sx as int, sy as int, m) by {
            if 1 <= m < 8 {
                assert(at(h@, step(x as int, sx as int, m), step(y as int, sy as int, m)).is_none());
            }
        }
    }
    false
}

/// Whether an enemy knight of a king of color `c` stands on (x, y), which may lie off the board.
fn enemy_knight_exec(h: &Board, x: i8, y: i8, c: Color) -> (r: bool)
    requires
        -3 <= x <= 10,
        -3 <= y <= 10,
    ensures
        r == enemy_knight(h@, x as int, y as int, c),
{
    if x < 0 || x > 7 || y < 0 || y > 7 {
        return false;
    }
    match h.get_index(x as u8, y as u8).get_piece() {
        Some(q) => q.kind == Pieces::Knight && q.color != c,
        None => false,
    }
}

/// Whether a king of color `c` on (x, y) is attacked along a line or by a knight.
fn attacked_exec(h: &Board, x: u8, y: u8, c: Color) -> (r: bool)
    requires
        x < 8,
        y < 8,
    ensures
        r == attacked(h@, x as int, y as int, c),
{
    let r0 = ray_threat_exec(h, x, y, 0, 1, c);
    let r1 = ray_threat_exec(h, x, y, 0, -1, c);
    let r2 = ray_threat_exec(h, x, y, 1, 0, c);
    let r3 = ray_threat_exec(h, x, y, -1, 0, c);
    let r4 = ray_threat_exec(h, x, y, 1, 1, c);
    let r5 = ray_threat_exec(h, x, y, 1, -1, c);
    let r6 = ray_threat_exec(h, x, y, -1, 1, c);
    let r7 = ray_threat_exec(h, x, y, -1, -1, c);
    let (kx, ky) = (x as i8, y as i8);
    let n0 = enemy_knight_exec(h, kx + 2, ky + 1, c);
    let n1 = enemy_knight_exec(h, kx - 2, ky + 1, c);
    let n2 = enemy_knight_exec(h, kx + 1, ky + 2, c);
    let n3 = enemy_knight_exec(h, kx - 1, ky + 2, c);
    let n4 = enemy_knight_exec(h, kx + 2, ky - 1, c);
    let n5 = enemy_knight_exec(h, kx - 2, ky - 1, c);
    let n6 = enemy_knight_exec(h, kx + 1, ky - 2, c);
    let n7 = enemy_knight_exec(h, kx - 1, ky - 2, c);
    let rays = r0 || r1 || r2 || r3 || r4 || r5 || r6 || r7;
    let knights = n0 || n1 || n2 || n3 || n4 || n5 || n6 || n7;
    proof {
        let (xi, yi) = (x as int, y as int);
        if rays {
            if r0 { assert(unit(0, 1) && ray_threat(h@, xi, yi, 0, 1, c)); }
            if r1 { assert(unit(0, -1) && ray_threat(h@, xi, yi, 0, -1, c)); }
            if r2 { assert(unit(1, 0) && ray_threat(h@, xi, yi, 1, 0, c)); }
            if r3 { assert(unit(-1, 0) && ray_threat(h@, xi, yi, -1, 0, c)); }
            if r4 { assert(unit(1, 1) && ray_threat(h@, xi, yi, 1, 1, c)); }
            if r5 { assert(unit(1, -1) && ray_threat(h@, xi, yi, 1, -1, c)); }
            if r6 { assert(unit(-1, 1) && ray_threat(h@, xi, yi, -1, 1, c)); }
            if r7 { assert(unit(-1, -1) && ray_threat(h@, xi, yi, -1, -1, c)); }
        } else {
            assert forall|sx: int, sy: int| unit(sx, sy) implies !#[trigger] ray_threat(h@, xi, yi, sx, sy, c) by {
                assert((sx, sy) == (0int, 1int) || (sx, sy) == (0int, -1int) || (sx, sy) == (1int, 0int)
                    || (sx, sy) == (-1int, 0int) || (sx, sy) == (1int, 1int) || (sx, sy) == (1int, -1int)
                    || (sx, sy) == (-1int, 1int) || (sx, sy) == (-1int, -1int));
            }
        }
        if knights {
            if n0 { assert(knight_jump(2, 1) && enemy_knight(h@, xi + 2, yi + 1, c)); }
            if n1 { assert(knight_jump(-2, 1) && enemy_knight(h@, xi + -2, yi + 1, c)); }
            if n2 { assert(knight_jump(1, 2) && enemy_knight(h@, xi + 1, yi + 2, c)); }
            if n3 { assert(knight_jump(-1, 2) && enemy_knight(h@, xi + -1, yi + 2, c)); }
            if n4 { assert(knight_jump(2, -1) && enemy_knight(h@, xi + 2, yi + -1, c)); }
            if n5 { assert(knight_jump(-2, -1) && enemy_knight(h@, xi + -2, yi + -1, c)); }
            if n6 { assert(knight_jump(1, -2) && enemy_knight(h@, xi + 1, yi + -2, c)); }
            if n7 { assert(knight_jump(-1, -2) && enemy_knight(h@, xi + -1, yi + -2, c)); }
        } else {
            assert forall|dx: int, dy: int| knight_jump(dx, dy) implies !#[trigger] enemy_knight(h@, xi + dx, yi + dy, c) by {
                assert((dx, dy) == (2int, 1int) || (dx, dy) == (-2int, 1int) || (dx, dy) == (1int, 2int)
                    || (dx, dy) == (-1int, 2int) || (dx, dy) == (2int, -1int) || (dx, dy) == (-2int, -1int)
                    || (dx, dy) == (1int, -2int) || (dx, dy) == (-1int, -2int));
            }
        }
    }
    rays || knights
}

/// Whether the king of color `color` on `board` (the first one met, rank by rank) is attacked.
/// A board without such a king has none to expose.
pub fn king_exposed(board: &Board, color: Color) -> (r: bool)
    ensures
        r == exposed(board@, color),
{
    proof {
        board.lemma_view();
    }
    let mut i: u8 = 0;
    while i < 64
        invariant
            i <= 64,
            board@.len() == 64,
            forall|j: int| 0 <= j < i ==> #[trigger] board@[j] != king_of(color),
        decreases 64 - i,
    {
        let (x, y) = (i % 8, i / 8);
        assert(cell(x as int, y as int) == i);
        match board.get_index(x, y).get_piece() {
            Some(p) => {
                if p.kind == Pieces::King && p.color == color {
                    let a = attacked_exec(board, x, y, color);
                    proof {
                        assert(first_king(board@, color, i as int));
                        assert forall|m: int| #[trigger] first_king(board@, color, m) implies m == i by {
                            if m > i {
                                assert(board@[i as int] != king_of(color));
                            }
                        }
                    }
                    return a;
                }
            },
            None => {},
        }
        i = i + 1;
    }
    proof {
        assert forall|m: int| !#[trigger] first_king(board@, color, m) by {
            if 0 <= m < 64 {
                assert(board@[m] != king_of(color));
            }
        }
    }
    false
}

/// Whether every square strictly between (px, py) and (px + dx, py + dy) is empty.
fn path_clear_exec(board: &Board, px: u8, py: u8, dx: i8, dy: i8) -> (r: bool)
    requires
        px < 8,
        py < 8,
        in_bounds(px + dx, py + dy),
        dx == 0 || dy == 0 || dx == dy || dx == -dy,
    ensures
        r == path_clear(board@, px as int, py as int, dx as int, dy as int),
{
    let ax: i8 = if dx < 0 { -dx } else { dx };
    let ay: i8 = if dy < 0 { -dy } else { dy };
    let n: i8 = if ax > ay { ax } else { ay };
    let mut k: i8 = 1;
    while k < n
        invariant
            px < 8,
            py < 8,
            in_bounds(px + dx, py + dy),
            dx == 0 || dy == 0 || dx == dy || dx == -dy,
            n == (if abs(dx as int) > abs(dy as int) { abs(dx as int) } else { abs(dy as int) }),
            1 <= k,
            k <= n || n == 0,
            forall|j: int|
                0 < j < k ==> (#[trigger] at(board@, step(px as int, sign(dx as int), j), step(py as int, sign(dy as int), j))).is_none(),
        decreases n - k,
    {
        let x: i8 = if dx > 0 {
            px as i8 + k
        } else if dx < 0 {
            px as i8 - k
        } else {
            px as i8
        };
        let y: i8 = if dy > 0 {
            py as i8 + k
        } else if dy < 0 {
            py as i8 - k
        } else {
            py as i8
        };
        if board.get_index(x as u8, y as u8).get_piece().is_some() {
            proof {
                let kk = k as int;
                assert(x == step(px as int, sign(dx as int), kk));
                assert(y == step(py as int, sign(dy as int), kk));
                assert(at(board@, step(px as int, sign(dx as int), kk), step(py as int, sign(dy as int), kk)).is_some());
            }
            return false;
        }
        k = k + 1;
    }
    true
}

/// The cells of `board` after `p` moves from (px, py) to (tx, ty), and whether that leaves
/// `p`'s king attacked.
fn exposes_own_king(board: &Board, p: Piece, px: u8, py: u8, tx: u8, ty: u8) -> (r: bool)
    requires
        px < 8,
        py < 8,
        tx < 8,
        ty < 8,
    ensures
        r == exposed(relocated(board@, p, px as int, py as int, tx as int, ty as int), p.color),
{
    let mut hypothetical = *board;
    hypothetical.get_index_mut(tx, ty).set_piece(p);
    hypothetical.get_index_mut(px, py).remove_piece();
    king_exposed(&hypothetical, p.color)
}

/// Every square that `get_moves` reports lies on the board.
pub proof fn lemma_moves_on_board(b: Board, p: Piece, px: int, py: int, t: int)
    requires
        legal_packed(b, p, px, py, t),
    ensures
        in_bounds(t / 16, t % 16),
{
}

/// A rook, bishop or queen never reaches a square beyond an occupied square on its line,
/// whichever side the blocker belongs to.
pub proof fn lemma_sliders_blocked(
    occ: Seq<Option<Piece>>,
    mask: u16,
    p: Piece,
    px: int,
    py: int,
    dx: int,
    dy: int,
    k: int,
)
    requires
        p.kind == Pieces::Rook || p.kind == Pieces::Bishop || p.kind == Pieces::Queen,
        0 < k < (if abs(dx) > abs(dy) {
            abs(dx)
        } else {
            abs(dy)
        }),
        at(occ, step(px, sign(dx), k), step(py, sign(dy), k)) is Some,
    ensures
        !legal_target(occ, mask, p, px, py, px + dx, py + dy),
{
    assert(px + dx - px == dx && py + dy - py == dy);
    assert(!path_clear(occ, px, py, dx, dy));
}

/// A knight's moves do not depend on what stands between its squares: it may land on every
/// square a knight's jump away that is on the board and not held by its own side, unless the
/// jump leaves its own king attacked.
pub proof fn lemma_knight_jumps(
    occ: Seq<Option<Piece>>,
    mask: u16,
    p: Piece,
    px: int,
    py: int,
    tx: int,
    ty: int,
)
    requires
        p.kind == Pieces::Knight,
    ensures
        legal_target(occ, mask, p, px, py, tx, ty) <==> {
            &&& in_bounds(tx, ty)
            &&& knight_jump(tx - px, ty - py)
            &&& !holds_color(occ, tx, ty, p.color)
            &&& !exposed(relocated(occ, p, px, py, tx, ty), p.color)
        },
{
}

/// A move that would leave the mover's king attacked is dropped, and every other move that the
/// piece's rules allow is kept.
pub proof fn lemma_self_check_filter(
    occ: Seq<Option<Piece>>,
    mask: u16,
    p: Piece,
    px: int,
    py: int,
    tx: int,
    ty: int,
)
    ensures
        exposed(relocated(occ, p, px, py, tx, ty), p.color) ==> !legal_target(occ, mask, p, px, py, tx, ty),
        pseudo_legal(occ, mask, p, px, py, tx, ty) && !exposed(relocated(occ, p, px, py, tx, ty), p.color)
            ==> legal_target(occ, mask, p, px, py, tx, ty),
{
}

impl Piece {
    pub fn from(kind: Pieces, color: Color) -> (r: Piece)
        ensures
            r == (Piece { kind, color }),
    {
        Piece { kind, color }
    }

    /// Whether the kind of this piece allows the offset (dx, dy).
    fn fits_shape(&self, dx: i8, dy: i8) -> (r: bool)
        requires
            -7 <= dx <= 7,
            -7 <= dy <= 7,
        ensures
            r == shape(*self, dx as int, dy as int),
    {
        let ax: i8 = if dx < 0 { -dx } else { dx };
        let ay: i8 = if dy < 0 { -dy } else { dy };
        let straight = (dx == 0) != (dy == 0);
        let diagonal = dx != 0 && ax == ay;
        match self.kind {
            Pieces::Pawn => {
                let f: i8 = match self.color {
                    Color::White => 1,
                    Color::Black => -1,
                };
                (dx == 0 && (dy == f || dy == 2 * f)) || (ax == 1 && dy == f)
            },
            Pieces::Rook => straight,
            Pieces::Knight => (ax == 1 && ay == 2) || (ax == 2 && ay == 1),
            Pieces::Bishop => diagonal,
            Pieces::Queen => straight || diagonal,
            Pieces::King => ax <= 1 && ay <= 1 && (dx != 0 || dy != 0),
        }
    }

    /// Whether this piece, standing on (px, py), may move to (tx, ty).
    fn admits(&self, board: &Board, px: u8, py: u8, tx: u8, ty: u8) -> (r: bool)
        requires
            px < 8,
            py < 8,
            tx < 8,
            ty < 8,
        ensures
            r == legal_target(board@, board.mask_bits(), *self, px as int, py as int, tx as int, ty as int),
    {
        let dx: i8 = tx as i8 - px as i8;
        let dy: i8 = ty as i8 - py as i8;
        if !self.fits_shape(dx, dy) {
            return false;
        }
        let dest = board.get_index(tx, ty).get_piece();
        match dest {
            Some(q) => {
                if q.color == self.color {
                    return false;
                }
            },
            None => {},
        }
        if self.kind != Pieces::Knight && !path_clear_exec(board, px, py, dx, dy) {
            return false;
        }
        if self.kind == Pieces::Pawn {
            let pawn_ok = if dx == 0 {
                dest.is_none()
            } else {
                dest.is_some() || board.is_enpassantable(self.color.opposite(), tx)
            };
            if !pawn_ok {
                return false;
            }
        }
        !exposes_own_king(board, *self, px, py, tx, ty)
    }

    /// The packed coordinates (file * 16 + rank) of every square to which this piece, standing
    /// on `coord`, may legally move on `board`, in increasing order.
    pub fn get_moves(&self, board: &Board, coord: &Square) -> (r: Vec<u8>)
        requires
            coord.wf(),
        ensures
            forall|t: u8| r@.contains(t) <==> legal_packed(*board, *self, coord.file(), coord.rank(), t as int),
            forall|i: int, j: int| 0 <= i < j < r@.len() ==> r@[i] < r@[j],
    {
        let (px, py) = coord.get_coords_tuple();
        let mut out: Vec<u8> = Vec::new();
        let mut t: u8 = 0;
        while t < 128
            invariant
                t <= 128,
                px < 8,
                py < 8,
                px == coord.file(),
                py == coord.rank(),
                forall|u: u8| out@.contains(u) <==> (u < t && legal_packed(*board, *self, px as int, py as int, u as int)),
                forall|i: int| 0 <= i < out@.len() ==> out@[i] < t,
                forall|i: int, j: int| 0 <= i < j < out@.len() ==> out@[i] < out@[j],
            decreases 128 - t,
        {
            let (tx, ty) = (t / 16, t % 16);
            if ty < 8 && self.admits(board, px, py, tx, ty) {
                let ghost before = out@;
                out.push(t);
                proof {
                    assert forall|u: u8| out@.contains(u) <==> (u < t + 1 && legal_packed(*board, *self, px as int, py as int, u as int)) by {
                        assert(before.contains(u) <==> (u < t && legal_packed(*board, *self, px as int, py as int, u as int)));
                        if u == t {
                            assert(out@[out@.len() - 1] == t);
                        } else if out@.contains(u) {
                            let i = choose|i: int| 0 <= i < out@.len() && out@[i] == u;
                            assert(before.contains(u)) by {
                                assert(before[i] == u);
                            }
                        } else if u < t && legal_packed(*board, *self, px as int, py as int, u as int) {
                            let i = choose|i: int| 0 <= i < before.len() && before[i] == u;
                            assert(out@[i] == u);
                        }
                    }
                }
            }
            t = t + 1;
        }
        out
    }

    pub fn get_char(&self) -> (r: char)
        ensures
            r == letter(*self),
    {
        let l = match self.kind {
            Pieces::Pawn => 'p',
            Pieces::Rook => 'r',
            Pieces::Knight => 'n',
            Pieces::Bishop => 'b',
            Pieces::Queen => 'q',
            Pieces::King => 'k',
        };
        match self.color {
            Color::White => (l as u8 - 32) as char,
            Color::Black => l,
        }
    }
}

} // verus!
