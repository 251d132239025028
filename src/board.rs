use vstd::prelude::*;
use vstd::set_lib::{lemma_int_range, set_int_range};
use vstd::string::StringSliceAdditionalSpecFns;
use crate::pieces::{Piece, Pieces, legal_target, relocated};

verus! {

/// The two sides, and the two tints of the board's squares.
#[derive(Clone, Copy, Debug, PartialEq, Eq, Structural, PartialOrd, Ord, Hash)]
pub enum Color {
    Black,
    White,
}

pub open spec fn opposite(c: Color) -> Color {
    match c {
        Color::Black => Color::White,
        Color::White => Color::Black,
    }
}

impl Color {
    /// The other side.
    pub fn opposite(self) -> (r: Color)
        ensures
            r == opposite(self),
    {
        match self {
            Color::Black => Color::White,
            Color::White => Color::Black,
        }
    }
}

/// Why a requested move was refused.
#[derive(Clone, Copy, Debug, PartialEq, Eq, Structural)]
pub enum MoveError {
    NoPieceAtStart,
    IllegalMove,
}

pub open spec fn in_bounds(x: int, y: int) -> bool {
    0 <= x < 8 && 0 <= y < 8
}

/// A coordinate packed into one byte: the file in the high nibble, the rank in the low one.
pub open spec fn pack(x: int, y: int) -> int {
    x * 16 + y
}

/// Position of a square in the board's storage.
pub open spec fn cell(x: int, y: int) -> int {
    y * 8 + x
}

/// Tint of the square at (x, y): even parity is dark.
pub open spec fn tint(x: int, y: int) -> Color {
    if (x + y) % 2 == 0 {
        Color::Black
    } else {
        Color::White
    }
}

/// The glyph that an empty square shows.
pub open spec fn empty_glyph(c: Color) -> char {
    match c {
        Color::Black => '#',
        Color::White => ' ',
    }
}

/// A two-byte coordinate text: a file letter A-H (either case) and a rank digit 1-8.
pub open spec fn valid_coord(s: Seq<u8>) -> bool {
    &&& s.len() == 2
    &&& (65 <= s[0] <= 72 || 97 <= s[0] <= 104)
    &&& 49 <= s[1] <= 56
}

pub open spec fn coord_file(s: Seq<u8>) -> int {
    if s[0] >= 97 {
        s[0] - 97
    } else {
        s[0] - 65
    }
}

pub open spec fn coord_rank(s: Seq<u8>) -> int {
    s[1] - 49
}

/// Bit of the en-passant mask for `c` and file `f`: Black in the low byte, White in the high.
pub open spec fn bit_index(c: Color, f: int) -> int {
    match c {
        Color::Black => f,
        Color::White => f + 8,
    }
}

pub open spec fn flagged(mask: u16, c: Color, f: int) -> bool {
    (mask >> (bit_index(c, f) as u16)) & 1u16 == 1u16
}

pub open spec fn single_bit(c: Color, f: int) -> u16 {
    1u16 << (bit_index(c, f) as u16)
}

/// A pawn's advance from rank 1 to rank 3, the one move that opens an en-passant capture.
pub open spec fn double_step(p: Piece, sy: int, ey: int) -> bool {
    p.kind == Pieces::Pawn && sy == 1 && ey == 3
}

/// The en-passant mask that a move of `p` from rank `sy` to (ex, ey) leaves behind.
pub open spec fn mask_after(p: Piece, sy: int, ex: int, ey: int) -> u16 {
    if double_step(p, sy, ey) {
        single_bit(p.color, ex)
    } else {
        0
    }
}

proof fn lemma_clear_mask(i: u16, m: u16)
    ensures
        (0u16 >> i) & 1u16 == 0u16,
        0u16 | m == m,
{
    assert((0u16 >> i) & 1u16 == 0u16) by (bit_vector);
    assert(0u16 | m == m) by (bit_vector);
}

/// The cells of `occ` that hold `p`.
pub open spec fn cells_holding(occ: Seq<Option<Piece>>, p: Piece) -> Set<int> {
    Set::new(|i: int| 0 <= i < 64 && occ[i] == Some(p))
}

/// How many pieces of kind `k` each side has at the start.
pub open spec fn start_count(k: Pieces) -> nat {
    match k {
        Pieces::Pawn => 8,
        Pieces::Rook => 2,
        Pieces::Knight => 2,
        Pieces::Bishop => 2,
        Pieces::Queen => 1,
        Pieces::King => 1,
    }
}

/// `init` on a fresh board leaves each side 8 pawns, 2 rooks, 2 knights, 2 bishops, one queen
/// and one king, each on its starting square and nowhere else.
pub proof fn lemma_start_position(fresh: Board, b: Board)
    requires
        forall|i: int| 0 <= i < 64 ==> (#[trigger] fresh@[i]).is_none(),
        b@.len() == 64,
        forall|x: int, y: int|
            in_bounds(x, y) ==> #[trigger] b.piece_at(x, y) == if start_rank(y) {
                start_piece(x, y)
            } else {
                fresh.piece_at(x, y)
            },
    ensures
        forall|x: int, y: int| in_bounds(x, y) ==> #[trigger] b.piece_at(x, y) == start_piece(x, y),
        forall|p: Piece|
            #![trigger cells_holding(b@, p)]
            cells_holding(b@, p).finite() && cells_holding(b@, p).len() == start_count(p.kind),
{
    assert forall|x: int, y: int| in_bounds(x, y) implies #[trigger] b.piece_at(x, y) == start_piece(x, y) by {
        assert(0 <= cell(x, y) < 64);
        assert(fresh@[cell(x, y)].is_none());
    }
    assert forall|i: int| 0 <= i < 64 implies #[trigger] b@[i] == start_piece(i % 8, i / 8) by {
        assert(cell(i % 8, i / 8) == i);
        assert(b.piece_at(i % 8, i / 8) == start_piece(i % 8, i / 8));
    }
    assert forall|p: Piece|
        #![trigger cells_holding(b@, p)]
        cells_holding(b@, p).finite() && cells_holding(b@, p).len() == start_count(p.kind) by {
        let s = cells_holding(b@, p);
        let r0: int = if p.color == Color::White { 0 } else { 56 };
        match p.kind {
            Pieces::Pawn => {
                let lo: int = if p.color == Color::White { 8 } else { 48 };
                assert(s =~= set_int_range(lo, lo + 8));
                lemma_int_range(lo, lo + 8);
            },
            Pieces::Rook => {
                assert(s =~= set![r0, r0 + 7]);
            },
            Pieces::Knight => {
                assert(s =~= set![r0 + 1, r0 + 6]);
            },
            Pieces::Bishop => {
                assert(s =~= set![r0 + 2, r0 + 5]);
            },
            Pieces::Queen => {
                assert(s =~= set![r0 + 3]);
            },
            Pieces::King => {
                assert(s =~= set![r0 + 4]);
            },
        }
    }
}

proof fn lemma_bit_alone(i: u16, j: u16)
    requires
        i < 16,
        j < 16,
    ensures
        ((1u16 << i) >> j) & 1u16 == 1u16 <==> i == j,
{
    assert(((1u16 << i) >> j) & 1u16 == 1u16 <==> i == j) by (bit_vector)
        requires
            i < 16,
            j < 16,
    ;
}

/// A legal double step leaves exactly one flag set: the mover's (White's), on the file of its
/// move. Any legal move of the other side then leaves no flag at all.
pub proof fn lemma_en_passant_window(
    occ: Seq<Option<Piece>>,
    mask: u16,
    p: Piece,
    sx: int,
    sy: int,
    ex: int,
    ey: int,
    occ2: Seq<Option<Piece>>,
    mask2: u16,
    q: Piece,
    qx: int,
    qy: int,
    tx: int,
    ty: int,
)
    requires
        legal_target(occ, mask, p, sx, sy, ex, ey),
        double_step(p, sy, ey),
        legal_target(occ2, mask2, q, qx, qy, tx, ty),
        q.color != p.color,
    ensures
        p.color == Color::White,
        forall|c: Color, f: int|
            0 <= f < 8 ==> (flagged(mask_after(p, sy, ex, ey), c, f) <==> c == p.color && f == ex),
        mask_after(q, qy, tx, ty) == 0,
{
    assert forall|c: Color, f: int| 0 <= f < 8 implies (flagged(mask_after(p, sy, ex, ey), c, f)
        <==> c == p.color && f == ex) by {
        lemma_bit_alone(bit_index(p.color, ex) as u16, bit_index(c, f) as u16);
    }
}

fn contains_u8(v: &Vec<u8>, t: u8) -> (r: bool)
    ensures
        r == v@.contains(t),
{
    let mut i: usize = 0;
    while i < v.len()
        invariant
            i <= v@.len(),
            forall|k: int| 0 <= k < i ==> v@[k] != t,
        decreases v@.len() - i,
    {
        if v[i] == t {
            return true;
        }
        i = i + 1;
    }
    false
}

/// The ranks on which the game starts with pieces.
pub open spec fn start_rank(y: int) -> bool {
    y == 0 || y == 1 || y == 6 || y == 7
}

/// The kind standing on file `x` of a back rank at the start.
pub open spec fn back_rank_kind(x: int) -> Pieces {
    if x == 0 || x == 7 {
        Pieces::Rook
    } else if x == 1 || x == 6 {
        Pieces::Knight
    } else if x == 2 || x == 5 {
        Pieces::Bishop
    } else if x == 3 {
        Pieces::Queen
    } else {
        Pieces::King
    }
}

/// What stands on (x, y) in the starting position: White on ranks 0 and 1, Black on 6 and 7.
pub open spec fn start_piece(x: int, y: int) -> Option<Piece> {
    if y == 1 {
        Some(Piece { kind: Pieces::Pawn, color: Color::White })
    } else if y == 6 {
        Some(Piece { kind: Pieces::Pawn, color: Color::Black })
    } else if y == 0 {
        Some(Piece { kind: back_rank_kind(x), color: Color::White })
    } else if y == 7 {
        Some(Piece { kind: back_rank_kind(x), color: Color::Black })
    } else {
        None
    }
}

fn back_rank(x: u8) -> (r: Pieces)
    ensures
        r == back_rank_kind(x as int),
{
    if x == 0 || x == 7 {
        Pieces::Rook
    } else if x == 1 || x == 6 {
        Pieces::Knight
    } else if x == 2 || x == 5 {
        Pieces::Bishop
    } else if x == 3 {
        Pieces::Queen
    } else {
        Pieces::King
    }
}

/// A cell of the board: a fixed coordinate and what stands on it.
#[derive(Clone, Copy, Debug)]
pub struct Square {
    coord: u8,
    piece: Option<Piece>,
}

impl Square {
    pub closed spec fn packed(self) -> u8 {
        self.coord
    }

    pub closed spec fn file(self) -> int {
        self.coord as int / 16
    }

    pub closed spec fn rank(self) -> int {
        self.coord as int % 16
    }

    pub closed spec fn occupant(self) -> Option<Piece> {
        self.piece
    }

    /// The coordinate lies on the board.
    pub open spec fn wf(self) -> bool {
        self.file() < 8 && self.rank() < 8
    }

    /// The square at file 0, rank 0, empty.
    pub fn new() -> (r: Square)
        ensures
            r.file() == 0,
            r.rank() == 0,
            r.occupant().is_none(),
    {
        Square { coord: 0, piece: None }
    }

    /// An empty square at (x, y).
    pub fn from(x: u8, y: u8) -> (r: Square)
        requires
            x < 8,
            y < 8,
        ensures
            r.file() == x,
            r.rank() == y,
            r.packed() == pack(x as int, y as int),
            r.occupant().is_none(),
    {
        Square { coord: x * 16 + y, piece: None }
    }

    pub fn get_coords_u8(&self) -> (r: u8)
        ensures
            r == self.packed(),
    {
        self.coord
    }

    pub fn get_coords_tuple(&self) -> (r: (u8, u8))
        ensures
            r.0 == self.file(),
            r.1 == self.rank(),
    {
        (self.coord / 16, self.coord % 16)
    }

    pub fn get_color(&self) -> (r: Color)
        ensures
            r == tint(self.file(), self.rank()),
    {
        let (x, y) = self.get_coords_tuple();
        if (x + y) % 2 == 0 {
            Color::Black
        } else {
            Color::White
        }
    }

    pub fn get_piece(&self) -> (r: Option<Piece>)
        ensures
            r == self.occupant(),
    {
        self.piece
    }

    pub fn set_piece(&mut self, piece: Piece)
        ensures
            final(self).occupant() == Some(piece),
            final(self).packed() == old(self).packed(),
            final(self).file() == old(self).file(),
            final(self).rank() == old(self).rank(),
    {
        self.piece = Some(piece);
    }

    pub fn remove_piece(&mut self)
        ensures
            final(self).occupant().is_none(),
            final(self).packed() == old(self).packed(),
            final(self).file() == old(self).file(),
            final(self).rank() == old(self).rank(),
    {
        self.piece = None;
    }

    /// The occupant's letter, or the tint's glyph on an empty square.
    pub fn get_char(&self) -> (r: char)
        ensures
            r == match self.occupant() {
                Some(p) => crate::pieces::letter(p),
                None => empty_glyph(tint(self.file(), self.rank())),
            },
    {
        match self.get_piece() {
            Some(piece) => piece.get_char(),
            None => match self.get_color() {
                Color::Black => '#',
                Color::White => ' ',
            },
        }
    }

    /// Packs a coordinate text such as "E4".
    pub fn string_to_u8(coord: &str) -> (r: u8)
        requires
            valid_coord(coord.spec_bytes()),
        ensures
            r == pack(coord_file(coord.spec_bytes()), coord_rank(coord.spec_bytes())),
    {
        let (x, y) = Square::string_to_tuple(coord);
        x * 16 + y
    }

    /// File and rank of a coordinate text such as "E4".
    pub fn string_to_tuple(coord: &str) -> (r: (u8, u8))
        requires
            valid_coord(coord.spec_bytes()),
        ensures
            r.0 == coord_file(coord.spec_bytes()),
            r.1 == coord_rank(coord.spec_bytes()),
            r.0 < 8,
            r.1 < 8,
    {
        let b = coord.as_bytes();
        let c = b[0];
        let x = if c >= 97 {
            c - 97
        } else {
            c - 65
        };
        (x, b[1] - 49)
    }

    pub fn u8_to_tuple(coord: u8) -> (r: (u8, u8))
        ensures
            r.0 == coord / 16,
            r.1 == coord % 16,
    {
        (coord / 16, coord % 16)
    }
}

/// The 64 squares, stored rank by rank, and the en-passant mask.
#[derive(Clone, Copy, Debug)]
pub struct Board {
    squares: [Square; 64],
    mask: u16,
}

impl View for Board {
    type V = Seq<Option<Piece>>;

    /// What stands on each cell, indexed by `cell(x, y)`.
    closed spec fn view(&self) -> Seq<Option<Piece>> {
        self.squares@.map_values(|s: Square| s.piece)
    }
}

impl Board {
    pub closed spec fn square_at(self, x: int, y: int) -> Square {
        self.squares@[cell(x, y)]
    }

    pub closed spec fn mask_bits(self) -> u16 {
        self.mask
    }

    pub open spec fn piece_at(self, x: int, y: int) -> Option<Piece> {
        self@[cell(x, y)]
    }

    /// Every square carries the coordinate of the place where it is stored.
    pub open spec fn wf(self) -> bool {
        forall|x: int, y: int|
            in_bounds(x, y) ==> #[trigger] self.square_at(x, y).file() == x
                && self.square_at(x, y).rank() == y
    }

    pub proof fn lemma_view(self)
        ensures
            self@.len() == 64,
            forall|x: int, y: int|
                in_bounds(x, y) ==> #[trigger] self.piece_at(x, y) == self.square_at(
                    x,
                    y,
                ).occupant(),
    {
        assert forall|x: int, y: int| in_bounds(x, y) implies #[trigger] self.piece_at(x, y)
            == self.square_at(x, y).occupant() by {
            assert(0 <= cell(x, y) < 64);
        }
    }

    /// A board of 64 empty squares with no en-passant flag.
    pub fn new() -> (r: Board)
        ensures
            r.wf(),
            r@.len() == 64,
            forall|i: int| 0 <= i < 64 ==> (#[trigger] r@[i]).is_none(),
            r.mask_bits() == 0,
    {
        let mut squares = [Square::new();64];
        let mut i: u8 = 0;
        while i < 64
            invariant
                i <= 64,
                forall|j: int| 0 <= j < 64 ==> (#[trigger] squares@[j]).piece.is_none(),
                forall|j: int|
                    0 <= j < i ==> (#[trigger] squares@[j]).file() == j % 8 && squares@[j].rank()
                        == j / 8,
            decreases 64 - i,
        {
            squares[i as usize] = Square::from(i % 8, i / 8);
            i = i + 1;
        }
        let r = Board { squares, mask: 0 };
        assert forall|x: int, y: int| in_bounds(x, y) implies #[trigger] r.square_at(x, y).file()
            == x && r.square_at(x, y).rank() == y by {
            assert(0 <= cell(x, y) < 64);
            assert(cell(x, y) % 8 == x && cell(x, y) / 8 == y);
        }
        r
    }

    /// Whether `color`'s pawn on file `file` may be taken en passant.
    pub fn is_enpassantable(&self, color: Color, file: u8) -> (r: bool)
        requires
            file < 8,
        ensures
            r == flagged(self.mask_bits(), color, file as int),
    {
        let idx: u16 = match color {
            Color::Black => file as u16,
            Color::White => file as u16 + 8,
        };
        (self.mask >> idx) & 1 == 1
    }

    /// The files, in increasing order, on which a pawn of `color` may be taken en passant.
    pub fn get_enpassantable(&self, color: Color) -> (r: Vec<u8>)
        ensures
            forall|f: u8| r@.contains(f) <==> f < 8 && flagged(self.mask_bits(), color, f as int),
            forall|i: int, j: int| 0 <= i < j < r@.len() ==> r@[i] < r@[j],
    {
        let mut out: Vec<u8> = Vec::new();
        let mut i: u8 = 0;
        while i < 8
            invariant
                i <= 8,
                forall|f: u8| out@.contains(f) <==> f < i && flagged(self.mask_bits(), color, f as int),
                forall|k: int| 0 <= k < out@.len() ==> out@[k] < i,
                forall|k: int, j: int| 0 <= k < j < out@.len() ==> out@[k] < out@[j],
            decreases 8 - i,
        {
            if self.is_enpassantable(color, i) {
                let ghost before = out@;
                out.push(i);
                proof {
                    assert forall|f: u8| out@.contains(f) <==> f < i + 1 && flagged(self.mask_bits(), color, f as int) by {
                        assert(before.contains(f) <==> f < i && flagged(self.mask_bits(), color, f as int));
                        if f == i {
                            assert(out@[out@.len() - 1] == i);
                        } else if out@.contains(f) {
                            let k = choose|k: int| 0 <= k < out@.len() && out@[k] == f;
                            assert(before[k] == f);
                        } else if f < i && flagged(self.mask_bits(), color, f as int) {
                            let k = choose|k: int| 0 <= k < before.len() && before[k] == f;
                            assert(out@[k] == f);
                        }
                    }
                }
            }
            i = i + 1;
        }
        out
    }

    /// Flags `color`'s pawn on file `x` as open to an en-passant capture.
    pub fn set_enpassantable(&mut self, color: Color, x: u8)
        requires
            x < 8,
            !flagged(old(self).mask_bits(), color, x as int),
        ensures
            final(self).mask_bits() == old(self).mask_bits() | single_bit(color, x as int),
            final(self)@ == old(self)@,
            forall|a: int, b: int| #[trigger] final(self).square_at(a, b) == old(self).square_at(a, b),
    {
        let idx: u16 = match color {
            Color::Black => x as u16,
            Color::White => x as u16 + 8,
        };
        self.mask = self.mask | (1u16 << idx);
    }

    /// Clears the flags of one side, or of both where `color` is `None`.
    pub fn clear_epassantable(&mut self, color: Option<Color>)
        ensures
            final(self).mask_bits() == match color {
                Some(Color::Black) => old(self).mask_bits() & 0xFF00u16,
                Some(Color::White) => old(self).mask_bits() & 0x00FFu16,
                None => 0u16,
            },
            final(self)@ == old(self)@,
            forall|a: int, b: int| #[trigger] final(self).square_at(a, b) == old(self).square_at(a, b),
    {
        match color {
            Some(Color::Black) => self.mask = self.mask & 0xFF00,
            Some(Color::White) => self.mask = self.mask & 0x00FF,
            None => self.mask = 0,
        }
    }

    /// A copy of the 64 squares, stored rank by rank.
    pub fn get_state(&self) -> (r: [Square; 64])
        ensures
            forall|x: int, y: int| in_bounds(x, y) ==> r@[cell(x, y)] == #[trigger] self.square_at(x, y),
    {
        self.squares
    }

    /// Sets what stands at (x, y), keeping every square's coordinate.
    fn put(&mut self, x: u8, y: u8, o: Option<Piece>)
        requires
            x < 8,
            y < 8,
        ensures
            final(self)@ == old(self)@.update(cell(x as int, y as int), o),
            final(self).mask_bits() == old(self).mask_bits(),
            forall|a: int, b: int|
                in_bounds(a, b) ==> #[trigger] final(self).square_at(a, b).packed() == old(self).square_at(a, b).packed(),
    {
        proof {
            self.lemma_view();
        }
        let i = y as usize * 8 + x as usize;
        let mut s = self.squares[i];
        s.piece = o;
        self.squares[i] = s;
        proof {
            assert(self@ =~= old(self)@.update(cell(x as int, y as int), o));
        }
    }

    /// Places the standard starting position on the two outer ranks of each side. The layout
    /// name `_state` is reserved for other starting positions and is not read.
    pub fn init(&mut self, _state: &str)
        ensures
            final(self)@.len() == 64,
            forall|x: int, y: int|
                in_bounds(x, y) ==> #[trigger] final(self).piece_at(x, y) == if start_rank(y) {
                    start_piece(x, y)
                } else {
                    old(self).piece_at(x, y)
                },
            final(self).mask_bits() == old(self).mask_bits(),
            old(self).wf() ==> final(self).wf(),
    {
        proof {
            self.lemma_view();
        }
        let mut x: u8 = 0;
        while x < 8
            invariant
                x <= 8,
                self@.len() == 64,
                forall|a: int, b: int|
                    in_bounds(a, b) ==> #[trigger] self.piece_at(a, b) == if start_rank(b) && a < x {
                        start_piece(a, b)
                    } else {
                        old(self).piece_at(a, b)
                    },
                self.mask_bits() == old(self).mask_bits(),
                forall|a: int, b: int|
                    in_bounds(a, b) ==> #[trigger] self.square_at(a, b).packed() == old(self).square_at(a, b).packed(),
            decreases 8 - x,
        {
            let ghost pb = *self;
            let ghost prev = self@;
            let back = back_rank(x);
            self.put(x, 0, Some(Piece::from(back, Color::White)));
            self.put(x, 1, Some(Piece::from(Pieces::Pawn, Color::White)));
            self.put(x, 6, Some(Piece::from(Pieces::Pawn, Color::Black)));
            self.put(x, 7, Some(Piece::from(back, Color::Black)));
            proof {
                assert forall|a: int, b: int|
                    in_bounds(a, b) implies #[trigger] self.piece_at(a, b) == if start_rank(b) && a < x + 1 {
                        start_piece(a, b)
                    } else {
                        old(self).piece_at(a, b)
                    } by {
                    assert(0 <= cell(a, b) < 64);
                    let xi = x as int;
                    assert(self@ == prev.update(cell(xi, 0), Some(Piece { kind: back, color: Color::White }))
                        .update(cell(xi, 1), Some(Piece { kind: Pieces::Pawn, color: Color::White }))
                        .update(cell(xi, 6), Some(Piece { kind: Pieces::Pawn, color: Color::Black }))
                        .update(cell(xi, 7), Some(Piece { kind: back, color: Color::Black })));
                    if a == x && start_rank(b) {
                        assert(cell(a, b) == cell(x as int, b));
                    } else {
                        assert(self.piece_at(a, b) == prev[cell(a, b)]);
                        assert(prev[cell(a, b)] == pb.piece_at(a, b));
                        assert(cell(a, b) != cell(x as int, 0));
                        assert(cell(a, b) != cell(x as int, 1));
                        assert(cell(a, b) != cell(x as int, 6));
                        assert(cell(a, b) != cell(x as int, 7));
                    }
                }
            }
            x = x + 1;
        }
        proof {
            if old(self).wf() {
                assert forall|a: int, b: int| in_bounds(a, b) implies #[trigger] self.square_at(a, b).file() == a
                    && self.square_at(a, b).rank() == b by {
                    assert(self.square_at(a, b).packed() == old(self).square_at(a, b).packed());
                    assert(old(self).square_at(a, b).file() == a);
                }
            }
        }
    }

    /// Moves the piece on `start` to `end` where the rules allow it. On success the mask is
    /// cleared, then flags the mover's file where a pawn stepped from rank 1 to rank 3.
    /// On failure nothing changes.
    pub fn move_piece(&mut self, start: &str, end: &str) -> (r: Result<(), MoveError>)
        requires
            valid_coord(start.spec_bytes()),
            valid_coord(end.spec_bytes()),
        ensures
            ({
                let (s, e) = (start.spec_bytes(), end.spec_bytes());
                let (sx, sy, ex, ey) = (coord_file(s), coord_rank(s), coord_file(e), coord_rank(e));
                match old(self).piece_at(sx, sy) {
                    None => r == Err::<(), MoveError>(MoveError::NoPieceAtStart) && *final(self) == *old(self),
                    Some(p) => if legal_target(old(self)@, old(self).mask_bits(), p, sx, sy, ex, ey) {
                        &&& r == Ok::<(), MoveError>(())
                        &&& final(self)@ == relocated(old(self)@, p, sx, sy, ex, ey)
                        &&& final(self).mask_bits() == mask_after(p, sy, ex, ey)
                        &&& (old(self).wf() ==> final(self).wf())
                    } else {
                        r == Err::<(), MoveError>(MoveError::IllegalMove) && *final(self) == *old(self)
                    },
                }
            }),
    {
        let (start_x, start_y) = Square::string_to_tuple(start);
        let (x, y) = Square::string_to_tuple(end);
        let piece = match self.get_index(start_x, start_y).get_piece() {
            Some(p) => p,
            None => return Err(MoveError::NoPieceAtStart),
        };
        let moves = piece.get_moves(self, &Square::from(start_x, start_y));
        let target = Square::string_to_u8(end);
        assert(target / 16 == x && target % 16 == y);
        if !contains_u8(&moves, target) {
            return Err(MoveError::IllegalMove);
        }
        let ghost before = *self;
        self.put(x, y, Some(piece));
        self.clear_epassantable(None);
        if piece.kind == Pieces::Pawn && start_y == 1 && y == 3 {
            proof {
                lemma_clear_mask(bit_index(piece.color, x as int) as u16, single_bit(piece.color, x as int));
            }
            self.set_enpassantable(piece.color, x);
        }
        self.put(start_x, start_y, None);
        proof {
            let (sb, eb) = (start.spec_bytes(), end.spec_bytes());
            assert(coord_file(sb) == start_x && coord_rank(sb) == start_y);
            assert(coord_file(eb) == x && coord_rank(eb) == y);
            assert(before == *old(self));
            assert(old(self).piece_at(start_x as int, start_y as int) == Some(piece));
            assert(legal_target(old(self)@, old(self).mask_bits(), piece, start_x as int, start_y as int, x as int, y as int));
            assert(self@ == relocated(old(self)@, piece, start_x as int, start_y as int, x as int, y as int));
            assert(self.mask_bits() == mask_after(piece, start_y as int, x as int, y as int));
            if before.wf() {
                assert forall|a: int, b: int| in_bounds(a, b) implies #[trigger] self.square_at(a, b).file() == a
                    && self.square_at(a, b).rank() == b by {
                    assert(self.square_at(a, b).packed() == before.square_at(a, b).packed());
                    assert(before.square_at(a, b).file() == a);
                }
            }
        }
        Ok(())
    }

    pub fn get_index(&self, x: u8, y: u8) -> (r: &Square)
        requires
            x < 8,
            y < 8,
        ensures
            *r == self.square_at(x as int, y as int),
            r.occupant() == self.piece_at(x as int, y as int),
    {
        proof {
            self.lemma_view();
        }
        &self.squares[y as usize * 8 + x as usize]
    }

    pub fn get_index_mut(&mut self, x: u8, y: u8) -> (r: &mut Square)
        requires
            x < 8,
            y < 8,
        ensures
            *r == old(self).square_at(x as int, y as int),
            r.occupant() == old(self).piece_at(x as int, y as int),
            final(self).square_at(x as int, y as int) == *final(r),
            forall|a: int, b: int|
                in_bounds(a, b) && (a, b) != (x as int, y as int)
                    ==> #[trigger] final(self).square_at(a, b) == old(self).square_at(a, b),
            final(self)@ == old(self)@.update(cell(x as int, y as int), final(r).occupant()),
            final(self).mask_bits() == old(self).mask_bits(),
    {
        proof {
            self.lemma_view();
        }
        &mut self.squares[y as usize * 8 + x as usize]
    }
}

} // verus!
