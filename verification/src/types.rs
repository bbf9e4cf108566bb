//! Core shogi types shared by every module: piece kinds, colors, squares and the
//! packed piece byte, together with the promotion and drop rules that depend only
//! on a piece kind and a rank.
use vstd::prelude::*;

verus! {

/// A piece kind. 1..=14 are the real kinds; 0 is unused.
pub type PieceType = u8;

pub const FU: PieceType = 1;
pub const KYO: PieceType = 2;
pub const KEI: PieceType = 3;
pub const GIN: PieceType = 4;
pub const KIN: PieceType = 5;
pub const KAKU: PieceType = 6;
pub const HI: PieceType = 7;
pub const OU: PieceType = 8;
pub const TO: PieceType = 9;
pub const NKYO: PieceType = 10;
pub const NKEI: PieceType = 11;
pub const NGIN: PieceType = 12;
pub const UMA: PieceType = 13;
pub const RYU: PieceType = 14;

/// Number of slots in a table indexed by piece kind (slot 0 unused).
pub const PIECE_TYPE_COUNT: usize = 15;

/// The kind a piece becomes when it promotes; kinds that cannot promote map to themselves.
pub open spec fn spec_promoted(pt: PieceType) -> PieceType {
    if pt == FU {
        TO
    } else if pt == KYO {
        NKYO
    } else if pt == KEI {
        NKEI
    } else if pt == GIN {
        NGIN
    } else if pt == KAKU {
        UMA
    } else if pt == HI {
        RYU
    } else {
        pt
    }
}

/// The kind a piece reverts to when captured; unpromoted kinds map to themselves.
pub open spec fn spec_unpromoted(pt: PieceType) -> PieceType {
    if pt == TO {
        FU
    } else if pt == NKYO {
        KYO
    } else if pt == NKEI {
        KEI
    } else if pt == NGIN {
        GIN
    } else if pt == UMA {
        KAKU
    } else if pt == RYU {
        HI
    } else {
        pt
    }
}

pub open spec fn spec_is_promotable(pt: PieceType) -> bool {
    pt == FU || pt == KYO || pt == KEI || pt == GIN || pt == KAKU || pt == HI
}

pub fn promoted(pt: PieceType) -> (r: PieceType)
    ensures
        r == spec_promoted(pt),
{
    match pt {
        FU => TO,
        KYO => NKYO,
        KEI => NKEI,
        GIN => NGIN,
        KAKU => UMA,
        HI => RYU,
        other => other,
    }
}

pub fn unpromoted(pt: PieceType) -> (r: PieceType)
    ensures
        r == spec_unpromoted(pt),
{
    match pt {
        TO => FU,
        NKYO => KYO,
        NKEI => KEI,
        NGIN => GIN,
        UMA => KAKU,
        RYU => HI,
        other => other,
    }
}

pub fn is_promotable(pt: PieceType) -> (r: bool)
    ensures
        r == spec_is_promotable(pt),
{
    pt == FU || pt == KYO || pt == KEI || pt == GIN || pt == KAKU || pt == HI
}

pub fn is_promoted(pt: PieceType) -> (r: bool)
    ensures
        r == (pt >= TO),
{
    pt >= TO
}

/// Unpromotion undoes promotion for every promotable kind.
pub proof fn lemma_unpromoted_promoted(pt: PieceType)
    requires
        spec_is_promotable(pt),
    ensures
        spec_unpromoted(spec_promoted(pt)) == pt,
        spec_promoted(pt) >= TO,
{
}

/// Base material value in centipawns of each kind (0 for the unused slot 0 and for
/// anything out of range).
pub open spec fn spec_value(pt: PieceType) -> i32 {
    if pt == FU {
        90
    } else if pt == KYO {
        315
    } else if pt == KEI {
        405
    } else if pt == GIN {
        495
    } else if pt == KIN {
        540
    } else if pt == KAKU {
        855
    } else if pt == HI {
        990
    } else if pt == OU {
        20000
    } else if pt == TO || pt == NKYO || pt == NKEI || pt == NGIN {
        540
    } else if pt == UMA {
        945
    } else if pt == RYU {
        1395
    } else {
        0
    }
}

/// Material value of a piece kind in centipawns, for kinds 0..=14.
pub fn piece_value(pt: PieceType) -> (r: i32)
    requires
        pt < 15,
    ensures
        r == spec_value(pt),
        0 <= r <= 20000,
{
    match pt {
        FU => 90,
        KYO => 315,
        KEI => 405,
        GIN => 495,
        KIN => 540,
        KAKU => 855,
        HI => 990,
        OU => 20000,
        TO | NKYO | NKEI | NGIN => 540,
        UMA => 945,
        RYU => 1395,
        _ => 0,
    }
}

/// Value gained by capturing a piece of this kind: it leaves the board and enters
/// the capturer's hand in its unpromoted form.
pub open spec fn spec_capture_gain(pt: PieceType) -> int {
    spec_value(pt) + spec_value(spec_unpromoted(pt))
}

pub fn capture_gain(pt: PieceType) -> (r: i32)
    requires
        pt < 15,
    ensures
        r == spec_capture_gain(pt),
        0 <= r <= 40000,
{
    piece_value(pt) + piece_value(unpromoted(pt))
}

/// A side: 0 = black (sente), 1 = white (gote).
pub type Color = u8;

pub const BLACK: Color = 0;
pub const WHITE: Color = 1;

pub open spec fn spec_opposite(c: Color) -> Color {
    c ^ 1
}

/// The other side of a side is a side, differs from it, and its other side is itself.
pub proof fn lemma_opposite(c: Color)
    requires
        c <= 1,
    ensures
        spec_opposite(c) <= 1,
        spec_opposite(spec_opposite(c)) == c,
        spec_opposite(c) != c,
{
    lemma_byte_facts(c, 0);
}

pub fn opposite(c: Color) -> (r: Color)
    ensures
        r == spec_opposite(c),
        c == BLACK ==> r == WHITE,
        c == WHITE ==> r == BLACK,
{
    proof {
        lemma_byte_facts(c, 0);
    }
    c ^ 1
}

/// A square 0..=80, numbered `col * 9 + row`; row 0 is white's back rank and
/// col 0 the leftmost file on screen.
pub type Square = u8;

pub const SQ_NONE: Square = 255;

pub open spec fn spec_make_square(row: int, col: int) -> int {
    col * 9 + row
}

pub open spec fn spec_row(sq: int) -> int {
    sq % 9
}

pub open spec fn spec_col(sq: int) -> int {
    sq / 9
}

pub fn make_square(row: u8, col: u8) -> (r: Square)
    requires
        col * 9 + row <= 255,
    ensures
        r == spec_make_square(row as int, col as int),
{
    col * 9 + row
}

pub fn row_of(sq: Square) -> (r: u8)
    ensures
        r == spec_row(sq as int),
        r < 9,
{
    sq % 9
}

pub fn col_of(sq: Square) -> (r: u8)
    ensures
        r == spec_col(sq as int),
        sq < 81 ==> r < 9,
{
    sq / 9
}

/// Squares built from a row and a column on the board come apart into the same row
/// and column again.
pub proof fn lemma_square_roundtrip(row: int, col: int)
    requires
        0 <= row < 9,
        0 <= col < 9,
    ensures
        0 <= spec_make_square(row, col) < 81,
        spec_row(spec_make_square(row, col)) == row,
        spec_col(spec_make_square(row, col)) == col,
{
}

/// A packed piece byte: 0 = empty, otherwise `(color << 4) | piece_type`.
pub type Piece = u8;

pub const NO_PIECE: Piece = 0;

pub open spec fn spec_make_piece(c: Color, pt: PieceType) -> Piece {
    ((c << 4u8) | pt) as u8
}

pub open spec fn spec_piece_color(p: Piece) -> Color {
    p >> 4u8
}

pub open spec fn spec_piece_type(p: Piece) -> PieceType {
    p & 0x0Fu8
}

/// A byte that denotes either no piece or a real piece of one of the two sides.
pub open spec fn valid_piece(p: Piece) -> bool {
    p == NO_PIECE || (spec_piece_color(p) <= 1 && 1 <= spec_piece_type(p) <= 14)
}

pub fn make_piece(c: Color, pt: PieceType) -> (r: Piece)
    ensures
        r == spec_make_piece(c, pt),
{
    (c << 4) | pt
}

pub fn piece_color(p: Piece) -> (r: Color)
    ensures
        r == spec_piece_color(p),
{
    p >> 4
}

pub fn piece_type(p: Piece) -> (r: PieceType)
    ensures
        r == spec_piece_type(p),
        r < 16,
{
    proof {
        lemma_byte_facts(p, 0);
    }
    p & 0x0F
}

pub fn is_none(p: Piece) -> (r: bool)
    ensures
        r == (p == NO_PIECE),
{
    p == NO_PIECE
}

/// Packing a color and a kind and unpacking the byte again gives back both, and the
/// packed byte of a real piece is never the empty byte.
pub proof fn lemma_piece_roundtrip(c: Color, pt: PieceType)
    requires
        c <= 1,
        pt < 16,
    ensures
        spec_piece_color(spec_make_piece(c, pt)) == c,
        spec_piece_type(spec_make_piece(c, pt)) == pt,
        spec_make_piece(c, pt) == c * 16 + pt,
        pt != 0 ==> spec_make_piece(c, pt) != NO_PIECE,
        1 <= pt <= 14 ==> valid_piece(spec_make_piece(c, pt)),
{
    lemma_byte_facts(c, pt);
}

/// A piece byte is determined by its color and kind.
pub proof fn lemma_piece_split(p: Piece)
    ensures
        p == spec_make_piece(spec_piece_color(p), spec_piece_type(p)),
        spec_piece_type(p) < 16,
        p == spec_piece_color(p) * 16 + spec_piece_type(p),
{
    lemma_byte_facts(p, 0);
}

/// Facts about side and piece bytes: flipping the low bit, packing a side with a kind
/// and splitting a byte into its side and kind.
pub proof fn lemma_byte_facts(a: u8, b: u8)
    by (bit_vector)
    ensures
        a <= 1 ==> (a ^ 1u8) <= 1 && ((a ^ 1u8) ^ 1u8) == a && (a ^ 1u8) != a,
        a < 8 ==> (a ^ 1u8) == (if a % 2 == 0 {
            a + 1
        } else {
            a - 1
        }),
        a <= 1 && b <= 1 && a != b ==> b == a ^ 1u8,
        a <= 1 && b < 16 ==> ((((a << 4u8) | b) as u8) >> 4u8) == a,
        a <= 1 && b < 16 ==> ((((a << 4u8) | b) as u8) & 0x0Fu8) == b,
        a <= 1 && b < 16 ==> (((a << 4u8) | b) as u8) == a * 16 + b,
        a == ((((a >> 4u8) << 4u8) | (a & 0x0Fu8)) as u8),
        a & 0x0Fu8 < 16,
        a == (a >> 4u8) * 16 + (a & 0x0Fu8),
        (0u8 >> 4u8) == 0u8,
        (0u8 & 0x0Fu8) == 0u8,
        a < 16 ==> ((a | 0x80u8) & 0x7Fu8) == a && ((a | 0x80u8) & 0x80u8) != 0 && (a & 0x7Fu8) == a
            && (a & 0x80u8) == 0,
{
}

/// True if a piece of kind `pt` must promote when it lands on `to_row` for `color`.
pub open spec fn spec_must_promote(pt: PieceType, to_row: u8, color: Color) -> bool {
    if pt == FU || pt == KYO {
        (color == BLACK && to_row == 0) || (color == WHITE && to_row == 8)
    } else if pt == KEI {
        (color == BLACK && to_row <= 1) || (color == WHITE && to_row >= 7)
    } else {
        false
    }
}

pub fn must_promote(pt: PieceType, to_row: u8, color: Color) -> (r: bool)
    ensures
        r == spec_must_promote(pt, to_row, color),
{
    match pt {
        FU | KYO => (color == BLACK && to_row == 0) || (color == WHITE && to_row == 8),
        KEI => (color == BLACK && to_row <= 1) || (color == WHITE && to_row >= 7),
        _ => false,
    }
}

/// True if a piece of kind `pt` may promote moving from `from_row` to `to_row`
/// for `color` (the move starts or ends in the promotion zone).
pub open spec fn spec_can_promote(pt: PieceType, from_row: u8, to_row: u8, color: Color) -> bool {
    if !spec_is_promotable(pt) {
        false
    } else if color == BLACK {
        from_row <= 2 || to_row <= 2
    } else {
        from_row >= 6 || to_row >= 6
    }
}

pub fn can_promote(pt: PieceType, from_row: u8, to_row: u8, color: Color) -> (r: bool)
    ensures
        r == spec_can_promote(pt, from_row, to_row, color),
{
    if !is_promotable(pt) {
        return false;
    }
    if color == BLACK {
        from_row <= 2 || to_row <= 2
    } else {
        from_row >= 6 || to_row >= 6
    }
}

/// True if dropping `pt` on `to_row` for `color` leaves it a legal move later
/// (the dead-piece rule); the two-pawns rule needs the board and is checked elsewhere.
pub open spec fn spec_droppable_row(pt: PieceType, to_row: u8, color: Color) -> bool {
    if pt == FU || pt == KYO {
        !((color == BLACK && to_row == 0) || (color == WHITE && to_row == 8))
    } else if pt == KEI {
        !((color == BLACK && to_row <= 1) || (color == WHITE && to_row >= 7))
    } else {
        true
    }
}

pub fn droppable_row(pt: PieceType, to_row: u8, color: Color) -> (r: bool)
    ensures
        r == spec_droppable_row(pt, to_row, color),
{
    match pt {
        FU | KYO => !((color == BLACK && to_row == 0) || (color == WHITE && to_row == 8)),
        KEI => !((color == BLACK && to_row <= 1) || (color == WHITE && to_row >= 7)),
        _ => true,
    }
}

/// A drop is allowed on a rank exactly where a piece landing there by a move would
/// not be forced to promote.
pub proof fn lemma_droppable_iff_not_forced(pt: PieceType, to_row: u8, color: Color)
    ensures
        spec_droppable_row(pt, to_row, color) == !spec_must_promote(pt, to_row, color),
{
}

} // verus!
