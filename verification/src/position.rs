//! Board position: mailbox + bitboards, hands, make/unmake, check/pin detection,
//! repetition tracking. The move-generation legality logic lives in `movegen`.
use crate::bitboard::{lemma_wf_no_high, Bitboard};
use crate::hand::{spec_unit, Hand};
use crate::mov::{move_none, move_null, Move, MOVE_NULL_BITS};
use crate::tables::{
    between, bishop_attacks, diag_steps, forward_dir, king_steps, lemma_ray_attack_symmetric,
    lemma_step_symmetric, lemma_steps_symmetric, opposite_dir, orth_steps, piece_attack,
    ray_attack, ray_attacks, rook_attacks, spec_forward_dir, spec_opposite_dir, step_attacks,
    bishop_attack, diag_step, orth_step, rook_attack, step_target,
};
use crate::types::{
    lemma_byte_facts,
    col_of, is_none, lemma_opposite, lemma_piece_roundtrip, lemma_piece_split, make_piece, make_square, opposite,
    piece_color, piece_type, promoted, spec_col, spec_make_piece, spec_opposite, spec_piece_color,
    spec_piece_type, spec_promoted, spec_unpromoted, unpromoted, Color, Piece, PieceType, Square,
    BLACK, FU, GIN, HI, KAKU, KEI, KIN, KYO, NGIN, NKEI, NKYO, NO_PIECE, OU, RYU, SQ_NONE, TO, UMA,
    WHITE,
};
use crate::zobrist;
use vstd::prelude::*;

verus! {

/// What is pushed for every move and popped again when it is undone.
#[derive(Clone, Copy, Debug)]
pub struct StateInfo {
    pub board_key: u64,
    pub hand_key: u64,
    pub captured: Piece,
    pub last_move: Move,
    pub checkers: Bitboard,
    /// Plies (2 per own move) of uninterrupted check delivered by each color, used for
    /// the perpetual-check repetition rule.
    pub continuous_check: [u16; 2],
    pub plies_from_null: u16,
}

/// The game-relevant content of a position.
#[verifier::ext_equal]
pub struct Snap {
    pub board: Seq<u8>,
    pub hands: Seq<u32>,
    pub side: u8,
    pub ply: u32,
    pub king_sq: Seq<u8>,
    pub pawn_files: Seq<u16>,
}

/// A byte that the board can hold: empty, or a color 0..=1 and a kind 0..=14.
pub open spec fn valid_cell(p: u8) -> bool {
    spec_piece_color(p) <= 1 && spec_piece_type(p) <= 14
}

/// The squares that hold a piece.
pub open spec fn occ_set(board: Seq<u8>) -> Set<int> {
    Set::new(|t: int| 0 <= t < 81 && board[t] != 0)
}

/// The squares holding a piece of color `c`.
pub open spec fn color_set(board: Seq<u8>, c: u8) -> Set<int> {
    Set::new(|t: int| 0 <= t < 81 && board[t] != 0 && spec_piece_color(board[t]) == c)
}

/// The squares holding a piece of kind `pt` (either color).
pub open spec fn type_set(board: Seq<u8>, pt: u8) -> Set<int> {
    Set::new(|t: int| 0 <= t < 81 && board[t] != 0 && spec_piece_type(board[t]) == pt)
}

/// The squares holding a piece of color `c` and kind `pt`.
pub open spec fn piece_set(board: Seq<u8>, c: u8, pt: u8) -> Set<int> {
    Set::new(
        |t: int|
            0 <= t < 81 && board[t] != 0 && spec_piece_color(board[t]) == c && spec_piece_type(
                board[t],
            ) == pt,
    )
}

/// The pieces of `by` that attack `to` when the board is occupied as in `occ`: a piece
/// on `sq` is counted when `to` is in that piece's own attack set from `sq`.
pub open spec fn spec_attackers(board: Seq<u8>, to: int, occ: Set<int>, by: u8) -> Set<int> {
    Set::new(
        |sq: int|
            0 <= sq < 81 && board[sq] != 0 && spec_piece_color(board[sq]) == by && piece_attack(
                by,
                spec_piece_type(board[sq]),
                sq,
                occ,
                to,
            ),
    )
}

/// The pieces giving check to the side to move (none when that side has no king).
pub open spec fn spec_checkers(s: Snap) -> Set<int> {
    let k = s.king_sq[s.side as int];
    if k == SQ_NONE {
        Set::empty()
    } else {
        spec_attackers(s.board, k as int, occ_set(s.board), spec_opposite(s.side))
    }
}

/// The structural facts every reachable snapshot has.
pub open spec fn snap_ok(s: Snap) -> bool {
    &&& s.board.len() == 81
    &&& s.hands.len() == 2
    &&& s.king_sq.len() == 2
    &&& s.pawn_files.len() == 2
    &&& s.side <= 1
    &&& forall|i: int| 0 <= i < 81 ==> valid_cell(#[trigger] s.board[i])
    &&& forall|c: int| 0 <= c < 2 ==> (#[trigger] s.king_sq[c] < 81 || s.king_sq[c] == SQ_NONE)
}

/// Bit `col` of a pawn-file word.
pub open spec fn file_bit(w: u16, col: int) -> bool {
    0 <= col < 16 && ((w >> (col as u16)) & 1u16) == 1u16
}

pub open spec fn pawn_at(board: Seq<u8>, c: u8, sq: int) -> bool {
    0 <= sq < 81 && board[sq] == spec_make_piece(c, FU)
}

/// At most one unpromoted pawn of each color in every file, and the pawn-file words
/// say exactly which files hold one.
pub open spec fn pawns_ok(s: Snap) -> bool {
    &&& forall|c: int, col: int|
        0 <= c < 2 && 0 <= col < 9 ==> (#[trigger] file_bit(s.pawn_files[c], col) <==> exists|
            sq: int,
        | #[trigger] pawn_at(s.board, c as u8, sq) && spec_col(sq) == col)
    &&& forall|c: int, col: int|
        0 <= c < 2 && 9 <= col < 16 ==> !#[trigger] file_bit(s.pawn_files[c], col)
    &&& forall|c: int, a: int, b: int|
        0 <= c < 2 && #[trigger] pawn_at(s.board, c as u8, a) && #[trigger] pawn_at(
            s.board,
            c as u8,
            b,
        ) && spec_col(a) == spec_col(b) ==> a == b
}

/// Each side has at most one king, and `king_sq` says where it is.
pub open spec fn kings_ok(s: Snap) -> bool {
    forall|c: int|
        0 <= c < 2 ==> {
            &&& (#[trigger] s.king_sq[c] == SQ_NONE ==> forall|t: int|
                0 <= t < 81 ==> #[trigger] s.board[t] != spec_make_piece(c as u8, OU))
            &&& (s.king_sq[c] != SQ_NONE ==> s.board[s.king_sq[c] as int] == spec_make_piece(
                c as u8,
                OU,
            ) && forall|t: int|
                0 <= t < 81 && #[trigger] s.board[t] == spec_make_piece(c as u8, OU) ==> t
                    == s.king_sq[c])
        }
}

/// A position the game can reach: pawns and kings are tracked exactly and the side
/// that just moved has not left its king in check.
pub open spec fn sound(s: Snap) -> bool {
    &&& snap_ok(s)
    &&& pawns_ok(s)
    &&& kings_ok(s)
    &&& (s.king_sq[spec_opposite(s.side) as int] != SQ_NONE ==> spec_attackers(
        s.board,
        s.king_sq[spec_opposite(s.side) as int] as int,
        occ_set(s.board),
        s.side,
    ) == Set::<int>::empty())
}

/// Zobrist key of the board squares below `n`.
pub open spec fn board_key_upto(board: Seq<u8>, n: int) -> u64
    decreases n,
{
    if n <= 0 {
        0
    } else if board[n - 1] != 0 {
        board_key_upto(board, n - 1) ^ zobrist::spec_psq_key(board[n - 1], (n - 1) as u8)
    } else {
        board_key_upto(board, n - 1)
    }
}

/// Zobrist key of a board and the side to move.
pub open spec fn spec_board_key(board: Seq<u8>, side: u8) -> u64 {
    (if side == WHITE {
        zobrist::SIDE_KEY
    } else {
        0u64
    }) ^ board_key_upto(board, 81)
}

/// `inc` added `n` times to `acc`, wrapping.
pub open spec fn add_times(acc: u64, inc: u64, n: nat) -> u64
    decreases n,
{
    if n == 0 {
        acc
    } else {
        vstd::wrapping::u64_specs::wrapping_add(add_times(acc, inc, (n - 1) as nat), inc)
    }
}

/// The droppable kinds in hand order.
pub open spec fn hand_types() -> Seq<u8> {
    seq![FU, KYO, KEI, GIN, KIN, KAKU, HI]
}

/// Hand key accumulated over the first `j` droppable kinds of color `c`, then over the
/// earlier colors: each piece in hand adds its color's increment once.
pub open spec fn hand_key_upto(hands: Seq<u32>, c: int, j: int, acc: u64) -> u64
    decreases c, j,
{
    if c <= 0 && j <= 0 {
        acc
    } else if j <= 0 {
        hand_key_upto(hands, c - 1, 7, acc)
    } else {
        let pt = hand_types()[j - 1];
        add_times(
            hand_key_upto(hands, c, j - 1, acc),
            zobrist::spec_hand_inc(c as u8, pt),
            Hand(hands[c]).spec_count(pt) as nat,
        )
    }
}

/// Hand key of both hands: black's kinds in hand order, then white's.
pub open spec fn spec_hand_key(hands: Seq<u32>) -> u64 {
    hand_key_upto(hands, 1, 7, 0)
}

pub struct Position {
    board: [Piece; 81],
    by_type: [Bitboard; 15],
    by_color: [Bitboard; 2],
    occupied: Bitboard,
    hands: [Hand; 2],
    king_sq: [Square; 2],
    side: Color,
    /// Bit `c` set: an unpromoted pawn of that color stands somewhere in column `c`.
    pawn_files: [u16; 2],
    ply: u32,
    states: Vec<StateInfo>,
    history: Ghost<Seq<Snap>>,
}

impl Clone for Position {
    /// A copy with the same board, hands, side, counters and records.
    fn clone(&self) -> (r: Position)
        ensures
            r.snap() == self.snap(),
            r.stack() == self.stack(),
            r.snaps() == self.snaps(),
            r.wf() == self.wf(),
    {
        let mut states: Vec<StateInfo> = Vec::new();
        let mut i: usize = 0;
        while i < self.states.len()
            invariant
                i <= self.states@.len(),
                states@ == self.states@.take(i as int),
            decreases self.states.len() - i,
        {
            states.push(self.states[i]);
            i = i + 1;
            proof {
                assert(states@ =~= self.states@.take(i as int));
            }
        }
        proof {
            assert(self.states@.take(self.states@.len() as int) =~= self.states@);
        }
        let r = Position {
            board: self.board,
            by_type: self.by_type,
            by_color: self.by_color,
            occupied: self.occupied,
            hands: self.hands,
            king_sq: self.king_sq,
            side: self.side,
            pawn_files: self.pawn_files,
            ply: self.ply,
            states,
            history: Ghost(self.history@),
        };
        proof {
            assert(r.states@ == self.states@);
            assert(r.snap() =~= self.snap());
            assert(r.board@ == self.board@);
            assert(r.by_color == self.by_color);
            assert(r.by_type == self.by_type);
            assert(r.occupied == self.occupied);
            assert(r.bitboards_ok() == self.bitboards_ok());
            assert(r.board_ok() == self.board_ok());
            assert(r.history@ == self.history@);
        }
        r
    }
}

/// Outcome of the repetition (sennichite) check.
#[derive(Clone, Copy, Debug, PartialEq, Eq, Structural)]
pub enum Repetition {
    NoRepetition,
    Draw,
    WinByPerpetual,
    LoseByPerpetual,
}

impl Position {
    /// The game-relevant content of this position.
    pub closed spec fn snap(&self) -> Snap {
        Snap {
            board: self.board@,
            hands: seq![self.hands[0].0, self.hands[1].0],
            side: self.side,
            ply: self.ply,
            king_sq: self.king_sq@,
            pawn_files: self.pawn_files@,
        }
    }

    /// The record pushed by each move, oldest first (the root record first).
    pub closed spec fn stack(&self) -> Seq<StateInfo> {
        self.states@
    }

    /// The position after each entry of `stack()`, oldest first.
    pub closed spec fn snaps(&self) -> Seq<Snap> {
        self.history@
    }

    /// The bitboards agree with the board.
    closed spec fn bitboards_ok(&self) -> bool {
        &&& self.occupied.wf()
        &&& self.occupied@ == occ_set(self.board@)
        &&& forall|c: int|
            0 <= c < 2 ==> (#[trigger] self.by_color[c]).wf() && self.by_color[c]@ == color_set(
                self.board@,
                c as u8,
            )
        &&& forall|pt: int|
            0 <= pt < 15 ==> (#[trigger] self.by_type[pt]).wf() && self.by_type[pt]@ == type_set(
                self.board@,
                pt as u8,
            )
    }

    /// The board holds valid cells and the bitboards agree with it.
    pub closed spec fn board_ok(&self) -> bool {
        &&& self.bitboards_ok()
        &&& forall|i: int| 0 <= i < 81 ==> valid_cell(#[trigger] self.board@[i])
    }

    pub closed spec fn wf(&self) -> bool {
        &&& self.board_ok()
        &&& snap_ok(self.snap())
        &&& stack_ok(self.states@, self.history@)
        &&& self.history@.last() == self.snap()
    }

    /// A well-formed position has bitboards that agree with its board, and a root record.
    pub proof fn lemma_wf_board(&self)
        requires
            self.wf(),
        ensures
            self.board_ok(),
            snap_ok(self.snap()),
            1 <= self.stack().len() <= MAX_STACK,
            self.snaps().len() == self.stack().len(),
            self.snaps().last() == self.snap(),
    {
    }

    pub open spec fn spec_board(&self) -> Seq<u8> {
        self.snap().board
    }

    pub open spec fn spec_side(&self) -> u8 {
        self.snap().side
    }

    pub fn empty() -> (r: Position)
        ensures
            r.wf(),
            r.snap() == empty_snap(),
            r.stack().len() == 1,
    {
        let mut by_type: [Bitboard; 15] = [Bitboard::empty();15];
        let by_color: [Bitboard; 2] = [Bitboard::empty(), Bitboard::empty()];
        let root = StateInfo {
            board_key: 0,
            hand_key: 0,
            captured: NO_PIECE,
            last_move: move_none(),
            checkers: Bitboard::empty(),
            continuous_check: [0, 0],
            plies_from_null: 0,
        };
        let mut states: Vec<StateInfo> = Vec::new();
        states.push(root);
        let board = [NO_PIECE;81];
        let ghost h: Seq<Snap> = seq![empty_snap()];
        let pos = Position {
            board,
            by_type,
            by_color,
            occupied: Bitboard::empty(),
            hands: [Hand::empty(), Hand::empty()],
            king_sq: [SQ_NONE, SQ_NONE],
            side: BLACK,
            pawn_files: [0, 0],
            ply: 0,
            states,
            history: Ghost(h),
        };
        proof {
            assert(pos.board@ =~= Seq::new(81, |i: int| 0u8));
            assert(occ_set(pos.board@) =~= Set::<int>::empty());
            assert forall|c: int| 0 <= c < 2 implies #[trigger] color_set(pos.board@, c as u8) =~= Set::<
                int,
            >::empty() by {}
            assert forall|pt: int| 0 <= pt < 15 implies #[trigger] type_set(pos.board@, pt as u8) =~= Set::<
                int,
            >::empty() by {}
            assert(pos.snap() =~= empty_snap());
            assert(spec_checkers(empty_snap()) =~= Set::<int>::empty());
            assert forall|i: int| 0 <= i < 81 implies valid_cell(#[trigger] pos.board@[i]) by {
                lemma_byte_facts(0, 0);
            }
        }
        pos
    }



    // ---------------- setup ----------------

    /// Place a piece directly on an empty square without touching keys or the stack
    /// (setup only).
    fn raw_put(&mut self, piece: Piece, sq: Square)
        requires
            old(self).board_ok(),
            valid_cell(piece),
            piece != 0,
            sq < 81,
            old(self).board@[sq as int] == 0,
        ensures
            final(self).board_ok(),
            final(self).board@ == old(self).board@.update(sq as int, piece),
            final(self).king_sq@ == (if spec_piece_type(piece) == OU {
                old(self).king_sq@.update(spec_piece_color(piece) as int, sq)
            } else {
                old(self).king_sq@
            }),
            final(self).pawn_files@ == (if spec_piece_type(piece) == FU {
                old(self).pawn_files@.update(
                    spec_piece_color(piece) as int,
                    set_bit(old(self).pawn_files@[spec_piece_color(piece) as int], spec_col(sq as int)),
                )
            } else {
                old(self).pawn_files@
            }),
            final(self).hands == old(self).hands,
            final(self).side == old(self).side,
            final(self).ply == old(self).ply,
            final(self).states == old(self).states,
            final(self).history == old(self).history,
    {
        proof {
            lemma_put_sets(self.board@, sq as int, piece);
        }
        let pt = piece_type(piece);
        let c = piece_color(piece);
        self.board[sq as usize] = piece;
        let mut t = self.by_type[pt as usize];
        t.set(sq);
        self.by_type[pt as usize] = t;
        let mut b = self.by_color[c as usize];
        b.set(sq);
        self.by_color[c as usize] = b;
        self.occupied.set(sq);
        if pt == OU {
            self.king_sq[c as usize] = sq;
        }
        if pt == FU {
            let col = col_of(sq) as u16;
            self.pawn_files[c as usize] = self.pawn_files[c as usize] | (1u16 << col);
        }
        proof {
            assert(self.board@ =~= old(self).board@.update(sq as int, piece));
            assert forall|k: int| 0 <= k < 15 implies (#[trigger] self.by_type[k]).wf() && self.by_type[k]@ == type_set(self.board@, k as u8) by {
                if k != pt {
                    assert(self.by_type[k] == old(self).by_type[k]);
                }
            }
            assert forall|k: int| 0 <= k < 2 implies (#[trigger] self.by_color[k]).wf() && self.by_color[k]@ == color_set(self.board@, k as u8) by {
                if k != c {
                    assert(self.by_color[k] == old(self).by_color[k]);
                }
            }
            assert(self.king_sq@ =~= (if spec_piece_type(piece) == OU {
                old(self).king_sq@.update(spec_piece_color(piece) as int, sq)
            } else {
                old(self).king_sq@
            }));
            assert(self.pawn_files@ =~= (if spec_piece_type(piece) == FU {
                old(self).pawn_files@.update(
                    spec_piece_color(piece) as int,
                    set_bit(old(self).pawn_files@[spec_piece_color(piece) as int], spec_col(sq as int)),
                )
            } else {
                old(self).pawn_files@
            }));
        }
    }

    /// Recompute keys and checkers for a fresh root record after raw setup.
    fn finish_setup(&mut self)
        requires
            old(self).board_ok(),
            snap_ok(old(self).snap()),
        ensures
            final(self).wf(),
            final(self).snap() == old(self).snap(),
            final(self).stack().len() == 1,
            final(self).stack()[0].board_key == spec_board_key(old(self).board@, old(self).side),
            final(self).stack()[0].hand_key == spec_hand_key(old(self).snap().hands),
            final(self).stack()[0].last_move.0 == 0,
            final(self).stack()[0].captured == 0,
            final(self).stack()[0].plies_from_null == 0,
            final(self).stack()[0].continuous_check@ == seq![0u16, 0u16],
    {
        let board_key = board_key_of(&self.board, self.side);
        let hand_key = hand_key_of(self.hands);
        let side = self.side;
        let ksq = self.king_sq[side as usize];
        let checkers = if ksq != SQ_NONE {
            self.attackers_to(ksq, self.occupied, opposite(side))
        } else {
            Bitboard::empty()
        };
        let root = StateInfo {
            board_key,
            hand_key,
            captured: NO_PIECE,
            last_move: move_none(),
            checkers,
            continuous_check: [0, 0],
            plies_from_null: 0,
        };
        let mut states: Vec<StateInfo> = Vec::new();
        states.push(root);
        self.states = states;
        let ghost h: Seq<Snap> = seq![self.snap()];
        self.history = Ghost(h);
        proof {
            assert(self.states@[0].continuous_check@ =~= seq![0u16, 0u16]);
        }
    }

    /// Build a position from explicit parts (used by the SFEN parser). Recomputes
    /// every derived field (keys, king squares, pawn files, checkers) from scratch.
    pub fn from_parts(board: [Piece; 81], hands: [Hand; 2], side: Color, ply: u32) -> (r: Position)
        requires
            forall|i: int| 0 <= i < 81 ==> valid_cell(#[trigger] board@[i]),
            side <= 1,
        ensures
            r.wf(),
            r.snap() == parts_snap(board@, seq![hands[0].0, hands[1].0], side, ply),
            r.stack().len() == 1,
            r.stack()[0].board_key == spec_board_key(board@, side),
            r.stack()[0].hand_key == spec_hand_key(seq![hands[0].0, hands[1].0]),
            r.stack()[0].last_move.0 == 0,
            r.stack()[0].plies_from_null == 0,
            r.stack()[0].continuous_check@ == seq![0u16, 0u16],
    {
        let mut pos = Position::empty();
        let mut sq: u8 = 0;
        while sq < 81
            invariant
                sq <= 81,
                forall|i: int| 0 <= i < 81 ==> valid_cell(#[trigger] board@[i]),
                pos.board_ok(),
                pos.board@ == Seq::new(81, |i: int| if i < sq { board@[i] } else { 0u8 }),
                pos.king_sq@ == seq![setup_king(board@, 0, sq as int), setup_king(board@, 1, sq as int)],
                pos.pawn_files@ == seq![setup_pawns(board@, 0, sq as int), setup_pawns(board@, 1, sq as int)],
            decreases 81 - sq,
        {
            let p = board[sq as usize];
            if !is_none(p) {
                pos.raw_put(p, sq);
            }
            proof {
                lemma_piece_split(p);
                assert(pos.board@ =~= Seq::new(81, |i: int| if i < sq + 1 { board@[i] } else { 0u8 }));
                assert(pos.king_sq@ =~= seq![setup_king(board@, 0, sq + 1), setup_king(board@, 1, sq + 1)]);
                assert(pos.pawn_files@ =~= seq![setup_pawns(board@, 0, sq + 1), setup_pawns(board@, 1, sq + 1)]);
            }
            sq = sq + 1;
        }
        pos.hands = hands;
        pos.side = side;
        pos.ply = ply;
        proof {
            assert(pos.board@ =~= board@);
            lemma_setup_king_range(board@, 0, 81);
            lemma_setup_king_range(board@, 1, 81);
            assert(pos.snap() =~= parts_snap(board@, seq![hands[0].0, hands[1].0], side, ply));
        }
        pos.finish_setup();
        pos
    }

    /// The standard opening position, black to move.
    pub fn startpos() -> (r: Position)
        ensures
            r.wf(),
            r.snap() == parts_snap(startpos_board(), seq![0u32, 0u32], BLACK, 0),
            r.stack().len() == 1,
            r.stack()[0].last_move.0 == 0,
            r.stack()[0].board_key == spec_board_key(startpos_board(), BLACK),
            r.stack()[0].hand_key == spec_hand_key(seq![0u32, 0u32]),
            r.stack()[0].plies_from_null == 0,
            r.stack()[0].continuous_check@ == seq![0u16, 0u16],
    {
        let mut board = [NO_PIECE;81];
        let mut col: u8 = 0;
        while col < 9
            invariant
                col <= 9,
                forall|i: int| 0 <= i < 81 ==> (#[trigger] board@[i]) == (if spec_col(i) < col {
                    startpos_board()[i]
                } else {
                    0u8
                }),
            decreases 9 - col,
        {
            let back = back_rank(col);
            let back_b = back_rank(8 - col);
            board[make_square(0, col) as usize] = make_piece(WHITE, back);
            board[make_square(2, col) as usize] = make_piece(WHITE, FU);
            board[make_square(6, col) as usize] = make_piece(BLACK, FU);
            board[make_square(8, col) as usize] = make_piece(BLACK, back_b);
            if col == 1 {
                board[make_square(1, 1) as usize] = make_piece(WHITE, HI);
                board[make_square(7, 1) as usize] = make_piece(BLACK, KAKU);
            }
            if col == 7 {
                board[make_square(1, 7) as usize] = make_piece(WHITE, KAKU);
                board[make_square(7, 7) as usize] = make_piece(BLACK, HI);
            }
            proof {
                assert forall|i: int| 0 <= i < 81 implies (#[trigger] board@[i]) == (if spec_col(i) < col + 1 {
                    startpos_board()[i]
                } else {
                    0u8
                }) by {
                    assert(i == spec_col(i) * 9 + i % 9);
                }
            }
            col = col + 1;
        }
        proof {
            assert forall|i: int| 0 <= i < 81 implies valid_cell(#[trigger] board@[i]) by {
                lemma_startpos_cell_valid(i);
            }
        }
        let h = Hand::empty();
        let r = Position::from_parts(board, [h, h], BLACK, 0);
        proof {
            assert(board@ =~= startpos_board());
        }
        r
    }

    // ---------------- attacks ----------------

    /// All pieces of `by_color` that attack square `to`, given occupancy `occ`.
    #[verifier::rlimit(40)]
    pub fn attackers_to(&self, to: Square, occ: Bitboard, by_color: Color) -> (r: Bitboard)
        requires
            self.board_ok(),
            to < 81,
            by_color <= 1,
        ensures
            r.wf(),
            r@ == spec_attackers(self.spec_board(), to as int, occ@, by_color),
    {
        let opp = opposite(by_color);
        let a1 = step_attacks(opp, to, FU).and(self.pieces(by_color, FU));
        let a2 = step_attacks(opp, to, KEI).and(self.pieces(by_color, KEI));
        let a3 = step_attacks(opp, to, GIN).and(self.pieces(by_color, GIN));
        let golds = self.pieces(by_color, KIN).or(self.pieces(by_color, TO)).or(
            self.pieces(by_color, NKYO),
        ).or(self.pieces(by_color, NKEI)).or(self.pieces(by_color, NGIN));
        let a4 = step_attacks(opp, to, KIN).and(golds);
        let a5 = king_steps(to).and(self.pieces(by_color, OU));
        let fwd = forward_dir(by_color);
        let lance_dir = opposite_dir(fwd);
        let a6 = ray_attacks(to, lance_dir, occ).and(self.pieces(by_color, KYO));
        let bishops = self.pieces(by_color, KAKU).or(self.pieces(by_color, UMA));
        let a7 = bishop_attacks(to, occ).and(bishops);
        let a8 = orth_steps(to).and(self.pieces(by_color, UMA));
        let rooks = self.pieces(by_color, HI).or(self.pieces(by_color, RYU));
        let a9 = rook_attacks(to, occ).and(rooks);
        let a10 = diag_steps(to).and(self.pieces(by_color, RYU));
        let att = a1.or(a2).or(a3).or(a4).or(a5).or(a6).or(a7).or(a8).or(a9).or(a10);
        proof {
            let board = self.spec_board();
            assert forall|sq: int| #[trigger] att@.contains(sq) == attack_union(board, to as int, occ@, by_color, sq) by {
            }
            lemma_attackers_union(board, to as int, occ@, by_color, att@);
        }
        att
    }

    pub fn attackers_to_both(&self, to: Square, occ: Bitboard) -> (r: Bitboard)
        requires
            self.board_ok(),
            to < 81,
        ensures
            r.wf(),
            r@ == spec_attackers(self.spec_board(), to as int, occ@, BLACK).union(
                spec_attackers(self.spec_board(), to as int, occ@, WHITE),
            ),
    {
        self.attackers_to(to, occ, BLACK).or(self.attackers_to(to, occ, WHITE))
    }


    // ---------------- make / unmake ----------------

    fn put_piece(&mut self, piece: Piece, sq: Square)
        requires
            old(self).board_ok(),
            valid_cell(piece),
            piece != 0,
            sq < 81,
            old(self).board@[sq as int] == 0,
        ensures
            final(self).board_ok(),
            final(self).board@ == old(self).board@.update(sq as int, piece),
            final(self).king_sq == old(self).king_sq,
            final(self).pawn_files == old(self).pawn_files,
            final(self).hands == old(self).hands,
            final(self).side == old(self).side,
            final(self).ply == old(self).ply,
            final(self).states == old(self).states,
            final(self).history == old(self).history,
    {
        proof {
            lemma_put_sets(self.board@, sq as int, piece);
        }
        let pt = piece_type(piece);
        let c = piece_color(piece);
        self.board[sq as usize] = piece;
        let mut t = self.by_type[pt as usize];
        t.set(sq);
        self.by_type[pt as usize] = t;
        let mut b = self.by_color[c as usize];
        b.set(sq);
        self.by_color[c as usize] = b;
        self.occupied.set(sq);
        proof {
            assert(self.board@ =~= old(self).board@.update(sq as int, piece));
            assert forall|k: int| 0 <= k < 15 implies (#[trigger] self.by_type[k]).wf() && self.by_type[k]@ == type_set(self.board@, k as u8) by {
                if k != pt {
                    assert(self.by_type[k] == old(self).by_type[k]);
                }
            }
            assert forall|k: int| 0 <= k < 2 implies (#[trigger] self.by_color[k]).wf() && self.by_color[k]@ == color_set(self.board@, k as u8) by {
                if k != c {
                    assert(self.by_color[k] == old(self).by_color[k]);
                }
            }
        }
    }

    fn remove_piece(&mut self, piece: Piece, sq: Square)
        requires
            old(self).board_ok(),
            piece != 0,
            sq < 81,
            old(self).board@[sq as int] == piece,
        ensures
            final(self).board_ok(),
            final(self).board@ == old(self).board@.update(sq as int, 0u8),
            final(self).king_sq == old(self).king_sq,
            final(self).pawn_files == old(self).pawn_files,
            final(self).hands == old(self).hands,
            final(self).side == old(self).side,
            final(self).ply == old(self).ply,
            final(self).states == old(self).states,
            final(self).history == old(self).history,
    {
        proof {
            lemma_remove_sets(self.board@, sq as int);
            lemma_byte_facts(0, 0);
        }
        let pt = piece_type(piece);
        let c = piece_color(piece);
        self.board[sq as usize] = NO_PIECE;
        let mut t = self.by_type[pt as usize];
        t.clear(sq);
        self.by_type[pt as usize] = t;
        let mut b = self.by_color[c as usize];
        b.clear(sq);
        self.by_color[c as usize] = b;
        self.occupied.clear(sq);
        proof {
            assert(self.board@ =~= old(self).board@.update(sq as int, 0u8));
            assert forall|k: int| 0 <= k < 15 implies (#[trigger] self.by_type[k]).wf() && self.by_type[k]@ == type_set(self.board@, k as u8) by {
                if k != pt {
                    assert(self.by_type[k] == old(self).by_type[k]);
                }
            }
            assert forall|k: int| 0 <= k < 2 implies (#[trigger] self.by_color[k]).wf() && self.by_color[k]@ == color_set(self.board@, k as u8) by {
                if k != c {
                    assert(self.by_color[k] == old(self).by_color[k]);
                }
            }
        }
    }

    /// Plays a drop: the piece leaves the hand and stands on the target square.
    fn apply_drop(&mut self, mv: Move)
        requires
            old(self).board_ok(),
            snap_ok(old(self).snap()),
            applicable(old(self).snap(), mv),
            mv.spec_is_drop(),
        ensures
            final(self).board_ok(),
            final(self).snap() == spec_apply(old(self).snap(), mv),
            final(self).states == old(self).states,
            final(self).history == old(self).history,
    {
        let us = self.side;
        let pt = mv.moved_piece_type();
        let to = mv.to();
        let mut h = self.hands[us as usize];
        h.remove(pt);
        self.hands[us as usize] = h;
        let piece = make_piece(us, pt);
        proof {
            lemma_piece_roundtrip(us, pt);
        }
        self.put_piece(piece, to);
        if pt == FU {
            let col = col_of(to) as u16;
            self.pawn_files[us as usize] = self.pawn_files[us as usize] | (1u16 << col);
        }
        self.side = opposite(us);
        self.ply = self.ply.wrapping_add(1);
        proof {
            assert(self.snap() =~= spec_apply(old(self).snap(), mv));
        }
    }

    /// Plays a board move, capturing what stands on the target square; returns the
    /// captured piece (empty when nothing was captured).
    fn apply_board_move(&mut self, mv: Move) -> (captured: Piece)
        requires
            old(self).board_ok(),
            snap_ok(old(self).snap()),
            applicable(old(self).snap(), mv),
            !mv.spec_is_drop(),
        ensures
            final(self).board_ok(),
            final(self).snap() == spec_apply(old(self).snap(), mv),
            final(self).states == old(self).states,
            final(self).history == old(self).history,
            captured == old(self).snap().board[mv.spec_to() as int],
    {
        let us = self.side;
        let them = opposite(us);
        let from = mv.from();
        let to = mv.to();
        let moved_pt = mv.moved_piece_type();
        let moved_piece = make_piece(us, moved_pt);
        proof {
            lemma_piece_roundtrip(us, moved_pt);
        }
        let target = self.board[to as usize];
        if !is_none(target) {
            let cap_pt = piece_type(target);
            proof {
                lemma_piece_split(target);
            }
            self.remove_piece(target, to);
            let unpro = unpromoted(cap_pt);
            let mut h = self.hands[us as usize];
            h.add(unpro);
            self.hands[us as usize] = h;
            if cap_pt == FU {
                let col = col_of(to) as u16;
                self.pawn_files[them as usize] = self.pawn_files[them as usize] & !(1u16 << col);
            }
        }
        self.remove_piece(moved_piece, from);
        let final_pt = if mv.is_promotion() {
            promoted(moved_pt)
        } else {
            moved_pt
        };
        let final_piece = make_piece(us, final_pt);
        proof {
            lemma_piece_roundtrip(us, final_pt);
        }
        self.put_piece(final_piece, to);
        if moved_pt == OU {
            self.king_sq[us as usize] = to;
        }
        if moved_pt == FU && mv.is_promotion() {
            let col = col_of(from) as u16;
            self.pawn_files[us as usize] = self.pawn_files[us as usize] & !(1u16 << col);
        }
        self.side = them;
        self.ply = self.ply.wrapping_add(1);
        proof {
            assert(self.snap() =~= spec_apply(old(self).snap(), mv));
        }
        target
    }

    /// Plays `mv` and pushes a record from which `undo_move` takes it back.
    pub fn do_move(&mut self, mv: Move)
        requires
            old(self).wf(),
            applicable(old(self).snap(), mv),
            old(self).stack().len() < MAX_STACK,
        ensures
            final(self).wf(),
            final(self).snap() == spec_apply(old(self).snap(), mv),
            final(self).stack().len() == old(self).stack().len() + 1,
            final(self).stack().drop_last() == old(self).stack(),
            final(self).snaps() == old(self).snaps().push(final(self).snap()),
            next_state_ok(old(self).stack().last(), old(self).snap(), mv, final(self).stack().last()),
    {
        let us = self.side;
        let prev = self.state();
        let ghost s0 = self.snap();
        proof {
            lemma_not_null(mv);
            lemma_stack_last(self.states@, self.history@);
            lemma_opposite(us);
        }
        let target = self.board[mv.to() as usize];
        let board_key = next_board_key(prev.board_key, us, mv, target);
        let hand_key = next_hand_key(prev.hand_key, us, mv, target);
        let captured = if mv.is_drop() {
            self.apply_drop(mv);
            NO_PIECE
        } else {
            self.apply_board_move(mv)
        };
        let them = self.side;
        let ksq = self.king_sq[them as usize];
        let checkers = if ksq != SQ_NONE {
            self.attackers_to(ksq, self.occupied, us)
        } else {
            Bitboard::empty()
        };
        proof {
            lemma_apply_snap_ok(s0, mv);
            if ksq == SQ_NONE {
                assert(checkers@ =~= spec_checkers(self.snap()));
            }
        }
        let gives_check = !checkers.is_empty();
        let mut continuous_check = prev.continuous_check;
        let cc_us = if gives_check {
            prev.continuous_check[us as usize] + 2
        } else {
            0
        };
        continuous_check[us as usize] = cc_us;
        let st = StateInfo {
            board_key,
            hand_key,
            captured,
            last_move: mv,
            checkers,
            continuous_check,
            plies_from_null: prev.plies_from_null + 1,
        };
        proof {
            lemma_stack_push(self.states@, self.history@, st, self.snap());
        }
        self.states.push(st);
        let ghost h = self.history@.push(self.snap());
        self.history = Ghost(h);
        proof {
            assert(self.states@.drop_last() =~= old(self).states@);
        }
    }

    /// Takes back a drop: the piece returns to the hand.
    fn unapply_drop(&mut self, mv: Move, Ghost(before): Ghost<Snap>)
        requires
            old(self).board_ok(),
            snap_ok(before),
            applicable(before, mv),
            mv.spec_is_drop(),
            old(self).snap() == spec_apply(before, mv),
        ensures
            final(self).board_ok(),
            final(self).snap() == before,
            final(self).states == old(self).states,
            final(self).history == old(self).history,
    {
        let them = self.side;
        let us = opposite(them);
        let pt = mv.moved_piece_type();
        let to = mv.to();
        proof {
            lemma_opposite(before.side);
            lemma_piece_roundtrip(us, pt);
        }
        self.remove_piece(make_piece(us, pt), to);
        let mut h = self.hands[us as usize];
        h.add(pt);
        self.hands[us as usize] = h;
        if pt == FU {
            let col = col_of(to) as u16;
            self.pawn_files[us as usize] = self.pawn_files[us as usize] & !(1u16 << col);
            proof {
                lemma_bit_restore(before.pawn_files[us as int], spec_col(to as int));
            }
        }
        self.side = us;
        self.ply = self.ply.wrapping_sub(1);
        proof {
            assert(self.snap().board =~= before.board);
            assert(self.snap() =~= before);
        }
    }

    /// Takes back a board move, putting `captured` back on the target square.
    fn unapply_board_move(&mut self, mv: Move, captured: Piece, Ghost(before): Ghost<Snap>)
        requires
            old(self).board_ok(),
            snap_ok(before),
            applicable(before, mv),
            !mv.spec_is_drop(),
            old(self).snap() == spec_apply(before, mv),
            captured == before.board[mv.spec_to() as int],
        ensures
            final(self).board_ok(),
            final(self).snap() == before,
            final(self).states == old(self).states,
            final(self).history == old(self).history,
    {
        let them = self.side;
        let us = opposite(them);
        let from = mv.from();
        let to = mv.to();
        let moved_pt = mv.moved_piece_type();
        let final_pt = if mv.is_promotion() {
            promoted(moved_pt)
        } else {
            moved_pt
        };
        proof {
            lemma_opposite(before.side);
            lemma_piece_roundtrip(us, final_pt);
            lemma_piece_roundtrip(us, moved_pt);
        }
        self.remove_piece(make_piece(us, final_pt), to);
        self.put_piece(make_piece(us, moved_pt), from);
        if moved_pt == OU {
            self.king_sq[us as usize] = from;
        }
        if moved_pt == FU && mv.is_promotion() {
            let col = col_of(from) as u16;
            self.pawn_files[us as usize] = self.pawn_files[us as usize] | (1u16 << col);
            proof {
                lemma_bit_restore(before.pawn_files[us as int], spec_col(from as int));
            }
        }
        if !is_none(captured) {
            proof {
                lemma_piece_split(captured);
            }
            self.put_piece(captured, to);
            let cap_pt = piece_type(captured);
            let unpro = unpromoted(cap_pt);
            let mut h = self.hands[us as usize];
            h.remove(unpro);
            self.hands[us as usize] = h;
            if cap_pt == FU {
                let col = col_of(to) as u16;
                self.pawn_files[them as usize] = self.pawn_files[them as usize] | (1u16 << col);
                proof {
                    lemma_bit_restore(before.pawn_files[them as int], spec_col(to as int));
                }
            }
        }
        self.side = us;
        self.ply = self.ply.wrapping_sub(1);
        proof {
            assert(self.snap().board =~= before.board);
            assert(self.snap().king_sq =~= before.king_sq);
            assert(self.snap().pawn_files =~= before.pawn_files);
            assert(self.snap().hands =~= before.hands);
            assert(self.snap() =~= before);
        }
    }

    /// Takes back the last move played by `do_move`.
    pub fn undo_move(&mut self)
        requires
            old(self).wf(),
            old(self).stack().len() >= 2,
            old(self).stack().last().last_move.0 != MOVE_NULL_BITS,
        ensures
            final(self).wf(),
            final(self).snap() == old(self).snaps()[old(self).snaps().len() - 2],
            final(self).stack() == old(self).stack().drop_last(),
            final(self).snaps() == old(self).snaps().drop_last(),
    {
        let n = self.states.len();
        let top = self.states[n - 1];
        let ghost before = self.history@[n - 2];
        proof {
            lemma_stack_last(self.states@, self.history@);
            assert(step_ok(self.history@[n - 2], self.states@[n - 1], self.history@[n - 1]));
        }
        let mv = top.last_move;
        if mv.is_drop() {
            self.unapply_drop(mv, Ghost(before));
        } else {
            self.unapply_board_move(mv, top.captured, Ghost(before));
        }
        proof {
            lemma_stack_pop(self.states@, self.history@);
        }
        self.states.pop();
        let ghost h = self.history@.drop_last();
        self.history = Ghost(h);
    }

    /// Null move: the side passes and nothing else changes. `plies_from_null` restarts
    /// so that repetition detection never looks across it.
    pub fn do_null_move(&mut self)
        requires
            old(self).wf(),
            old(self).stack().len() < MAX_STACK,
        ensures
            final(self).wf(),
            final(self).snap() == spec_null(old(self).snap()),
            final(self).stack() == old(self).stack().push(final(self).stack().last()),
            final(self).snaps() == old(self).snaps().push(final(self).snap()),
            null_state_ok(old(self).stack().last(), old(self).snap(), final(self).stack().last()),
    {
        let prev = self.state();
        proof {
            lemma_stack_last(self.states@, self.history@);
        }
        let board_key = prev.board_key ^ zobrist::SIDE_KEY;
        let us = self.side;
        proof {
            lemma_opposite(us);
        }
        self.side = opposite(us);
        self.ply = self.ply.wrapping_add(1);
        let mut continuous_check = prev.continuous_check;
        continuous_check[us as usize] = 0;
        let st = StateInfo {
            board_key,
            hand_key: prev.hand_key,
            captured: NO_PIECE,
            last_move: move_null(),
            checkers: Bitboard::empty(),
            continuous_check,
            plies_from_null: 0,
        };
        proof {
            assert(self.snap() =~= spec_null(old(self).snap()));
            lemma_stack_push(self.states@, self.history@, st, self.snap());
        }
        self.states.push(st);
        let ghost h = self.history@.push(self.snap());
        self.history = Ghost(h);
    }

    /// Takes back a null move.
    pub fn undo_null_move(&mut self)
        requires
            old(self).wf(),
            old(self).stack().len() >= 2,
            old(self).stack().last().last_move.0 == MOVE_NULL_BITS,
        ensures
            final(self).wf(),
            final(self).snap() == old(self).snaps()[old(self).snaps().len() - 2],
            final(self).stack() == old(self).stack().drop_last(),
            final(self).snaps() == old(self).snaps().drop_last(),
    {
        let n = self.states.len();
        proof {
            lemma_stack_last(self.states@, self.history@);
            assert(step_ok(self.history@[n - 2], self.states@[n - 1], self.history@[n - 1]));
            lemma_stack_pop(self.states@, self.history@);
        }
        self.states.pop();
        let ghost h = self.history@.drop_last();
        self.history = Ghost(h);
        self.side = opposite(self.side);
        self.ply = self.ply.wrapping_sub(1);
        proof {
            assert(self.snap() =~= h.last());
        }
    }

    // ---------------- repetition ----------------

    /// Looks back over the records since the last null move (at most to the root) for
    /// the fourth occurrence of the current position with the same side to move; a
    /// repetition by perpetual check loses for the side that kept checking.
    pub fn detect_repetition(&self) -> (r: Repetition)
        requires
            self.wf(),
        ensures
            r == rep_result(self.stack(), self.snap().side),
    {
        let n = self.states.len();
        let cur = self.state();
        proof {
            lemma_stack_last(self.states@, self.history@);
        }
        let depth: u16 = (n - 1) as u16;
        let end: u16 = if cur.plies_from_null < depth {
            cur.plies_from_null
        } else {
            depth
        };
        let mut count: u32 = 0;
        let mut i: u16 = 4;
        while i <= end
            invariant
                n == self.states@.len(),
                n <= MAX_STACK,
                cur == self.states@.last(),
                end == rep_end(self.states@),
                4 <= i,
                i % 2 == 0,
                count == rep_count(self.states@, i as int),
                count < 3,
                self.side <= 1,
                rep_scan(self.states@, self.side, i as int) == rep_scan(self.states@, self.side, 4),
            decreases end + 2 - i,
        {
            let idx = n - 1 - i as usize;
            let prev = self.states[idx];
            if prev.board_key == cur.board_key && prev.hand_key == cur.hand_key {
                count = count + 1;
                if count == 3 {
                    let us = self.side;
                    let them = opposite(us);
                    proof {
                        lemma_rep_scan_prefix(self.states@, self.side, i as int);
                    }
                    if cur.continuous_check[them as usize] >= i {
                        return Repetition::WinByPerpetual;
                    }
                    if cur.continuous_check[us as usize] >= i {
                        return Repetition::LoseByPerpetual;
                    }
                    return Repetition::Draw;
                }
            }
            proof {
                lemma_rep_scan_prefix(self.states@, self.side, i as int);
            }
            i = i + 2;
        }
        proof {
            lemma_rep_scan_prefix(self.states@, self.side, i as int);
        }
        Repetition::NoRepetition
    }

    // ---------------- consistency ----------------

    /// The pawn-file word recomputed from the board: bit `col` set exactly when a pawn
    /// of `c` stands in column `col`.
    fn pawn_word(&self, c: Color) -> (r: u16)
        requires
            self.wf(),
            c < 2,
        ensures
            forall|col: int|
                0 <= col < 16 ==> (#[trigger] file_bit(r, col) <==> exists|sq: int|
                    #[trigger] pawn_at(self.snap().board, c, sq) && spec_col(sq) == col),
    {
        let ghost b = self.snap().board;
        proof {
            self.lemma_wf_board();
            assert forall|col: int| 0 <= col < 16 implies (#[trigger] file_bit(0u16, col)
                == pawn_below(b, c, col, 0)) by {
                let kk = col as u16;
                assert(((0u16 >> kk) & 1u16) == 0u16) by (bit_vector);
            }
        }
        let fu = make_piece(c, FU);
        let mut pf: u16 = 0;
        let mut sq: u8 = 0;
        while sq < 81
            invariant
                sq <= 81,
                c < 2,
                b == self.snap().board,
                self.wf(),
                fu == spec_make_piece(c, FU),
                forall|col: int| 0 <= col < 16 ==> (#[trigger] file_bit(pf, col) == pawn_below(b, c, col, sq as int)),
            decreases 81 - sq,
        {
            let ghost old_pf = pf;
            let p = self.board[sq as usize];
            proof {
                self.lemma_wf_board();
                assert(p == b[sq as int]);
            }
            let col = col_of(sq);
            if p == fu {
                pf = pf | (1u16 << col as u16);
            }
            proof {
                assert forall|k: int| 0 <= k < 16 implies (#[trigger] file_bit(pf, k) == pawn_below(b, c, k, sq + 1)) by {
                    lemma_pawn_below_step(b, c, k, sq as int);
                    lemma_file_word(old_pf, col as u16, k as u16);
                    assert(file_bit(old_pf, k) == pawn_below(b, c, k, sq as int));
                    assert(pawn_at(b, c, sq as int) == (p == fu));
                }
            }
            sq = sq + 1;
        }
        proof {
            assert forall|col: int| 0 <= col < 16 implies (#[trigger] file_bit(pf, col) <==> exists|sq: int|
                #[trigger] pawn_at(b, c, sq) && spec_col(sq) == col) by {
                if exists|t: int| pawn_at(b, c, t) && spec_col(t) == col {
                    let t = choose|t: int| pawn_at(b, c, t) && spec_col(t) == col;
                    assert(0 <= t < 81 && pawn_at(b, c, t) && spec_col(t) == col);
                }
                if pawn_below(b, c, col, 81) {
                    let t = choose|t: int| 0 <= t < 81 && pawn_at(b, c, t) && spec_col(t) == col;
                    assert(pawn_at(b, c, t));
                }
            }
        }
        pf
    }

    /// Recomputes what the board determines and compares: each king square that is set
    /// holds that color's king, each pawn-file word marks exactly the columns holding a
    /// pawn of its color, and the two keys of the top record equal the keys computed
    /// from scratch. The bitboards always agree with the board (the invariant says so).
    pub fn check_consistency(&self) -> (r: Result<(), String>)
        requires
            self.wf(),
        ensures
            r is Ok <==> (derived_ok(self.snap()) && self.stack().last().board_key == spec_board_key(
                self.spec_board(),
                self.spec_side(),
            ) && self.stack().last().hand_key == spec_hand_key(self.snap().hands)),
    {
        proof {
            self.lemma_wf_board();
        }
        let ghost s = self.snap();
        let mut c: u8 = 0;
        while c < 2
            invariant
                c <= 2,
                self.wf(),
                s == self.snap(),
                snap_ok(s),
                forall|cc: int| 0 <= cc < c ==> #[trigger] color_fields_ok(s, cc),
            decreases 2 - c,
        {
            let ksq = self.king_square(c);
            if ksq != SQ_NONE && self.board[ksq as usize] != make_piece(c, OU) {
                proof {
                    assert(!color_fields_ok(s, c as int));
                }
                return Err(String::from_str("king_sq mismatch"));
            }
            let pf = self.pawn_word(c);
            let w = self.pawn_files[c as usize];
            if pf != w {
                proof {
                    lemma_word_bits(pf, w);
                    let k = choose|k: int| 0 <= k < 16 && file_bit(pf, k) != file_bit(w, k);
                    assert(!color_fields_ok(s, c as int));
                }
                return Err(String::from_str("pawn_files mismatch"));
            }
            c = c + 1;
        }
        let top = self.state();
        let bk = board_key_of(&self.board, self.side);
        if bk != top.board_key {
            return Err(String::from_str("board_key mismatch"));
        }
        let hk = hand_key_of(self.hands);
        if hk != top.hand_key {
            return Err(String::from_str("hand_key mismatch"));
        }
        Ok(())
    }

    // ---------------- accessors ----------------

    pub fn piece_at(&self, sq: Square) -> (r: Piece)
        requires
            sq < 81,
        ensures
            r == self.spec_board()[sq as int],
    {
        self.board[sq as usize]
    }

    pub fn pieces(&self, color: Color, pt: PieceType) -> (r: Bitboard)
        requires
            self.board_ok(),
            color < 2,
            pt < 15,
        ensures
            r.wf(),
            r@ == piece_set(self.spec_board(), color, pt),
    {
        let r = self.by_type[pt as usize].and(self.by_color[color as usize]);
        assert(r@ =~= piece_set(self.spec_board(), color, pt));
        r
    }

    pub fn pieces_of_type(&self, pt: PieceType) -> (r: Bitboard)
        requires
            self.board_ok(),
            pt < 15,
        ensures
            r.wf(),
            r@ == type_set(self.spec_board(), pt),
    {
        self.by_type[pt as usize]
    }

    pub fn pieces_of_color(&self, color: Color) -> (r: Bitboard)
        requires
            self.board_ok(),
            color < 2,
        ensures
            r.wf(),
            r@ == color_set(self.spec_board(), color),
    {
        self.by_color[color as usize]
    }

    pub fn occupied(&self) -> (r: Bitboard)
        requires
            self.board_ok(),
        ensures
            r.wf(),
            r@ == occ_set(self.spec_board()),
    {
        self.occupied
    }

    pub fn side_to_move(&self) -> (r: Color)
        requires
            self.wf(),
        ensures
            r == self.spec_side(),
            r <= 1,
    {
        self.side
    }

    pub fn ply(&self) -> (r: u32)
        ensures
            r == self.snap().ply,
    {
        self.ply
    }

    pub fn king_square(&self, color: Color) -> (r: Square)
        requires
            self.wf(),
            color < 2,
        ensures
            r == self.snap().king_sq[color as int],
            r < 81 || r == SQ_NONE,
    {
        self.king_sq[color as usize]
    }

    pub fn hand(&self, color: Color, pt: PieceType) -> (r: i32)
        requires
            color < 2,
        ensures
            r == Hand(self.snap().hands[color as int]).spec_count(pt),
            0 <= r <= 31,
    {
        self.hands[color as usize].count(pt)
    }

    pub fn hands(&self) -> (r: [Hand; 2])
        ensures
            r[0].0 == self.snap().hands[0],
            r[1].0 == self.snap().hands[1],
    {
        self.hands
    }

    pub fn board(&self) -> (r: &[Piece; 81])
        ensures
            r@ == self.spec_board(),
    {
        &self.board
    }

    fn state(&self) -> (r: StateInfo)
        requires
            self.wf(),
        ensures
            r == self.stack().last(),
    {
        self.states[self.states.len() - 1]
    }

    pub fn checkers(&self) -> (r: Bitboard)
        requires
            self.wf(),
        ensures
            r == self.stack().last().checkers,
            r.wf() || self.stack().last().last_move.0 == MOVE_NULL_BITS,
            self.stack().last().last_move.0 != MOVE_NULL_BITS ==> r@ == spec_checkers(self.snap()),
    {
        self.state().checkers
    }

    pub fn in_check(&self) -> (r: bool)
        requires
            self.wf(),
        ensures
            r == !(self.stack().last().checkers.p[0] == 0 && self.stack().last().checkers.p[1] == 0),
            self.stack().last().last_move.0 != MOVE_NULL_BITS ==> r == (spec_checkers(self.snap())
                != Set::<int>::empty()),
    {
        let c = self.checkers();
        !c.is_empty()
    }

    pub fn key(&self) -> (r: u64)
        requires
            self.wf(),
        ensures
            r == self.stack().last().board_key ^ self.stack().last().hand_key,
    {
        let s = self.state();
        s.board_key ^ s.hand_key
    }

    pub fn last_move(&self) -> (r: Move)
        requires
            self.wf(),
        ensures
            r == self.stack().last().last_move,
    {
        self.state().last_move
    }

    /// Number of moves (including null moves) that can be undone.
    pub fn game_ply_depth(&self) -> (r: usize)
        requires
            self.wf(),
        ensures
            r == self.stack().len() - 1,
    {
        self.states.len() - 1
    }

    /// True if `color`'s pawn already occupies `col` on the board (two-pawns check).
    pub fn has_pawn_on_col(&self, color: Color, col: u8) -> (r: bool)
        requires
            color < 2,
            col < 16,
        ensures
            r == file_bit(self.snap().pawn_files[color as int], col as int),
    {
        let w = self.pawn_files[color as usize];
        let c = col as u16;
        proof {
            lemma_file_word(w, c, c);
        }
        w & (1u16 << c) != 0
    }
}




/// Board key after `mv` is played by `us` from a record with board key `prev`, where
/// `target` stood on the destination square.
pub open spec fn spec_next_board_key(prev: u64, us: u8, mv: Move, target: u8) -> u64 {
    let to = mv.spec_to();
    let from = mv.spec_from();
    let pt = mv.spec_moved();
    if mv.spec_is_drop() {
        prev ^ zobrist::SIDE_KEY ^ zobrist::spec_psq_key(spec_make_piece(us, pt), to)
    } else {
        let final_pt = if mv.spec_is_promotion() {
            spec_promoted(pt)
        } else {
            pt
        };
        let k1 = if target != 0 {
            prev ^ zobrist::SIDE_KEY ^ zobrist::spec_psq_key(target, to)
        } else {
            prev ^ zobrist::SIDE_KEY
        };
        k1 ^ zobrist::spec_psq_key(spec_make_piece(us, pt), from) ^ zobrist::spec_psq_key(
            spec_make_piece(us, final_pt),
            to,
        )
    }
}

/// Hand key after `mv` is played by `us` from a record with hand key `prev`, where
/// `target` stood on the destination square.
pub open spec fn spec_next_hand_key(prev: u64, us: u8, mv: Move, target: u8) -> u64 {
    if mv.spec_is_drop() {
        vstd::wrapping::u64_specs::wrapping_sub(prev, zobrist::spec_hand_inc(us, mv.spec_moved()))
    } else if target != 0 {
        vstd::wrapping::u64_specs::wrapping_add(
            prev,
            zobrist::spec_hand_inc(us, spec_unpromoted(spec_piece_type(target))),
        )
    } else {
        prev
    }
}

fn next_board_key(prev: u64, us: Color, mv: Move, target: Piece) -> (r: u64)
    requires
        us <= 1,
        1 <= mv.spec_moved() <= 14,
        mv.spec_to() < 81,
        !mv.spec_is_drop() ==> mv.spec_from() < 81,
        valid_cell(target),
    ensures
        r == spec_next_board_key(prev, us, mv, target),
{
    let pt = mv.moved_piece_type();
    let to = mv.to();
    proof {
        lemma_piece_roundtrip(us, pt);
        lemma_piece_split(target);
    }
    let k = prev ^ zobrist::SIDE_KEY;
    if mv.is_drop() {
        k ^ zobrist::psq_key(make_piece(us, pt), to)
    } else {
        let from = mv.from();
        let k1 = if !is_none(target) {
            k ^ zobrist::psq_key(target, to)
        } else {
            k
        };
        let final_pt = if mv.is_promotion() {
            promoted(pt)
        } else {
            pt
        };
        proof {
            lemma_piece_roundtrip(us, final_pt);
        }
        k1 ^ zobrist::psq_key(make_piece(us, pt), from) ^ zobrist::psq_key(make_piece(us, final_pt), to)
    }
}

fn next_hand_key(prev: u64, us: Color, mv: Move, target: Piece) -> (r: u64)
    requires
        us <= 1,
        mv.spec_moved() <= 14,
        valid_cell(target),
    ensures
        r == spec_next_hand_key(prev, us, mv, target),
{
    if mv.is_drop() {
        prev.wrapping_sub(zobrist::hand_inc(us, mv.moved_piece_type()))
    } else if !is_none(target) {
        let cap = piece_type(target);
        prev.wrapping_add(zobrist::hand_inc(us, unpromoted(cap)))
    } else {
        prev
    }
}

/// The most records the stack may hold (leaves every counter room).
pub const MAX_STACK: usize = 32000;

/// The record pushed when `mv` is played from record `prev` on `s`: its keys are
/// updated incrementally and its counters advance.
pub open spec fn next_state_ok(prev: StateInfo, s: Snap, mv: Move, st: StateInfo) -> bool {
    let us = s.side;
    let after = spec_apply(s, mv);
    let target = s.board[mv.spec_to() as int];
    let gives_check = spec_checkers(after) != Set::<int>::empty();
    &&& st.last_move == mv
    &&& st.captured == (if mv.spec_is_drop() {
        0u8
    } else {
        target
    })
    &&& st.checkers.wf()
    &&& st.checkers@ == spec_checkers(after)
    &&& st.plies_from_null == prev.plies_from_null + 1
    &&& st.continuous_check[spec_opposite(us) as int] == prev.continuous_check[spec_opposite(
        us,
    ) as int]
    &&& st.continuous_check[us as int] == (if gives_check {
        prev.continuous_check[us as int] + 2
    } else {
        0
    })
    &&& st.board_key == spec_next_board_key(prev.board_key, us, mv, target)
    &&& st.hand_key == spec_next_hand_key(prev.hand_key, us, mv, target)
}

/// The record pushed by a null move from record `prev` on `s`.
pub open spec fn null_state_ok(prev: StateInfo, s: Snap, st: StateInfo) -> bool {
    &&& st.last_move.0 == MOVE_NULL_BITS
    &&& st.captured == 0
    &&& st.checkers == Bitboard::spec_words(0, 0)
    &&& st.board_key == prev.board_key ^ zobrist::SIDE_KEY
    &&& st.hand_key == prev.hand_key
    &&& st.plies_from_null == 0
    &&& st.continuous_check[s.side as int] == 0
    &&& st.continuous_check[spec_opposite(s.side) as int] == prev.continuous_check[spec_opposite(
        s.side,
    ) as int]
}

/// The structural facts of the record stack and the positions it links.
spec fn stack_ok(states: Seq<StateInfo>, hist: Seq<Snap>) -> bool {
    &&& 1 <= states.len() <= MAX_STACK
    &&& hist.len() == states.len()
    &&& forall|i: int| 0 <= i < hist.len() ==> snap_ok(#[trigger] hist[i])
    &&& forall|i: int|
        0 <= i < states.len() ==> (#[trigger] states[i]).plies_from_null <= i
            && states[i].continuous_check[0] <= 2 * i && states[i].continuous_check[1] <= 2 * i
    &&& forall|i: int|
        0 <= i < states.len() && (#[trigger] states[i]).last_move.0 != MOVE_NULL_BITS
            ==> states[i].checkers.wf() && states[i].checkers@ == spec_checkers(hist[i])
    &&& forall|i: int| 1 <= i < states.len() ==> #[trigger] step_ok(hist[i - 1], states[i], hist[i])
}

proof fn lemma_stack_last(states: Seq<StateInfo>, hist: Seq<Snap>)
    requires
        stack_ok(states, hist),
    ensures
        states.last().plies_from_null < MAX_STACK,
        states.last().continuous_check[0] <= 2 * (states.len() - 1),
        states.last().continuous_check[1] <= 2 * (states.len() - 1),
        states.last().plies_from_null <= states.len() - 1,
        snap_ok(hist.last()),
        states.len() >= 2 ==> snap_ok(hist[states.len() - 2]),
        states.len() >= 2 ==> step_ok(hist[states.len() - 2], states.last(), hist.last()),
{
    let n = states.len();
    assert(states.last() == states[n - 1]);
    assert(snap_ok(hist[n - 1]));
    if n >= 2 {
        let i = n - 1;
        assert(snap_ok(hist[i - 1]));
        assert(step_ok(hist[i - 1], states[i], hist[i]));
    }
}

proof fn lemma_stack_push(states: Seq<StateInfo>, hist: Seq<Snap>, st: StateInfo, s: Snap)
    requires
        stack_ok(states, hist),
        states.len() < MAX_STACK,
        snap_ok(s),
        step_ok(hist.last(), st, s),
        st.plies_from_null <= states.len(),
        st.continuous_check[0] <= 2 * states.len(),
        st.continuous_check[1] <= 2 * states.len(),
        st.last_move.0 != MOVE_NULL_BITS ==> st.checkers.wf() && st.checkers@ == spec_checkers(s),
    ensures
        stack_ok(states.push(st), hist.push(s)),
{
    let s2 = states.push(st);
    let h2 = hist.push(s);
    let n = states.len();
    assert forall|i: int| 0 <= i < h2.len() implies snap_ok(#[trigger] h2[i]) by {
        if i < n {
            assert(h2[i] == hist[i]);
        }
    }
    assert forall|i: int| 0 <= i < s2.len() implies (#[trigger] s2[i]).plies_from_null <= i
        && s2[i].continuous_check[0] <= 2 * i && s2[i].continuous_check[1] <= 2 * i by {
        if i < n {
            assert(s2[i] == states[i]);
        }
    }
    assert forall|i: int| 0 <= i < s2.len() && (#[trigger] s2[i]).last_move.0 != MOVE_NULL_BITS
        implies s2[i].checkers.wf() && s2[i].checkers@ == spec_checkers(h2[i]) by {
        if i < n {
            assert(s2[i] == states[i]);
            assert(h2[i] == hist[i]);
        }
    }
    assert forall|i: int| 1 <= i < s2.len() implies #[trigger] step_ok(h2[i - 1], s2[i], h2[i]) by {
        if i < n {
            assert(s2[i] == states[i]);
            assert(h2[i] == hist[i]);
            assert(h2[i - 1] == hist[i - 1]);
        } else {
            assert(h2[i - 1] == hist.last());
        }
    }
}

proof fn lemma_stack_pop(states: Seq<StateInfo>, hist: Seq<Snap>)
    requires
        stack_ok(states, hist),
        states.len() >= 2,
    ensures
        stack_ok(states.drop_last(), hist.drop_last()),
        hist.drop_last().last() == hist[hist.len() - 2],
{
    let s2 = states.drop_last();
    let h2 = hist.drop_last();
    assert forall|i: int| 0 <= i < h2.len() implies snap_ok(#[trigger] h2[i]) by {
        assert(h2[i] == hist[i]);
    }
    assert forall|i: int| 0 <= i < s2.len() implies (#[trigger] s2[i]).plies_from_null <= i
        && s2[i].continuous_check[0] <= 2 * i && s2[i].continuous_check[1] <= 2 * i by {
        assert(s2[i] == states[i]);
    }
    assert forall|i: int| 0 <= i < s2.len() && (#[trigger] s2[i]).last_move.0 != MOVE_NULL_BITS
        implies s2[i].checkers.wf() && s2[i].checkers@ == spec_checkers(h2[i]) by {
        assert(s2[i] == states[i]);
        assert(h2[i] == hist[i]);
    }
    assert forall|i: int| 1 <= i < s2.len() implies #[trigger] step_ok(h2[i - 1], s2[i], h2[i]) by {
        assert(s2[i] == states[i]);
        assert(h2[i] == hist[i]);
        assert(h2[i - 1] == hist[i - 1]);
    }
}

/// Playing an applicable move keeps the structural facts of a snapshot.
pub proof fn lemma_apply_snap_ok(s: Snap, mv: Move)
    requires
        snap_ok(s),
        applicable(s, mv),
    ensures
        snap_ok(spec_apply(s, mv)),
{
    let us = s.side;
    lemma_opposite(us);
    let pt = mv.spec_moved();
    let final_pt = if mv.spec_is_promotion() && !mv.spec_is_drop() {
        spec_promoted(pt)
    } else {
        pt
    };
    lemma_piece_roundtrip(us, final_pt);
    lemma_byte_facts(0, 0);
    let a = spec_apply(s, mv);
    assert forall|i: int| 0 <= i < 81 implies valid_cell(#[trigger] a.board[i]) by {
        assert(valid_cell(s.board[i]));
    }
    assert forall|c: int| 0 <= c < 2 implies (#[trigger] a.king_sq[c] < 81 || a.king_sq[c] == SQ_NONE) by {
        assert(s.king_sq[c] < 81 || s.king_sq[c] == SQ_NONE);
    }
}

/// Setting a pawn-file bit that was clear and clearing it again, or clearing one that
/// was set and setting it again, gives back the word.
proof fn lemma_bit_restore(w: u16, col: int)
    requires
        0 <= col < 16,
    ensures
        file_bit(w, col) ==> set_bit(clear_bit(w, col), col) == w,
        !file_bit(w, col) ==> clear_bit(set_bit(w, col), col) == w,
{
    let c = col as u16;
    lemma_file_word(w, c, c);
}

/// Bit facts of a pawn-file word: testing, setting, clearing and restoring bit `c`,
/// as seen at bit `k`.
pub proof fn lemma_file_word(w: u16, c: u16, k: u16)
    by (bit_vector)
    requires
        c < 16,
        k < 16,
    ensures
        ((w & (1u16 << c)) != 0u16) == (((w >> c) & 1u16) == 1u16),
        ((w >> c) & 1u16) == 1u16 ==> ((w & !(1u16 << c)) | (1u16 << c)) == w,
        ((w >> c) & 1u16) != 1u16 ==> ((w | (1u16 << c)) & !(1u16 << c)) == w,
        ((((w | (1u16 << c)) >> k) & 1u16) == 1u16) == ((((w >> k) & 1u16) == 1u16) || k == c),
        ((((w & !(1u16 << c)) >> k) & 1u16) == 1u16) == ((((w >> k) & 1u16) == 1u16) && k != c),
{
}

proof fn lemma_not_null(mv: Move)
    ensures
        mv.0 == MOVE_NULL_BITS ==> mv.spec_moved() == 0,
{
    let x = mv.0;
    crate::mov::lemma_field_bounds(x);
}

/// Two positions are equal when board, hands, side to move, king squares and pawn
/// files agree (the move counter and the record stack are not compared).
pub open spec fn same_position(a: Snap, b: Snap) -> bool {
    &&& a.board == b.board
    &&& a.hands == b.hands
    &&& a.side == b.side
    &&& a.king_sq == b.king_sq
    &&& a.pawn_files == b.pawn_files
}

impl PartialEq for Position {
    fn eq(&self, other: &Self) -> (r: bool) {
        let mut i: usize = 0;
        while i < 81
            invariant
                i <= 81,
                forall|j: int| 0 <= j < i ==> self.board@[j] == other.board@[j],
            decreases 81 - i,
        {
            if self.board[i] != other.board[i] {
                return false;
            }
            i = i + 1;
        }
        proof {
            assert(self.board@ =~= other.board@);
        }
        let r = self.hands[0].0 == other.hands[0].0 && self.hands[1].0 == other.hands[1].0
            && self.side == other.side && self.king_sq[0] == other.king_sq[0] && self.king_sq[1]
            == other.king_sq[1] && self.pawn_files[0] == other.pawn_files[0] && self.pawn_files[1]
            == other.pawn_files[1];
        proof {
            if r {
                assert(self.snap().hands =~= other.snap().hands);
                assert(self.king_sq@ =~= other.king_sq@);
                assert(self.pawn_files@ =~= other.pawn_files@);
            }
        }
        r
    }
}

impl vstd::std_specs::cmp::PartialEqSpecImpl for Position {
    open spec fn obeys_eq_spec() -> bool {
        true
    }

    open spec fn eq_spec(&self, other: &Self) -> bool {
        same_position(self.snap(), other.snap())
    }
}

/// Undoing a move right after playing it gives back the position, the record stack
/// and the line of positions that were there before.
pub proof fn lemma_do_undo(p0: Position, p1: Position, p2: Position)
    requires
        p0.wf(),
        p1.snaps() == p0.snaps().push(p1.snap()),
        p1.stack().drop_last() == p0.stack(),
        p1.stack().len() == p0.stack().len() + 1,
        p2.snap() == p1.snaps()[p1.snaps().len() - 2],
        p2.stack() == p1.stack().drop_last(),
        p2.snaps() == p1.snaps().drop_last(),
    ensures
        p2.snap() == p0.snap(),
        p2.stack() == p0.stack(),
        p2.snaps() == p0.snaps(),
        p2.stack().last().board_key ^ p2.stack().last().hand_key == p0.stack().last().board_key
            ^ p0.stack().last().hand_key,
{
    assert(p1.snaps().drop_last() =~= p0.snaps());
    assert(p0.snaps().last() == p0.snap());
}

/// The record `d` plies below the top carries the same keys as the top.
pub open spec fn rep_match(st: Seq<StateInfo>, d: int) -> bool {
    st[st.len() - 1 - d].board_key == st.last().board_key && st[st.len() - 1 - d].hand_key
        == st.last().hand_key
}

/// How far back the repetition scan looks: to the last null move, at most to the root.
pub open spec fn rep_end(st: Seq<StateInfo>) -> int {
    let depth = st.len() - 1;
    if st.last().plies_from_null < depth {
        st.last().plies_from_null as int
    } else {
        depth
    }
}

/// Number of even distances `d` with `4 <= d < i` at which the record matches the top.
pub open spec fn rep_count(st: Seq<StateInfo>, i: int) -> int
    decreases i,
{
    if i <= 4 {
        0
    } else {
        rep_count(st, i - 2) + if rep_match(st, i - 2) {
            1int
        } else {
            0int
        }
    }
}

/// The verdict at distance `d`: the side that has given check without pause for the
/// whole cycle loses, otherwise the game is drawn.
pub open spec fn rep_verdict(top: StateInfo, side: u8, d: int) -> Repetition {
    if top.continuous_check[spec_opposite(side) as int] >= d {
        Repetition::WinByPerpetual
    } else if top.continuous_check[side as int] >= d {
        Repetition::LoseByPerpetual
    } else {
        Repetition::Draw
    }
}

/// The verdict at the first even distance from `i` on (within the scan) where the
/// third earlier occurrence is found, or no repetition.
pub open spec fn rep_scan(st: Seq<StateInfo>, side: u8, i: int) -> Repetition
    decreases rep_end(st) + 2 - i,
{
    if i > rep_end(st) || i < 4 {
        Repetition::NoRepetition
    } else if rep_match(st, i) && rep_count(st, i) == 2 {
        rep_verdict(st.last(), side, i)
    } else {
        rep_scan(st, side, i + 2)
    }
}

/// The repetition verdict for a stack whose top has `side` to move.
pub open spec fn rep_result(st: Seq<StateInfo>, side: u8) -> Repetition {
    rep_scan(st, side, 4)
}

/// Before the third match the scan result does not change from one even distance to
/// the next.
proof fn lemma_rep_scan_prefix(st: Seq<StateInfo>, side: u8, i: int)
    requires
        4 <= i,
    ensures
        i <= rep_end(st) && !(rep_match(st, i) && rep_count(st, i) == 2) ==> rep_scan(st, side, i)
            == rep_scan(st, side, i + 2),
        i <= rep_end(st) && rep_match(st, i) && rep_count(st, i) == 2 ==> rep_scan(st, side, i)
            == rep_verdict(st.last(), side, i),
        i > rep_end(st) ==> rep_scan(st, side, i) == Repetition::NoRepetition,
{
}

/// Zobrist key of a board and the side to move, computed from scratch.
fn board_key_of(board: &[Piece; 81], side: Color) -> (r: u64)
    requires
        forall|i: int| 0 <= i < 81 ==> valid_cell(#[trigger] board@[i]),
    ensures
        r == spec_board_key(board@, side),
{
        let mut board_key: u64 = if side == WHITE {
            zobrist::SIDE_KEY
        } else {
            0
        };
        let ghost s0: u64 = board_key;
        let mut sq: u8 = 0;
        proof {
            lemma_xor_assoc(board_key, 0, 0);
        }
        while sq < 81
            invariant
                sq <= 81,
                forall|i: int| 0 <= i < 81 ==> valid_cell(#[trigger] board@[i]),
                board_key == s0 ^ board_key_upto(board@, sq as int),
            decreases 81 - sq,
        {
            let p = board[sq as usize];
            if !is_none(p) {
                proof {
                    lemma_piece_split(p);
                }
                let k = zobrist::psq_key(p, sq);
                proof {
                    lemma_xor_assoc(s0, board_key_upto(board@, sq as int), k);
                }
                board_key = board_key ^ k;
            }
            sq = sq + 1;
        }
    board_key
}

/// Zobrist key of both hands, computed from scratch.
fn hand_key_of(hands: [Hand; 2]) -> (r: u64)
    ensures
        r == spec_hand_key(seq![hands[0].0, hands[1].0]),
{
        let mut hand_key: u64 = 0;
        let types = Hand::types();
        let mut c: u8 = 0;
        proof {
            assert(hand_key_upto(seq![hands[0].0, hands[1].0], 0, 0, 0) == 0);
        }
        while c < 2
            invariant
                c <= 2,
                types@ == hand_types(),
                c < 2 ==> hand_key == hand_key_upto(seq![hands[0].0, hands[1].0], c as int, 0, 0),
                c == 2 ==> hand_key == hand_key_upto(seq![hands[0].0, hands[1].0], 1, 7, 0),
            decreases 2 - c,
        {
            let mut j: usize = 0;
            while j < 7
                invariant
                    c < 2,
                    j <= 7,
                    types@ == hand_types(),
                    hand_key == hand_key_upto(seq![hands[0].0, hands[1].0], c as int, j as int, 0),
                decreases 7 - j,
            {
                let pt = types[j];
                let n = hands[c as usize].count(pt);
                let inc = zobrist::hand_inc(c, pt);
                let ghost base = hand_key;
                let mut k: i32 = 0;
                while k < n
                    invariant
                        0 <= k <= n,
                        hand_key == add_times(base, inc, k as nat),
                    decreases n - k,
                {
                    hand_key = hand_key.wrapping_add(inc);
                    k = k + 1;
                }
                j = j + 1;
            }
            c = c + 1;
            proof {
                if c < 2 {
                    assert(hand_key_upto(seq![hands[0].0, hands[1].0], c as int, 0, 0) == hand_key_upto(seq![hands[0].0, hands[1].0], 0, 7, 0));
                }
            }
        }
    hand_key
}

/// Exclusive or on words is associative and commutative, has zero as its identity
/// and cancels a word with itself.
pub proof fn lemma_xor_assoc(a: u64, b: u64, c: u64)
    by (bit_vector)
    ensures
        (a ^ b) ^ c == a ^ (b ^ c),
        a ^ 0u64 == a,
        a ^ b == b ^ a,
        a ^ a == 0u64,
        (a ^ b) ^ (b ^ c) == a ^ c,
        (a ^ b) ^ c == (a ^ c) ^ b,
{
}

/// Square of the last king of color `c` below square `n`, or none.
pub open spec fn setup_king(board: Seq<u8>, c: u8, n: int) -> u8
    decreases n,
{
    if n <= 0 {
        SQ_NONE
    } else if board[n - 1] != 0 && spec_piece_type(board[n - 1]) == OU && spec_piece_color(board[n - 1]) == c {
        (n - 1) as u8
    } else {
        setup_king(board, c, n - 1)
    }
}

/// Pawn-file word of color `c` for the squares below `n`.
pub open spec fn setup_pawns(board: Seq<u8>, c: u8, n: int) -> u16
    decreases n,
{
    if n <= 0 {
        0
    } else if board[n - 1] != 0 && spec_piece_type(board[n - 1]) == FU && spec_piece_color(board[n - 1]) == c {
        set_bit(setup_pawns(board, c, n - 1), spec_col(n - 1))
    } else {
        setup_pawns(board, c, n - 1)
    }
}

proof fn lemma_setup_king_range(board: Seq<u8>, c: u8, n: int)
    requires
        n <= 81,
    ensures
        setup_king(board, c, n) < 81 || setup_king(board, c, n) == SQ_NONE,
    decreases n,
{
    if n > 0 {
        lemma_setup_king_range(board, c, n - 1);
    }
}

/// The position built from a board, hands, side and ply: kings and pawn files are
/// read off the board.
pub open spec fn parts_snap(board: Seq<u8>, hands: Seq<u32>, side: u8, ply: u32) -> Snap {
    Snap {
        board,
        hands,
        side,
        ply,
        king_sq: seq![setup_king(board, 0, 81), setup_king(board, 1, 81)],
        pawn_files: seq![setup_pawns(board, 0, 81), setup_pawns(board, 1, 81)],
    }
}

/// The back-rank kinds from column 0 to 8: L N S G K G S N L.
pub open spec fn spec_back_rank(col: int) -> u8 {
    if col == 0 || col == 8 {
        KYO
    } else if col == 1 || col == 7 {
        KEI
    } else if col == 2 || col == 6 {
        GIN
    } else if col == 3 || col == 5 {
        KIN
    } else {
        OU
    }
}

fn back_rank(col: u8) -> (r: PieceType)
    requires
        col < 9,
    ensures
        r == spec_back_rank(col as int),
{
    match col {
        0 | 8 => KYO,
        1 | 7 => KEI,
        2 | 6 => GIN,
        3 | 5 => KIN,
        _ => OU,
    }
}

/// The standard opening board.
pub open spec fn startpos_board() -> Seq<u8> {
    Seq::new(
        81,
        |i: int|
            {
                let row = i % 9;
                let col = i / 9;
                if row == 0 {
                    spec_make_piece(WHITE, spec_back_rank(col))
                } else if row == 2 {
                    spec_make_piece(WHITE, FU)
                } else if row == 6 {
                    spec_make_piece(BLACK, FU)
                } else if row == 8 {
                    spec_make_piece(BLACK, spec_back_rank(8 - col))
                } else if row == 1 && col == 1 {
                    spec_make_piece(WHITE, HI)
                } else if row == 1 && col == 7 {
                    spec_make_piece(WHITE, KAKU)
                } else if row == 7 && col == 1 {
                    spec_make_piece(BLACK, KAKU)
                } else if row == 7 && col == 7 {
                    spec_make_piece(BLACK, HI)
                } else {
                    0u8
                }
            },
    )
}

proof fn lemma_startpos_cell_valid(i: int)
    requires
        0 <= i < 81,
    ensures
        valid_cell(startpos_board()[i]),
{
    let p = startpos_board()[i];
    let col = i / 9;
    lemma_piece_roundtrip(WHITE, spec_back_rank(col));
    lemma_piece_roundtrip(BLACK, spec_back_rank(8 - col));
    lemma_piece_roundtrip(WHITE, FU);
    lemma_piece_roundtrip(BLACK, FU);
    lemma_piece_roundtrip(WHITE, HI);
    lemma_piece_roundtrip(WHITE, KAKU);
    lemma_piece_roundtrip(BLACK, HI);
    lemma_piece_roundtrip(BLACK, KAKU);
    lemma_byte_facts(0, 0);
}

/// Putting a piece on an empty square adds that square to its color's, its kind's and
/// the occupied sets, and changes no other set.
proof fn lemma_put_sets(board: Seq<u8>, sq: int, piece: u8)
    requires
        board.len() == 81,
        0 <= sq < 81,
        board[sq] == 0,
        piece != 0,
    ensures
        occ_set(board.update(sq, piece)) == occ_set(board).insert(sq),
        forall|c: u8| #[trigger] color_set(board.update(sq, piece), c) == if c == spec_piece_color(piece) {
            color_set(board, c).insert(sq)
        } else {
            color_set(board, c)
        },
        forall|pt: u8| #[trigger] type_set(board.update(sq, piece), pt) == if pt == spec_piece_type(piece) {
            type_set(board, pt).insert(sq)
        } else {
            type_set(board, pt)
        },
{
    let b2 = board.update(sq, piece);
    assert(occ_set(b2) =~= occ_set(board).insert(sq));
    assert forall|c: u8| #[trigger] color_set(b2, c) == if c == spec_piece_color(piece) {
        color_set(board, c).insert(sq)
    } else {
        color_set(board, c)
    } by {
        if c == spec_piece_color(piece) {
            assert(color_set(b2, c) =~= color_set(board, c).insert(sq));
        } else {
            assert(color_set(b2, c) =~= color_set(board, c));
        }
    }
    assert forall|pt: u8| #[trigger] type_set(b2, pt) == if pt == spec_piece_type(piece) {
        type_set(board, pt).insert(sq)
    } else {
        type_set(board, pt)
    } by {
        if pt == spec_piece_type(piece) {
            assert(type_set(b2, pt) =~= type_set(board, pt).insert(sq));
        } else {
            assert(type_set(b2, pt) =~= type_set(board, pt));
        }
    }
}

/// Taking the piece off a square removes that square from its color's, its kind's and
/// the occupied sets, and changes no other set.
proof fn lemma_remove_sets(board: Seq<u8>, sq: int)
    requires
        board.len() == 81,
        0 <= sq < 81,
        board[sq] != 0,
    ensures
        occ_set(board.update(sq, 0u8)) == occ_set(board).remove(sq),
        forall|c: u8| #[trigger] color_set(board.update(sq, 0u8), c) == if c == spec_piece_color(board[sq]) {
            color_set(board, c).remove(sq)
        } else {
            color_set(board, c)
        },
        forall|pt: u8| #[trigger] type_set(board.update(sq, 0u8), pt) == if pt == spec_piece_type(board[sq]) {
            type_set(board, pt).remove(sq)
        } else {
            type_set(board, pt)
        },
{
    let b2 = board.update(sq, 0u8);
    assert(occ_set(b2) =~= occ_set(board).remove(sq));
    assert forall|c: u8| #[trigger] color_set(b2, c) == if c == spec_piece_color(board[sq]) {
        color_set(board, c).remove(sq)
    } else {
        color_set(board, c)
    } by {
        if c == spec_piece_color(board[sq]) {
            assert(color_set(b2, c) =~= color_set(board, c).remove(sq));
        } else {
            assert(color_set(b2, c) =~= color_set(board, c));
        }
    }
    assert forall|pt: u8| #[trigger] type_set(b2, pt) == if pt == spec_piece_type(board[sq]) {
        type_set(board, pt).remove(sq)
    } else {
        type_set(board, pt)
    } by {
        if pt == spec_piece_type(board[sq]) {
            assert(type_set(b2, pt) =~= type_set(board, pt).remove(sq));
        } else {
            assert(type_set(b2, pt) =~= type_set(board, pt));
        }
    }
}

/// Square `sq` holds a piece of color `c` and kind `pt`.
pub open spec fn holds(board: Seq<u8>, sq: int, c: u8, pt: u8) -> bool {
    0 <= sq < 81 && board[sq] != 0 && spec_piece_color(board[sq]) == c && spec_piece_type(board[sq])
        == pt
}

/// The attackers of `to`, read off the attack patterns of each kind as seen from `to`.
pub open spec fn attack_union(board: Seq<u8>, to: int, occ: Set<int>, by: u8, sq: int) -> bool {
    let opp = spec_opposite(by);
    ||| (step_target(opp, FU, to, sq) && holds(board, sq, by, FU))
    ||| (step_target(opp, KEI, to, sq) && holds(board, sq, by, KEI))
    ||| (step_target(opp, GIN, to, sq) && holds(board, sq, by, GIN))
    ||| (step_target(opp, KIN, to, sq) && (holds(board, sq, by, KIN) || holds(board, sq, by, TO)
        || holds(board, sq, by, NKYO) || holds(board, sq, by, NKEI) || holds(board, sq, by, NGIN)))
    ||| (step_target(BLACK, OU, to, sq) && holds(board, sq, by, OU))
    ||| (ray_attack(to, spec_opposite_dir(spec_forward_dir(by) as u8) as int, occ, sq) && holds(
        board,
        sq,
        by,
        KYO,
    ))
    ||| (bishop_attack(to, occ, sq) && (holds(board, sq, by, KAKU) || holds(board, sq, by, UMA)))
    ||| (orth_step(to, sq) && holds(board, sq, by, UMA))
    ||| (rook_attack(to, occ, sq) && (holds(board, sq, by, HI) || holds(board, sq, by, RYU)))
    ||| (diag_step(to, sq) && holds(board, sq, by, RYU))
}

/// Reading the attack patterns off from the target square finds exactly the pieces
/// whose own attack set holds the target.
proof fn lemma_attackers_union(board: Seq<u8>, to: int, occ: Set<int>, by: u8, att: Set<int>)
    requires
        0 <= to < 81,
        by <= 1,
        forall|sq: int| #[trigger] att.contains(sq) == attack_union(board, to, occ, by, sq),
    ensures
        att == spec_attackers(board, to, occ, by),
{
    let spec = spec_attackers(board, to, occ, by);
    lemma_byte_facts(0, 0);
    lemma_byte_facts(1, 0);
    lemma_byte_facts(2, 0);
    lemma_byte_facts(3, 0);
    lemma_byte_facts(4, 0);
    lemma_byte_facts(5, 0);
    lemma_byte_facts(6, 0);
    lemma_byte_facts(7, 0);
    assert forall|sq: int| att.contains(sq) == #[trigger] spec.contains(sq) by {
        if 0 <= sq < 81 && board[sq] != 0 && spec_piece_color(board[sq]) == by {
            let pt = spec_piece_type(board[sq]);
            lemma_step_symmetric(by, pt, sq, to);
            lemma_step_symmetric(by, KIN, sq, to);
            lemma_steps_symmetric(sq, to);
            lemma_ray_attack_symmetric(sq, spec_forward_dir(by), occ, to);
            lemma_ray_attack_symmetric(sq, 0, occ, to);
            lemma_ray_attack_symmetric(sq, 1, occ, to);
            lemma_ray_attack_symmetric(sq, 2, occ, to);
            lemma_ray_attack_symmetric(sq, 3, occ, to);
            lemma_ray_attack_symmetric(sq, 4, occ, to);
            lemma_ray_attack_symmetric(sq, 5, occ, to);
            lemma_ray_attack_symmetric(sq, 6, occ, to);
            lemma_ray_attack_symmetric(sq, 7, occ, to);
        }
    }
    assert(att =~= spec);
}

/// The position with nothing on the board and black to move.
pub open spec fn empty_snap() -> Snap {
    Snap {
        board: Seq::new(81, |i: int| 0u8),
        hands: seq![0u32, 0u32],
        side: BLACK,
        ply: 0,
        king_sq: seq![SQ_NONE, SQ_NONE],
        pawn_files: seq![0u16, 0u16],
    }
}

/// How one record of the stack links the position before it to the position after it.
pub open spec fn step_ok(before: Snap, st: StateInfo, after: Snap) -> bool {
    if st.last_move.0 == MOVE_NULL_BITS {
        &&& after == spec_null(before)
        &&& st.captured == 0
        &&& st.checkers == Bitboard::spec_words(0, 0)
    } else {
        &&& applicable(before, st.last_move)
        &&& after == spec_apply(before, st.last_move)
        &&& st.captured == (if st.last_move.spec_is_drop() {
            0u8
        } else {
            before.board[st.last_move.spec_to() as int]
        })
    }
}

/// The side passes.
pub open spec fn spec_null(s: Snap) -> Snap {
    Snap { side: spec_opposite(s.side), ply: vstd::wrapping::u32_specs::wrapping_add(s.ply, 1), ..s }
}

/// `mv` can be played on `s` and taken back exactly.
pub open spec fn applicable(s: Snap, mv: Move) -> bool {
    let us = s.side;
    let them = spec_opposite(us);
    let pt = mv.spec_moved();
    let to = mv.spec_to() as int;
    let from = mv.spec_from() as int;
    &&& 1 <= pt <= 14
    &&& to < 81
    &&& if mv.spec_is_drop() {
        &&& s.board[to] == 0
        &&& (pt == FU ==> !file_bit(s.pawn_files[us as int], spec_col(to)))
    } else {
        let target = s.board[to];
        &&& from < 81
        &&& from != to
        &&& s.board[from] == spec_make_piece(us, pt)
        &&& (target == 0 || spec_piece_color(target) == them)
        &&& (target != 0 && spec_piece_type(target) == FU ==> file_bit(
            s.pawn_files[them as int],
            spec_col(to),
        ))
        &&& (pt == FU && mv.spec_is_promotion() ==> file_bit(s.pawn_files[us as int], spec_col(from)))
        &&& (pt == OU ==> s.king_sq[us as int] == from)
    }
}

/// Clears bit `col` of a pawn-file word.
pub open spec fn clear_bit(w: u16, col: int) -> u16 {
    w & !(1u16 << (col as u16))
}

/// Sets bit `col` of a pawn-file word.
pub open spec fn set_bit(w: u16, col: int) -> u16 {
    w | (1u16 << (col as u16))
}

/// A pawn of `c` stands in column `col` on one of the squares below `n`.
pub open spec fn pawn_below(b: Seq<u8>, c: u8, col: int, n: int) -> bool {
    exists|t: int| 0 <= t < n && #[trigger] pawn_at(b, c, t) && spec_col(t) == col
}

proof fn lemma_pawn_below_step(b: Seq<u8>, c: u8, col: int, n: int)
    requires
        0 <= n < 81,
        b.len() == 81,
    ensures
        pawn_below(b, c, col, n + 1) == (pawn_below(b, c, col, n) || (pawn_at(b, c, n) && spec_col(n) == col)),
{
    if pawn_below(b, c, col, n + 1) {
        let t = choose|t: int| 0 <= t < n + 1 && pawn_at(b, c, t) && spec_col(t) == col;
        if t < n {
            assert(pawn_below(b, c, col, n));
        }
    }
    if pawn_below(b, c, col, n) {
        let t = choose|t: int| 0 <= t < n && pawn_at(b, c, t) && spec_col(t) == col;
        assert(0 <= t < n + 1 && pawn_at(b, c, t));
    }
    if pawn_at(b, c, n) && spec_col(n) == col {
        assert(0 <= n < n + 1 && pawn_at(b, c, n));
    }
}

/// What `check_consistency` checks of color `c` besides the keys: its king square, when
/// set, holds its king, and its pawn-file word marks exactly the columns holding one of
/// its pawns.
pub open spec fn color_fields_ok(s: Snap, c: int) -> bool {
    &&& (s.king_sq[c] != SQ_NONE ==> s.board[s.king_sq[c] as int] == spec_make_piece(c as u8, OU))
    &&& forall|col: int|
        0 <= col < 16 ==> (#[trigger] file_bit(s.pawn_files[c], col) <==> exists|sq: int|
            #[trigger] pawn_at(s.board, c as u8, sq) && spec_col(sq) == col)
}

/// Both colors' king squares and pawn-file words agree with the board.
pub open spec fn derived_ok(s: Snap) -> bool {
    color_fields_ok(s, 0) && color_fields_ok(s, 1)
}

/// Two words that agree in every one of their 16 bits are equal.
proof fn lemma_word_bits(a: u16, b: u16)
    ensures
        a != b ==> exists|k: int| 0 <= k < 16 && file_bit(a, k) != file_bit(b, k),
{
    if forall|k: int| 0 <= k < 16 ==> file_bit(a, k) == file_bit(b, k) {
        assert(file_bit(a, 0) == file_bit(b, 0));
        assert(file_bit(a, 1) == file_bit(b, 1));
        assert(file_bit(a, 2) == file_bit(b, 2));
        assert(file_bit(a, 3) == file_bit(b, 3));
        assert(file_bit(a, 4) == file_bit(b, 4));
        assert(file_bit(a, 5) == file_bit(b, 5));
        assert(file_bit(a, 6) == file_bit(b, 6));
        assert(file_bit(a, 7) == file_bit(b, 7));
        assert(file_bit(a, 8) == file_bit(b, 8));
        assert(file_bit(a, 9) == file_bit(b, 9));
        assert(file_bit(a, 10) == file_bit(b, 10));
        assert(file_bit(a, 11) == file_bit(b, 11));
        assert(file_bit(a, 12) == file_bit(b, 12));
        assert(file_bit(a, 13) == file_bit(b, 13));
        assert(file_bit(a, 14) == file_bit(b, 14));
        assert(file_bit(a, 15) == file_bit(b, 15));
        assert(a == b) by (bit_vector)
            requires
            (((a >> 0u16) & 1u16) == 1u16) == (((b >> 0u16) & 1u16) == 1u16),
            (((a >> 1u16) & 1u16) == 1u16) == (((b >> 1u16) & 1u16) == 1u16),
            (((a >> 2u16) & 1u16) == 1u16) == (((b >> 2u16) & 1u16) == 1u16),
            (((a >> 3u16) & 1u16) == 1u16) == (((b >> 3u16) & 1u16) == 1u16),
            (((a >> 4u16) & 1u16) == 1u16) == (((b >> 4u16) & 1u16) == 1u16),
            (((a >> 5u16) & 1u16) == 1u16) == (((b >> 5u16) & 1u16) == 1u16),
            (((a >> 6u16) & 1u16) == 1u16) == (((b >> 6u16) & 1u16) == 1u16),
            (((a >> 7u16) & 1u16) == 1u16) == (((b >> 7u16) & 1u16) == 1u16),
            (((a >> 8u16) & 1u16) == 1u16) == (((b >> 8u16) & 1u16) == 1u16),
            (((a >> 9u16) & 1u16) == 1u16) == (((b >> 9u16) & 1u16) == 1u16),
            (((a >> 10u16) & 1u16) == 1u16) == (((b >> 10u16) & 1u16) == 1u16),
            (((a >> 11u16) & 1u16) == 1u16) == (((b >> 11u16) & 1u16) == 1u16),
            (((a >> 12u16) & 1u16) == 1u16) == (((b >> 12u16) & 1u16) == 1u16),
            (((a >> 13u16) & 1u16) == 1u16) == (((b >> 13u16) & 1u16) == 1u16),
            (((a >> 14u16) & 1u16) == 1u16) == (((b >> 14u16) & 1u16) == 1u16),
            (((a >> 15u16) & 1u16) == 1u16) == (((b >> 15u16) & 1u16) == 1u16),
        ;
    }
}

/// The position after `mv` is played on `s`.
pub open spec fn spec_apply(s: Snap, mv: Move) -> Snap {
    let us = s.side;
    let them = spec_opposite(us);
    let pt = mv.spec_moved();
    let to = mv.spec_to() as int;
    let from = mv.spec_from() as int;
    if mv.spec_is_drop() {
        Snap {
            board: s.board.update(to, spec_make_piece(us, pt)),
            hands: s.hands.update(us as int, vstd::wrapping::u32_specs::wrapping_sub(s.hands[us as int], spec_unit(pt))),
            side: them,
            ply: vstd::wrapping::u32_specs::wrapping_add(s.ply, 1),
            king_sq: s.king_sq,
            pawn_files: if pt == FU {
                s.pawn_files.update(us as int, set_bit(s.pawn_files[us as int], spec_col(to)))
            } else {
                s.pawn_files
            },
        }
    } else {
        let target = s.board[to];
        let cap_pt = spec_piece_type(target);
        let final_pt = if mv.spec_is_promotion() {
            spec_promoted(pt)
        } else {
            pt
        };
        let hands1 = if target != 0 {
            s.hands.update(
                us as int,
                vstd::wrapping::u32_specs::wrapping_add(s.hands[us as int], spec_unit(spec_unpromoted(cap_pt))),
            )
        } else {
            s.hands
        };
        let pf1 = if target != 0 && cap_pt == FU {
            s.pawn_files.update(them as int, clear_bit(s.pawn_files[them as int], spec_col(to)))
        } else {
            s.pawn_files
        };
        let pf2 = if pt == FU && mv.spec_is_promotion() {
            pf1.update(us as int, clear_bit(pf1[us as int], spec_col(from)))
        } else {
            pf1
        };
        Snap {
            board: s.board.update(from, 0u8).update(to, spec_make_piece(us, final_pt)),
            hands: hands1,
            side: them,
            ply: vstd::wrapping::u32_specs::wrapping_add(s.ply, 1),
            king_sq: if pt == OU {
                s.king_sq.update(us as int, to as u8)
            } else {
                s.king_sq
            },
            pawn_files: pf2,
        }
    }
}

} // verus!
