//! SFEN (position) and USI (move) text formats, read and written as ASCII bytes.
use crate::hand::{spec_unit, Hand};
use crate::mov::{lemma_board_roundtrip, lemma_drop_roundtrip, spec_board_bits, spec_drop_bits, Move};
use crate::position::{parts_snap, spec_hand_key, valid_cell, Position};
use crate::types::{
    lemma_byte_facts,
    col_of, is_none, is_promotable, is_promoted, lemma_piece_roundtrip, lemma_piece_split,
    make_piece, make_square, piece_color, piece_type, promoted, row_of, spec_col, spec_is_promotable,
    spec_make_piece, spec_make_square, spec_piece_color, spec_piece_type, spec_promoted, spec_row,
    spec_unpromoted,
    unpromoted, Color, Piece, PieceType, Square, BLACK, FU, GIN, HI, KAKU, KEI, KIN, KYO, NGIN,
    NKEI, NKYO, NO_PIECE, OU, RYU, TO, UMA, WHITE,
};
use vstd::prelude::*;
use vstd::string::StringSliceAdditionalSpecFns;

verus! {

/// ASCII white space (space, tab, line feed, form feed, carriage return).
pub open spec fn is_ws(c: u8) -> bool {
    c == 32 || c == 9 || c == 10 || c == 12 || c == 13
}

pub open spec fn is_digit(c: u8) -> bool {
    48 <= c <= 57
}

/// The white-space separated words of `b`, in order.
pub open spec fn words(b: Seq<u8>) -> Seq<Seq<u8>>
    decreases b.len(),
{
    if b.len() == 0 {
        Seq::empty()
    } else {
        let t = words(b.drop_last());
        let x = b.last();
        if is_ws(x) {
            t
        } else if b.len() >= 2 && !is_ws(b[b.len() - 2]) {
            t.update(t.len() - 1, t.last().push(x))
        } else {
            t.push(seq![x])
        }
    }
}

/// `b` cut at every `sep` byte (an empty piece where two separators meet or at an end).
pub open spec fn split_on(b: Seq<u8>, sep: u8) -> Seq<Seq<u8>>
    decreases b.len(),
{
    if b.len() == 0 {
        seq![Seq::empty()]
    } else {
        let t = split_on(b.drop_last(), sep);
        if b.last() == sep {
            t.push(Seq::empty())
        } else {
            t.update(t.len() - 1, t.last().push(b.last()))
        }
    }
}

fn is_ws_byte(c: u8) -> (r: bool)
    ensures
        r == is_ws(c),
{
    c == 32 || c == 9 || c == 10 || c == 12 || c == 13
}

proof fn lemma_words_nonempty(b: Seq<u8>)
    ensures
        b.len() >= 1 && !is_ws(b.last()) ==> words(b).len() >= 1,
        forall|k: int| 0 <= k < words(b).len() ==> #[trigger] words(b)[k].len() >= 1,
    decreases b.len(),
{
    if b.len() > 0 {
        let t = words(b.drop_last());
        lemma_words_nonempty(b.drop_last());
        if b.len() >= 2 && !is_ws(b[b.len() - 2]) {
            assert(b.drop_last().last() == b[b.len() - 2]);
        }
        assert forall|k: int| 0 <= k < words(b).len() implies #[trigger] words(b)[k].len() >= 1 by {
            if k < t.len() {
                assert(t[k].len() >= 1);
            }
        }
    }
}

/// The white-space separated words of `b`.
fn split_words(b: &[u8]) -> (r: Vec<Vec<u8>>)
    ensures
        r@.len() == words(b@).len(),
        forall|k: int| 0 <= k < r@.len() ==> #[trigger] r@[k]@ == words(b@)[k],
{
    let mut done: Vec<Vec<u8>> = Vec::new();
    let ghost mut dv: Seq<Seq<u8>> = Seq::empty();
    let mut cur: Vec<u8> = Vec::new();
    let mut i: usize = 0;
    while i < b.len()
        invariant
            i <= b.len(),
            done@.len() == dv.len(),
            forall|k: int| 0 <= k < done@.len() ==> #[trigger] done@[k]@ == dv[k],
            words(b@.take(i as int)) == dv + if cur.len() > 0 {
                seq![cur@]
            } else {
                Seq::<Seq<u8>>::empty()
            },
            cur.len() > 0 <==> (i > 0 && !is_ws(b@[i - 1])),
        decreases b.len() - i,
    {
        let x = b[i];
        proof {
            assert(b@.take(i + 1).drop_last() =~= b@.take(i as int));
            assert(b@.take(i + 1).last() == x);
            if i > 0 {
                assert(b@.take(i + 1)[i - 1] == b@[i - 1]);
            }
        }
        if is_ws_byte(x) {
            if cur.len() > 0 {
                proof {
                    dv = dv.push(cur@);
                }
                let w = cur;
                done.push(w);
                cur = Vec::new();
            }
        } else {
            cur.push(x);
        }
        proof {
            let wi = words(b@.take(i + 1));
            assert(wi =~~= dv + if cur.len() > 0 {
                seq![cur@]
            } else {
                Seq::<Seq<u8>>::empty()
            });
        }
        i = i + 1;
    }
    if cur.len() > 0 {
        proof {
            dv = dv.push(cur@);
        }
        let w = cur;
        done.push(w);
    }
    proof {
        assert(b@.take(b.len() as int) =~= b@);
        assert(words(b@) =~= dv);
    }
    done
}

/// The kind a SFEN letter names, either case.
pub open spec fn spec_letter_piece(c: u8) -> Option<u8> {
    let u = if 97 <= c <= 122 {
        (c - 32) as u8
    } else {
        c
    };
    if u == 80 {
        Some(FU)
    } else if u == 76 {
        Some(KYO)
    } else if u == 78 {
        Some(KEI)
    } else if u == 83 {
        Some(GIN)
    } else if u == 71 {
        Some(KIN)
    } else if u == 66 {
        Some(KAKU)
    } else if u == 82 {
        Some(HI)
    } else if u == 75 {
        Some(OU)
    } else {
        None
    }
}

/// Upper-case letters are black's pieces, everything else white's.
pub open spec fn letter_color(c: u8) -> u8 {
    if 65 <= c <= 90 {
        BLACK
    } else {
        WHITE
    }
}

/// The cells that the rank text `r` denotes from column `col` on (0 for an empty
/// cell), or none when the text is malformed or a piece or digit starts past the
/// last file.
pub open spec fn rank_cells(r: Seq<u8>, col: int) -> Option<Seq<u8>>
    decreases r.len(),
{
    if r.len() == 0 {
        Some(Seq::empty())
    } else if col >= 9 {
        None
    } else {
        let c = r[0];
        if is_digit(c) {
            let n = c - 48;
            match rank_cells(r.subrange(1, r.len() as int), col + n) {
                Some(t) => Some(Seq::new(n as nat, |i: int| 0u8) + t),
                None => None,
            }
        } else if c == 43 {
            if r.len() < 2 {
                None
            } else {
                match spec_letter_piece(r[1]) {
                    None => None,
                    Some(base) => if !spec_is_promotable(base) {
                        None
                    } else {
                        match rank_cells(r.subrange(2, r.len() as int), col + 1) {
                            Some(t) => Some(
                                seq![spec_make_piece(letter_color(r[1]), spec_promoted(base))] + t,
                            ),
                            None => None,
                        }
                    },
                }
            }
        } else {
            match spec_letter_piece(c) {
                None => None,
                Some(base) => match rank_cells(r.subrange(1, r.len() as int), col + 1) {
                    Some(t) => Some(seq![spec_make_piece(letter_color(c), base)] + t),
                    None => None,
                },
            }
        }
    }
}

/// A rank text that denotes exactly nine cells.
pub open spec fn rank_ok(r: Seq<u8>) -> bool {
    &&& rank_cells(r, 0) is Some
    &&& rank_cells(r, 0)->0.len() == 9
}

/// The board the nine rank texts denote.
pub open spec fn board_of(ranks: Seq<Seq<u8>>) -> Seq<u8> {
    Seq::new(81, |sq: int| rank_cells(ranks[spec_row(sq)], 0)->0[spec_col(sq)])
}

fn letter_piece(c: u8) -> (r: Option<PieceType>)
    ensures
        r == spec_letter_piece(c),
{
    let u = if 97 <= c && c <= 122 {
        c - 32
    } else {
        c
    };
    match u {
        80 => Some(FU),
        76 => Some(KYO),
        78 => Some(KEI),
        83 => Some(GIN),
        71 => Some(KIN),
        66 => Some(KAKU),
        82 => Some(HI),
        75 => Some(OU),
        _ => None,
    }
}

fn letter_color_of(c: u8) -> (r: Color)
    ensures
        r == letter_color(c),
{
    if 65 <= c && c <= 90 {
        BLACK
    } else {
        WHITE
    }
}

/// Appends `c` to `s`.
#[verifier::external_body]
pub(crate) fn push_char(s: &mut String, c: char)
    ensures
        final(s)@ == old(s)@.push(c),
{
    s.push(c);
}

/// A string holding the text `t`.
pub(crate) fn text(t: &str) -> (r: String)
    ensures
        r@ == t@,
{
    <String as vstd::string::StringExecFns>::from_str(t)
}

/// Decimal digits of `n`, most significant first.
pub open spec fn spec_decimal(n: nat) -> Seq<char>
    decreases n,
{
    if n < 10 {
        seq![(n + 48) as char]
    } else {
        spec_decimal(n / 10).push(((n % 10) + 48) as char)
    }
}

fn decimal_chars(n: u64) -> (r: Vec<char>)
    ensures
        r@ == spec_decimal(n as nat),
    decreases n,
{
    if n < 10 {
        let d = (n as u8 + 48) as char;
        let mut v: Vec<char> = Vec::new();
        v.push(d);
        proof {
            assert(v@ =~= spec_decimal(n as nat));
        }
        v
    } else {
        let mut v = decimal_chars(n / 10);
        let d = ((n % 10) as u8 + 48) as char;
        v.push(d);
        v
    }
}

/// Appends the decimal digits of `n` to `s`.
pub(crate) fn push_decimal(s: &mut String, n: u64)
    ensures
        final(s)@ == old(s)@ + spec_decimal(n as nat),
{
    let ds = decimal_chars(n);
    let mut i: usize = 0;
    while i < ds.len()
        invariant
            i <= ds.len(),
            ds@ == spec_decimal(n as nat),
            s@ == old(s)@ + ds@.take(i as int),
        decreases ds.len() - i,
    {
        push_char(s, ds[i]);
        proof {
            assert(ds@.take(i + 1) =~= ds@.take(i as int).push(ds@[i as int]));
        }
        i = i + 1;
    }
    proof {
        assert(ds@.take(ds.len() as int) =~= ds@);
    }
}

/// `head`, then the decimal digits of `n`, then `tail`.
pub(crate) fn message(head: &str, n: u64, tail: &str) -> (r: String)
    ensures
        r@ == head@ + spec_decimal(n as nat) + tail@,
{
    let mut m = text(head);
    push_decimal(&mut m, n);
    m.append(tail);
    m
}

/// Parses one rank text into its cells; on malformed text returns the message the
/// parser reports.
fn parse_rank(r: &Vec<u8>, row: usize) -> (res: Result<Vec<u8>, String>)
    ensures
        res matches Ok(v) ==> rank_cells(r@, 0) == Some(v@) && v@.len() == 9,
        res is Err ==> !rank_ok(r@),
{
    let mut cells: Vec<u8> = Vec::new();
    let mut i: usize = 0;
    proof {
        assert(r@.subrange(0, r@.len() as int) =~= r@);
    }
    while i < r.len()
        invariant
            i <= r.len(),
            cells.len() <= 17,
            rank_cells(r@, 0) == match rank_cells(r@.subrange(i as int, r@.len() as int), cells.len() as int) {
                Some(t) => Some(cells@ + t),
                None => None::<Seq<u8>>,
            },
        decreases r.len() - i,
    {
        let ghost rest = r@.subrange(i as int, r@.len() as int);
        if cells.len() >= 9 {
            return Err(message("rank ", row as u64, " overflows 9 files"));
        }
        let c = r[i];
        if 48 <= c && c <= 57 {
            let n = c - 48;
            let ghost before = cells@;
            let mut k: u8 = 0;
            while k < n
                invariant
                    k <= n,
                    cells@ == before + Seq::new(k as nat, |j: int| 0u8),
                decreases n - k,
            {
                cells.push(0);
                proof {
                    assert(cells@ =~= before + Seq::new((k + 1) as nat, |j: int| 0u8));
                }
                k = k + 1;
            }
            proof {
                assert(rest.subrange(1, rest.len() as int) =~= r@.subrange(i + 1, r@.len() as int));
                let t = rank_cells(rest.subrange(1, rest.len() as int), cells.len() as int);
                if t is Some {
                    assert(before + (Seq::new(n as nat, |j: int| 0u8) + t->0) =~= cells@ + t->0);
                }
            }
            i = i + 1;
        } else if c == 43 {
            if i + 1 >= r.len() {
                return Err(text("dangling '+' in sfen"));
            }
            let l = r[i + 1];
            let base = match letter_piece(l) {
                Some(b) => b,
                None => {
                    return Err(text("bad piece letter in sfen"));
                },
            };
            if !is_promotable(base) {
                return Err(message("piece type ", base as u64, " cannot be promoted"));
            }
            let p = make_piece(letter_color_of(l), promoted(base));
            let ghost before = cells@;
            cells.push(p);
            proof {
                assert(rest[1] == l);
                assert(rest.subrange(2, rest.len() as int) =~= r@.subrange(i + 2, r@.len() as int));
                let t = rank_cells(rest.subrange(2, rest.len() as int), cells.len() as int);
                if t is Some {
                    assert(before + (seq![p] + t->0) =~= cells@ + t->0);
                }
            }
            i = i + 2;
        } else {
            let base = match letter_piece(c) {
                Some(b) => b,
                None => {
                    return Err(text("bad piece letter in sfen"));
                },
            };
            let p = make_piece(letter_color_of(c), base);
            let ghost before = cells@;
            cells.push(p);
            proof {
                assert(rest.subrange(1, rest.len() as int) =~= r@.subrange(i + 1, r@.len() as int));
                let t = rank_cells(rest.subrange(1, rest.len() as int), cells.len() as int);
                if t is Some {
                    assert(before + (seq![p] + t->0) =~= cells@ + t->0);
                }
            }
            i = i + 1;
        }
    }
    proof {
        assert(r@.subrange(r@.len() as int, r@.len() as int) =~= Seq::<u8>::empty());
        assert(cells@ + Seq::<u8>::empty() =~= cells@);
    }
    if cells.len() != 9 {
        return Err(message("rank ", row as u64, " does not have 9 files"));
    }
    Ok(cells)
}

/// Number of leading digits of `h`.
pub open spec fn digit_run(h: Seq<u8>) -> nat
    decreases h.len(),
{
    if h.len() > 0 && is_digit(h[0]) {
        1 + digit_run(h.subrange(1, h.len() as int))
    } else {
        0
    }
}

/// Decimal value of the digits `ds` in 32-bit arithmetic that wraps.
pub open spec fn digits_i32(ds: Seq<u8>) -> i32
    decreases ds.len(),
{
    if ds.len() == 0 {
        0
    } else {
        vstd::wrapping::i32_specs::wrapping_add(
            vstd::wrapping::i32_specs::wrapping_mul(digits_i32(ds.drop_last()), 10),
            (ds.last() - 48) as i32,
        )
    }
}

/// `unit` added `n` times to `h`, wrapping (nothing when `n <= 0`).
pub open spec fn add_units(h: u32, unit: u32, n: int) -> u32
    decreases n,
{
    if n <= 0 {
        h
    } else {
        vstd::wrapping::u32_specs::wrapping_add(add_units(h, unit, n - 1), unit)
    }
}

/// The hands after reading the hand text `h` (count, then letter; upper case is
/// black's) onto hand words `hb` and `hw`, or none when the text is malformed or names
/// a king.
pub open spec fn hand_field(h: Seq<u8>, hb: u32, hw: u32) -> Option<(u32, u32)>
    decreases h.len(),
{
    if h.len() == 0 {
        Some((hb, hw))
    } else {
        let d = digit_run(h) as int;
        if d >= h.len() {
            None
        } else {
            let cnt: i32 = if d == 0 {
                1
            } else {
                digits_i32(h.take(d))
            };
            let c = h[d];
            match spec_letter_piece(c) {
                None => None,
                Some(pt) => if pt == OU {
                    None
                } else {
                    let rest = h.subrange(d + 1, h.len() as int);
                    if letter_color(c) == BLACK {
                        hand_field(rest, add_units(hb, spec_unit(pt), cnt as int), hw)
                    } else {
                        hand_field(rest, hb, add_units(hw, spec_unit(pt), cnt as int))
                    }
                }
            }
        }
    }
}

/// The hands a hand field gives: `-` for none.
pub open spec fn hands_of(t: Seq<u8>) -> Option<(u32, u32)> {
    if t == seq![45u8] {
        Some((0u32, 0u32))
    } else {
        hand_field(t, 0, 0)
    }
}

/// Decimal value of the digits `ds`.
pub open spec fn digits_value(ds: Seq<u8>) -> int
    decreases ds.len(),
{
    if ds.len() == 0 {
        0
    } else {
        digits_value(ds.drop_last()) * 10 + (ds.last() - 48)
    }
}

/// Every byte of `ds` is a decimal digit.
pub open spec fn all_digits(ds: Seq<u8>) -> bool {
    forall|i: int| 0 <= i < ds.len() ==> is_digit(#[trigger] ds[i])
}

/// The number an unsigned 32-bit decimal text denotes: an optional `+`, then one or
/// more digits, with a value that fits.
pub open spec fn parse_u32(t: Seq<u8>) -> Option<u32> {
    let ds = if t.len() > 0 && t[0] == 43 {
        t.subrange(1, t.len() as int)
    } else {
        t
    };
    if ds.len() > 0 && all_digits(ds) && digits_value(ds) <= u32::MAX {
        Some(digits_value(ds) as u32)
    } else {
        None
    }
}

/// What a SFEN text denotes: board, hands, side to move and move number.
pub open spec fn spec_parse_sfen(b: Seq<u8>) -> Option<(Seq<u8>, Seq<u32>, u8, u32)> {
    let w = words(b);
    let ranks = split_on(w[0], 47);
    if w.len() < 3 {
        None
    } else if ranks.len() != 9 || !(forall|r: int| 0 <= r < 9 ==> rank_ok(#[trigger] ranks[r])) {
        None
    } else if w[1] != seq![98u8] && w[1] != seq![119u8] {
        None
    } else {
        match hands_of(w[2]) {
            None => None,
            Some(hs) => Some(
                (
                    board_of(ranks),
                    seq![hs.0, hs.1],
                    if w[1] == seq![98u8] {
                        BLACK
                    } else {
                        WHITE
                    },
                    if w.len() >= 4 && parse_u32(w[3]) is Some {
                        parse_u32(w[3])->0
                    } else {
                        1u32
                    },
                ),
            ),
        }
    }
}

/// The pieces of `b` between the `sep` bytes.
fn split_bytes(b: &Vec<u8>, sep: u8) -> (r: Vec<Vec<u8>>)
    ensures
        r@.len() == split_on(b@, sep).len(),
        forall|k: int| 0 <= k < r@.len() ==> #[trigger] r@[k]@ == split_on(b@, sep)[k],
{
    let mut done: Vec<Vec<u8>> = Vec::new();
    let ghost mut dv: Seq<Seq<u8>> = Seq::empty();
    let mut cur: Vec<u8> = Vec::new();
    let mut i: usize = 0;
    while i < b.len()
        invariant
            i <= b.len(),
            done@.len() == dv.len(),
            forall|k: int| 0 <= k < done@.len() ==> #[trigger] done@[k]@ == dv[k],
            split_on(b@.take(i as int), sep) =~~= dv.push(cur@),
        decreases b.len() - i,
    {
        let x = b[i];
        proof {
            assert(b@.take(i + 1).drop_last() =~= b@.take(i as int));
            assert(b@.take(i + 1).last() == x);
        }
        if x == sep {
            proof {
                dv = dv.push(cur@);
            }
            let w = cur;
            done.push(w);
            cur = Vec::new();
        } else {
            cur.push(x);
        }
        proof {
            assert(split_on(b@.take(i + 1), sep) =~~= dv.push(cur@));
        }
        i = i + 1;
    }
    proof {
        dv = dv.push(cur@);
    }
    let w = cur;
    done.push(w);
    proof {
        assert(b@.take(b.len() as int) =~= b@);
        assert(split_on(b@, sep) =~~= dv);
    }
    done
}

/// Reads the hand field.
fn parse_hands(h: &Vec<u8>) -> (res: Result<[Hand; 2], String>)
    ensures
        res matches Ok(hs) ==> hands_of(h@) == Some((hs[0].0, hs[1].0)),
        res is Err ==> hands_of(h@) is None,
{
    let mut hands = [Hand::empty(), Hand::empty()];
    if h.len() == 1 && h[0] == 45 {
        proof {
            assert(h@ =~= seq![45u8]);
        }
        return Ok(hands);
    }
    proof {
        if h@ == seq![45u8] {
            assert(h@.len() == 1);
        }
        assert(h@.subrange(0, h@.len() as int) =~= h@);
    }
    let mut i: usize = 0;
    while i < h.len()
        invariant
            i <= h.len(),
            hands_of(h@) == hand_field(h@.subrange(i as int, h@.len() as int), hands[0].0, hands[1].0),
        decreases h.len() - i,
    {
        let ghost rest = h@.subrange(i as int, h@.len() as int);
        let ghost start = i;
        let mut count: i32 = 0;
        let mut has_digit = false;
        while i < h.len() && 48 <= h[i] && h[i] <= 57
            invariant
                start <= i <= h.len(),
                rest == h@.subrange(start as int, h@.len() as int),
                has_digit == (i > start),
                digit_run(rest) == (i - start) + digit_run(h@.subrange(i as int, h@.len() as int)),
                count == digits_i32(rest.take(i - start)),
            decreases h.len() - i,
        {
            let d = (h[i] - 48) as i32;
            proof {
                let t = h@.subrange(i as int, h@.len() as int);
                assert(t.subrange(1, t.len() as int) =~= h@.subrange(i + 1, h@.len() as int));
                assert(rest.take(i + 1 - start).drop_last() =~= rest.take(i - start));
                assert(rest.take(i + 1 - start).last() == h@[i as int]);
            }
            count = count.wrapping_mul(10).wrapping_add(d);
            has_digit = true;
            i = i + 1;
        }
        if i >= h.len() {
            proof {
                assert(digit_run(h@.subrange(i as int, h@.len() as int)) == 0);
            }
            return Err(text("dangling digit in hand field"));
        }
        proof {
            let t = h@.subrange(i as int, h@.len() as int);
            assert(t[0] == h@[i as int]);
            assert(digit_run(t) == 0);
        }
        if !has_digit {
            count = 1;
        }
        let c = h[i];
        let pt = match letter_piece(c) {
            Some(p) => p,
            None => {
                return Err(text("bad hand piece letter"));
            },
        };
        if pt == OU {
            return Err(text("a king cannot be held in hand"));
        }
        let color = letter_color_of(c);
        let ghost h0 = hands[color as int].0;
        let ghost hs0 = hands;
        let mut k: i32 = 0;
        while k < count
            invariant
                0 <= k,
                count >= 0 ==> k <= count,
                count < 0 ==> k == 0,
                color <= 1,
                pt <= 8,
                hands[color as int].0 == add_units(h0, spec_unit(pt), k as int),
                hands[1 - color as int] == hs0[1 - color as int],
            decreases count - k,
        {
            let mut hd = hands[color as usize];
            hd.add(pt);
            hands[color as usize] = hd;
            k = k + 1;
        }
        proof {
            let d = digit_run(rest) as int;
            assert(d == i - start);
            assert(rest.subrange(d + 1, rest.len() as int) =~= h@.subrange(i + 1, h@.len() as int));
            assert(rest[d] == c);
            assert(count == if d == 0 {
                1i32
            } else {
                digits_i32(rest.take(d))
            });
            assert(hands[color as int].0 == add_units(h0, spec_unit(pt), count as int));
            if color == BLACK {
                assert(hands[1].0 == hs0[1].0);
            } else {
                assert(hands[0].0 == hs0[0].0);
            }
        }
        i = i + 1;
    }
    Ok(hands)
}

/// Parses a SFEN text: board ranks separated by `/`, side to move (`b` or `w`), hands
/// (`-` for none) and an optional move number (1 when absent or unreadable).
pub fn parse_sfen(s: &str) -> (r: Result<Position, String>)
    ensures
        r matches Ok(p) ==> spec_parse_sfen(s.spec_bytes()) matches Some(
            (board, hands, side, ply),
        ) && p.wf() && p.snap() == parts_snap(board, hands, side, ply) && p.stack().len() == 1
            && p.stack()[0].last_move.0 == 0,
        r is Err ==> spec_parse_sfen(s.spec_bytes()) is None,
{
    let bytes = s.as_bytes();
    let parts = split_words(bytes);
    let ghost w = words(bytes@);
    if parts.len() < 3 {
        return Err(message("sfen needs at least 3 fields, got ", parts.len() as u64, ""));
    }
    let rows = split_bytes(&parts[0], 47);
    if rows.len() != 9 {
        return Err(message("sfen board needs 9 ranks, got ", rows.len() as u64, ""));
    }
    let ghost ranks = split_on(parts@[0]@, 47);
    proof {
        assert(parts@[0]@ == w[0]);
        assert(parts@[1]@ == w[1]);
        assert(parts@[2]@ == w[2]);
    }
    let mut board = [NO_PIECE;81];
    let mut row: usize = 0;
    while row < 9
        invariant
            row <= 9,
            rows@.len() == 9,
            ranks.len() == 9,
            w == words(bytes@),
            bytes@ == s.spec_bytes(),
            w.len() >= 3,
            ranks == split_on(w[0], 47),
            forall|k: int| 0 <= k < 9 ==> #[trigger] rows@[k]@ == ranks[k],
            forall|k: int| 0 <= k < row ==> rank_ok(#[trigger] ranks[k]),
            forall|sq: int|
                0 <= sq < 81 && spec_row(sq) < row ==> #[trigger] board@[sq] == board_of(ranks)[sq],
        decreases 9 - row,
    {
        proof {
            assert(rows@[row as int]@ == ranks[row as int]);
        }
        let cells = match parse_rank(&rows[row], row) {
            Ok(c) => c,
            Err(e) => {
                proof {
                    assert(!rank_ok(ranks[row as int]));
                    assert(w.len() >= 3);
                    assert(ranks == split_on(w[0], 47));
                    assert(!(forall|r: int| 0 <= r < 9 ==> rank_ok(#[trigger] ranks[r])));
                    assert(spec_parse_sfen(bytes@) is None);
                }
                return Err(e);
            },
        };
        let mut col: usize = 0;
        while col < 9
            invariant
                row < 9,
                col <= 9,
                cells@.len() == 9,
                rank_cells(ranks[row as int], 0) == Some(cells@),
                forall|sq: int|
                    0 <= sq < 81 && (spec_row(sq) < row || (spec_row(sq) == row && spec_col(sq) < col))
                        ==> #[trigger] board@[sq] == board_of(ranks)[sq],
            decreases 9 - col,
        {
            let sq = make_square(row as u8, col as u8);
            board[sq as usize] = cells[col];
            col = col + 1;
        }
        row = row + 1;
    }
    proof {
        assert forall|r: int| 0 <= r < 9 implies rank_ok(#[trigger] ranks[r]) by {}
    }
    let w1 = &parts[1];
    let side = if w1.len() == 1 && w1[0] == 98 {
        BLACK
    } else if w1.len() == 1 && w1[0] == 119 {
        WHITE
    } else {
        proof {
            if parts@[1]@ == seq![98u8] || parts@[1]@ == seq![119u8] {
                assert(parts@[1]@.len() == 1);
            }
        }
        return Err(text("bad side-to-move"));
    };
    proof {
        if side == BLACK {
            assert(parts@[1]@ =~= seq![98u8]);
        } else {
            assert(parts@[1]@ =~= seq![119u8]);
        }
    }
    let hands = match parse_hands(&parts[2]) {
        Ok(h) => h,
        Err(e) => {
            return Err(e);
        },
    };
    let ply = if parts.len() >= 4 {
        match parse_ply(&parts[3]) {
            Some(v) => v,
            None => 1,
        }
    } else {
        1
    };
    proof {
        assert(board@ =~= board_of(ranks));
        assert forall|i: int| 0 <= i < 81 implies valid_cell(#[trigger] board@[i]) by {
            lemma_board_of_valid(ranks, i);
        }
    }
    Ok(Position::from_parts(board, hands, side, ply))
}

/// Reads an unsigned 32-bit decimal number.
fn parse_ply(t: &Vec<u8>) -> (r: Option<u32>)
    ensures
        r == parse_u32(t@),
{
    let mut i: usize = 0;
    if t.len() > 0 && t[0] == 43 {
        i = 1;
    }
    let ghost ds = if t@.len() > 0 && t@[0] == 43 {
        t@.subrange(1, t@.len() as int)
    } else {
        t@
    };
    let start = i;
    proof {
        if start == 0 {
            assert(t@.subrange(0, t@.len() as int) =~= t@);
        }
    }
    if start >= t.len() {
        proof {
            assert(ds.len() == 0);
        }
        return None;
    }
    let mut v: u64 = 0;
    while i < t.len()
        invariant
            start <= i <= t.len(),
            start < t.len(),
            ds == t@.subrange(start as int, t@.len() as int),
            ds == (if t@.len() > 0 && t@[0] == 43 {
                t@.subrange(1, t@.len() as int)
            } else {
                t@
            }),
            forall|k: int| 0 <= k < i - start ==> is_digit(#[trigger] ds[k]),
            v == digits_value(ds.take(i - start)),
            v <= u32::MAX,
        decreases t.len() - i,
    {
        let c = t[i];
        proof {
            assert(ds[i - start] == c);
        }
        if c < 48 || c > 57 {
            proof {
                assert(!is_digit(ds[i - start]));
                assert(!all_digits(ds));
            }
            return None;
        }
        proof {
            assert(ds.take(i + 1 - start).drop_last() =~= ds.take(i - start));
            assert(ds.take(i + 1 - start).last() == c);
        }
        v = v * 10 + (c - 48) as u64;
        if v > 0xFFFF_FFFF {
            proof {
                if all_digits(ds) {
                    lemma_digits_value_prefix(ds, i + 1 - start);
                }
            }
            return None;
        }
        i = i + 1;
    }
    proof {
        assert(ds.take(i - start) =~= ds);
    }
    Some(v as u32)
}

/// A longer prefix of digits never has a smaller value.
proof fn lemma_digits_value_prefix(ds: Seq<u8>, n: int)
    requires
        0 <= n <= ds.len(),
        forall|k: int| 0 <= k < ds.len() ==> is_digit(#[trigger] ds[k]),
    ensures
        digits_value(ds.take(n)) <= digits_value(ds),
    decreases ds.len() - n,
{
    if n < ds.len() {
        lemma_digits_value_prefix(ds, n + 1);
        assert(ds.take(n + 1).drop_last() =~= ds.take(n));
        lemma_digits_value_nonneg(ds.take(n));
    } else {
        assert(ds.take(n) =~= ds);
    }
}

proof fn lemma_digits_value_nonneg(ds: Seq<u8>)
    requires
        forall|k: int| 0 <= k < ds.len() ==> is_digit(#[trigger] ds[k]),
    ensures
        digits_value(ds) >= 0,
    decreases ds.len(),
{
    if ds.len() > 0 {
        lemma_digits_value_nonneg(ds.drop_last());
    }
}

/// Every cell a rank text denotes is a valid board byte.
proof fn lemma_rank_cells_valid(r: Seq<u8>, col: int)
    ensures
        rank_cells(r, col) matches Some(t) ==> forall|k: int| 0 <= k < t.len() ==> valid_cell(#[trigger] t[k]),
    decreases r.len(),
{
    if r.len() > 0 && col < 9 {
        let c = r[0];
        lemma_byte_facts(0, 0);
        if is_digit(c) {
            lemma_rank_cells_valid(r.subrange(1, r.len() as int), col + (c - 48));
        } else if c == 43 {
            if r.len() >= 2 {
                lemma_rank_cells_valid(r.subrange(2, r.len() as int), col + 1);
                if let Some(base) = spec_letter_piece(r[1]) {
                    lemma_piece_roundtrip(letter_color(r[1]), spec_promoted(base));
                }
            }
        } else {
            lemma_rank_cells_valid(r.subrange(1, r.len() as int), col + 1);
            if let Some(base) = spec_letter_piece(c) {
                lemma_piece_roundtrip(letter_color(c), base);
            }
        }
    }
}

proof fn lemma_board_of_valid(ranks: Seq<Seq<u8>>, sq: int)
    requires
        0 <= sq < 81,
        ranks.len() == 9,
        forall|r: int| 0 <= r < 9 ==> rank_ok(#[trigger] ranks[r]),
    ensures
        valid_cell(board_of(ranks)[sq]),
{
    let r = spec_row(sq);
    assert(rank_ok(ranks[r]));
    lemma_rank_cells_valid(ranks[r], 0);
}

/// The SFEN letter of a kind (of its unpromoted form), in upper case for black and
/// lower case for white; `?` for a byte that is no kind.
pub open spec fn spec_letter(pt: u8, black: bool) -> char {
    if pt == FU || pt == TO {
        if black { 'P' } else { 'p' }
    } else if pt == KYO || pt == NKYO {
        if black { 'L' } else { 'l' }
    } else if pt == KEI || pt == NKEI {
        if black { 'N' } else { 'n' }
    } else if pt == GIN || pt == NGIN {
        if black { 'S' } else { 's' }
    } else if pt == KIN {
        if black { 'G' } else { 'g' }
    } else if pt == KAKU || pt == UMA {
        if black { 'B' } else { 'b' }
    } else if pt == HI || pt == RYU {
        if black { 'R' } else { 'r' }
    } else if pt == OU {
        if black { 'K' } else { 'k' }
    } else {
        '?'
    }
}

fn letter_of(pt: PieceType, black: bool) -> (r: char)
    ensures
        r == spec_letter(pt, black),
{
    match pt {
        FU | TO => if black { 'P' } else { 'p' },
        KYO | NKYO => if black { 'L' } else { 'l' },
        KEI | NKEI => if black { 'N' } else { 'n' },
        GIN | NGIN => if black { 'S' } else { 's' },
        KIN => if black { 'G' } else { 'g' },
        KAKU | UMA => if black { 'B' } else { 'b' },
        HI | RYU => if black { 'R' } else { 'r' },
        OU => if black { 'K' } else { 'k' },
        _ => '?',
    }
}

/// A piece written as its letter, after `+` when promoted.
pub open spec fn cell_text(p: u8) -> Seq<char> {
    let pt = spec_piece_type(p);
    (if pt >= TO {
        seq!['+']
    } else {
        Seq::empty()
    }) + seq![spec_letter(spec_unpromoted(pt), spec_piece_color(p) == BLACK)]
}

/// The text of rank `row` from column `col` on, with `run` empty cells pending.
pub open spec fn rank_text(board: Seq<u8>, row: int, col: int, run: nat) -> Seq<char>
    decreases 9 - col,
{
    if col >= 9 {
        if run > 0 {
            spec_decimal(run)
        } else {
            Seq::empty()
        }
    } else {
        let p = board[spec_make_square(row, col)];
        if p == 0 {
            rank_text(board, row, col + 1, run + 1)
        } else {
            (if run > 0 {
                spec_decimal(run)
            } else {
                Seq::empty()
            }) + cell_text(p) + rank_text(board, row, col + 1, 0)
        }
    }
}

/// The ranks from `row` on, separated by `/`.
pub open spec fn board_text(board: Seq<u8>, row: int) -> Seq<char>
    decreases 9 - row,
{
    if row >= 9 {
        Seq::empty()
    } else {
        rank_text(board, row, 0, 0) + (if row != 8 {
            seq!['/']
        } else {
            Seq::empty()
        }) + board_text(board, row + 1)
    }
}

/// The kinds in the order hands are written: R B G S N L P.
pub open spec fn hand_order() -> Seq<u8> {
    seq![HI, KAKU, KIN, GIN, KEI, KYO, FU]
}

/// The pieces of kind `pt` in hand word `h`: the count when above one, then the letter.
pub open spec fn hand_kind_text(h: u32, pt: u8, black: bool) -> Seq<char> {
    let n = Hand(h).spec_count(pt);
    if n > 0 {
        (if n > 1 {
            spec_decimal(n as nat)
        } else {
            Seq::empty()
        }) + seq![spec_letter(pt, black)]
    } else {
        Seq::empty()
    }
}

/// The first `k` kinds of the hand order of hand word `h`.
pub open spec fn hand_text_upto(h: u32, black: bool, k: int) -> Seq<char>
    decreases k,
{
    if k <= 0 {
        Seq::empty()
    } else {
        hand_text_upto(h, black, k - 1) + hand_kind_text(h, hand_order()[k - 1], black)
    }
}

/// Both hands, black's first.
pub open spec fn hands_text(hands: Seq<u32>) -> Seq<char> {
    hand_text_upto(hands[0], true, 7) + hand_text_upto(hands[1], false, 7)
}

/// The SFEN text of a position.
pub open spec fn sfen_text(s: crate::position::Snap) -> Seq<char> {
    let ht = hands_text(s.hands);
    board_text(s.board, 0) + seq![' ', if s.side == BLACK { 'b' } else { 'w' }, ' '] + (if ht.len()
        == 0 {
        seq!['-']
    } else {
        ht
    }) + seq![' '] + spec_decimal(if s.ply >= 1 { s.ply as nat } else { 1 })
}

/// The digits of a decimal are digit characters.
proof fn lemma_decimal_digits(n: nat)
    ensures
        forall|i: int| 0 <= i < spec_decimal(n).len() ==> is_digit(#[trigger] spec_decimal(n)[i] as u8),
    decreases n,
{
    if n >= 10 {
        lemma_decimal_digits(n / 10);
        let p = spec_decimal(n / 10);
        assert forall|i: int| 0 <= i < spec_decimal(n).len() implies is_digit(
            #[trigger] spec_decimal(n)[i] as u8,
        ) by {
            if i < p.len() {
                assert(spec_decimal(n)[i] == p[i]);
            }
        }
    }
}

/// A character of a hand field as the SFEN reader takes it: a digit of a count, or the
/// letter of a kind that the letter's side (upper case black, lower case white) holds.
pub open spec fn reads_as_held(c: char, hands: Seq<u32>) -> bool {
    ||| is_digit(c as u8)
    ||| match spec_letter_piece(c as u8) {
        Some(pt) => 1 <= pt <= 7 && Hand(hands[letter_color(c as u8) as int]).spec_count(pt) > 0,
        None => false,
    }
}

/// The hand text of one kind: its count in digits when above one, then a letter that
/// the SFEN reader takes for that kind and the hand's side; nothing when none is held.
pub proof fn lemma_hand_kind_text_reads_back(h: u32, pt: u8, black: bool)
    requires
        1 <= pt <= 7,
    ensures
        Hand(h).spec_count(pt) == 0 ==> hand_kind_text(h, pt, black).len() == 0,
        Hand(h).spec_count(pt) > 0 ==> ({
            let t = hand_kind_text(h, pt, black);
            let c = t.last() as u8;
            &&& t.len() >= 1
            &&& spec_letter_piece(c) == Some(pt)
            &&& letter_color(c) == (if black { BLACK } else { WHITE })
            &&& forall|i: int| 0 <= i < t.len() - 1 ==> is_digit(#[trigger] t[i] as u8)
        }),
{
    let n = Hand(h).spec_count(pt);
    if n > 1 {
        lemma_decimal_digits(n as nat);
        let t = hand_kind_text(h, pt, black);
        let d = spec_decimal(n as nat);
        assert forall|i: int| 0 <= i < t.len() - 1 implies is_digit(#[trigger] t[i] as u8) by {
            assert(t[i] == d[i]);
        }
    }
}

/// What one hand's text says, for the kinds of the hand order below `k`: each character
/// is a digit or the letter of a kind the hand holds, on the hand's side; and each kind
/// of those that the hand holds has its letter there.
proof fn lemma_hand_text_upto_reads_back(hands: Seq<u32>, c: int, k: int)
    requires
        hands.len() == 2,
        0 <= c < 2,
        0 <= k <= 7,
    ensures
        ({
            let t = hand_text_upto(hands[c], c == 0, k);
            &&& forall|i: int| 0 <= i < t.len() ==> reads_as_held(#[trigger] t[i], hands)
            &&& forall|i: int| 0 <= i < t.len() && !is_digit(#[trigger] t[i] as u8) ==> letter_color(t[i] as u8) == c
            &&& forall|j: int|
                0 <= j < k && Hand(hands[c]).spec_count(#[trigger] hand_order()[j]) > 0 ==> exists|i: int|
                    0 <= i < t.len() && spec_letter_piece(#[trigger] t[i] as u8) == Some(hand_order()[j])
                        && letter_color(t[i] as u8) == c
        }),
    decreases k,
{
    if k > 0 {
        lemma_hand_text_upto_reads_back(hands, c, k - 1);
        let black = c == 0;
        let h = hands[c];
        let pt = hand_order()[k - 1];
        assert(hand_order() == seq![7u8, 6u8, 5u8, 4u8, 3u8, 2u8, 1u8]);
        assert(1 <= pt <= 7);
        lemma_hand_kind_text_reads_back(h, pt, black);
        let a = hand_text_upto(h, black, k - 1);
        let b = hand_kind_text(h, pt, black);
        let t = hand_text_upto(h, black, k);
        assert(t == a + b);
        assert forall|i: int| 0 <= i < t.len() implies reads_as_held(#[trigger] t[i], hands) && (!is_digit(t[i] as u8) ==> letter_color(t[i] as u8) == c) by {
            if i < a.len() {
                assert(t[i] == a[i]);
            } else {
                assert(t[i] == b[i - a.len()]);
                if i - a.len() < b.len() - 1 {
                } else {
                    assert(b[i - a.len()] == b.last());
                }
            }
        }
        assert forall|j: int|
            0 <= j < k && Hand(h).spec_count(#[trigger] hand_order()[j]) > 0 implies exists|i: int|
                0 <= i < t.len() && spec_letter_piece(#[trigger] t[i] as u8) == Some(hand_order()[j])
                    && letter_color(t[i] as u8) == c by {
            if j < k - 1 {
                let i0 = choose|i: int|
                    0 <= i < a.len() && spec_letter_piece(#[trigger] a[i] as u8) == Some(hand_order()[j])
                        && letter_color(a[i] as u8) == c;
                assert(t[i0] == a[i0]);
            } else {
                let i0 = a.len() + b.len() - 1;
                assert(t[i0] == b.last());
            }
        }
    }
}

/// The hand field that `to_sfen` writes names what each side holds by the letters the
/// SFEN reader takes for them: every character is a digit or the letter of a kind that
/// the letter's side holds, and every kind a side holds has its letter, on that side,
/// in the field.
pub proof fn lemma_hands_text_reads_back(hands: Seq<u32>)
    requires
        hands.len() == 2,
    ensures
        forall|i: int| 0 <= i < hands_text(hands).len() ==> reads_as_held(#[trigger] hands_text(hands)[i], hands),
        forall|c: int, pt: u8|
            0 <= c < 2 && 1 <= pt <= 7 && #[trigger] Hand(hands[c]).spec_count(pt) > 0 ==> exists|i: int|
                0 <= i < hands_text(hands).len() && spec_letter_piece(#[trigger] hands_text(hands)[i] as u8)
                    == Some(pt) && letter_color(hands_text(hands)[i] as u8) == c,
{
    lemma_hand_text_upto_reads_back(hands, 0, 7);
    lemma_hand_text_upto_reads_back(hands, 1, 7);
    let a = hand_text_upto(hands[0], true, 7);
    let b = hand_text_upto(hands[1], false, 7);
    let t = hands_text(hands);
    assert(t == a + b);
    assert forall|i: int| 0 <= i < t.len() implies reads_as_held(#[trigger] t[i], hands) by {
        if i < a.len() {
            assert(t[i] == a[i]);
        } else {
            assert(t[i] == b[i - a.len()]);
        }
    }
    assert(hand_order() == seq![7u8, 6u8, 5u8, 4u8, 3u8, 2u8, 1u8]);
    assert forall|c: int, pt: u8|
        0 <= c < 2 && 1 <= pt <= 7 && #[trigger] Hand(hands[c]).spec_count(pt) > 0 implies exists|i: int|
            0 <= i < t.len() && spec_letter_piece(#[trigger] t[i] as u8) == Some(pt)
                && letter_color(t[i] as u8) == c by {
        let j = 7 - pt;
        assert(hand_order()[j] == pt);
        if c == 0 {
            let i0 = choose|i: int|
                0 <= i < a.len() && spec_letter_piece(#[trigger] a[i] as u8) == Some(hand_order()[j])
                    && letter_color(a[i] as u8) == c;
            assert(t[i0] == a[i0]);
        } else {
            let i0 = choose|i: int|
                0 <= i < b.len() && spec_letter_piece(#[trigger] b[i] as u8) == Some(hand_order()[j])
                    && letter_color(b[i] as u8) == c;
            assert(t[a.len() + i0] == b[i0]);
        }
    }
}

/// Appends every character of `t`.
fn push_chars(s: &mut String, t: &Vec<char>)
    ensures
        final(s)@ == old(s)@ + t@,
{
    let mut i: usize = 0;
    while i < t.len()
        invariant
            i <= t.len(),
            s@ == old(s)@ + t@.take(i as int),
        decreases t.len() - i,
    {
        push_char(s, t[i]);
        proof {
            assert(t@.take(i + 1) =~= t@.take(i as int).push(t@[i as int]));
        }
        i = i + 1;
    }
    proof {
        assert(t@.take(t.len() as int) =~= t@);
    }
}

/// Writes a position as SFEN: ranks from the top, empty cells run-length counted;
/// side to move; hands (R B G S N L P, black first, `-` when both are empty); and the
/// move number (at least 1).
pub fn to_sfen(pos: &Position) -> (r: String)
    requires
        pos.wf(),
    ensures
        r@ == sfen_text(pos.snap()),
{
    let ghost board = pos.snap().board;
    let mut out = String::new();
    let mut row: u8 = 0;
    proof {
        assert(out@ =~= Seq::<char>::empty());
    }
    while row < 9
        invariant
            row <= 9,
            board == pos.snap().board,
            out@ + board_text(board, row as int) == board_text(board, 0),
        decreases 9 - row,
    {
        let ghost before = out@;
        let mut empty_run: u64 = 0;
        let mut col: u8 = 0;
        while col < 9
            invariant
                row < 9,
                col <= 9,
                empty_run <= col,
                board == pos.snap().board,
                out@ + rank_text(board, row as int, col as int, empty_run as nat) == before
                    + rank_text(board, row as int, 0, 0),
            decreases 9 - col,
        {
            let p = pos.piece_at(make_square(row, col));
            let ghost o = out@;
            let ghost run0 = empty_run;
            if is_none(p) {
                empty_run = empty_run + 1;
            } else {
                if empty_run > 0 {
                    push_decimal(&mut out, empty_run);
                    empty_run = 0;
                }
                let pt = piece_type(p);
                if is_promoted(pt) {
                    push_char(&mut out, '+');
                }
                push_char(&mut out, letter_of(unpromoted(pt), piece_color(p) == BLACK));
                proof {
                    let rest = rank_text(board, row as int, col + 1, 0);
                    assert(out@ + rest =~= o + rank_text(board, row as int, col as int, run0 as nat));
                }
            }
            col = col + 1;
        }
        if empty_run > 0 {
            push_decimal(&mut out, empty_run);
        }
        proof {
            assert(out@ =~= before + rank_text(board, row as int, 0, 0));
        }
        if row != 8 {
            push_char(&mut out, '/');
        }
        proof {
            assert(out@ + board_text(board, row + 1) =~= before + board_text(board, row as int));
        }
        row = row + 1;
    }
    proof {
        assert(out@ =~= board_text(board, 0));
    }
    push_char(&mut out, ' ');
    let side = pos.side_to_move();
    push_char(&mut out, if side == BLACK { 'b' } else { 'w' });
    push_char(&mut out, ' ');
    let hands = pos.hands();
    let order = [HI, KAKU, KIN, GIN, KEI, KYO, FU];
    let mut hand_str = String::new();
    let mut any = false;
    let mut c: usize = 0;
    proof {
        assert(order@ =~= hand_order());
    }
    while c < 2
        invariant
            c <= 2,
            order@ == hand_order(),
            hands[0].0 == pos.snap().hands[0],
            hands[1].0 == pos.snap().hands[1],
            any == (hand_str@.len() > 0),
            hand_str@ == (if c == 0 {
                Seq::<char>::empty()
            } else if c == 1 {
                hand_text_upto(hands[0].0, true, 7)
            } else {
                hands_text(pos.snap().hands)
            }),
        decreases 2 - c,
    {
        let ghost before = hand_str@;
        let h = hands[c];
        let mut k: usize = 0;
        while k < 7
            invariant
                c < 2,
                k <= 7,
                order@ == hand_order(),
                any == (hand_str@.len() > 0),
                hand_str@ == before + hand_text_upto(h.0, c == 0, k as int),
            decreases 7 - k,
        {
            let pt = order[k];
            let n = h.count(pt);
            if n > 0 {
                if n > 1 {
                    push_decimal(&mut hand_str, n as u64);
                }
                push_char(&mut hand_str, letter_of(pt, c == 0));
                any = true;
            }
            proof {
                assert(hand_str@ =~= before + hand_text_upto(h.0, c == 0, k + 1));
            }
            k = k + 1;
        }
        c = c + 1;
    }
    let ghost o = out@;
    if !any {
        push_char(&mut out, '-');
    } else {
        out.append(hand_str.as_str());
    }
    push_char(&mut out, ' ');
    let ply = pos.ply();
    push_decimal(&mut out, if ply >= 1 { ply as u64 } else { 1 });
    proof {
        assert(out@ =~= sfen_text(pos.snap()));
    }
    out
}

/// The square a USI square text names (file digit 1-9, then rank letter a-i); only
/// its first two bytes are read.
pub open spec fn spec_parse_square(t: Seq<u8>) -> Option<u8> {
    if t.len() < 2 {
        None
    } else if !(49 <= t[0] <= 57) {
        None
    } else if !(97 <= t[1] <= 105) {
        None
    } else {
        Some(spec_make_square((t[1] - 97) as int, 9 - (t[0] - 48)) as u8)
    }
}

fn parse_square(t: &[u8]) -> (r: Result<Square, String>)
    ensures
        r matches Ok(sq) ==> spec_parse_square(t@) == Some(sq) && sq < 81,
        r is Err ==> spec_parse_square(t@) is None,
{
    if t.len() < 1 {
        return Err(text("empty square"));
    }
    if t.len() < 2 {
        return Err(text("truncated square"));
    }
    let f = t[0];
    if f < 48 || f > 57 {
        return Err(text("bad file digit"));
    }
    if f == 48 {
        return Err(text("file out of range"));
    }
    let rk = t[1];
    if rk < 97 || rk > 105 {
        return Err(text("bad rank letter"));
    }
    let file = f - 48;
    Ok(make_square(rk - 97, 9 - file))
}

/// The USI text of a square: file digit (9 minus the column, wrapping as a byte),
/// then rank letter.
pub open spec fn usi_square(sq: u8) -> Seq<char> {
    spec_decimal(vstd::wrapping::u8_specs::wrapping_sub(9u8, (sq / 9) as u8) as nat).push(
        ((sq % 9) + 97) as char,
    )
}

fn push_square(s: &mut String, sq: Square)
    ensures
        final(s)@ == old(s)@ + usi_square(sq),
{
    let file = 9u8.wrapping_sub(col_of(sq));
    push_decimal(s, file as u64);
    let rank = (97 + row_of(sq)) as char;
    push_char(s, rank);
    proof {
        assert(final(s)@ =~= old(s)@ + usi_square(sq));
    }
}

/// The USI text of a move: `P*5e` for a drop, `7g7f` or `8h2b+` for a board move.
pub open spec fn usi_text(mv: Move) -> Seq<char> {
    if mv.spec_is_drop() {
        seq![spec_letter(mv.spec_moved(), true), '*'] + usi_square(mv.spec_to())
    } else {
        usi_square(mv.spec_from()) + usi_square(mv.spec_to()) + if mv.spec_is_promotion() {
            seq!['+']
        } else {
            Seq::empty()
        }
    }
}

pub fn move_to_usi(mv: Move) -> (r: String)
    ensures
        r@ == usi_text(mv),
{
    let mut out = String::new();
    if mv.is_drop() {
        push_char(&mut out, letter_of(mv.moved_piece_type(), true));
        push_char(&mut out, '*');
        push_square(&mut out, mv.to());
    } else {
        push_square(&mut out, mv.from());
        push_square(&mut out, mv.to());
        if mv.is_promotion() {
            push_char(&mut out, '+');
        }
    }
    proof {
        assert(out@ =~= usi_text(mv));
    }
    out
}

/// The move a USI text names on `board`: a drop `X*sq`, or `from to` with an optional
/// `+`, whose moved and captured kinds are read off the board (the source square must
/// hold a piece).
pub open spec fn spec_parse_usi(board: Seq<u8>, b: Seq<u8>) -> Option<Move> {
    if b.len() >= 2 && b[1] == 42 {
        match (spec_letter_piece(b[0]), spec_parse_square(b.subrange(2, b.len() as int))) {
            (Some(pt), Some(to)) => Some(Move(spec_drop_bits(pt, to))),
            _ => None,
        }
    } else {
        let promote = b.len() > 0 && b.last() == 43;
        let core = if promote {
            b.drop_last()
        } else {
            b
        };
        if core.len() != 4 {
            None
        } else {
            match (spec_parse_square(core.subrange(0, 2)), spec_parse_square(core.subrange(2, 4))) {
                (Some(from), Some(to)) => if board[from as int] == 0 {
                    None
                } else {
                    Some(
                        Move(
                            spec_board_bits(
                                from,
                                to,
                                spec_piece_type(board[from as int]),
                                promote,
                                spec_piece_type(board[to as int]),
                            ),
                        ),
                    )
                },
                _ => None,
            }
        }
    }
}

/// Reads a USI move text against `pos`, filling in the moved and captured kinds that a
/// packed move carries.
pub fn parse_usi_move(pos: &Position, s: &str) -> (r: Result<Move, String>)
    ensures
        r matches Ok(m) ==> spec_parse_usi(pos.snap().board, s.spec_bytes()) == Some(m),
        r is Err ==> spec_parse_usi(pos.snap().board, s.spec_bytes()) is None,
{
    let b = s.as_bytes();
    if b.len() >= 2 && b[1] == 42 {
        let pt = match letter_piece(b[0]) {
            Some(p) => p,
            None => {
                return Err(text("bad drop piece letter"));
            },
        };
        let rest = vstd::slice::slice_subrange(b, 2, b.len());
        let to = match parse_square(rest) {
            Ok(t) => t,
            Err(e) => {
                return Err(e);
            },
        };
        return Ok(Move::new_drop(pt, to));
    }
    let promote = b.len() > 0 && b[b.len() - 1] == 43;
    let n = if promote {
        b.len() - 1
    } else {
        b.len()
    };
    let ghost core = if promote {
        b@.drop_last()
    } else {
        b@
    };
    proof {
        assert(core =~= b@.subrange(0, n as int));
    }
    if n != 4 {
        return Err(text("bad usi move"));
    }
    let from = match parse_square(vstd::slice::slice_subrange(b, 0, 2)) {
        Ok(t) => t,
        Err(e) => {
            proof {
                assert(core.subrange(0, 2) =~= b@.subrange(0, 2));
            }
            return Err(e);
        },
    };
    let to = match parse_square(vstd::slice::slice_subrange(b, 2, 4)) {
        Ok(t) => t,
        Err(e) => {
            proof {
                assert(core.subrange(2, 4) =~= b@.subrange(2, 4));
            }
            return Err(e);
        },
    };
    proof {
        assert(core.subrange(0, 2) =~= b@.subrange(0, 2));
        assert(core.subrange(2, 4) =~= b@.subrange(2, 4));
    }
    let moved = pos.piece_at(from);
    if is_none(moved) {
        return Err(text("no piece at source square in move"));
    }
    let captured = piece_type(pos.piece_at(to));
    Ok(Move::new_board(from, to, piece_type(moved), promote, captured))
}


} // verus!
