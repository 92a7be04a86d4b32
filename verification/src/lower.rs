use vstd::prelude::*;

use crate::c_text::{c_text, emit, lemma_c_text_push, CStmt};
use crate::opt::{
    buffer_in_order, buffer_safe, fits_i32, flush_if, lemma_buffer_in_order_concat,
    lemma_buffer_plain, lemma_buffer_safe_concat, lemma_buffer_single, lemma_flush_if_order,
    pending_after, OUT_BUF_SIZE,
};
use crate::parse::{nesting_delta, Token};
use crate::semantics::counts_fit;

verus! {

/// Capacity of the output buffer of the program that `lower_tokens` writes.
pub const OUT_BUF_LEN: usize = 32;

/// An assignment that moves the tape pointer, when it moves at all.
pub open spec fn shift_if(d: i32) -> Seq<CStmt> {
    if d != 0 {
        seq![CStmt::ShiftHead { delta: d }]
    } else {
        Seq::empty()
    }
}

/// The statements that one token lowers to when the head offset of the
/// current frame is `off` and the output buffer holds `slot` characters,
/// with the offset and the buffer fill after it. Head moves only change the
/// offset; `+` and `-` add or subtract their count modulo 256 at the offset;
/// an output stores one character whatever its count and flushes a full
/// buffer; an input reads as many characters as its count. A bracket
/// materializes the offset, flushes the buffer and opens or closes a C loop,
/// after which the offset starts again from zero.
pub open spec fn token_lowering(t: Token, off: i32, slot: nat) -> (Seq<CStmt>, i32, nat) {
    match t {
        Token::Left(n) => (Seq::empty(), (off - (n as i32)) as i32, slot),
        Token::Right(n) => (Seq::empty(), (off + (n as i32)) as i32, slot),
        Token::Incr(n) => (seq![CStmt::AddByte { offset: off, byte: (n % 256) as u8 }], off, slot),
        Token::Decr(n) => (seq![CStmt::SubByte { offset: off, byte: (n % 256) as u8 }], off, slot),
        Token::Out(_) => if slot + 1 >= OUT_BUF_LEN {
            (
                seq![
                    CStmt::StoreOut { slot: slot as usize, offset: off },
                    CStmt::Flush { count: (slot + 1) as usize },
                ],
                off,
                0,
            )
        } else {
            (seq![CStmt::StoreOut { slot: slot as usize, offset: off }], off, slot + 1)
        },
        Token::In(n) => (Seq::new(n as nat, |j: int| CStmt::ReadIn { offset: off }), off, slot),
        Token::LoopStart => (shift_if(off) + flush_if(slot) + seq![CStmt::WhileOpen], 0, 0),
        Token::LoopEnd => (shift_if(off) + flush_if(slot) + seq![CStmt::WhileClose], 0, 0),
    }
}

/// The statements that the tokens from index `i` on lower to, one token at
/// a time (see `token_lowering`), followed by a flush of whatever the output
/// buffer holds at the end.
pub open spec fn lower_from(toks: Seq<Token>, i: int, off: i32, slot: nat) -> Seq<CStmt>
    decreases toks.len() - i,
{
    if !(0 <= i < toks.len()) {
        flush_if(slot)
    } else {
        let step = token_lowering(toks[i], off, slot);
        step.0 + lower_from(toks, i + 1, step.1, step.2)
    }
}

/// Whether one token lowers without an arithmetic fault at head offset
/// `off`: a head move keeps the offset in the `i32` range, and a bracket
/// does not materialize `i32::MIN`, whose magnitude does not fit in an `i32`.
pub open spec fn token_ok(t: Token, off: i32) -> bool {
    match t {
        Token::Left(n) => fits_i32(off - (n as i32)),
        Token::Right(n) => fits_i32(off + (n as i32)),
        Token::LoopStart | Token::LoopEnd => off != i32::MIN,
        _ => true,
    }
}

/// Whether the tokens from index `i` on lower without a fault, at head
/// offset `off` with `frames` frames open (the outermost one included):
/// every token comes while a frame is open and lowers without an arithmetic
/// fault (see `token_ok`).
pub open spec fn lower_ok(toks: Seq<Token>, i: int, off: i32, frames: int) -> bool
    decreases toks.len() - i,
{
    if !(0 <= i < toks.len()) {
        true
    } else {
        frames > 0 && token_ok(toks[i], off) && lower_ok(
            toks,
            i + 1,
            token_lowering(toks[i], off, 0).1,
            frames + nesting_delta(toks[i]),
        )
    }
}

proof fn lemma_token_lowering_buffer_safe(t: Token, off: i32, slot: nat)
    requires
        slot < OUT_BUF_LEN,
    ensures
        buffer_safe(token_lowering(t, off, slot).0),
        token_lowering(t, off, slot).2 < OUT_BUF_LEN,
{
    assert(OUT_BUF_LEN == OUT_BUF_SIZE);
    match t {
        Token::LoopStart | Token::LoopEnd => {
            let ws = if t is LoopStart {
                CStmt::WhileOpen
            } else {
                CStmt::WhileClose
            };
            assert(buffer_safe(shift_if(off)));
            assert(buffer_safe(flush_if(slot)));
            assert(buffer_safe(seq![ws]));
            lemma_buffer_safe_concat(shift_if(off), flush_if(slot));
            lemma_buffer_safe_concat(shift_if(off) + flush_if(slot), seq![ws]);
        },
        _ => {},
    }
}

/// The C code that tokens lower to keeps every store into the output buffer
/// inside the buffer, and never flushes nothing or more than a buffer.
pub proof fn lemma_lower_buffer_safe(toks: Seq<Token>, i: int, off: i32, slot: nat)
    requires
        slot < OUT_BUF_LEN,
    ensures
        buffer_safe(lower_from(toks, i, off, slot)),
    decreases toks.len() - i,
{
    assert(OUT_BUF_LEN == OUT_BUF_SIZE);
    if 0 <= i < toks.len() {
        let step = token_lowering(toks[i], off, slot);
        lemma_token_lowering_buffer_safe(toks[i], off, slot);
        lemma_lower_buffer_safe(toks, i + 1, step.1, step.2);
        lemma_buffer_safe_concat(step.0, lower_from(toks, i + 1, step.1, step.2));
    } else {
        assert(buffer_safe(flush_if(slot)));
    }
}

/// How far the statements move the tape pointer in all: the sum of their
/// pointer assignments.
pub open spec fn shift_total(stmts: Seq<CStmt>) -> int
    decreases stmts.len(),
{
    if stmts.len() == 0 {
        0
    } else {
        shift_total(stmts.drop_last()) + match stmts.last() {
            CStmt::ShiftHead { delta } => delta as int,
            _ => 0,
        }
    }
}

/// How far the tokens from index `i` on move the head: their `>` counts
/// minus their `<` counts.
pub open spec fn head_moves_from(toks: Seq<Token>, i: int) -> int
    decreases toks.len() - i,
{
    if !(0 <= i < toks.len()) {
        0
    } else {
        head_moves_from(toks, i + 1) + match toks[i] {
            Token::Right(n) => n as int,
            Token::Left(n) => -(n as int),
            _ => 0,
        }
    }
}

proof fn lemma_shift_total_concat(a: Seq<CStmt>, b: Seq<CStmt>)
    ensures
        shift_total(a + b) == shift_total(a) + shift_total(b),
    decreases b.len(),
{
    if b.len() == 0 {
        assert(a + b == a);
    } else {
        lemma_shift_total_concat(a, b.drop_last());
        assert((a + b).drop_last() == a + b.drop_last());
        assert((a + b).last() == b.last());
    }
}

proof fn lemma_shift_total_none(a: Seq<CStmt>)
    requires
        forall|k: int| 0 <= k < a.len() ==> !(#[trigger] a[k] is ShiftHead),
    ensures
        shift_total(a) == 0,
    decreases a.len(),
{
    if a.len() > 0 {
        assert forall|k: int| 0 <= k < a.len() - 1 implies !(#[trigger] a.drop_last()[k] is ShiftHead) by {
            assert(a.drop_last()[k] == a[k]);
        }
        lemma_shift_total_none(a.drop_last());
        assert(!(a[a.len() - 1] is ShiftHead));
    }
}

proof fn lemma_shift_total_bracket(off: i32, slot: nat, w: CStmt)
    requires
        w == CStmt::WhileOpen || w == CStmt::WhileClose,
    ensures
        shift_total(shift_if(off) + flush_if(slot) + seq![w]) == off,
{
    let e = Seq::<CStmt>::empty();
    assert(shift_total(e) == 0);
    if off != 0 {
        assert(seq![CStmt::ShiftHead { delta: off }].drop_last() == e);
        assert(shift_total(shift_if(off)) == off);
    } else {
        assert(shift_total(shift_if(off)) == 0);
    }
    lemma_shift_total_none(flush_if(slot));
    lemma_shift_total_none(seq![w]);
    lemma_shift_total_concat(shift_if(off), flush_if(slot));
    lemma_shift_total_concat(shift_if(off) + flush_if(slot), seq![w]);
}

proof fn lemma_lower_shifts(toks: Seq<Token>, i: int, off: i32, slot: nat, frames: int)
    requires
        0 <= i < toks.len(),
        toks.last() is LoopStart || toks.last() is LoopEnd,
        counts_fit(toks),
        lower_ok(toks, i, off, frames),
    ensures
        shift_total(lower_from(toks, i, off, slot)) == off + head_moves_from(toks, i),
    decreases toks.len() - i,
{
    let t = toks[i];
    let step = token_lowering(t, off, slot);
    let rest = lower_from(toks, i + 1, step.1, step.2);
    lemma_shift_total_concat(step.0, rest);
    assert(crate::parse::token_count(toks[i]) <= i32::MAX);
    if i == toks.len() - 1 {
        assert(t == toks.last());
        assert(rest == flush_if(step.2));
        lemma_shift_total_none(flush_if(step.2));
        if t is LoopStart {
            lemma_shift_total_bracket(off, slot, CStmt::WhileOpen);
        } else {
            lemma_shift_total_bracket(off, slot, CStmt::WhileClose);
        }
        assert(head_moves_from(toks, i + 1) == 0);
        assert(head_moves_from(toks, i) == 0);
    } else {
        match t {
            Token::LoopStart => {
                lemma_shift_total_bracket(off, slot, CStmt::WhileOpen);
                lemma_lower_shifts(toks, i + 1, 0, 0, frames + 1);
            },
            Token::LoopEnd => {
                lemma_shift_total_bracket(off, slot, CStmt::WhileClose);
                lemma_lower_shifts(toks, i + 1, 0, 0, frames - 1);
            },
            Token::Left(n) => {
                assert(n <= i32::MAX);
                assert((n as i32) as int == n as int);
                assert(step.1 as int == off - n);
                assert(step.0 == Seq::<CStmt>::empty());
                lemma_shift_total_none(step.0);
                lemma_lower_shifts(toks, i + 1, step.1, step.2, frames);
                assert(head_moves_from(toks, i) == head_moves_from(toks, i + 1) - n);
            },
            Token::Right(n) => {
                assert(n <= i32::MAX);
                assert((n as i32) as int == n as int);
                assert(step.1 as int == off + n);
                assert(step.0 == Seq::<CStmt>::empty());
                lemma_shift_total_none(step.0);
                lemma_lower_shifts(toks, i + 1, step.1, step.2, frames);
                assert(head_moves_from(toks, i) == head_moves_from(toks, i + 1) + n);
            },
            _ => {
                assert forall|k: int| 0 <= k < step.0.len() implies !(#[trigger] step.0[k] is ShiftHead) by {}
                lemma_shift_total_none(step.0);
                lemma_lower_shifts(toks, i + 1, step.1, step.2, frames);
            },
        }
    }
}

/// The pointer moves that the lowering writes follow the head with its
/// sign: for tokens that end with a bracket (so that every head move is
/// materialized) and lower without a fault, the pointer assignments of the
/// C code add up to the `>` counts minus the `<` counts of the tokens.
pub proof fn lemma_lower_moves_pointer_with_head(toks: Seq<Token>)
    requires
        toks.len() > 0,
        toks.last() is LoopStart || toks.last() is LoopEnd,
        counts_fit(toks),
        lower_ok(toks, 0, 0, 1),
    ensures
        shift_total(lower_from(toks, 0, 0, 0)) == head_moves_from(toks, 0),
{
    lemma_lower_shifts(toks, 0, 0, 0, 1);
}

proof fn lemma_token_lowering_order(t: Token, off: i32, slot: nat)
    requires
        slot < OUT_BUF_LEN,
    ensures
        buffer_in_order(token_lowering(t, off, slot).0, slot as int),
        pending_after(token_lowering(t, off, slot).0, slot as int) == token_lowering(t, off, slot).2,
{
    assert(OUT_BUF_LEN == OUT_BUF_SIZE);
    let a = token_lowering(t, off, slot).0;
    match t {
        Token::LoopStart | Token::LoopEnd => {
            let ws = if t is LoopStart {
                CStmt::WhileOpen
            } else {
                CStmt::WhileClose
            };
            if off != 0 {
                lemma_buffer_single(CStmt::ShiftHead { delta: off }, slot as int);
            }
            lemma_flush_if_order(slot);
            lemma_buffer_single(ws, 0);
            lemma_buffer_in_order_concat(shift_if(off), flush_if(slot), slot as int);
            lemma_buffer_in_order_concat(shift_if(off) + flush_if(slot), seq![ws], slot as int);
        },
        Token::Out(_) => {
            let st = CStmt::StoreOut { slot: slot as usize, offset: off };
            lemma_buffer_single(st, slot as int);
            if slot + 1 >= OUT_BUF_LEN {
                let fl = CStmt::Flush { count: (slot + 1) as usize };
                lemma_buffer_single(fl, slot as int + 1);
                lemma_buffer_in_order_concat(seq![st], seq![fl], slot as int);
                assert(a == seq![st] + seq![fl]);
            }
        },
        Token::In(n) => {
            assert forall|k: int| 0 <= k < a.len() implies !(#[trigger] a[k] is StoreOut) && !(a[k] is Flush) by {
                assert(a[k] == CStmt::ReadIn { offset: off });
            }
            lemma_buffer_plain(a, slot as int);
        },
        Token::Left(_) | Token::Right(_) => {
            lemma_buffer_plain(a, slot as int);
        },
        _ => {
            lemma_buffer_single(a[0], slot as int);
            assert(a == seq![a[0]]);
        },
    }
}

proof fn lemma_lower_order(toks: Seq<Token>, i: int, off: i32, slot: nat)
    requires
        slot < OUT_BUF_LEN,
    ensures
        buffer_in_order(lower_from(toks, i, off, slot), slot as int),
        pending_after(lower_from(toks, i, off, slot), slot as int) == 0,
    decreases toks.len() - i,
{
    assert(OUT_BUF_LEN == OUT_BUF_SIZE);
    if 0 <= i < toks.len() {
        let step = token_lowering(toks[i], off, slot);
        lemma_token_lowering_order(toks[i], off, slot);
        lemma_token_lowering_buffer_safe(toks[i], off, slot);
        lemma_lower_order(toks, i + 1, step.1, step.2);
        lemma_buffer_in_order_concat(step.0, lower_from(toks, i + 1, step.1, step.2), slot as int);
    } else {
        lemma_flush_if_order(slot);
    }
}

/// The C code that tokens lower to uses the output buffer in order:
/// starting empty, each character is stored in the next free slot, each
/// flush prints exactly the characters stored since the previous one, and
/// nothing is left unprinted at the end.
pub proof fn lemma_lower_output_in_order(toks: Seq<Token>)
    ensures
        buffer_in_order(lower_from(toks, 0, 0, 0), 0),
        pending_after(lower_from(toks, 0, 0, 0), 0) == 0,
{
    lemma_lower_order(toks, 0, 0, 0);
}

/// What the byte additions and subtractions among the statements add to
/// cells in all (added bytes minus subtracted bytes), and how many input
/// reads they hold.
pub open spec fn byte_total_and_reads(stmts: Seq<CStmt>) -> (int, int)
    decreases stmts.len(),
{
    if stmts.len() == 0 {
        (0, 0)
    } else {
        let pre = byte_total_and_reads(stmts.drop_last());
        match stmts.last() {
            CStmt::AddByte { byte, .. } => (pre.0 + byte, pre.1),
            CStmt::SubByte { byte, .. } => (pre.0 - byte, pre.1),
            CStmt::ReadIn { .. } => (pre.0, pre.1 + 1),
            _ => pre,
        }
    }
}

/// The `+` counts minus the `-` counts of the tokens from index `i` on, and
/// the sum of their `,` counts.
pub open spec fn incr_and_reads_from(toks: Seq<Token>, i: int) -> (int, int)
    decreases toks.len() - i,
{
    if !(0 <= i < toks.len()) {
        (0, 0)
    } else {
        let rest = incr_and_reads_from(toks, i + 1);
        match toks[i] {
            Token::Incr(n) => (rest.0 + n, rest.1),
            Token::Decr(n) => (rest.0 - n, rest.1),
            Token::In(n) => (rest.0, rest.1 + n),
            _ => rest,
        }
    }
}

proof fn lemma_bytes_concat(a: Seq<CStmt>, b: Seq<CStmt>)
    ensures
        byte_total_and_reads(a + b).0 == byte_total_and_reads(a).0 + byte_total_and_reads(b).0,
        byte_total_and_reads(a + b).1 == byte_total_and_reads(a).1 + byte_total_and_reads(b).1,
    decreases b.len(),
{
    if b.len() == 0 {
        assert(a + b == a);
    } else {
        lemma_bytes_concat(a, b.drop_last());
        assert((a + b).drop_last() == a + b.drop_last());
        assert((a + b).last() == b.last());
    }
}

proof fn lemma_bytes_single(x: CStmt)
    ensures
        byte_total_and_reads(seq![x]) == match x {
            CStmt::AddByte { byte, .. } => (byte as int, 0int),
            CStmt::SubByte { byte, .. } => (-(byte as int), 0int),
            CStmt::ReadIn { .. } => (0int, 1int),
            _ => (0int, 0int),
        },
{
    assert(seq![x].drop_last() == Seq::<CStmt>::empty());
    assert(seq![x].last() == x);
    assert(byte_total_and_reads(Seq::<CStmt>::empty()) == (0int, 0int));
}

proof fn lemma_bytes_plain(a: Seq<CStmt>)
    requires
        forall|k: int|
            0 <= k < a.len() ==> !(#[trigger] a[k] is AddByte) && !(a[k] is SubByte) && !(
            a[k] is ReadIn),
    ensures
        byte_total_and_reads(a) == (0int, 0int),
    decreases a.len(),
{
    if a.len() > 0 {
        assert forall|k: int|
            0 <= k < a.len() - 1 implies !(#[trigger] a.drop_last()[k] is AddByte) && !(
            a.drop_last()[k] is SubByte) && !(a.drop_last()[k] is ReadIn) by {
            assert(a.drop_last()[k] == a[k]);
        }
        lemma_bytes_plain(a.drop_last());
        assert(a.last() == a[a.len() - 1]);
    }
}

proof fn lemma_reads_repeat(n: nat, st: CStmt)
    requires
        st is ReadIn,
    ensures
        byte_total_and_reads(Seq::new(n, |j: int| st)) == (0int, n as int),
    decreases n,
{
    if n > 0 {
        lemma_reads_repeat((n - 1) as nat, st);
        assert(Seq::new(n, |j: int| st).drop_last() == Seq::new((n - 1) as nat, |j: int| st));
    }
}

proof fn lemma_lower_bytes(toks: Seq<Token>, i: int, off: i32, slot: nat)
    ensures
        byte_total_and_reads(lower_from(toks, i, off, slot)).0 % 256 == incr_and_reads_from(toks, i).0
            % 256,
        byte_total_and_reads(lower_from(toks, i, off, slot)).1 == incr_and_reads_from(toks, i).1,
    decreases toks.len() - i,
{
    if 0 <= i < toks.len() {
        let t = toks[i];
        let step = token_lowering(t, off, slot);
        let rest = lower_from(toks, i + 1, step.1, step.2);
        lemma_lower_bytes(toks, i + 1, step.1, step.2);
        lemma_bytes_concat(step.0, rest);
        let r = byte_total_and_reads(rest).0;
        let q = incr_and_reads_from(toks, i + 1).0;
        match t {
            Token::Incr(n) => {
                lemma_bytes_single(step.0[0]);
                assert(step.0 == seq![step.0[0]]);
                vstd::arithmetic::div_mod::lemma_add_mod_noop(n as int % 256, r, 256);
                vstd::arithmetic::div_mod::lemma_add_mod_noop(n as int, q, 256);
                vstd::arithmetic::div_mod::lemma_mod_twice(n as int, 256);
            },
            Token::Decr(n) => {
                lemma_bytes_single(step.0[0]);
                assert(step.0 == seq![step.0[0]]);
                vstd::arithmetic::div_mod::lemma_add_mod_noop(-(n as int % 256), r, 256);
                vstd::arithmetic::div_mod::lemma_add_mod_noop(-(n as int), q, 256);
                vstd::arithmetic::div_mod::lemma_sub_mod_noop(0, n as int % 256, 256);
                vstd::arithmetic::div_mod::lemma_sub_mod_noop(0, n as int, 256);
                vstd::arithmetic::div_mod::lemma_mod_twice(n as int, 256);
            },
            Token::In(n) => {
                lemma_reads_repeat(n as nat, CStmt::ReadIn { offset: off });
            },
            Token::Out(_) => {
                lemma_bytes_plain(step.0);
            },
            Token::Left(_) | Token::Right(_) => {
                lemma_bytes_plain(step.0);
            },
            _ => {
                lemma_bytes_plain(step.0);
            },
        }
    } else {
        lemma_bytes_plain(flush_if(slot));
    }
}

/// The C code that tokens lower to changes cells by what the tokens add:
/// its byte additions minus its byte subtractions come to the `+` counts
/// minus the `-` counts of the tokens, modulo 256, and it reads input once
/// for each `,` command.
pub proof fn lemma_lower_keeps_increments_and_reads(toks: Seq<Token>)
    ensures
        byte_total_and_reads(lower_from(toks, 0, 0, 0)).0 % 256 == incr_and_reads_from(toks, 0).0 % 256,
        byte_total_and_reads(lower_from(toks, 0, 0, 0)).1 == incr_and_reads_from(toks, 0).1,
{
    lemma_lower_bytes(toks, 0, 0, 0);
}

/// Appends one statement to `c`, whose text so far is that of `done`.
fn emit_stmt(c: &mut String, st: CStmt, Ghost(done): Ghost<Seq<CStmt>>)
    requires
        old(c)@ == c_text(done),
    ensures
        final(c)@ == c_text(done.push(st)),
{
    emit(c, &st);
    proof {
        lemma_c_text_push(done, st);
    }
}

/// Appends the statements of one token to `c`, whose text so far is that of
/// `done`; returns the head offset and the buffer fill after the token.
fn lower_token(c: &mut String, t: &Token, off: i32, slot: usize, Ghost(done): Ghost<Seq<CStmt>>) -> (r: (i32, usize))
    requires
        old(c)@ == c_text(done),
        token_ok(*t, off),
        slot < OUT_BUF_LEN,
    ensures
        final(c)@ == c_text(done + token_lowering(*t, off, slot as nat).0),
        r.0 == token_lowering(*t, off, slot as nat).1,
        r.1 == token_lowering(*t, off, slot as nat).2,
        r.1 < OUT_BUF_LEN,
{
    let ghost step = token_lowering(*t, off, slot as nat);
    match t {
        Token::Left(num) => {
            assert(done + step.0 == done);
            (off - (#[verifier::truncate] (*num as i32)), slot)
        },
        Token::Right(num) => {
            assert(done + step.0 == done);
            (off + (#[verifier::truncate] (*num as i32)), slot)
        },
        Token::Incr(num) => {
            let st = CStmt::AddByte { offset: off, byte: (*num % 256) as u8 };
            emit_stmt(c, st, Ghost(done));
            assert(done.push(st) == done + step.0);
            (off, slot)
        },
        Token::Decr(num) => {
            let st = CStmt::SubByte { offset: off, byte: (*num % 256) as u8 };
            emit_stmt(c, st, Ghost(done));
            assert(done.push(st) == done + step.0);
            (off, slot)
        },
        Token::Out(_) => {
            let st = CStmt::StoreOut { slot, offset: off };
            emit_stmt(c, st, Ghost(done));
            let next = slot + 1;
            if next >= OUT_BUF_LEN {
                let fl = CStmt::Flush { count: next };
                emit_stmt(c, fl, Ghost(done.push(st)));
                assert(done.push(st).push(fl) == done + step.0);
                (off, 0)
            } else {
                assert(done.push(st) == done + step.0);
                (off, next)
            }
        },
        Token::In(num) => {
            let mut j: u32 = 0;
            let ghost mut d = done;
            assert(d == done + Seq::new(0 as nat, |k: int| CStmt::ReadIn { offset: off }));
            while j < *num
                invariant
                    j <= *num,
                    c@ == c_text(d),
                    d == done + Seq::new(j as nat, |k: int| CStmt::ReadIn { offset: off }),
                decreases *num - j,
            {
                let st = CStmt::ReadIn { offset: off };
                emit_stmt(c, st, Ghost(d));
                proof {
                    assert(done + Seq::new((j + 1) as nat, |k: int| CStmt::ReadIn { offset: off })
                        == d.push(st));
                    d = d.push(st);
                }
                j = j + 1;
            }
            (off, slot)
        },
        Token::LoopStart | Token::LoopEnd => {
            let ghost mut d = done;
            if off != 0 {
                let st = CStmt::ShiftHead { delta: off };
                emit_stmt(c, st, Ghost(d));
                proof {
                    d = d.push(st);
                }
            }
            assert(d == done + shift_if(off));
            if slot > 0 {
                let st = CStmt::Flush { count: slot };
                emit_stmt(c, st, Ghost(d));
                proof {
                    d = d.push(st);
                }
            }
            assert(d == done + shift_if(off) + flush_if(slot as nat));
            let st = if let Token::LoopStart = t {
                CStmt::WhileOpen
            } else {
                CStmt::WhileClose
            };
            emit_stmt(c, st, Ghost(d));
            assert(d.push(st) == done + step.0);
            (0, 0)
        },
    }
}

/// Lowers tokens straight to the body of a C program, without building the
/// intermediate representation: see `lower_from`. Returns `None` exactly
/// when the lowering faults (see `lower_ok`): a token after a `]` that
/// closed the outermost frame, a head offset out of the `i32` range, or an
/// offset of `i32::MIN` to materialize.
pub fn lower_tokens(toks: &[Token]) -> (r: Option<String>)
    ensures
        r is Some <==> lower_ok(toks@, 0, 0, 1),
        r matches Some(c) ==> c@ == c_text(lower_from(toks@, 0, 0, 0)),
{
    let mut c = String::new();
    let mut off: i32 = 0;
    let mut slot: usize = 0;
    // Loops open inside the outermost frame, and whether a `]` has closed
    // the outermost frame itself.
    let mut open: usize = 0;
    let mut outer_closed = false;
    let mut i: usize = 0;
    let ghost mut done: Seq<CStmt> = Seq::empty();
    while i < toks.len()
        invariant
            i <= toks@.len(),
            open <= i,
            slot < OUT_BUF_LEN,
            c@ == c_text(done),
            done + lower_from(toks@, i as int, off, slot as nat) == lower_from(toks@, 0, 0, 0),
            lower_ok(toks@, 0, 0, 1) == lower_ok(
                toks@,
                i as int,
                off,
                if outer_closed {
                    0
                } else {
                    open + 1
                },
            ),
        decreases toks@.len() - i,
    {
        if outer_closed {
            return None;
        }
        let t = &toks[i];
        let fits = match t {
            Token::Left(num) => {
                let d: i32 = #[verifier::truncate] (*num as i32);
                !(d < 0 && off > i32::MAX + d || d > 0 && off < i32::MIN + d)
            },
            Token::Right(num) => {
                let d: i32 = #[verifier::truncate] (*num as i32);
                !(d > 0 && off > i32::MAX - d || d < 0 && off < i32::MIN - d)
            },
            Token::LoopStart | Token::LoopEnd => off != i32::MIN,
            _ => true,
        };
        if !fits {
            return None;
        }
        let ghost step = token_lowering(*t, off, slot as nat);
        let (next_off, next_slot) = lower_token(&mut c, t, off, slot, Ghost(done));
        proof {
            assert(done + lower_from(toks@, i as int, off, slot as nat) == (done + step.0)
                + lower_from(toks@, i as int + 1, step.1, step.2));
            done = done + step.0;
        }
        match t {
            Token::LoopStart => {
                open = open + 1;
            },
            Token::LoopEnd => {
                if open == 0 {
                    outer_closed = true;
                } else {
                    open = open - 1;
                }
            },
            _ => {},
        }
        off = next_off;
        slot = next_slot;
        i = i + 1;
    }
    if slot > 0 {
        let st = CStmt::Flush { count: slot };
        emit_stmt(&mut c, st, Ghost(done));
        proof {
            done = done.push(st);
        }
    }
    assert(done == lower_from(toks@, 0, 0, 0));
    Some(c)
}

} // verus!
