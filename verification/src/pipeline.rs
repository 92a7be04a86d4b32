use vstd::prelude::*;

use crate::anal::{conv, conv_fits, lemma_conv_end};
use crate::c_text::c_text;
use crate::fits::{check_c_fits, check_frame_fits, check_mul_opt_fits};
use crate::opt::{
    block_stmts, clone_ops, construct_ir, opt_mul_loops, opt_remove_frontmatter, view_ops,
    write_ir_body_to_c, IrOp, c_fits, delta_at, deltas_fit, drop_loops, first_writer, fits_i32, frame_fits, frame_ops,
    incr_deltas, incr_up_to, is_mul_loop, lemma_mul_moves_loop_free, mul_moves, mul_opt_fits,
    mul_opt_op, mul_opt_ops, mul_replacement, mul_targets_fit, op_c_fits, op_mul_opt_fits,
    scan_fits, sorted_entries, strip_ir_frontmatter, IrNode,
};
use crate::parse::{lemma_loop_close_bounds, loop_close, Token};

verus! {

/// Magnitude of an integer.
pub open spec fn abs_int(x: int) -> int {
    if x < 0 {
        -x
    } else {
        x
    }
}

/// Total head movement of the tokens: the counts of all `<` and `>` runs.
pub open spec fn moves_total(toks: Seq<Token>) -> int
    decreases toks.len(),
{
    if toks.len() == 0 {
        0
    } else {
        moves_total(toks.drop_last()) + match toks.last() {
            Token::Left(n) => n as int,
            Token::Right(n) => n as int,
            _ => 0,
        }
    }
}

/// Total increment of the tokens: the counts of all `+` and `-` runs.
pub open spec fn incdec_total(toks: Seq<Token>) -> int
    decreases toks.len(),
{
    if toks.len() == 0 {
        0
    } else {
        incdec_total(toks.drop_last()) + match toks.last() {
            Token::Incr(n) => n as int,
            Token::Decr(n) => n as int,
            _ => 0,
        }
    }
}

/// The tokens are few enough, and move the head and change cells little
/// enough, for every offset and every sum of increments that building,
/// optimizing and printing them computes to stay in the `i32` range.
pub open spec fn tokens_in_range(toks: Seq<Token>) -> bool {
    &&& toks.len() <= usize::MAX / 2
    &&& 4 * moves_total(toks) <= i32::MAX
    &&& incdec_total(toks) <= i32::MAX
}

/// Total magnitude of the increments of a block (its loops' bodies not
/// counted).
pub open spec fn incr_mass(ops: Seq<IrNode>) -> int
    decreases ops.len(),
{
    if ops.len() == 0 {
        0
    } else {
        incr_mass(ops.drop_last()) + match ops.last() {
            IrNode::Incr { val, .. } => abs_int(val as int),
            _ => 0,
        }
    }
}

/// Every increment of the block, at any depth, adds at most `n` in
/// magnitude at an offset of magnitude at most `m`; every loop moves the
/// head by at most `m` and its body's increments add up to at most `n`.
pub open spec fn ir_bounded(ops: Seq<IrNode>, m: int, n: int) -> bool
    decreases ops,
{
    if ops.len() == 0 {
        true
    } else {
        ir_bounded(ops.drop_last(), m, n) && op_bounded(ops.last(), m, n)
    }
}

/// One operation meets the bounds of `ir_bounded`.
pub open spec fn op_bounded(op: IrNode, m: int, n: int) -> bool
    decreases op,
{
    match op {
        IrNode::Incr { val, offset } => abs_int(val as int) <= n && abs_int(offset as int) <= m,
        IrNode::Loop { move_head_prior, move_head_after_iter, body } => {
            &&& abs_int(move_head_prior as int) <= m
            &&& abs_int(move_head_after_iter as int) <= m
            &&& incr_mass(body) <= n
            &&& ir_bounded(body, m, n)
        },
        _ => true,
    }
}

proof fn lemma_totals_prefix(toks: Seq<Token>, i: int, j: int)
    requires
        0 <= i <= j <= toks.len(),
    ensures
        0 <= moves_total(toks.take(i)) <= moves_total(toks.take(j)),
        0 <= incdec_total(toks.take(i)) <= incdec_total(toks.take(j)),
    decreases j - i,
{
    if i == j {
        lemma_totals_nonneg(toks.take(i));
    } else {
        lemma_totals_prefix(toks, i, j - 1);
        assert(toks.take(j).drop_last() == toks.take(j - 1));
    }
}

proof fn lemma_totals_nonneg(toks: Seq<Token>)
    ensures
        moves_total(toks) >= 0,
        incdec_total(toks) >= 0,
    decreases toks.len(),
{
    if toks.len() > 0 {
        lemma_totals_nonneg(toks.drop_last());
    }
}

proof fn lemma_totals_step(toks: Seq<Token>, i: int)
    requires
        0 <= i < toks.len(),
    ensures
        moves_total(toks.take(i + 1)) == moves_total(toks.take(i)) + match toks[i] {
            Token::Left(n) => n as int,
            Token::Right(n) => n as int,
            _ => 0,
        },
        incdec_total(toks.take(i + 1)) == incdec_total(toks.take(i)) + match toks[i] {
            Token::Incr(n) => n as int,
            Token::Decr(n) => n as int,
            _ => 0,
        },
{
    assert(toks.take(i + 1).drop_last() == toks.take(i));
}

proof fn lemma_incr_mass_front(op: IrNode, rest: Seq<IrNode>)
    ensures
        incr_mass(seq![op] + rest) == incr_mass(rest) + match op {
            IrNode::Incr { val, .. } => abs_int(val as int),
            _ => 0,
        },
    decreases rest.len(),
{
    if rest.len() == 0 {
        assert(seq![op] + rest == seq![op]);
        assert(seq![op].drop_last() == Seq::<IrNode>::empty());
        assert(incr_mass(Seq::<IrNode>::empty()) == 0);
        assert(seq![op].last() == op);
    } else {
        lemma_incr_mass_front(op, rest.drop_last());
        assert((seq![op] + rest).drop_last() == seq![op] + rest.drop_last());
        assert((seq![op] + rest).last() == rest.last());
    }
}

proof fn lemma_ir_bounded_front(op: IrNode, rest: Seq<IrNode>, m: int, n: int)
    ensures
        ir_bounded(seq![op] + rest, m, n) == (op_bounded(op, m, n) && ir_bounded(rest, m, n)),
    decreases rest.len(),
{
    if rest.len() == 0 {
        assert(seq![op] + rest == seq![op]);
        assert(seq![op].drop_last() == Seq::<IrNode>::empty());
        assert(ir_bounded(Seq::<IrNode>::empty(), m, n));
        assert(seq![op].last() == op);
    } else {
        lemma_ir_bounded_front(op, rest.drop_last(), m, n);
        assert((seq![op] + rest).drop_last() == seq![op] + rest.drop_last());
        assert((seq![op] + rest).last() == rest.last());
    }
}

/// Building a block from tokens in range: the head offsets fit, the block
/// meets the bounds of the whole token sequence, its increments add up to at
/// most the increments of the tokens it is built from, and its final head
/// offset is bounded by the movement so far.
proof fn lemma_frame_bounds(toks: Seq<Token>, i: int, head: i32)
    requires
        0 <= i <= toks.len(),
        4 * moves_total(toks) <= i32::MAX,
        incdec_total(toks) <= i32::MAX,
        abs_int(head as int) <= moves_total(toks.take(i)),
    ensures
        frame_fits(toks, i, head),
        ir_bounded(frame_ops(toks, i, head).0, moves_total(toks), incdec_total(toks)),
        incr_mass(frame_ops(toks, i, head).0) <= incdec_total(toks) - incdec_total(toks.take(i)),
        abs_int(frame_ops(toks, i, head).1 as int) <= moves_total(toks),
    decreases toks.len() + 1 - i,
{
    let mt = moves_total(toks);
    let it = incdec_total(toks);
    assert(toks.take(toks.len() as int) == toks);
    lemma_totals_prefix(toks, i, toks.len() as int);
    if i < toks.len() {
        lemma_totals_step(toks, i);
        lemma_totals_prefix(toks, i + 1, toks.len() as int);
        match toks[i] {
            Token::Left(n) => {
                lemma_frame_bounds(toks, i + 1, (head - (n as i32)) as i32);
            },
            Token::Right(n) => {
                lemma_frame_bounds(toks, i + 1, (head + (n as i32)) as i32);
            },
            Token::Incr(n) => {
                lemma_frame_bounds(toks, i + 1, head);
                let rest = frame_ops(toks, i + 1, head).0;
                let op = IrNode::Incr { val: n as i32, offset: head };
                lemma_incr_mass_front(op, rest);
                lemma_ir_bounded_front(op, rest, mt, it);
            },
            Token::Decr(n) => {
                lemma_frame_bounds(toks, i + 1, head);
                let rest = frame_ops(toks, i + 1, head).0;
                let op = IrNode::Incr { val: (-(n as i32)) as i32, offset: head };
                lemma_incr_mass_front(op, rest);
                lemma_ir_bounded_front(op, rest, mt, it);
            },
            Token::Out(n) => {
                lemma_frame_bounds(toks, i + 1, head);
                let rest = frame_ops(toks, i + 1, head).0;
                let op = IrNode::Output { count: n, offset: head };
                lemma_incr_mass_front(op, rest);
                lemma_ir_bounded_front(op, rest, mt, it);
            },
            Token::In(n) => {
                lemma_frame_bounds(toks, i + 1, head);
                let rest = frame_ops(toks, i + 1, head).0;
                let op = IrNode::Input { count: n, offset: head };
                lemma_incr_mass_front(op, rest);
                lemma_ir_bounded_front(op, rest, mt, it);
            },
            Token::LoopStart => {
                lemma_loop_close_bounds(toks, i + 1, 1);
                let e = loop_close(toks, i + 1, 1);
                lemma_frame_bounds(toks, i + 1, 0);
                let inner = frame_ops(toks, i + 1, 0);
                if e + 1 <= toks.len() {
                    lemma_totals_prefix(toks, i + 1, e + 1);
                    lemma_frame_bounds(toks, e + 1, 0);
                    lemma_totals_prefix(toks, e + 1, toks.len() as int);
                }
                let rest = frame_ops(toks, e + 1, 0).0;
                let op = IrNode::Loop {
                    move_head_prior: head,
                    move_head_after_iter: inner.1,
                    body: inner.0,
                };
                lemma_incr_mass_front(op, rest);
                lemma_ir_bounded_front(op, rest, mt, it);
            },
            Token::LoopEnd => {},
        }
    }
}

proof fn lemma_incr_mass_nonneg(ops: Seq<IrNode>)
    ensures
        incr_mass(ops) >= 0,
    decreases ops.len(),
{
    if ops.len() > 0 {
        lemma_incr_mass_nonneg(ops.drop_last());
    }
}

proof fn lemma_incr_mass_prefix(ops: Seq<IrNode>, k: int)
    requires
        0 <= k <= ops.len(),
    ensures
        0 <= incr_mass(ops.take(k)) <= incr_mass(ops),
    decreases ops.len() - k,
{
    if k == ops.len() {
        assert(ops.take(k) == ops);
        lemma_incr_mass_nonneg(ops);
    } else {
        lemma_incr_mass_prefix(ops, k + 1);
        assert(ops.take(k + 1).drop_last() == ops.take(k));
        lemma_incr_mass_nonneg(ops.take(k));
    }
}

/// The running totals of a block's increments are bounded by the total
/// magnitude of its increments, so they fit when that total does.
proof fn lemma_deltas_bounded(ops: Seq<IrNode>)
    requires
        incr_mass(ops) <= i32::MAX,
    ensures
        deltas_fit(ops),
        forall|k: i32| #[trigger] incr_deltas(ops).contains_key(k) ==> abs_int(
            incr_deltas(ops)[k] as int,
        ) <= incr_mass(ops),
    decreases ops.len(),
{
    if ops.len() > 0 {
        let d = ops.drop_last();
        lemma_incr_mass_nonneg(d);
        lemma_deltas_bounded(d);
        let m = incr_deltas(d);
        match ops.last() {
            IrNode::Incr { val, offset } => {
                let prev = delta_at(m, offset);
                assert(abs_int(prev) <= incr_mass(d));
                assert(fits_i32(prev + val));
            },
            _ => {},
        }
    }
}

/// The offsets that a block's increments touch are offsets of its increments.
proof fn lemma_delta_keys_bounded(ops: Seq<IrNode>, m: int, n: int)
    requires
        ir_bounded(ops, m, n),
    ensures
        forall|k: i32| #[trigger] incr_deltas(ops).contains_key(k) ==> abs_int(k as int) <= m,
    decreases ops.len(),
{
    if ops.len() > 0 {
        lemma_delta_keys_bounded(ops.drop_last(), m, n);
        assert(op_bounded(ops.last(), m, n));
        let d = incr_deltas(ops.drop_last());
        assert forall|k: i32| #[trigger] incr_deltas(ops).contains_key(k) implies abs_int(k as int) <= m by {
            match ops.last() {
                IrNode::Incr { val, offset } => {
                    if k != offset {
                        assert(d.contains_key(k));
                    }
                },
                _ => {
                    assert(d.contains_key(k));
                },
            }
        }
    }
}

/// A bounded block stays in the `i32` range when its multiplication loops
/// are replaced and when it is printed.
proof fn lemma_bounded_fits(ops: Seq<IrNode>, m: int, n: int)
    requires
        ir_bounded(ops, m, n),
        0 <= 2 * m <= i32::MAX,
        0 <= n <= i32::MAX,
    ensures
        mul_opt_fits(ops),
        c_fits(ops),
    decreases ops, 1nat,
{
    if ops.len() > 0 {
        lemma_bounded_fits(ops.drop_last(), m, n);
        lemma_op_bounded_fits(ops.last(), m, n);
    }
}

proof fn lemma_op_bounded_fits(op: IrNode, m: int, n: int)
    requires
        op_bounded(op, m, n),
        0 <= 2 * m <= i32::MAX,
        0 <= n <= i32::MAX,
    ensures
        op_mul_opt_fits(op),
        op_c_fits(op),
    decreases op, 0nat,
{
    match op {
        IrNode::Loop { move_head_prior, move_head_after_iter, body } => {
            lemma_bounded_fits(body, m, n);
            assert forall|k: int| 0 <= k <= body.len() && incr_up_to(body, k) implies #[trigger] deltas_fit(
                body.take(k),
            ) by {
                lemma_incr_mass_prefix(body, k);
                lemma_deltas_bounded(body.take(k));
            }
            assert(scan_fits(body));
            lemma_delta_keys_bounded(body, m, n);
            assert(mul_targets_fit(body, move_head_prior));
        },
        _ => {},
    }
}

proof fn lemma_c_fits_concat(a: Seq<IrNode>, b: Seq<IrNode>)
    requires
        c_fits(a),
        c_fits(b),
    ensures
        c_fits(a + b),
    decreases b.len(),
{
    if b.len() == 0 {
        assert(a + b == a);
    } else {
        lemma_c_fits_concat(a, b.drop_last());
        assert((a + b).drop_last() == a + b.drop_last());
        assert((a + b).last() == b.last());
    }
}

proof fn lemma_c_fits_elements(ops: Seq<IrNode>)
    requires
        forall|t: int| 0 <= t < ops.len() ==> op_c_fits(#[trigger] ops[t]),
    ensures
        c_fits(ops),
    decreases ops.len(),
{
    if ops.len() > 0 {
        let d = ops.drop_last();
        assert forall|t: int| 0 <= t < d.len() implies op_c_fits(#[trigger] d[t]) by {
            assert(d[t] == ops[t]);
        }
        lemma_c_fits_elements(d);
        assert(op_c_fits(ops[ops.len() - 1]));
    }
}

/// Replacing multiplication loops keeps a block printable.
proof fn lemma_mul_opt_c_fits(ops: Seq<IrNode>)
    requires
        c_fits(ops),
    ensures
        c_fits(mul_opt_ops(ops)),
    decreases ops, 1nat,
{
    if ops.len() > 0 {
        lemma_mul_opt_c_fits(ops.drop_last());
        lemma_mul_opt_op_c_fits(ops.last());
        lemma_c_fits_concat(mul_opt_ops(ops.drop_last()), mul_opt_op(ops.last()));
    } else {
        assert(mul_opt_ops(ops) == Seq::<IrNode>::empty());
    }
}

proof fn lemma_mul_opt_op_c_fits(op: IrNode)
    requires
        op_c_fits(op),
    ensures
        c_fits(mul_opt_op(op)),
    decreases op, 0nat,
{
    match op {
        IrNode::Loop { move_head_prior, move_head_after_iter, body } => {
            if is_mul_loop(body) {
                let es = sorted_entries(incr_deltas(body));
                let r = mul_replacement(body, move_head_prior);
                lemma_mul_moves_loop_free(es, move_head_prior);
                assert forall|t: int| 0 <= t < r.len() implies op_c_fits(#[trigger] r[t]) by {
                    if t < mul_moves(es, move_head_prior).len() {
                        assert(r[t] == mul_moves(es, move_head_prior)[t]);
                    }
                }
                lemma_c_fits_elements(r);
            } else {
                lemma_mul_opt_c_fits(body);
                let l = IrNode::Loop {
                    move_head_prior,
                    move_head_after_iter,
                    body: mul_opt_ops(body),
                };
                assert(op_c_fits(l));
                assert(mul_opt_op(op) == seq![l]);
                assert(seq![l][0] == l);
                lemma_c_fits_elements(seq![l]);
            }
        },
        _ => {
            assert(mul_opt_op(op) == seq![op]);
            assert(seq![op][0] == op);
            lemma_c_fits_elements(seq![op]);
        },
    }
}

/// A block is bounded exactly when each of its operations is.
proof fn lemma_ir_bounded_elements(ops: Seq<IrNode>, m: int, n: int)
    ensures
        ir_bounded(ops, m, n) <==> forall|t: int| 0 <= t < ops.len() ==> op_bounded(#[trigger] ops[t], m, n),
    decreases ops.len(),
{
    if ops.len() > 0 {
        let d = ops.drop_last();
        lemma_ir_bounded_elements(d, m, n);
        assert forall|t: int| 0 <= t < d.len() implies d[t] == ops[t] by {}
        if forall|t: int| 0 <= t < ops.len() ==> op_bounded(#[trigger] ops[t], m, n) {
            assert(op_bounded(ops[ops.len() - 1], m, n));
        }
        if ir_bounded(ops, m, n) {
            assert forall|t: int| 0 <= t < ops.len() implies op_bounded(#[trigger] ops[t], m, n) by {
                if t < d.len() {
                    assert(op_bounded(d[t], m, n));
                }
            }
        }
    }
}

proof fn lemma_drop_loops_elements(s: Seq<IrNode>)
    ensures
        forall|i: int| 0 <= i < drop_loops(s).len() ==> exists|j: int|
            0 <= j < s.len() && #[trigger] drop_loops(s)[i] == s[j],
    decreases s.len(),
{
    if s.len() > 0 {
        let d = s.drop_last();
        lemma_drop_loops_elements(d);
        let r = drop_loops(s);
        assert forall|i: int| 0 <= i < r.len() implies exists|j: int|
            0 <= j < s.len() && #[trigger] r[i] == s[j] by {
            if i < drop_loops(d).len() {
                let j = choose|j: int| 0 <= j < d.len() && drop_loops(d)[i] == d[j];
                assert(r[i] == drop_loops(d)[i]);
                assert(s[j] == d[j]);
            } else {
                assert(r[i] == s[s.len() - 1]);
            }
        }
    }
}

/// Dropping the loops in front keeps a block bounded.
proof fn lemma_strip_bounded(ops: Seq<IrNode>, m: int, n: int)
    requires
        ir_bounded(ops, m, n),
    ensures
        ir_bounded(strip_ir_frontmatter(ops), m, n),
{
    crate::opt::lemma_first_writer(ops);
    let fw = first_writer(ops);
    let pre = ops.take(fw);
    let a = drop_loops(pre);
    let b = ops.skip(fw);
    let r = a + b;
    lemma_ir_bounded_elements(ops, m, n);
    lemma_drop_loops_elements(pre);
    assert forall|t: int| 0 <= t < r.len() implies op_bounded(#[trigger] r[t], m, n) by {
        if t < a.len() {
            let j = choose|j: int| 0 <= j < pre.len() && a[t] == pre[j];
            assert(r[t] == a[t]);
            assert(pre[j] == ops[j]);
        } else {
            assert(r[t] == b[t - a.len()]);
            assert(b[t - a.len()] == ops[fw + t - a.len()]);
        }
    }
    lemma_ir_bounded_elements(r, m, n);
}

/// Converting tokens whose total head movement fits in an `i64` keeps every
/// head offset in range.
proof fn lemma_conv_bounds(toks: Seq<Token>, i: int, off: int)
    requires
        0 <= i <= toks.len(),
        moves_total(toks) <= i64::MAX,
        abs_int(off) <= moves_total(toks.take(i)),
    ensures
        conv_fits(toks, i, off),
    decreases toks.len() + 1 - i,
{
    assert(toks.take(toks.len() as int) == toks);
    lemma_totals_prefix(toks, i, toks.len() as int);
    if i < toks.len() {
        lemma_totals_step(toks, i);
        lemma_totals_prefix(toks, i + 1, toks.len() as int);
        match toks[i] {
            Token::Left(n) => lemma_conv_bounds(toks, i + 1, off - n),
            Token::Right(n) => lemma_conv_bounds(toks, i + 1, off + n),
            Token::LoopStart => {
                lemma_conv_bounds(toks, i + 1, 0);
                lemma_conv_end(toks, i + 1, 0);
                let e = conv(toks, i + 1, 0).2;
                if e < toks.len() && e >= i {
                    lemma_totals_prefix(toks, i, e + 1);
                    lemma_conv_bounds(toks, e + 1, off);
                }
            },
            Token::LoopEnd => {},
            _ => lemma_conv_bounds(toks, i + 1, off),
        }
    }
}

/// Tokens in range can be converted for analysis from the first token on.
pub proof fn lemma_in_range_converts(toks: Seq<Token>)
    requires
        tokens_in_range(toks),
    ensures
        conv_fits(toks, 0, 0),
{
    assert(toks.take(0) == Seq::<Token>::empty());
    lemma_conv_bounds(toks, 0, 0);
}

/// Whether the tokens are in range for building, optimizing and printing
/// (see `tokens_in_range`).
pub fn check_tokens_in_range(toks: &[Token]) -> (r: bool)
    ensures
        r == tokens_in_range(toks@),
{
    if toks.len() > usize::MAX / 2 {
        return false;
    }
    let mut moves: u64 = 0;
    let mut incdec: u64 = 0;
    let mut i: usize = 0;
    assert(toks@.take(0) == Seq::<Token>::empty());
    while i < toks.len()
        invariant
            0 <= i <= toks@.len() <= usize::MAX / 2,
            moves as int == moves_total(toks@.take(i as int)),
            incdec as int == incdec_total(toks@.take(i as int)),
            4 * moves <= i32::MAX,
            incdec <= i32::MAX,
        decreases toks@.len() - i,
    {
        proof {
            lemma_totals_step(toks@, i as int);
            lemma_totals_prefix(toks@, i as int + 1, toks@.len() as int);
            assert(toks@.take(toks@.len() as int) == toks@);
        }
        match &toks[i] {
            Token::Left(n) | Token::Right(n) => {
                moves = moves + *n as u64;
            },
            Token::Incr(n) | Token::Decr(n) => {
                incdec = incdec + *n as u64;
            },
            _ => {},
        }
        if 4 * moves > 2147483647u64 || incdec > 2147483647u64 {
            return false;
        }
        i = i + 1;
    }
    assert(toks@.take(toks@.len() as int) == toks@);
    true
}

/// Whether building, optimizing and printing the block of the whole token
/// sequence stays in range: the block can be built (`frame_fits`), the
/// search for multiplication loops in it fits once its leading loops are
/// dropped (`mul_opt_fits`), and the result can be printed (`c_fits`).
pub open spec fn compiles(toks: Seq<Token>) -> bool {
    let ir = strip_ir_frontmatter(frame_ops(toks, 0, 0).0);
    &&& frame_fits(toks, 0, 0)
    &&& mul_opt_fits(ir)
    &&& c_fits(mul_opt_ops(ir))
}

/// Tokens in range always compile: moderate head movement and increments
/// keep every pass in the `i32` range.
pub proof fn lemma_in_range_compiles(toks: Seq<Token>)
    requires
        tokens_in_range(toks),
    ensures
        compiles(toks),
{
    let v = frame_ops(toks, 0, 0).0;
    assert(toks.take(0) == Seq::<Token>::empty());
    lemma_frame_bounds(toks, 0, 0);
    lemma_strip_bounded(v, moves_total(toks), incdec_total(toks));
    lemma_totals_nonneg(toks);
    lemma_bounded_fits(strip_ir_frontmatter(v), moves_total(toks), incdec_total(toks));
    lemma_mul_opt_c_fits(strip_ir_frontmatter(v));
}

/// Compiles tokens to the body of the C program: builds the block of the
/// whole token sequence, drops the loops in front of its first cell write,
/// replaces its multiplication loops, and prints the result. Returns the
/// block as first built and the text, or `None` exactly when a pass would
/// leave the `i32` range (see `compiles`).
pub fn compile_tokens(toks: &[Token]) -> (r: Option<(Vec<IrOp>, String)>)
    requires
        toks@.len() <= usize::MAX / 2,
    ensures
        r is Some <==> compiles(toks@),
        r matches Some(p) ==> {
            &&& view_ops(p.0@) == frame_ops(toks@, 0, 0).0
            &&& p.1@ == c_text(block_stmts(mul_opt_ops(strip_ir_frontmatter(frame_ops(toks@, 0, 0).0))))
        },
{
    if !check_frame_fits(toks) {
        return None;
    }
    let mut idx: usize = 0;
    let (ir_root, _) = construct_ir(toks, &mut idx);
    let mut opt_ir = clone_ops(&ir_root);
    opt_remove_frontmatter(&mut opt_ir);
    if !check_mul_opt_fits(opt_ir.as_slice()) {
        return None;
    }
    opt_mul_loops(&mut opt_ir);
    if !check_c_fits(opt_ir.as_slice()) {
        return None;
    }
    let mut c = String::new();
    write_ir_body_to_c(&mut c, opt_ir.as_slice());
    assert(c@ == Seq::<char>::empty() + c_text(block_stmts(view_ops(opt_ir@))));
    Some((ir_root, c))
}

} // verus!
