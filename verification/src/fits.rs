use std::collections::BTreeMap;
use vstd::prelude::*;

use crate::opt::{
    c_fits, deltas_fit, fits_i32, frame_end, frame_fits, frame_ops, incr_deltas, incr_up_to,
    ir_size, is_incr, is_mul_loop, lemma_block_parts, lemma_frame_end_bound,
    lemma_frame_end_is_loop_close, lemma_view_ops_index, mul_opt_fits, mul_targets_fit,
    node_size, op_c_fits, op_mul_opt_fits, scan_fits, view_op, view_ops, IrOp, IrNode,
};
use crate::parse::{lemma_loop_close_bounds, loop_close, Token};

verus! {

/// `c_fits` holds of every prefix of a block it holds of.
proof fn lemma_c_fits_prefix(ops: Seq<IrNode>, k: int)
    requires
        c_fits(ops),
        0 <= k <= ops.len(),
    ensures
        c_fits(ops.take(k)),
    decreases ops.len(),
{
    if k < ops.len() {
        assert(ops.drop_last().take(k) == ops.take(k));
        lemma_c_fits_prefix(ops.drop_last(), k);
    } else {
        assert(ops.take(k) == ops);
    }
}

/// `mul_opt_fits` holds of every prefix of a block it holds of.
proof fn lemma_mul_opt_fits_prefix(ops: Seq<IrNode>, k: int)
    requires
        mul_opt_fits(ops),
        0 <= k <= ops.len(),
    ensures
        mul_opt_fits(ops.take(k)),
    decreases ops.len(),
{
    if k < ops.len() {
        assert(ops.drop_last().take(k) == ops.take(k));
        lemma_mul_opt_fits_prefix(ops.drop_last(), k);
    } else {
        assert(ops.take(k) == ops);
    }
}

/// `deltas_fit` holds of every prefix of a block it holds of.
proof fn lemma_deltas_fit_prefix(ops: Seq<IrNode>, k: int)
    requires
        deltas_fit(ops),
        0 <= k <= ops.len(),
    ensures
        deltas_fit(ops.take(k)),
    decreases ops.len(),
{
    if k < ops.len() {
        assert(ops.drop_last().take(k) == ops.take(k));
        lemma_deltas_fit_prefix(ops.drop_last(), k);
    } else {
        assert(ops.take(k) == ops);
    }
}

/// Whether a block can be printed: no increment and no head move in it, at
/// any depth, is `i32::MIN` (see `c_fits`).
pub fn check_c_fits(ir: &[IrOp]) -> (r: bool)
    ensures
        r == c_fits(view_ops(ir@)),
    decreases ir_size(view_ops(ir@)),
{
    let ghost v = view_ops(ir@);
    proof {
        lemma_view_ops_index(ir@);
        lemma_block_parts(v);
        assert(v.take(0) == Seq::<IrNode>::empty());
    }
    let mut i: usize = 0;
    while i < ir.len()
        invariant
            v == view_ops(ir@),
            v.len() == ir@.len(),
            forall|t: int| 0 <= t < ir@.len() ==> #[trigger] v[t] == view_op(ir@[t]),
            forall|t: int| 0 <= t < v.len() ==> node_size(#[trigger] v[t]) <= ir_size(v),
            0 <= i <= ir@.len(),
            c_fits(v.take(i as int)),
        decreases ir@.len() - i,
    {
        proof {
            assert(v.take(i + 1).drop_last() == v.take(i as int));
            assert(v.take(i + 1).last() == v[i as int]);
            assert(node_size(v[i as int]) <= ir_size(v));
        }
        let ok = match &ir[i] {
            IrOp::Incr { val, .. } => *val != i32::MIN,
            IrOp::Loop(lp) => {
                if lp.move_head_prior == i32::MIN || lp.move_head_after_iter == i32::MIN {
                    false
                } else {
                    let body_slice = lp.body.as_slice();
                    let body_ok = check_c_fits(body_slice);
                    assert(body_slice@ == lp.body@);
                    body_ok
                }
            },
            _ => true,
        };
        assert(ok == op_c_fits(v[i as int]));
        if !ok {
            proof {
                assert(!op_c_fits(v[i as int]));
                if c_fits(v) {
                    lemma_c_fits_prefix(v, i + 1);
                }
            }
            return false;
        }
        i = i + 1;
    }
    proof {
        assert(v.take(i as int) == v);
    }
    true
}

/// Scans a loop body the way the search for multiplication loops does:
/// whether its running totals fit (`scan_fits`), and, when it is a
/// multiplication loop with its counter at offset `p`, whether its target
/// offsets fit.
fn check_scan(body: &Vec<IrOp>, p: i32) -> (r: bool)
    ensures
        r == (scan_fits(view_ops(body@)) && (is_mul_loop(view_ops(body@)) ==> mul_targets_fit(
            view_ops(body@),
            p,
        ))),
{
    let ghost v = view_ops(body@);
    proof {
        lemma_view_ops_index(body@);
        assert(v.take(0) == Seq::<IrNode>::empty());
    }
    let mut map: BTreeMap<i32, i32> = BTreeMap::new();
    // Whether some target offset is not zero, and the least and greatest.
    let mut has_target = false;
    let mut lo: i32 = 0;
    let mut hi: i32 = 0;
    let mut j: usize = 0;
    while j < body.len()
        invariant_except_break
            v == view_ops(body@),
            v.len() == body@.len(),
            forall|t: int| 0 <= t < body@.len() ==> #[trigger] v[t] == view_op(body@[t]),
            0 <= j <= body@.len(),
            incr_up_to(v, j as int),
            deltas_fit(v.take(j as int)),
            map@ == incr_deltas(v.take(j as int)),
            forall|k: i32| #[trigger] map@.contains_key(k) && k != 0 ==> lo <= k <= hi,
            has_target ==> map@.contains_key(lo) && lo != 0 && map@.contains_key(hi) && hi != 0,
            !has_target ==> forall|k: i32| #[trigger] map@.contains_key(k) ==> k == 0,
        ensures
            0 <= j <= body@.len(),
            incr_up_to(v, j as int),
            deltas_fit(v.take(j as int)),
            map@ == incr_deltas(v.take(j as int)),
            forall|k: i32| #[trigger] map@.contains_key(k) && k != 0 ==> lo <= k <= hi,
            has_target ==> map@.contains_key(lo) && lo != 0 && map@.contains_key(hi) && hi != 0,
            !has_target ==> forall|k: i32| #[trigger] map@.contains_key(k) ==> k == 0,
            j < body@.len() ==> !is_incr(v[j as int]),
        decreases body@.len() - j,
    {
        match &body[j] {
            IrOp::Incr { val, offset } => {
                proof {
                    assert(v.take(j + 1).drop_last() == v.take(j as int));
                    assert(v.take(j + 1).last() == v[j as int]);
                }
                let cur: i32 = match map.get(offset) {
                    Some(d) => *d,
                    None => 0,
                };
                let sum: i64 = cur as i64 + *val as i64;
                if sum < i32::MIN as i64 || sum > i32::MAX as i64 {
                    proof {
                        assert(is_incr(v[j as int]));
                        assert(incr_up_to(v, j + 1));
                        assert(!deltas_fit(v.take(j + 1)));
                    }
                    return false;
                }
                map.insert(*offset, sum as i32);
                if *offset != 0 {
                    if !has_target {
                        lo = *offset;
                        hi = *offset;
                        has_target = true;
                    } else if *offset < lo {
                        lo = *offset;
                    } else if *offset > hi {
                        hi = *offset;
                    }
                }
                proof {
                    assert(is_incr(v[j as int]));
                    assert(incr_up_to(v, j + 1));
                }
            },
            _ => {
                assert(!is_incr(v[j as int]));
                break;
            },
        }
        j = j + 1;
    }
    proof {
        assert forall|k: int| 0 <= k <= v.len() && incr_up_to(v, k) implies #[trigger] deltas_fit(
            v.take(k),
        ) by {
            if k > j {
                assert(is_incr(v[j as int]));
            } else {
                lemma_deltas_fit_prefix(v.take(j as int), k);
                assert(v.take(j as int).take(k) == v.take(k));
            }
        }
        assert(scan_fits(v));
    }
    if j < body.len() {
        assert(!incr_up_to(v, v.len() as int)) by {
            assert(!is_incr(v[j as int]));
        }
        return true;
    }
    assert(v.take(j as int) == v);
    let is_mul = match map.get(&0) {
        Some(d) => *d == -1,
        None => false,
    };
    if !is_mul || !has_target {
        return true;
    }
    let lo_ok = p as i64 + lo as i64 >= i32::MIN as i64 && p as i64 + lo as i64 <= i32::MAX as i64;
    let hi_ok = p as i64 + hi as i64 >= i32::MIN as i64 && p as i64 + hi as i64 <= i32::MAX as i64;
    proof {
        if !lo_ok {
            assert(!fits_i32(p + lo));
        }
        if !hi_ok {
            assert(!fits_i32(p + hi));
        }
    }
    lo_ok && hi_ok
}

/// Whether the search for multiplication loops stays in the `i32` range
/// everywhere in a block (see `mul_opt_fits`).
pub fn check_mul_opt_fits(ir: &[IrOp]) -> (r: bool)
    ensures
        r == mul_opt_fits(view_ops(ir@)),
    decreases ir_size(view_ops(ir@)),
{
    let ghost v = view_ops(ir@);
    proof {
        lemma_view_ops_index(ir@);
        lemma_block_parts(v);
        assert(v.take(0) == Seq::<IrNode>::empty());
    }
    let mut i: usize = 0;
    while i < ir.len()
        invariant
            v == view_ops(ir@),
            v.len() == ir@.len(),
            forall|t: int| 0 <= t < ir@.len() ==> #[trigger] v[t] == view_op(ir@[t]),
            forall|t: int| 0 <= t < v.len() ==> node_size(#[trigger] v[t]) <= ir_size(v),
            0 <= i <= ir@.len(),
            mul_opt_fits(v.take(i as int)),
        decreases ir@.len() - i,
    {
        proof {
            assert(v.take(i + 1).drop_last() == v.take(i as int));
            assert(v.take(i + 1).last() == v[i as int]);
            assert(node_size(v[i as int]) <= ir_size(v));
        }
        let ok = match &ir[i] {
            IrOp::Loop(lp) => {
                if check_scan(&lp.body, lp.move_head_prior) {
                    let body_slice = lp.body.as_slice();
                    let body_ok = check_mul_opt_fits(body_slice);
                    assert(body_slice@ == lp.body@);
                    body_ok
                } else {
                    false
                }
            },
            _ => true,
        };
        assert(ok == op_mul_opt_fits(v[i as int]));
        if !ok {
            proof {
                assert(!op_mul_opt_fits(v[i as int]));
                if mul_opt_fits(v) {
                    lemma_mul_opt_fits_prefix(v, i + 1);
                }
            }
            return false;
        }
        i = i + 1;
    }
    proof {
        assert(v.take(i as int) == v);
    }
    true
}

/// Whether the block that starts at `*tok_idx` can be built (see
/// `frame_fits`); when it can, `*tok_idx` is left where `construct_ir`
/// leaves it.
fn check_frame_from(toks: &[Token], tok_idx: &mut usize) -> (r: bool)
    requires
        *old(tok_idx) <= toks@.len() <= usize::MAX / 2,
    ensures
        r == frame_fits(toks@, *old(tok_idx) as int, 0),
        r ==> *final(tok_idx) == frame_end(toks@, *old(tok_idx) as int),
    decreases toks@.len() + 1 - *old(tok_idx),
{
    let ghost start = *tok_idx as int;
    let mut head: i32 = 0;
    while !(*tok_idx >= toks.len())
        invariant_except_break
            start == *old(tok_idx),
            start <= *tok_idx <= 2 * toks@.len() + 1,
            toks@.len() <= usize::MAX / 2,
            frame_fits(toks@, *tok_idx as int, head) == frame_fits(toks@, start, 0),
            frame_end(toks@, *tok_idx as int) == frame_end(toks@, start),
        ensures
            frame_fits(toks@, *tok_idx as int, head) == frame_fits(toks@, start, 0),
            frame_fits(toks@, *tok_idx as int, head),
            *tok_idx == frame_end(toks@, start),
        decreases 2 * toks@.len() + 2 - *tok_idx,
    {
        let idx = *tok_idx;
        match &toks[idx] {
            Token::Left(num) => {
                let d: i32 = #[verifier::truncate] (*num as i32);
                let next: i64 = head as i64 - d as i64;
                if next < i32::MIN as i64 || next > i32::MAX as i64 {
                    return false;
                }
                let ghost h0 = head;
                head = next as i32;
                assert(frame_fits(toks@, idx as int, h0) == frame_fits(toks@, idx + 1, head));
            },
            Token::Right(num) => {
                let d: i32 = #[verifier::truncate] (*num as i32);
                let next: i64 = head as i64 + d as i64;
                if next < i32::MIN as i64 || next > i32::MAX as i64 {
                    return false;
                }
                let ghost h0 = head;
                head = next as i32;
                assert(frame_fits(toks@, idx as int, h0) == frame_fits(toks@, idx + 1, head));
            },
            Token::Decr(num) => {
                let d: i32 = #[verifier::truncate] (*num as i32);
                if d == i32::MIN {
                    return false;
                }
                assert(frame_fits(toks@, idx as int, head) == frame_fits(toks@, idx + 1, head));
            },
            Token::LoopStart => {
                let ghost h0 = head;
                *tok_idx = idx + 1;
                proof {
                    lemma_loop_close_bounds(toks@, idx + 1, 1);
                    lemma_frame_end_is_loop_close(toks@, idx + 1);
                    lemma_frame_end_bound(toks@, idx + 1);
                }
                if !check_frame_from(toks, tok_idx) {
                    return false;
                }
                head = 0;
                proof {
                    let e = loop_close(toks@, idx + 1, 1);
                    if e < toks@.len() {
                        assert(*tok_idx as int == e);
                    } else {
                        assert(*tok_idx >= toks@.len());
                    }
                    assert(frame_fits(toks@, idx as int, h0) == frame_fits(toks@, e + 1, 0));
                    assert(frame_fits(toks@, idx as int, h0) == frame_fits(toks@, *tok_idx + 1, 0));
                }
            },
            Token::LoopEnd => {
                break;
            },
            _ => {
                assert(frame_fits(toks@, idx as int, head) == frame_fits(toks@, idx + 1, head));
            },
        }
        *tok_idx = *tok_idx + 1;
    }
    true
}

/// Whether the block of a whole token sequence can be built: no head offset
/// leaves the `i32` range and no `-` run is as long as 2^31 (see
/// `frame_fits`).
pub fn check_frame_fits(toks: &[Token]) -> (r: bool)
    requires
        toks@.len() <= usize::MAX / 2,
    ensures
        r == frame_fits(toks@, 0, 0),
{
    let mut idx: usize = 0;
    check_frame_from(toks, &mut idx)
}

} // verus!
