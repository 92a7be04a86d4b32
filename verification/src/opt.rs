use std::collections::BTreeMap;
use vstd::prelude::*;
use vstd::std_specs::cmp::OrdSpec;
use vstd::std_specs::iter::IteratorSpec;

use crate::c_text::{c_text, emit, lemma_c_text_concat, lemma_c_text_push, CStmt};
use crate::parse::{
    bracket_delta, commands, depth, expand, lemma_commands_depth, lemma_commands_never_closes,
    lemma_depth_concat, lemma_loop_close_bounds, loop_close, nesting_delta, never_closes_unopened,
    prefix_depth, run_char, token_text, Token,
};

verus! {

/// One operation of the tree-shaped intermediate representation. Offsets
/// are relative to the tape head at the start of the enclosing block.
#[derive(Debug, PartialEq, Eq)]
pub enum IrOp {
    Incr { val: i32, offset: i32 },
    SetCell { val: i32, offset: i32 },
    MulBy { src_offset: i32, mul: i32, dst_offset: i32 },
    Input { count: u32, offset: i32 },
    Output { count: u32, offset: i32 },
    Loop(IrLoop),
}

/// A loop of the representation: the head first moves by
/// `move_head_prior`, then the body runs while the cell under the head is
/// not zero, moving the head by `move_head_after_iter` after each run.
#[derive(Clone, Debug, PartialEq, Eq)]
pub struct IrLoop {
    pub move_head_prior: i32,
    pub move_head_after_iter: i32,
    pub body: Vec<IrOp>,
}

/// The mathematical value of an `IrOp`: the same tree with sequences in
/// place of vectors.
pub enum IrNode {
    Incr { val: i32, offset: i32 },
    SetCell { val: i32, offset: i32 },
    MulBy { src_offset: i32, mul: i32, dst_offset: i32 },
    Input { count: u32, offset: i32 },
    Output { count: u32, offset: i32 },
    Loop { move_head_prior: i32, move_head_after_iter: i32, body: Seq<IrNode> },
}

pub open spec fn view_op(op: IrOp) -> IrNode
    decreases op,
{
    match op {
        IrOp::Incr { val, offset } => IrNode::Incr { val, offset },
        IrOp::SetCell { val, offset } => IrNode::SetCell { val, offset },
        IrOp::MulBy { src_offset, mul, dst_offset } => IrNode::MulBy { src_offset, mul, dst_offset },
        IrOp::Input { count, offset } => IrNode::Input { count, offset },
        IrOp::Output { count, offset } => IrNode::Output { count, offset },
        IrOp::Loop(l) => IrNode::Loop {
            move_head_prior: l.move_head_prior,
            move_head_after_iter: l.move_head_after_iter,
            body: view_ops(l.body@),
        },
    }
}

pub open spec fn view_ops(ops: Seq<IrOp>) -> Seq<IrNode>
    decreases ops,
{
    if ops.len() == 0 {
        Seq::empty()
    } else {
        view_ops(ops.drop_last()).push(view_op(ops.last()))
    }
}

impl View for IrOp {
    type V = IrNode;

    open spec fn view(&self) -> IrNode {
        view_op(*self)
    }
}

/// A copy of an operation, subtree included.
fn clone_op(op: &IrOp) -> (r: IrOp)
    ensures
        r@ == op@,
    decreases op,
{
    match op {
        IrOp::Incr { val, offset } => IrOp::Incr { val: *val, offset: *offset },
        IrOp::SetCell { val, offset } => IrOp::SetCell { val: *val, offset: *offset },
        IrOp::MulBy { src_offset, mul, dst_offset } => IrOp::MulBy {
            src_offset: *src_offset,
            mul: *mul,
            dst_offset: *dst_offset,
        },
        IrOp::Input { count, offset } => IrOp::Input { count: *count, offset: *offset },
        IrOp::Output { count, offset } => IrOp::Output { count: *count, offset: *offset },
        IrOp::Loop(l) => {
            let body = clone_ops(&l.body);
            IrOp::Loop(
                IrLoop {
                    move_head_prior: l.move_head_prior,
                    move_head_after_iter: l.move_head_after_iter,
                    body,
                },
            )
        },
    }
}

/// A copy of a block of operations.
pub(crate) fn clone_ops(ops: &Vec<IrOp>) -> (r: Vec<IrOp>)
    ensures
        view_ops(r@) == view_ops(ops@),
    decreases ops,
{
    let mut r: Vec<IrOp> = Vec::new();
    let mut i: usize = 0;
    while i < ops.len()
        invariant
            0 <= i <= ops@.len(),
            view_ops(r@) == view_ops(ops@.take(i as int)),
        decreases ops@.len() - i,
    {
        proof {
            assert(decreases_to!(ops => ops@[i as int]));
        }
        let ghost old_r = r@;
        let c = clone_op(&ops[i]);
        r.push(c);
        proof {
            assert(r@.drop_last() == old_r);
            assert(ops@.take(i as int + 1).drop_last() == ops@.take(i as int));
        }
        i = i + 1;
    }
    assert(ops@.take(ops@.len() as int) == ops@);
    r
}

impl Clone for IrOp {
    fn clone(&self) -> (r: Self)
        ensures
            r@ == self@,
    {
        clone_op(self)
    }
}

impl IrOp {
    /// Whether the operation changes a cell by itself; a loop does not count
    /// here, whatever its body does.
    pub fn writes_cells_by_itself(&self) -> (r: bool)
        ensures
            r == writes_by_itself(self@),
    {
        match self {
            IrOp::Incr { .. } | IrOp::SetCell { .. } | IrOp::MulBy { .. } | IrOp::Input { .. } => true,
            IrOp::Output { .. } | IrOp::Loop(..) => false,
        }
    }
}

/// Whether an operation changes a cell by itself (loops never do here).
pub open spec fn writes_by_itself(op: IrNode) -> bool {
    match op {
        IrNode::Incr { .. } | IrNode::SetCell { .. } | IrNode::MulBy { .. } | IrNode::Input { .. } => true,
        IrNode::Output { .. } | IrNode::Loop { .. } => false,
    }
}

/// Whether `v` fits in an `i32`.
pub open spec fn fits_i32(v: int) -> bool {
    i32::MIN <= v <= i32::MAX
}

/// The operations that the tokens from index `i` on produce in a block whose
/// head offset so far is `head`, up to the `]` that closes the block (or the
/// end of the tokens), with the head offset at that point. A `[` opens a
/// nested block that reaches up to its matching `]`; the tokens after that
/// `]` continue the current block with the head offset reset to zero.
pub open spec fn frame_ops(toks: Seq<Token>, i: int, head: i32) -> (Seq<IrNode>, i32)
    decreases toks.len() + 1 - i,
{
    if !(0 <= i < toks.len()) {
        (Seq::empty(), head)
    } else {
        match toks[i] {
            Token::Left(n) => frame_ops(toks, i + 1, (head - (n as i32)) as i32),
            Token::Right(n) => frame_ops(toks, i + 1, (head + (n as i32)) as i32),
            Token::Incr(n) => {
                let rest = frame_ops(toks, i + 1, head);
                (seq![IrNode::Incr { val: n as i32, offset: head }] + rest.0, rest.1)
            },
            Token::Decr(n) => {
                let rest = frame_ops(toks, i + 1, head);
                (seq![IrNode::Incr { val: (-(n as i32)) as i32, offset: head }] + rest.0, rest.1)
            },
            Token::Out(n) => {
                let rest = frame_ops(toks, i + 1, head);
                (seq![IrNode::Output { count: n, offset: head }] + rest.0, rest.1)
            },
            Token::In(n) => {
                let rest = frame_ops(toks, i + 1, head);
                (seq![IrNode::Input { count: n, offset: head }] + rest.0, rest.1)
            },
            Token::LoopStart => {
                let e = loop_close(toks, i + 1, 1);
                proof {
                    lemma_loop_close_bounds(toks, i + 1, 1);
                }
                let inner = frame_ops(toks, i + 1, 0);
                let rest = frame_ops(toks, e + 1, 0);
                (
                    seq![
                        IrNode::Loop {
                            move_head_prior: head,
                            move_head_after_iter: inner.1,
                            body: inner.0,
                        },
                    ] + rest.0,
                    rest.1,
                )
            },
            Token::LoopEnd => (Seq::empty(), head),
        }
    }
}

/// The token index at which a block that starts at index `i` stops: its
/// closing `]`; without one, the end of the tokens plus one for each
/// enclosing `[` in the block that is never closed.
pub open spec fn frame_end(toks: Seq<Token>, i: int) -> int
    decreases toks.len() + 1 - i,
{
    if !(0 <= i < toks.len()) {
        i
    } else {
        match toks[i] {
            Token::LoopStart => {
                let e = loop_close(toks, i + 1, 1);
                proof {
                    lemma_loop_close_bounds(toks, i + 1, 1);
                }
                if e < toks.len() {
                    frame_end(toks, e + 1)
                } else {
                    frame_end(toks, i + 1) + 1
                }
            },
            Token::LoopEnd => i,
            _ => frame_end(toks, i + 1),
        }
    }
}

/// A block stops at most one past the end of the tokens for each token.
pub proof fn lemma_frame_end_bound(toks: Seq<Token>, i: int)
    requires
        0 <= i <= toks.len(),
    ensures
        i <= frame_end(toks, i) <= 2 * toks.len() + 1 - i,
    decreases toks.len() - i,
{
    if i < toks.len() {
        match toks[i] {
            Token::LoopStart => {
                lemma_loop_close_bounds(toks, i + 1, 1);
                let e = loop_close(toks, i + 1, 1);
                if e < toks.len() {
                    lemma_frame_end_bound(toks, e + 1);
                } else {
                    lemma_frame_end_bound(toks, i + 1);
                }
            },
            Token::LoopEnd => {},
            _ => {
                lemma_frame_end_bound(toks, i + 1);
            },
        }
    }
}

/// No head offset of the block leaves the `i32` range, and no `-` run is
/// as long as 2^31 (whose count would not negate as an `i32`), in the block
/// that starts at `i` nor in any block nested in it.
pub open spec fn frame_fits(toks: Seq<Token>, i: int, head: i32) -> bool
    decreases toks.len() + 1 - i,
{
    if !(0 <= i < toks.len()) {
        true
    } else {
        match toks[i] {
            Token::Left(n) => fits_i32(head - (n as i32)) && frame_fits(
                toks,
                i + 1,
                (head - (n as i32)) as i32,
            ),
            Token::Right(n) => fits_i32(head + (n as i32)) && frame_fits(
                toks,
                i + 1,
                (head + (n as i32)) as i32,
            ),
            Token::Decr(n) => (n as i32) != i32::MIN && frame_fits(toks, i + 1, head),
            Token::LoopStart => {
                let e = loop_close(toks, i + 1, 1);
                proof {
                    lemma_loop_close_bounds(toks, i + 1, 1);
                }
                frame_fits(toks, i + 1, 0) && frame_fits(toks, e + 1, 0)
            },
            Token::LoopEnd => true,
            _ => frame_fits(toks, i + 1, head),
        }
    }
}

/// Nesting depth `c + d` closes where depth `c` closes and then depth `d`.
pub proof fn lemma_loop_close_split(toks: Seq<Token>, k: int, c: int, d: int)
    requires
        0 <= k <= toks.len(),
        c >= 1,
        d >= 1,
    ensures
        loop_close(toks, k, c + d) == if loop_close(toks, k, c) < toks.len() {
            loop_close(toks, loop_close(toks, k, c) + 1, d)
        } else {
            toks.len() as int
        },
    decreases toks.len() - k,
{
    if k < toks.len() {
        let delta = crate::parse::nesting_delta(toks[k]);
        if c + delta == 0 {
        } else {
            lemma_loop_close_split(toks, k + 1, c + delta, d);
        }
    }
}

/// A block that starts right after a `[` stops at the `]` that matches it,
/// when there is one, and past the end of the tokens otherwise.
pub proof fn lemma_frame_end_is_loop_close(toks: Seq<Token>, k: int)
    requires
        0 <= k <= toks.len(),
    ensures
        loop_close(toks, k, 1) < toks.len() ==> frame_end(toks, k) == loop_close(toks, k, 1),
        loop_close(toks, k, 1) == toks.len() ==> frame_end(toks, k) >= toks.len(),
    decreases toks.len() - k,
{
    if k < toks.len() {
        match toks[k] {
            Token::LoopStart => {
                lemma_loop_close_bounds(toks, k + 1, 1);
                let e = loop_close(toks, k + 1, 1);
                lemma_loop_close_split(toks, k + 1, 1, 1);
                if e < toks.len() {
                    lemma_loop_close_bounds(toks, e + 1, 1);
                    lemma_frame_end_is_loop_close(toks, e + 1);
                } else {
                    lemma_frame_end_is_loop_close(toks, k + 1);
                }
            },
            Token::LoopEnd => {},
            _ => {
                lemma_frame_end_is_loop_close(toks, k + 1);
            },
        }
    }
}

pub proof fn lemma_view_ops_push(ops: Seq<IrOp>, op: IrOp)
    ensures
        view_ops(ops.push(op)) == view_ops(ops).push(view_op(op)),
{
    assert(ops.push(op).drop_last() == ops);
}

/// Loop nesting depth of a token sequence: `[` tokens minus `]` tokens.
pub open spec fn tok_depth(toks: Seq<Token>) -> int
    decreases toks.len(),
{
    if toks.len() == 0 {
        0
    } else {
        tok_depth(toks.drop_last()) + nesting_delta(toks.last())
    }
}

proof fn lemma_depth_no_brackets(s: Seq<u8>)
    requires
        forall|i: int| 0 <= i < s.len() ==> bracket_delta(#[trigger] s[i]) == 0,
    ensures
        depth(s) == 0,
    decreases s.len(),
{
    if s.len() > 0 {
        assert forall|i: int| 0 <= i < s.drop_last().len() implies bracket_delta(
            #[trigger] s.drop_last()[i],
        ) == 0 by {
            assert(s.drop_last()[i] == s[i]);
        }
        lemma_depth_no_brackets(s.drop_last());
        assert(bracket_delta(s[s.len() - 1]) == 0);
    }
}

proof fn lemma_expand_depth(toks: Seq<Token>)
    ensures
        depth(expand(toks)) == tok_depth(toks),
    decreases toks.len(),
{
    if toks.len() > 0 {
        lemma_expand_depth(toks.drop_last());
        let t = toks.last();
        lemma_depth_concat(expand(toks.drop_last()), token_text(t));
        match t {
            Token::LoopStart => {
                assert(seq![91u8].drop_last() == Seq::<u8>::empty());
                assert(depth(Seq::<u8>::empty()) == 0);
                assert(depth(seq![91u8]) == 1);
            },
            Token::LoopEnd => {
                assert(seq![93u8].drop_last() == Seq::<u8>::empty());
                assert(depth(Seq::<u8>::empty()) == 0);
                assert(depth(seq![93u8]) == -1);
            },
            _ => {
                let c = run_char(t).unwrap();
                assert(bracket_delta(c) == 0);
                assert forall|i: int| 0 <= i < token_text(t).len() implies bracket_delta(
                    #[trigger] token_text(t)[i],
                ) == 0 by {
                    assert(token_text(t)[i] == c);
                }
                lemma_depth_no_brackets(token_text(t));
            },
        }
    }
}

proof fn lemma_expand_concat(a: Seq<Token>, b: Seq<Token>)
    ensures
        expand(a + b) == expand(a) + expand(b),
    decreases b.len(),
{
    if b.len() == 0 {
        assert(a + b == a);
    } else {
        lemma_expand_concat(a, b.drop_last());
        assert((a + b).drop_last() == a + b.drop_last());
        assert((a + b).last() == b.last());
    }
}

proof fn lemma_tok_depth_step(toks: Seq<Token>, k: int)
    requires
        0 <= k < toks.len(),
    ensures
        tok_depth(toks.take(k + 1)) == tok_depth(toks.take(k)) + nesting_delta(toks[k]),
{
    assert(toks.take(k + 1).drop_last() == toks.take(k));
}

/// Scanning from `k` at depth `d`, the scan finds the token that brings the
/// depth to zero whenever the depth of some later prefix is that low.
proof fn lemma_loop_close_found(toks: Seq<Token>, k: int, d: int, m: int)
    requires
        0 <= k <= m < toks.len(),
        d >= 1,
        tok_depth(toks.take(m + 1)) <= tok_depth(toks.take(k)) - d,
    ensures
        k <= loop_close(toks, k, d) < toks.len(),
        tok_depth(toks.take(loop_close(toks, k, d) + 1)) == tok_depth(toks.take(k)) - d,
    decreases toks.len() - k,
{
    lemma_tok_depth_step(toks, k);
    let delta = nesting_delta(toks[k]);
    if d + delta != 0 {
        assert(m != k);
        lemma_loop_close_found(toks, k + 1, d + delta, m);
    }
}

/// A block that starts at a position from which the depth never drops
/// below its start, and is back at it at the end, runs to the end.
proof fn lemma_frame_end_balanced(toks: Seq<Token>, i: int)
    requires
        0 <= i <= toks.len(),
        forall|j: int| i <= j <= toks.len() ==> #[trigger] tok_depth(toks.take(j)) >= tok_depth(toks.take(i)),
        tok_depth(toks) == tok_depth(toks.take(i)),
    ensures
        frame_end(toks, i) == toks.len(),
    decreases toks.len() - i,
{
    assert(toks.take(toks.len() as int) == toks);
    if i < toks.len() {
        lemma_tok_depth_step(toks, i);
        assert(tok_depth(toks.take(i + 1)) >= tok_depth(toks.take(i)));
        match toks[i] {
            Token::LoopStart => {
                lemma_loop_close_found(toks, i + 1, 1, toks.len() - 1);
                let e = loop_close(toks, i + 1, 1);
                lemma_frame_end_balanced(toks, e + 1);
            },
            Token::LoopEnd => {},
            _ => {
                lemma_frame_end_balanced(toks, i + 1);
            },
        }
    }
}

/// The tokens of every text that `parse` accepts are built whole: the block
/// that starts at the first token runs to the end of the tokens.
pub proof fn lemma_parsed_tokens_build_whole(text: Seq<u8>, toks: Seq<Token>)
    requires
        never_closes_unopened(text),
        depth(text) == 0,
        expand(toks) == commands(text),
    ensures
        frame_end(toks, 0) == toks.len(),
{
    lemma_commands_never_closes(text);
    lemma_commands_depth(text);
    lemma_expand_depth(toks);
    let e = expand(toks);
    assert forall|j: int| 0 <= j <= toks.len() implies #[trigger] tok_depth(toks.take(j)) >= tok_depth(
        toks.take(0),
    ) by {
        lemma_expand_concat(toks.take(j), toks.skip(j));
        assert(toks.take(j) + toks.skip(j) == toks);
        let p = expand(toks.take(j));
        assert(e.take(p.len() as int) == p);
        reveal(prefix_depth);
        assert(prefix_depth(e, p.len() as int) >= 0);
        lemma_expand_depth(toks.take(j));
        assert(toks.take(0) == Seq::<Token>::empty());
    }
    assert(toks.take(0) == Seq::<Token>::empty());
    lemma_frame_end_balanced(toks, 0);
}

/// Builds the operations of the block that starts at `*tok_idx`, leaving
/// `*tok_idx` at the token where the block stops; also returns the head
/// offset at the end of the block.
pub fn construct_ir(toks: &[Token], tok_idx: &mut usize) -> (r: (Vec<IrOp>, i32))
    requires
        toks@.len() <= usize::MAX / 2,
        frame_fits(toks@, *old(tok_idx) as int, 0),
    ensures
        view_ops(r.0@) == frame_ops(toks@, *old(tok_idx) as int, 0).0,
        r.1 == frame_ops(toks@, *old(tok_idx) as int, 0).1,
        *final(tok_idx) == frame_end(toks@, *old(tok_idx) as int),
    decreases toks@.len() + 1 - *old(tok_idx),
{
    if *tok_idx > toks.len() {
        return (Vec::new(), 0);
    }
    let ghost start = *tok_idx as int;
    let mut head_offset: i32 = 0;
    let mut ops: Vec<IrOp> = Vec::new();

    while !(*tok_idx >= toks.len())
        invariant_except_break
            start == *old(tok_idx),
            start <= *tok_idx <= 2 * toks@.len() + 1,
            toks@.len() <= usize::MAX / 2,
            frame_fits(toks@, *tok_idx as int, head_offset),
            view_ops(ops@) + frame_ops(toks@, *tok_idx as int, head_offset).0 == frame_ops(
                toks@,
                start,
                0,
            ).0,
            frame_ops(toks@, *tok_idx as int, head_offset).1 == frame_ops(toks@, start, 0).1,
            frame_end(toks@, *tok_idx as int) == frame_end(toks@, start),
        ensures
            view_ops(ops@) == frame_ops(toks@, start, 0).0,
            head_offset == frame_ops(toks@, start, 0).1,
            *tok_idx == frame_end(toks@, start),
        decreases 2 * toks@.len() + 2 - *tok_idx,
    {
        let idx = *tok_idx;
        let ghost old_ops = ops@;
        let ghost old_head = head_offset;
        let tok = &toks[idx];
        match tok {
            Token::Left(num) => {
                head_offset = head_offset - (#[verifier::truncate] (*num as i32));
            },
            Token::Right(num) => {
                head_offset = head_offset + (#[verifier::truncate] (*num as i32));
            },
            Token::Incr(num) => {
                ops.push(IrOp::Incr { val: #[verifier::truncate] (*num as i32), offset: head_offset });
            },
            Token::Decr(num) => {
                ops.push(IrOp::Incr { val: -(#[verifier::truncate] (*num as i32)), offset: head_offset });
            },
            Token::Out(num) => {
                ops.push(IrOp::Output { count: *num, offset: head_offset });
            },
            Token::In(num) => {
                ops.push(IrOp::Input { count: *num, offset: head_offset });
            },
            Token::LoopStart => {
                *tok_idx = idx + 1;
                proof {
                    lemma_loop_close_bounds(toks@, idx + 1, 1);
                    lemma_frame_end_is_loop_close(toks@, idx + 1);
                    lemma_frame_end_bound(toks@, idx + 1);
                }
                let (body, inner_loop_delta) = construct_ir(toks, tok_idx);
                ops.push(
                    IrOp::Loop(
                        IrLoop {
                            move_head_prior: head_offset,
                            move_head_after_iter: inner_loop_delta,
                            body,
                        },
                    ),
                );
                head_offset = 0;
                proof {
                    let e = loop_close(toks@, idx + 1, 1);
                    if e < toks@.len() {
                        assert(*tok_idx as int == e);
                    } else {
                        assert(*tok_idx >= toks@.len());
                        assert(frame_ops(toks@, *tok_idx + 1, 0) == frame_ops(toks@, e + 1, 0));
                    }
                }
            },
            Token::LoopEnd => {
                break;
            },
        }
        proof {
            if ops@.len() > old_ops.len() {
                lemma_view_ops_push(old_ops, ops@.last());
                assert(ops@ == old_ops.push(ops@.last()));
            }
        }
        *tok_idx = *tok_idx + 1;
    }
    (ops, head_offset)
}

/// Number of nodes in a block, nested blocks included.
pub open spec fn ir_size(ops: Seq<IrNode>) -> nat
    decreases ops,
{
    if ops.len() == 0 {
        0
    } else {
        ir_size(ops.drop_last()) + node_size(ops.last())
    }
}

/// Number of nodes in an operation, its loop body included.
pub open spec fn node_size(op: IrNode) -> nat
    decreases op,
{
    match op {
        IrNode::Loop { body, .. } => 1 + ir_size(body),
        _ => 1,
    }
}

/// The running total that a block of increments adds to a cell, if it has one.
pub open spec fn delta_at(m: Map<i32, i32>, k: i32) -> int {
    if m.contains_key(k) {
        m[k] as int
    } else {
        0
    }
}

/// For each offset that the block increments, the total it adds there
/// (operations that are not increments add nothing).
pub open spec fn incr_deltas(ops: Seq<IrNode>) -> Map<i32, i32>
    decreases ops.len(),
{
    if ops.len() == 0 {
        Map::empty()
    } else {
        let m = incr_deltas(ops.drop_last());
        match ops.last() {
            IrNode::Incr { val, offset } => m.insert(offset, (delta_at(m, offset) + val) as i32),
            _ => m,
        }
    }
}

/// Every running total of `incr_deltas` over the block fits in an `i32`.
pub open spec fn deltas_fit(ops: Seq<IrNode>) -> bool
    decreases ops.len(),
{
    if ops.len() == 0 {
        true
    } else {
        deltas_fit(ops.drop_last()) && match ops.last() {
            IrNode::Incr { val, offset } => fits_i32(
                delta_at(incr_deltas(ops.drop_last()), offset) + val,
            ),
            _ => true,
        }
    }
}

/// Whether an operation is an increment.
pub open spec fn is_incr(op: IrNode) -> bool {
    op is Incr
}

/// The first `k` operations of the block are increments.
pub open spec fn incr_up_to(ops: Seq<IrNode>, k: int) -> bool {
    forall|t: int| 0 <= t < k ==> #[trigger] is_incr(ops[t])
}

/// The running totals fit over every leading run of increments: the part of
/// a loop body that the search for multiplication loops adds up.
pub open spec fn scan_fits(body: Seq<IrNode>) -> bool {
    forall|k: int| 0 <= k <= body.len() && incr_up_to(body, k) ==> #[trigger] deltas_fit(body.take(k))
}

/// A loop body that only increments, and lowers the cell under the head by
/// exactly one per run: the loop adds the counter times each other delta to
/// the other cells and leaves the counter at zero.
pub open spec fn is_mul_loop(body: Seq<IrNode>) -> bool {
    &&& incr_up_to(body, body.len() as int)
    &&& incr_deltas(body).contains_key(0)
    &&& incr_deltas(body)[0] == -1
}

/// `s` lists the entries of `m` with keys in strictly increasing order.
pub open spec fn sorted_entries_of(s: Seq<(i32, i32)>, m: Map<i32, i32>) -> bool {
    &&& forall|i: int, j: int| 0 <= i < j < s.len() ==> s[i].0 < s[j].0
    &&& forall|i: int| 0 <= i < s.len() ==> #[trigger] m.contains_key(s[i].0) && m[s[i].0] == s[i].1
    &&& forall|k: i32| #[trigger] m.contains_key(k) ==> exists|i: int| 0 <= i < s.len() && s[i].0 == k
}

/// The entries of a map in increasing order of keys.
pub open spec fn sorted_entries(m: Map<i32, i32>) -> Seq<(i32, i32)> {
    choose|s: Seq<(i32, i32)>| sorted_entries_of(s, m)
}

/// The multiplications that replace a multiplication loop whose counter cell
/// sits at offset `p`, one per entry with a nonzero offset, in entry order.
pub open spec fn mul_moves(entries: Seq<(i32, i32)>, p: i32) -> Seq<IrNode>
    decreases entries.len(),
{
    if entries.len() == 0 {
        Seq::empty()
    } else {
        let e = entries.last();
        let rest = mul_moves(entries.drop_last(), p);
        if e.0 != 0 {
            rest.push(IrNode::MulBy { src_offset: p, mul: e.1, dst_offset: (p + e.0) as i32 })
        } else {
            rest
        }
    }
}

/// What a multiplication loop becomes: its multiplications in increasing
/// order of target offset, then the counter cell set to zero.
pub open spec fn mul_replacement(body: Seq<IrNode>, p: i32) -> Seq<IrNode> {
    mul_moves(sorted_entries(incr_deltas(body)), p).push(IrNode::SetCell { val: 0, offset: p })
}

/// The target offsets of a multiplication loop fit in an `i32`.
pub open spec fn mul_targets_fit(body: Seq<IrNode>, p: i32) -> bool {
    forall|k: i32| #[trigger] incr_deltas(body).contains_key(k) && k != 0 ==> fits_i32(p + k)
}

/// A block in which multiplication loops are replaced, at every depth.
pub open spec fn mul_opt_ops(ops: Seq<IrNode>) -> Seq<IrNode>
    decreases ops,
{
    if ops.len() == 0 {
        Seq::empty()
    } else {
        mul_opt_ops(ops.drop_last()) + mul_opt_op(ops.last())
    }
}

/// What one operation becomes when multiplication loops are replaced.
pub open spec fn mul_opt_op(op: IrNode) -> Seq<IrNode>
    decreases op,
{
    match op {
        IrNode::Loop { move_head_prior, move_head_after_iter, body } => if is_mul_loop(body) {
            mul_replacement(body, move_head_prior)
        } else {
            seq![
                IrNode::Loop {
                    move_head_prior,
                    move_head_after_iter,
                    body: mul_opt_ops(body),
                },
            ]
        },
        _ => seq![op],
    }
}

/// Whether a block holds a multiplication loop at some depth.
pub open spec fn has_mul_loop(ops: Seq<IrNode>) -> bool
    decreases ops,
{
    if ops.len() == 0 {
        false
    } else {
        has_mul_loop(ops.drop_last()) || op_has_mul_loop(ops.last())
    }
}

/// Whether an operation is, or holds, a multiplication loop.
pub open spec fn op_has_mul_loop(op: IrNode) -> bool
    decreases op,
{
    match op {
        IrNode::Loop { body, .. } => is_mul_loop(body) || has_mul_loop(body),
        _ => false,
    }
}

/// The search for multiplication loops stays in the `i32` range everywhere
/// in the block.
pub open spec fn mul_opt_fits(ops: Seq<IrNode>) -> bool
    decreases ops,
{
    if ops.len() == 0 {
        true
    } else {
        mul_opt_fits(ops.drop_last()) && op_mul_opt_fits(ops.last())
    }
}

/// The search for multiplication loops stays in the `i32` range in an
/// operation and everything nested in it.
pub open spec fn op_mul_opt_fits(op: IrNode) -> bool
    decreases op,
{
    match op {
        IrNode::Loop { move_head_prior, body, .. } => {
            &&& scan_fits(body)
            &&& is_mul_loop(body) ==> mul_targets_fit(body, move_head_prior)
            &&& mul_opt_fits(body)
        },
        _ => true,
    }
}

/// Two sorted listings of one map are the same sequence.
pub proof fn lemma_sorted_entries_unique(s: Seq<(i32, i32)>, t: Seq<(i32, i32)>, m: Map<i32, i32>)
    requires
        sorted_entries_of(s, m),
        sorted_entries_of(t, m),
    ensures
        s == t,
    decreases s.len(),
{
    if s.len() == 0 {
        if t.len() > 0 {
            assert(m.contains_key(t[0].0));
        }
    } else {
        assert(m.contains_key(s[0].0));
        if t.len() == 0 {
            assert(false);
        }
        assert(m.contains_key(t[0].0));
        let is = choose|i: int| 0 <= i < s.len() && s[i].0 == t[0].0;
        let it = choose|i: int| 0 <= i < t.len() && t[i].0 == s[0].0;
        assert(s[0].0 <= s[is].0);
        assert(t[0].0 <= t[it].0);
        assert(s[0].0 == t[0].0);
        let k = s[0].0;
        let m2 = m.remove(k);
        let s2 = s.drop_first();
        let t2 = t.drop_first();
        assert forall|kk: i32| #[trigger] m2.contains_key(kk) implies exists|i: int|
            0 <= i < s2.len() && s2[i].0 == kk by {
            assert(m.contains_key(kk));
            let i = choose|i: int| 0 <= i < s.len() && s[i].0 == kk;
            assert(i != 0);
            assert(s2[i - 1].0 == kk);
        }
        assert forall|kk: i32| #[trigger] m2.contains_key(kk) implies exists|i: int|
            0 <= i < t2.len() && t2[i].0 == kk by {
            assert(m.contains_key(kk));
            let i = choose|i: int| 0 <= i < t.len() && t[i].0 == kk;
            assert(i != 0);
            assert(t2[i - 1].0 == kk);
        }
        assert forall|i: int| 0 <= i < s2.len() implies #[trigger] m2.contains_key(s2[i].0)
            && m2[s2[i].0] == s2[i].1 by {
            assert(s[i + 1].0 > s[0].0);
            assert(m.contains_key(s[i + 1].0));
        }
        assert forall|i: int| 0 <= i < t2.len() implies #[trigger] m2.contains_key(t2[i].0)
            && m2[t2[i].0] == t2[i].1 by {
            assert(t[i + 1].0 > t[0].0);
            assert(m.contains_key(t[i + 1].0));
        }
        lemma_sorted_entries_unique(s2, t2, m2);
        assert(s == seq![s[0]] + s2);
        assert(t == seq![t[0]] + t2);
    }
}

/// `view_ops` is the element-wise view.
pub proof fn lemma_view_ops_index(ops: Seq<IrOp>)
    ensures
        view_ops(ops).len() == ops.len(),
        forall|t: int| 0 <= t < ops.len() ==> #[trigger] view_ops(ops)[t] == view_op(ops[t]),
    decreases ops.len(),
{
    if ops.len() > 0 {
        lemma_view_ops_index(ops.drop_last());
    }
}

/// Adds up the leading increments of a loop body into `map` (which the
/// caller empties first); returns whether some operation of the body is not
/// an increment, at which the scan stops.
fn scan_incr_deltas(body: &Vec<IrOp>, map: &mut BTreeMap<i32, i32>) -> (not_mul: bool)
    requires
        old(map)@ == Map::<i32, i32>::empty(),
        scan_fits(view_ops(body@)),
    ensures
        not_mul == !incr_up_to(view_ops(body@), body@.len() as int),
        !not_mul ==> final(map)@ == incr_deltas(view_ops(body@)),
{
    let ghost v = view_ops(body@);
    proof {
        lemma_view_ops_index(body@);
        assert(v.take(0) == Seq::<IrNode>::empty());
    }
    let mut j: usize = 0;
    while j < body.len()
        invariant_except_break
            v == view_ops(body@),
            v.len() == body@.len(),
            scan_fits(v),
            0 <= j <= body@.len(),
            incr_up_to(v, j as int),
            map@ == incr_deltas(v.take(j as int)),
            forall|t: int| 0 <= t < body@.len() ==> #[trigger] v[t] == view_op(body@[t]),
        ensures
            0 <= j <= body@.len(),
            incr_up_to(v, j as int),
            map@ == incr_deltas(v.take(j as int)),
            j < body@.len() ==> !incr_up_to(v, body@.len() as int),
        decreases body@.len() - j,
    {
        match &body[j] {
            IrOp::Incr { val, offset } => {
                proof {
                    assert(is_incr(v[j as int]));
                    assert(incr_up_to(v, j + 1));
                    assert(deltas_fit(v.take(j + 1)));
                    assert(v.take(j + 1).drop_last() == v.take(j as int));
                }
                let cur: i32 = match map.get(offset) {
                    Some(d) => *d,
                    None => 0,
                };
                map.insert(*offset, cur + *val);
            },
            _ => {
                assert(!is_incr(v[j as int]));
                break;
            },
        }
        j = j + 1;
    }
    if j < body.len() {
        true
    } else {
        assert(v.take(j as int) == v);
        assert(incr_up_to(v, body@.len() as int));
        false
    }
}

/// `i32` keys obey the ordering model that the `BTreeMap` specification
/// rests on.
proof fn lemma_btree_i32_keys_ordered()
    ensures
        vstd::std_specs::btree::key_obeys_cmp_spec::<i32>(),
        vstd::laws_cmp::obeys_cmp::<i32>(),
{
    assert(vstd::laws_cmp::obeys_cmp::<i32>());
}

/// The keys that a `BTreeMap` iterator hands out increase strictly.
proof fn lemma_btree_iter_keys_increasing(r: Seq<(&i32, &i32)>)
    requires
        vstd::std_specs::btree::increasing_seq(r.map_values(|kv: (&i32, &i32)| *kv.0)),
    ensures
        forall|i: int, j: int| 0 <= i < j < r.len() ==> *r[i].0 < *r[j].0,
{
    assert(vstd::laws_cmp::obeys_cmp::<i32>());
    let keys = r.map_values(|kv: (&i32, &i32)| *kv.0);
    vstd::std_specs::btree::axiom_increasing_seq_meaning(keys);
    assert forall|i: int, j: int| 0 <= i < j < r.len() implies *r[i].0 < *r[j].0 by {
        assert(keys[i].cmp_spec(&keys[j]) is Less);
        assert(keys[i] == *r[i].0);
        assert(keys[j] == *r[j].0);
    }
}

/// Appends, for each entry of `map` in increasing order of its key, the
/// multiplication that a multiplication loop with counter at `p` performs
/// for that entry (entries with key zero are the counter and are skipped).
fn push_mul_moves(map: &BTreeMap<i32, i32>, p: i32, new_block: &mut Vec<IrOp>)
    requires
        forall|k: i32| #[trigger] map@.contains_key(k) && k != 0 ==> fits_i32(p + k),
    ensures
        view_ops(final(new_block)@) == view_ops(old(new_block)@) + mul_moves(sorted_entries(map@), p),
{
    let ghost start = view_ops(new_block@);
    let ghost m = map@;
    proof {
        lemma_btree_i32_keys_ordered();
    }
    let iter = map.iter();
    let ghost u: Seq<(i32, i32)> = iter.remaining().unref();
    proof {
        let r = iter.remaining();
        lemma_btree_iter_keys_increasing(r);
        assert forall|i: int, j: int| 0 <= i < j < u.len() implies u[i].0 < u[j].0 by {
            assert(*r[i].0 < *r[j].0);
        }
        assert forall|i: int| 0 <= i < u.len() implies #[trigger] m.contains_key(u[i].0) && m[u[i].0]
            == u[i].1 by {
            assert(m.contains_key(*r[i].0));
        }
        assert forall|k: i32| #[trigger] m.contains_key(k) implies exists|i: int|
            0 <= i < u.len() && u[i].0 == k by {
            assert(r.contains((&k, &m[k])));
            let i = choose|i: int| 0 <= i < r.len() && r[i] == (&k, &m[k]);
            assert(u[i].0 == k);
        }
        assert(sorted_entries_of(u, m));
        lemma_sorted_entries_unique(u, sorted_entries(m), m);
        assert(u.take(0) == Seq::<(i32, i32)>::empty());
    }
    for kv in it: iter
        invariant
            m == map@,
            forall|k: i32| #[trigger] m.contains_key(k) && k != 0 ==> fits_i32(p + k),
            it.seq().unref() == u,
            sorted_entries_of(u, m),
            view_ops(new_block@) == start + mul_moves(u.take(it.index()), p),
    {
        let (k, v) = kv;
        proof {
            assert(u.take(it.index() + 1).drop_last() == u.take(it.index()));
            assert(u[it.index()] == (*k, *v));
            assert(m.contains_key(*k));
        }
        if *k != 0 {
            let ghost old_nb = new_block@;
            new_block.push(IrOp::MulBy { src_offset: p, mul: *v, dst_offset: p + *k });
            proof {
                lemma_view_ops_push(old_nb, new_block@.last());
                assert(new_block@ == old_nb.push(new_block@.last()));
            }
        }
    }
    proof {
        assert(u.take(u.len() as int) == u);
        lemma_sorted_entries_unique(u, sorted_entries(m), m);
    }
}

/// Facts about each operation of a block, drawn from facts about the block.
pub proof fn lemma_block_parts(ops: Seq<IrNode>)
    ensures
        forall|t: int| 0 <= t < ops.len() ==> node_size(#[trigger] ops[t]) <= ir_size(ops),
        mul_opt_fits(ops) ==> forall|t: int| 0 <= t < ops.len() ==> op_mul_opt_fits(#[trigger] ops[t]),
        forall|k: int| 0 <= k < ops.len() ==> {
            &&& #[trigger] mul_opt_ops(ops.take(k + 1)) == mul_opt_ops(ops.take(k)) + mul_opt_op(ops[k])
            &&& has_mul_loop(ops.take(k + 1)) == (has_mul_loop(ops.take(k)) || op_has_mul_loop(ops[k]))
        },
    decreases ops.len(),
{
    if ops.len() > 0 {
        lemma_block_parts(ops.drop_last());
        assert forall|k: int| 0 <= k < ops.len() implies {
            &&& #[trigger] mul_opt_ops(ops.take(k + 1)) == mul_opt_ops(ops.take(k)) + mul_opt_op(ops[k])
            &&& has_mul_loop(ops.take(k + 1)) == (has_mul_loop(ops.take(k)) || op_has_mul_loop(ops[k]))
        } by {
            assert(ops.take(k + 1).drop_last() == ops.take(k));
            assert(ops.take(k + 1).last() == ops[k]);
        }
        assert forall|t: int| 0 <= t < ops.len() - 1 implies ops.drop_last()[t] == ops[t] by {}
    }
}

/// Replacing multiplication loops in two blocks one after the other is
/// replacing them in each.
pub proof fn lemma_mul_opt_concat(a: Seq<IrNode>, b: Seq<IrNode>)
    ensures
        mul_opt_ops(a + b) == mul_opt_ops(a) + mul_opt_ops(b),
        has_mul_loop(a + b) == (has_mul_loop(a) || has_mul_loop(b)),
    decreases b.len(),
{
    if b.len() == 0 {
        assert(a + b == a);
    } else {
        lemma_mul_opt_concat(a, b.drop_last());
        assert((a + b).drop_last() == a + b.drop_last());
        assert((a + b).last() == b.last());
    }
}

/// A block without loops is left as it is, and holds no multiplication loop.
pub proof fn lemma_mul_opt_loop_free(ops: Seq<IrNode>)
    requires
        forall|t: int| 0 <= t < ops.len() ==> !(#[trigger] ops[t] is Loop),
    ensures
        mul_opt_ops(ops) == ops,
        !has_mul_loop(ops),
    decreases ops.len(),
{
    if ops.len() > 0 {
        let d = ops.drop_last();
        assert forall|t: int| 0 <= t < d.len() implies !(#[trigger] d[t] is Loop) by {
            assert(d[t] == ops[t]);
        }
        lemma_mul_opt_loop_free(d);
        assert(!(ops[ops.len() - 1] is Loop));
        assert(mul_opt_op(ops.last()) == seq![ops.last()]);
        assert(!op_has_mul_loop(ops.last()));
        assert(d + seq![ops.last()] == ops);
    }
}

/// The multiplications that replace a loop are not loops.
pub proof fn lemma_mul_moves_loop_free(entries: Seq<(i32, i32)>, p: i32)
    ensures
        forall|t: int| 0 <= t < mul_moves(entries, p).len() ==> #[trigger] mul_moves(entries, p)[t] is MulBy,
    decreases entries.len(),
{
    if entries.len() > 0 {
        lemma_mul_moves_loop_free(entries.drop_last(), p);
    }
}

/// A block that is not all increments keeps an operation that is not an
/// increment when its multiplication loops are replaced.
pub proof fn lemma_mul_opt_keeps_non_incr(ops: Seq<IrNode>)
    requires
        !incr_up_to(ops, ops.len() as int),
    ensures
        !incr_up_to(mul_opt_ops(ops), mul_opt_ops(ops).len() as int),
    decreases ops.len(),
{
    let d = ops.drop_last();
    let x = ops.last();
    if is_incr(x) {
        let t = choose|t: int| 0 <= t < ops.len() && !is_incr(#[trigger] ops[t]);
        assert(t < ops.len() - 1);
        assert(d[t] == ops[t]);
        lemma_mul_opt_keeps_non_incr(d);
        let r = mul_opt_ops(d);
        let u = choose|u: int| 0 <= u < r.len() && !is_incr(#[trigger] r[u]);
        assert((r + mul_opt_op(x))[u] == r[u]);
    } else {
        let r = mul_opt_ops(d);
        let y = mul_opt_op(x);
        assert(y.len() > 0);
        assert(!is_incr(y.last()));
        assert((r + y)[r.len() + y.len() - 1] == y.last());
    }
}

/// Replacing multiplication loops a second time changes nothing: the first
/// pass leaves no multiplication loop behind.
pub proof fn lemma_mul_opt_idempotent(ops: Seq<IrNode>)
    ensures
        mul_opt_ops(mul_opt_ops(ops)) == mul_opt_ops(ops),
        !has_mul_loop(mul_opt_ops(ops)),
    decreases ops, 1nat,
{
    if ops.len() > 0 {
        lemma_mul_opt_idempotent(ops.drop_last());
        lemma_mul_opt_op_idempotent(ops.last());
        lemma_mul_opt_concat(mul_opt_ops(ops.drop_last()), mul_opt_op(ops.last()));
    }
}

/// The result of replacing multiplication loops in one operation is left
/// as it is by a second pass.
pub proof fn lemma_mul_opt_op_idempotent(op: IrNode)
    ensures
        mul_opt_ops(mul_opt_op(op)) == mul_opt_op(op),
        !has_mul_loop(mul_opt_op(op)),
    decreases op, 0nat,
{
    match op {
        IrNode::Loop { move_head_prior, move_head_after_iter, body } => {
            if is_mul_loop(body) {
                let r = mul_replacement(body, move_head_prior);
                let mm = mul_moves(sorted_entries(incr_deltas(body)), move_head_prior);
                lemma_mul_moves_loop_free(sorted_entries(incr_deltas(body)), move_head_prior);
                assert forall|t: int| 0 <= t < r.len() implies !(#[trigger] r[t] is Loop) by {
                    if t < mm.len() {
                        assert(r[t] == mm[t]);
                    }
                }
                lemma_mul_opt_loop_free(r);
                assert(mul_opt_op(op) == r);
                assert(mul_opt_ops(r) == r);
                assert(mul_opt_ops(mul_opt_op(op)) == mul_opt_op(op));
            } else {
                let nb = mul_opt_ops(body);
                lemma_mul_opt_idempotent(body);
                if incr_up_to(body, body.len() as int) {
                    assert forall|t: int| 0 <= t < body.len() implies !(#[trigger] body[t] is Loop) by {
                        assert(is_incr(body[t]));
                    }
                    lemma_mul_opt_loop_free(body);
                } else {
                    lemma_mul_opt_keeps_non_incr(body);
                }
                assert(!is_mul_loop(nb));
                let l = IrNode::Loop { move_head_prior, move_head_after_iter, body: nb };
                assert(mul_opt_op(op) == seq![l]);
                assert(mul_opt_op(l) == seq![l]);
                assert(!op_has_mul_loop(l));
                assert(seq![l].drop_last() == Seq::<IrNode>::empty());
                assert(seq![l].last() == l);
                assert(Seq::<IrNode>::empty() + seq![l] == seq![l]);
                assert(mul_opt_ops(seq![l]) == mul_opt_ops(Seq::<IrNode>::empty()) + mul_opt_op(l));
                assert(!has_mul_loop(Seq::<IrNode>::empty()));
                assert(mul_opt_ops(Seq::<IrNode>::empty()) == Seq::<IrNode>::empty());
                assert(mul_opt_ops(seq![l]) == seq![l]);
                assert(!has_mul_loop(seq![l]));
            }
        },
        _ => {
            assert(seq![op].drop_last() == Seq::<IrNode>::empty());
            assert(seq![op].last() == op);
            assert(mul_opt_op(op) == seq![op]);
            assert(!has_mul_loop(Seq::<IrNode>::empty()));
            assert(mul_opt_ops(Seq::<IrNode>::empty()) == Seq::<IrNode>::empty());
            assert(Seq::<IrNode>::empty() + seq![op] == seq![op]);
            assert(!op_has_mul_loop(op));
            assert(has_mul_loop(seq![op]) == (has_mul_loop(Seq::<IrNode>::empty()) || op_has_mul_loop(op)));
        },
    }
}

/// The total that the increments of a block add at offset `k`, as an
/// integer (operations that are not increments add nothing).
pub open spec fn offset_total(ops: Seq<IrNode>, k: i32) -> int
    decreases ops.len(),
{
    if ops.len() == 0 {
        0
    } else {
        offset_total(ops.drop_last(), k) + match ops.last() {
            IrNode::Incr { val, offset } => if offset == k {
                val as int
            } else {
                0
            },
            _ => 0,
        }
    }
}

/// When the running totals fit, the total that the search records for an
/// offset is the sum of the increments there.
proof fn lemma_delta_at_total(ops: Seq<IrNode>, k: i32)
    requires
        deltas_fit(ops),
    ensures
        delta_at(incr_deltas(ops), k) == offset_total(ops, k),
    decreases ops.len(),
{
    if ops.len() > 0 {
        lemma_delta_at_total(ops.drop_last(), k);
    }
}

/// Which loops are multiplication loops, in plain terms: a loop whose body
/// holds only increments, at any offsets and of any sign, and whose
/// increments at the counter's offset add up to exactly -1; every such loop
/// is replaced by its multiplications, and no other loop is.
pub proof fn lemma_mul_loop_characterized(prior: i32, after: i32, body: Seq<IrNode>)
    requires
        scan_fits(body),
    ensures
        is_mul_loop(body) <==> (forall|t: int| 0 <= t < body.len() ==> #[trigger] body[t] is Incr)
            && offset_total(body, 0) == -1,
        (forall|t: int| 0 <= t < body.len() ==> #[trigger] body[t] is Incr) && offset_total(body, 0)
            == -1 ==> mul_opt_op(
            IrNode::Loop { move_head_prior: prior, move_head_after_iter: after, body },
        ) == mul_replacement(body, prior),
        !((forall|t: int| 0 <= t < body.len() ==> #[trigger] body[t] is Incr) && offset_total(body, 0)
            == -1) ==> mul_opt_op(
            IrNode::Loop { move_head_prior: prior, move_head_after_iter: after, body },
        ) == seq![
            IrNode::Loop { move_head_prior: prior, move_head_after_iter: after, body: mul_opt_ops(body) },
        ],
{
    let all = forall|t: int| 0 <= t < body.len() ==> #[trigger] body[t] is Incr;
    if all {
        assert(incr_up_to(body, body.len() as int)) by {
            assert forall|t: int| 0 <= t < body.len() implies #[trigger] is_incr(body[t]) by {
                assert(body[t] is Incr);
            }
        }
        assert(body.take(body.len() as int) == body);
        assert(deltas_fit(body));
        lemma_delta_at_total(body, 0);
    } else {
        assert(!incr_up_to(body, body.len() as int)) by {
            let t = choose|t: int| 0 <= t < body.len() && !(#[trigger] body[t] is Incr);
            assert(!is_incr(body[t]));
        }
    }
}

/// What one operation becomes is never empty, and starts with an increment
/// only when it is that increment left as it is.
proof fn lemma_mul_opt_op_front(x: IrNode)
    ensures
        mul_opt_op(x).len() >= 1,
        is_incr(mul_opt_op(x)[0]) ==> mul_opt_op(x) == seq![x],
{
    if let IrNode::Loop { move_head_prior, move_head_after_iter, body } = x {
        if is_mul_loop(body) {
            let mm = mul_moves(sorted_entries(incr_deltas(body)), move_head_prior);
            lemma_mul_moves_loop_free(sorted_entries(incr_deltas(body)), move_head_prior);
            let r = mul_replacement(body, move_head_prior);
            if mm.len() > 0 {
                assert(r[0] == mm[0]);
            }
        }
    }
}

/// Replacing multiplication loops never shortens a block.
proof fn lemma_mul_opt_len(ops: Seq<IrNode>)
    ensures
        mul_opt_ops(ops).len() >= ops.len(),
    decreases ops.len(),
{
    if ops.len() > 0 {
        lemma_mul_opt_len(ops.drop_last());
        lemma_mul_opt_op_front(ops.last());
    }
}

/// A leading run of increments of the replaced block is a leading run of
/// increments of the block itself, unchanged.
proof fn lemma_mul_opt_incr_prefix(ops: Seq<IrNode>, k: int)
    requires
        0 <= k <= mul_opt_ops(ops).len(),
        incr_up_to(mul_opt_ops(ops), k),
    ensures
        k <= ops.len(),
        mul_opt_ops(ops).take(k) == ops.take(k),
    decreases ops.len(),
{
    let r = mul_opt_ops(ops);
    if ops.len() == 0 {
        assert(r == Seq::<IrNode>::empty());
    } else {
        let d = ops.drop_last();
        let x = ops.last();
        let a = mul_opt_ops(d);
        let y = mul_opt_op(x);
        assert(r == a + y);
        lemma_mul_opt_len(d);
        lemma_mul_opt_op_front(x);
        if k <= a.len() {
            assert forall|t: int| 0 <= t < k implies #[trigger] is_incr(a[t]) by {
                assert(r[t] == a[t]);
            }
            lemma_mul_opt_incr_prefix(d, k);
            assert(r.take(k) == a.take(k));
            assert(ops.take(k) == d.take(k));
        } else {
            assert forall|t: int| 0 <= t < a.len() implies #[trigger] is_incr(a[t]) by {
                assert(r[t] == a[t]);
            }
            lemma_mul_opt_incr_prefix(d, a.len() as int);
            assert(a.take(a.len() as int) == a);
            assert(d.take(a.len() as int) == d);
            assert(r[a.len() as int] == y[0]);
            assert(is_incr(r[a.len() as int]));
            assert(y == seq![x]);
            assert(r == ops);
        }
    }
}

/// A block that meets `mul_opt_fits` piece by piece meets it whole.
proof fn lemma_mul_opt_fits_concat(a: Seq<IrNode>, b: Seq<IrNode>)
    requires
        mul_opt_fits(a),
        mul_opt_fits(b),
    ensures
        mul_opt_fits(a + b),
    decreases b.len(),
{
    if b.len() == 0 {
        assert(a + b == a);
    } else {
        lemma_mul_opt_fits_concat(a, b.drop_last());
        assert((a + b).drop_last() == a + b.drop_last());
        assert((a + b).last() == b.last());
    }
}

proof fn lemma_mul_opt_fits_loop_free(ops: Seq<IrNode>)
    requires
        forall|t: int| 0 <= t < ops.len() ==> !(#[trigger] ops[t] is Loop),
    ensures
        mul_opt_fits(ops),
    decreases ops.len(),
{
    if ops.len() > 0 {
        let d = ops.drop_last();
        assert forall|t: int| 0 <= t < d.len() implies !(#[trigger] d[t] is Loop) by {
            assert(d[t] == ops[t]);
        }
        lemma_mul_opt_fits_loop_free(d);
        assert(ops.last() == ops[ops.len() - 1]);
        assert(!(ops.last() is Loop));
        assert(op_mul_opt_fits(ops.last()));
    }
}

/// Replacing multiplication loops keeps a block in range for a second
/// search: a second call of `opt_mul_loops` can be made on what the first
/// one leaves.
pub proof fn lemma_mul_opt_keeps_fits(ops: Seq<IrNode>)
    requires
        mul_opt_fits(ops),
    ensures
        mul_opt_fits(mul_opt_ops(ops)),
    decreases ops, 1nat,
{
    if ops.len() > 0 {
        lemma_mul_opt_keeps_fits(ops.drop_last());
        lemma_mul_opt_op_keeps_fits(ops.last());
        lemma_mul_opt_fits_concat(mul_opt_ops(ops.drop_last()), mul_opt_op(ops.last()));
    } else {
        assert(mul_opt_ops(ops) == Seq::<IrNode>::empty());
    }
}

proof fn lemma_mul_opt_op_keeps_fits(op: IrNode)
    requires
        op_mul_opt_fits(op),
    ensures
        mul_opt_fits(mul_opt_op(op)),
    decreases op, 0nat,
{
    match op {
        IrNode::Loop { move_head_prior, move_head_after_iter, body } => {
            if is_mul_loop(body) {
                let r = mul_replacement(body, move_head_prior);
                let mm = mul_moves(sorted_entries(incr_deltas(body)), move_head_prior);
                lemma_mul_moves_loop_free(sorted_entries(incr_deltas(body)), move_head_prior);
                assert forall|t: int| 0 <= t < r.len() implies !(#[trigger] r[t] is Loop) by {
                    if t < mm.len() {
                        assert(r[t] == mm[t]);
                    }
                }
                lemma_mul_opt_fits_loop_free(r);
                assert(mul_opt_op(op) == r);
                assert(mul_opt_fits(mul_opt_op(op)));
            } else {
                let nb = mul_opt_ops(body);
                lemma_mul_opt_keeps_fits(body);
                lemma_mul_opt_len(body);
                assert forall|k: int| 0 <= k <= nb.len() && incr_up_to(nb, k) implies #[trigger] deltas_fit(
                    nb.take(k),
                ) by {
                    lemma_mul_opt_incr_prefix(body, k);
                    assert forall|t: int| 0 <= t < k implies #[trigger] is_incr(body[t]) by {
                        assert(body.take(k)[t] == nb.take(k)[t]);
                        assert(nb.take(k)[t] == nb[t]);
                    }
                    assert(deltas_fit(body.take(k)));
                }
                if is_mul_loop(nb) {
                    lemma_mul_opt_incr_prefix(body, nb.len() as int);
                    assert(nb.take(nb.len() as int) == nb);
                    assert(body.take(body.len() as int) == body);
                    assert(nb == body);
                }
                let l = IrNode::Loop { move_head_prior, move_head_after_iter, body: nb };
                assert(scan_fits(nb));
                assert(op_mul_opt_fits(l));
                assert(mul_opt_op(op) == seq![l]);
                assert(seq![l].drop_last() == Seq::<IrNode>::empty());
                assert(seq![l].last() == l);
                assert(mul_opt_fits(Seq::<IrNode>::empty()));
                assert(mul_opt_fits(seq![l]));
            }
        },
        _ => {
            assert(mul_opt_op(op) == seq![op]);
            assert(seq![op].drop_last() == Seq::<IrNode>::empty());
            assert(seq![op].last() == op);
            assert(op_mul_opt_fits(op));
            assert(mul_opt_fits(Seq::<IrNode>::empty()));
            assert(mul_opt_fits(seq![op]));
        },
    }
}

/// Replaces every loop that only moves a multiple of its counter cell into
/// other cells (the counter going down by one per run) by the
/// multiplications it performs and a reset of the counter, at every depth.
/// Returns whether it replaced any loop.
pub fn opt_mul_loops(block: &mut Vec<IrOp>) -> (did_something: bool)
    requires
        mul_opt_fits(view_ops(old(block)@)),
    ensures
        view_ops(final(block)@) == mul_opt_ops(view_ops(old(block)@)),
        did_something == has_mul_loop(view_ops(old(block)@)),
        mul_opt_fits(view_ops(final(block)@)),
    decreases ir_size(view_ops(old(block)@)),
{
    let mut did_something = false;
    let mut new_block: Vec<IrOp> = Vec::new();
    let mut offset_to_incr_delta: BTreeMap<i32, i32> = BTreeMap::new();
    let mut old_block: Vec<IrOp> = Vec::new();
    std::mem::swap(block, &mut old_block);
    let ghost ob = old_block@;
    let ghost ops = view_ops(ob);
    proof {
        lemma_view_ops_index(ob);
        lemma_block_parts(ops);
        assert(ops.take(0) == Seq::<IrNode>::empty());
    }
    for op in it: old_block.into_iter()
        invariant
            it.seq() == ob,
            ob == old(block)@,
            ops == view_ops(ob),
            ops.len() == ob.len(),
            forall|t: int| 0 <= t < ob.len() ==> #[trigger] ops[t] == view_op(ob[t]),
            forall|t: int| 0 <= t < ops.len() ==> node_size(#[trigger] ops[t]) <= ir_size(ops),
            forall|t: int| 0 <= t < ops.len() ==> op_mul_opt_fits(#[trigger] ops[t]),
            forall|k: int| 0 <= k < ops.len() ==> {
                &&& #[trigger] mul_opt_ops(ops.take(k + 1)) == mul_opt_ops(ops.take(k)) + mul_opt_op(ops[k])
                &&& has_mul_loop(ops.take(k + 1)) == (has_mul_loop(ops.take(k)) || op_has_mul_loop(ops[k]))
            },
            view_ops(new_block@) == mul_opt_ops(ops.take(it.index())),
            did_something == has_mul_loop(ops.take(it.index())),
    {
        let ghost k = it.index();
        let ghost before = view_ops(new_block@);
        let ghost d0 = did_something;
        assert(0 <= k < ob.len());
        assert(op == ob[k]);
        assert(ops[k] == view_op(op));
        match op {
            IrOp::Loop(mut loop_) => {
                let ghost body = view_ops(loop_.body@);
                proof {
                    lemma_view_ops_index(loop_.body@);
                }
                assert(ops[k] == IrNode::Loop {
                    move_head_prior: loop_.move_head_prior,
                    move_head_after_iter: loop_.move_head_after_iter,
                    body,
                });
                assert(op_mul_opt_fits(ops[k]));
                assert(node_size(ops[k]) <= ir_size(ops));
                offset_to_incr_delta.clear();
                let definitely_not_a_mul_loop = scan_incr_deltas(&loop_.body, &mut offset_to_incr_delta);
                let sub = opt_mul_loops(&mut loop_.body);
                assert(sub == has_mul_loop(body));
                did_something = did_something || sub;
                let mut replaced_op = false;
                proof {
                    lemma_btree_i32_keys_ordered();
                }
                if !definitely_not_a_mul_loop {
                    let induction = offset_to_incr_delta.get(&0);
                    match induction {
                        Some(d) => {
                            if *d == -1 {
                                let p = loop_.move_head_prior;
                                assert(offset_to_incr_delta@ == incr_deltas(body));
                                assert(incr_up_to(body, body.len() as int));
                                assert(offset_to_incr_delta@.contains_key(0));
                                assert(offset_to_incr_delta@[0] == -1);
                                assert(is_mul_loop(body));
                                assert(mul_targets_fit(body, p));
                                push_mul_moves(&offset_to_incr_delta, p, &mut new_block);
                                let ghost mid = new_block@;
                                new_block.push(IrOp::SetCell { val: 0, offset: p });
                                proof {
                                    lemma_view_ops_push(mid, new_block@.last());
                                    assert(new_block@ == mid.push(new_block@.last()));
                                }
                                replaced_op = true;
                            }
                        },
                        None => {},
                    }
                }
                assert(op_has_mul_loop(ops[k]) == (is_mul_loop(body) || has_mul_loop(body)));
                assert(replaced_op ==> is_mul_loop(body));
                assert(!replaced_op ==> !is_mul_loop(body));
                if replaced_op {
                    did_something = true;
                    assert(did_something == (d0 || op_has_mul_loop(ops[k])));
                } else {
                    assert(did_something == (d0 || op_has_mul_loop(ops[k])));
                    let ghost mid = new_block@;
                    new_block.push(IrOp::Loop(loop_));
                    proof {
                        lemma_view_ops_push(mid, new_block@.last());
                        assert(new_block@ == mid.push(new_block@.last()));
                    }
                }
            },
            other => {
                assert(!op_has_mul_loop(ops[k]));
                assert(mul_opt_op(ops[k]) == seq![view_op(other)]);
                let ghost mid = new_block@;
                new_block.push(other);
                proof {
                    lemma_view_ops_push(mid, new_block@.last());
                    assert(new_block@ == mid.push(new_block@.last()));
                }
            },
        }
        assert(mul_opt_ops(ops.take(k + 1)) == mul_opt_ops(ops.take(k)) + mul_opt_op(ops[k]));
        assert(has_mul_loop(ops.take(k + 1)) == (d0 || op_has_mul_loop(ops[k])));
    }
    proof {
        assert(ops.take(ops.len() as int) == ops);
        lemma_mul_opt_keeps_fits(ops);
    }
    *block = new_block;
    did_something
}

/// Index of the first operation that writes a cell by itself, or the length
/// of the block when none does.
pub open spec fn first_writer(ops: Seq<IrNode>) -> int
    decreases ops.len(),
{
    if ops.len() == 0 {
        0
    } else if writes_by_itself(ops[0]) {
        0
    } else {
        1 + first_writer(ops.drop_first())
    }
}

/// The operations of a block that are not loops, in order.
pub open spec fn drop_loops(ops: Seq<IrNode>) -> Seq<IrNode>
    decreases ops.len(),
{
    if ops.len() == 0 {
        Seq::empty()
    } else if ops.last() is Loop {
        drop_loops(ops.drop_last())
    } else {
        drop_loops(ops.drop_last()).push(ops.last())
    }
}

/// `first_writer` is the first index whose operation writes a cell.
pub proof fn lemma_first_writer(ops: Seq<IrNode>)
    ensures
        0 <= first_writer(ops) <= ops.len(),
        forall|j: int| 0 <= j < first_writer(ops) ==> !writes_by_itself(#[trigger] ops[j]),
        first_writer(ops) < ops.len() ==> writes_by_itself(ops[first_writer(ops)]),
    decreases ops.len(),
{
    if ops.len() > 0 && !writes_by_itself(ops[0]) {
        lemma_first_writer(ops.drop_first());
        assert forall|j: int| 0 <= j < first_writer(ops) implies !writes_by_itself(#[trigger] ops[j]) by {
            if j > 0 {
                assert(ops[j] == ops.drop_first()[j - 1]);
            }
        }
    }
}

/// A block with the loops in front of its first cell-writing operation dropped.
pub open spec fn strip_ir_frontmatter(ops: Seq<IrNode>) -> Seq<IrNode> {
    drop_loops(ops.take(first_writer(ops))) + ops.skip(first_writer(ops))
}

/// Every loop of the block comes after an operation that writes a cell.
pub open spec fn ir_loops_after_write(ops: Seq<IrNode>) -> bool {
    forall|k: int|
        0 <= k < ops.len() && (#[trigger] ops[k]) is Loop ==> exists|j: int|
            0 <= j < k && writes_by_itself(#[trigger] ops[j])
}

proof fn lemma_drop_loops(s: Seq<IrNode>)
    ensures
        forall|i: int| 0 <= i < drop_loops(s).len() ==> !((#[trigger] drop_loops(s)[i]) is Loop),
        (forall|j: int| 0 <= j < s.len() ==> !writes_by_itself(#[trigger] s[j])) ==> forall|i: int|
            0 <= i < drop_loops(s).len() ==> !writes_by_itself(#[trigger] drop_loops(s)[i]),
        (forall|j: int| 0 <= j < s.len() ==> !((#[trigger] s[j]) is Loop)) ==> drop_loops(s) == s,
    decreases s.len(),
{
    if s.len() > 0 {
        let d = s.drop_last();
        lemma_drop_loops(d);
        assert forall|j: int| 0 <= j < d.len() implies d[j] == s[j] by {}
        if forall|j: int| 0 <= j < s.len() ==> !((#[trigger] s[j]) is Loop) {
            assert(!(s[s.len() - 1] is Loop));
            assert forall|j: int| 0 <= j < d.len() implies !((#[trigger] d[j]) is Loop) by {
                assert(d[j] == s[j]);
            }
            assert(d.push(s.last()) == s);
        }
        if forall|j: int| 0 <= j < s.len() ==> !writes_by_itself(#[trigger] s[j]) {
            assert(!writes_by_itself(s[s.len() - 1]));
            assert forall|j: int| 0 <= j < d.len() implies !writes_by_itself(#[trigger] d[j]) by {
                assert(d[j] == s[j]);
            }
        }
    }
}

proof fn lemma_first_writer_concat(a: Seq<IrNode>, b: Seq<IrNode>)
    requires
        forall|j: int| 0 <= j < a.len() ==> !writes_by_itself(#[trigger] a[j]),
    ensures
        first_writer(a + b) == a.len() + first_writer(b),
    decreases a.len(),
{
    if a.len() > 0 {
        assert((a + b)[0] == a[0]);
        assert((a + b).drop_first() == a.drop_first() + b);
        assert forall|j: int| 0 <= j < a.drop_first().len() implies !writes_by_itself(
            #[trigger] a.drop_first()[j],
        ) by {
            assert(a.drop_first()[j] == a[j + 1]);
        }
        lemma_first_writer_concat(a.drop_first(), b);
    } else {
        assert(a + b == b);
    }
}

/// After the loops in front are dropped, every remaining loop comes after
/// a cell-writing operation, so dropping them again changes nothing.
pub proof fn lemma_opt_remove_frontmatter_idempotent(ops: Seq<IrNode>)
    ensures
        ir_loops_after_write(strip_ir_frontmatter(ops)),
        strip_ir_frontmatter(strip_ir_frontmatter(ops)) == strip_ir_frontmatter(ops),
{
    lemma_first_writer(ops);
    let fw = first_writer(ops);
    let pre = ops.take(fw);
    let a = drop_loops(pre);
    let b = ops.skip(fw);
    let r = a + b;
    assert forall|j: int| 0 <= j < pre.len() implies !writes_by_itself(#[trigger] pre[j]) by {
        assert(pre[j] == ops[j]);
    }
    lemma_drop_loops(pre);
    lemma_drop_loops(a);
    lemma_first_writer_concat(a, b);
    if b.len() > 0 {
        assert(b[0] == ops[fw]);
        assert(first_writer(b) == 0);
    } else {
        assert(first_writer(b) == 0);
    }
    assert(first_writer(r) == a.len());
    assert(r.take(a.len() as int) == a);
    assert(r.skip(a.len() as int) == b);
    assert forall|k: int| 0 <= k < r.len() && (#[trigger] r[k]) is Loop implies exists|j: int|
        0 <= j < k && writes_by_itself(#[trigger] r[j]) by {
        if k < a.len() {
            assert(r[k] == a[k]);
        } else {
            assert(r[k] == b[k - a.len()]);
            assert(r[a.len() as int] == b[0]);
            assert(b[0] == ops[fw]);
            assert(k != a.len());
        }
    }
}

/// Drops the loops that come before the first operation that writes a cell:
/// the tape starts all zero, so such a loop never runs.
pub fn opt_remove_frontmatter(root: &mut Vec<IrOp>)
    ensures
        view_ops(final(root)@) == strip_ir_frontmatter(view_ops(old(root)@)),
{
    let ghost v = view_ops(root@);
    let ghost fw = first_writer(v);
    proof {
        lemma_view_ops_index(root@);
        lemma_first_writer(v);
        assert(v.take(0) == Seq::<IrNode>::empty());
    }
    let mut new_ops: Vec<IrOp> = Vec::new();
    let mut emit_everything_now = false;
    let mut idx: usize = 0;
    while idx < root.len()
        invariant
            v == view_ops(root@),
            v.len() == root@.len(),
            forall|t: int| 0 <= t < root@.len() ==> #[trigger] v[t] == view_op(root@[t]),
            0 <= fw <= v.len(),
            forall|j: int| 0 <= j < fw ==> !writes_by_itself(#[trigger] v[j]),
            fw < v.len() ==> writes_by_itself(v[fw]),
            0 <= idx <= root@.len(),
            emit_everything_now == (fw < idx),
            idx <= fw ==> view_ops(new_ops@) == drop_loops(v.take(idx as int)),
            fw < idx ==> view_ops(new_ops@) == drop_loops(v.take(fw)) + v.subrange(fw, idx as int),
        decreases root@.len() - idx,
    {
        let op = &root[idx];
        assert(v[idx as int] == op@);
        if op.writes_cells_by_itself() {
            emit_everything_now = true;
        }
        let is_loop = match op {
            IrOp::Loop(..) => true,
            _ => false,
        };
        let ghost before = new_ops@;
        proof {
            assert(v.take(idx + 1).drop_last() == v.take(idx as int));
            if idx as int == fw {
                assert(v.take(fw) + v.subrange(fw, idx + 1) == v.take(fw).push(v[fw]));
            }
        }
        if !is_loop || emit_everything_now {
            new_ops.push(clone_op(op));
            proof {
                lemma_view_ops_push(before, new_ops@.last());
                assert(new_ops@ == before.push(new_ops@.last()));
                if fw < idx {
                    assert(v.subrange(fw, idx + 1) == v.subrange(fw, idx as int).push(v[idx as int]));
                }
            }
        }
        idx = idx + 1;
    }
    proof {
        if fw == v.len() {
            assert(v.take(fw) == v);
            assert(v.skip(fw) == Seq::<IrNode>::empty());
        } else {
            assert(v.subrange(fw, v.len() as int) == v.skip(fw));
        }
    }
    *root = new_ops;
}

/// Capacity of the output buffer of the generated program.
pub const OUT_BUF_SIZE: usize = 32;

/// A flush of the output buffer when it holds something.
pub open spec fn flush_if(b: nat) -> Seq<CStmt> {
    if b > 0 {
        seq![CStmt::Flush { count: b as usize }]
    } else {
        Seq::empty()
    }
}

/// A move of the tape pointer when it moves at all.
pub open spec fn move_if(d: i32) -> Seq<CStmt> {
    if d != 0 {
        seq![CStmt::MoveHead { delta: d }]
    } else {
        Seq::empty()
    }
}

/// The statements of one operation when the output buffer holds `b`
/// characters before it, with the number it holds after it. An output
/// stores one character, whatever its count, and flushes a full buffer; a
/// loop flushes the buffer first and its body starts with an empty one.
pub open spec fn op_stmts(op: IrNode, b: nat) -> (Seq<CStmt>, nat)
    decreases op,
{
    match op {
        IrNode::Incr { val, offset } => (seq![CStmt::AddConst { offset, val }], b),
        IrNode::SetCell { val, offset } => (seq![CStmt::SetConst { offset, byte: val as u8 }], b),
        IrNode::MulBy { src_offset, mul, dst_offset } => (
            seq![CStmt::MulInto { dst: dst_offset, src: src_offset, mul }],
            b,
        ),
        IrNode::Input { count, offset } => (
            Seq::new(count as nat, |j: int| CStmt::ReadIn { offset }),
            b,
        ),
        IrNode::Output { count, offset } => if b + 1 >= OUT_BUF_SIZE {
            (
                seq![
                    CStmt::StoreOut { slot: b as usize, offset },
                    CStmt::Flush { count: (b + 1) as usize },
                ],
                0,
            )
        } else {
            (seq![CStmt::StoreOut { slot: b as usize, offset }], b + 1)
        },
        IrNode::Loop { move_head_prior, move_head_after_iter, body } => (
            flush_if(b) + move_if(move_head_prior) + seq![CStmt::WhileOpen] + block_prefix(body).0
                + flush_if(block_prefix(body).1) + move_if(move_head_after_iter) + seq![
                CStmt::WhileClose,
            ],
            0,
        ),
    }
}

/// The statements of a block, without the final flush, and the number of
/// characters left in the output buffer.
pub open spec fn block_prefix(ir: Seq<IrNode>) -> (Seq<CStmt>, nat)
    decreases ir,
{
    if ir.len() == 0 {
        (Seq::empty(), 0)
    } else {
        let pre = block_prefix(ir.drop_last());
        let last = op_stmts(ir.last(), pre.1);
        (pre.0 + last.0, last.1)
    }
}

/// The statements of a block: those of its operations, then a flush of
/// whatever the output buffer still holds.
pub open spec fn block_stmts(ir: Seq<IrNode>) -> Seq<CStmt> {
    let pre = block_prefix(ir);
    pre.0 + flush_if(pre.1)
}

/// No increment and no head move of the block, at any depth, is
/// `i32::MIN`, whose magnitude does not fit in an `i32`.
pub open spec fn c_fits(ir: Seq<IrNode>) -> bool
    decreases ir,
{
    if ir.len() == 0 {
        true
    } else {
        c_fits(ir.drop_last()) && op_c_fits(ir.last())
    }
}

/// No increment and no head move of the operation, at any depth, is `i32::MIN`.
pub open spec fn op_c_fits(op: IrNode) -> bool
    decreases op,
{
    match op {
        IrNode::Incr { val, .. } => val != i32::MIN,
        IrNode::Loop { move_head_prior, move_head_after_iter, body } => {
            &&& move_head_prior != i32::MIN
            &&& move_head_after_iter != i32::MIN
            &&& c_fits(body)
        },
        _ => true,
    }
}

/// The output buffer never holds a full buffer's worth between statements.
pub proof fn lemma_block_prefix_buffer(ir: Seq<IrNode>)
    ensures
        block_prefix(ir).1 < OUT_BUF_SIZE,
    decreases ir.len(),
{
    if ir.len() > 0 {
        lemma_block_prefix_buffer(ir.drop_last());
        let b = block_prefix(ir.drop_last()).1;
        match ir.last() {
            IrNode::Output { count, offset } => {
                assert(op_stmts(ir.last(), b).1 < OUT_BUF_SIZE);
            },
            IrNode::Loop { .. } => {
                assert(op_stmts(ir.last(), b).1 == 0);
            },
            _ => {
                assert(op_stmts(ir.last(), b).1 == b);
            },
        }
    }
}

/// Facts about each operation of a block and its statements.
pub proof fn lemma_block_prefix_parts(ir: Seq<IrNode>)
    ensures
        forall|t: int| 0 <= t < ir.len() ==> node_size(#[trigger] ir[t]) <= ir_size(ir),
        c_fits(ir) ==> forall|t: int| 0 <= t < ir.len() ==> op_c_fits(#[trigger] ir[t]),
        forall|k: int| 0 <= k < ir.len() ==> #[trigger] block_prefix(ir.take(k + 1)) == (
            block_prefix(ir.take(k)).0 + op_stmts(ir[k], block_prefix(ir.take(k)).1).0,
            op_stmts(ir[k], block_prefix(ir.take(k)).1).1,
        ),
    decreases ir.len(),
{
    if ir.len() > 0 {
        lemma_block_prefix_parts(ir.drop_last());
        assert forall|k: int| 0 <= k < ir.len() implies #[trigger] block_prefix(ir.take(k + 1)) == (
            block_prefix(ir.take(k)).0 + op_stmts(ir[k], block_prefix(ir.take(k)).1).0,
            op_stmts(ir[k], block_prefix(ir.take(k)).1).1,
        ) by {
            assert(ir.take(k + 1).drop_last() == ir.take(k));
            assert(ir.take(k + 1).last() == ir[k]);
        }
        assert forall|t: int| 0 <= t < ir.len() - 1 implies ir.drop_last()[t] == ir[t] by {}
    }
}

/// Every store into the output buffer of the generated program stays inside
/// the buffer, and every flush prints between one and a full buffer's worth
/// of characters.
pub open spec fn buffer_safe(stmts: Seq<CStmt>) -> bool {
    forall|i: int|
        0 <= i < stmts.len() ==> match #[trigger] stmts[i] {
            CStmt::StoreOut { slot, .. } => slot < OUT_BUF_SIZE,
            CStmt::Flush { count } => 1 <= count <= OUT_BUF_SIZE,
            _ => true,
        }
}

/// Two statement sequences that use the buffer safely do so one after the
/// other.
pub proof fn lemma_buffer_safe_concat(a: Seq<CStmt>, b: Seq<CStmt>)
    requires
        buffer_safe(a),
        buffer_safe(b),
    ensures
        buffer_safe(a + b),
{
    assert forall|i: int| 0 <= i < (a + b).len() implies match #[trigger] (a + b)[i] {
        CStmt::StoreOut { slot, .. } => slot < OUT_BUF_SIZE,
        CStmt::Flush { count } => 1 <= count <= OUT_BUF_SIZE,
        _ => true,
    } by {
        if i < a.len() {
            assert((a + b)[i] == a[i]);
        } else {
            assert((a + b)[i] == b[i - a.len()]);
        }
    }
}

proof fn lemma_block_prefix_buffer_safe(ir: Seq<IrNode>)
    ensures
        buffer_safe(block_prefix(ir).0),
        block_prefix(ir).1 < OUT_BUF_SIZE,
    decreases ir, 1nat,
{
    if ir.len() > 0 {
        lemma_block_prefix_buffer_safe(ir.drop_last());
        let pre = block_prefix(ir.drop_last());
        lemma_op_stmts_buffer_safe(ir.last(), pre.1);
        lemma_buffer_safe_concat(pre.0, op_stmts(ir.last(), pre.1).0);
    } else {
        assert(block_prefix(ir).0 == Seq::<CStmt>::empty());
    }
}

proof fn lemma_op_stmts_buffer_safe(op: IrNode, b: nat)
    requires
        b < OUT_BUF_SIZE,
    ensures
        buffer_safe(op_stmts(op, b).0),
        op_stmts(op, b).1 < OUT_BUF_SIZE,
    decreases op, 0nat,
{
    match op {
        IrNode::Loop { move_head_prior, move_head_after_iter, body } => {
            lemma_block_prefix_buffer_safe(body);
            let inner = block_prefix(body);
            let parts = seq![
                flush_if(b),
                move_if(move_head_prior),
                seq![CStmt::WhileOpen],
                inner.0,
                flush_if(inner.1),
                move_if(move_head_after_iter),
                seq![CStmt::WhileClose],
            ];
            assert(buffer_safe(flush_if(b)));
            assert(buffer_safe(move_if(move_head_prior)));
            assert(buffer_safe(seq![CStmt::WhileOpen]));
            assert(buffer_safe(flush_if(inner.1)));
            assert(buffer_safe(move_if(move_head_after_iter)));
            assert(buffer_safe(seq![CStmt::WhileClose]));
            lemma_buffer_safe_concat(flush_if(b), move_if(move_head_prior));
            let s1 = flush_if(b) + move_if(move_head_prior);
            lemma_buffer_safe_concat(s1, seq![CStmt::WhileOpen]);
            let s2 = s1 + seq![CStmt::WhileOpen];
            lemma_buffer_safe_concat(s2, inner.0);
            let s3 = s2 + inner.0;
            lemma_buffer_safe_concat(s3, flush_if(inner.1));
            let s4 = s3 + flush_if(inner.1);
            lemma_buffer_safe_concat(s4, move_if(move_head_after_iter));
            let s5 = s4 + move_if(move_head_after_iter);
            lemma_buffer_safe_concat(s5, seq![CStmt::WhileClose]);
        },
        _ => {},
    }
}

/// The nesting depth of C loops after the statements: `while` openings
/// minus closing braces.
pub open spec fn cdepth(stmts: Seq<CStmt>) -> int
    decreases stmts.len(),
{
    if stmts.len() == 0 {
        0
    } else {
        cdepth(stmts.drop_last()) + match stmts.last() {
            CStmt::WhileOpen => 1int,
            CStmt::WhileClose => -1int,
            _ => 0,
        }
    }
}

/// How far the pointer increments and decrements (`c += d;`, `c -= d;`)
/// among the statements move the tape pointer, counting only those at loop
/// nesting depth `d` (0 being outside every loop of the statements).
pub open spec fn moves_at(stmts: Seq<CStmt>, d: int) -> int
    decreases stmts.len(),
{
    if stmts.len() == 0 {
        0
    } else {
        moves_at(stmts.drop_last(), d) + match stmts.last() {
            CStmt::MoveHead { delta } => if cdepth(stmts.drop_last()) == d {
                delta as int
            } else {
                0
            },
            _ => 0,
        }
    }
}

/// The sum of the prior head moves of the loops of a block (not of the
/// loops nested in them).
pub open spec fn loop_priors(ir: Seq<IrNode>) -> int
    decreases ir.len(),
{
    if ir.len() == 0 {
        0
    } else {
        loop_priors(ir.drop_last()) + match ir.last() {
            IrNode::Loop { move_head_prior, .. } => move_head_prior as int,
            _ => 0,
        }
    }
}

proof fn lemma_moves_concat(a: Seq<CStmt>, b: Seq<CStmt>, d: int)
    ensures
        cdepth(a + b) == cdepth(a) + cdepth(b),
        moves_at(a + b, d) == moves_at(a, d) + moves_at(b, d - cdepth(a)),
    decreases b.len(),
{
    if b.len() == 0 {
        assert(a + b == a);
    } else {
        lemma_moves_concat(a, b.drop_last(), d);
        lemma_moves_concat(a, b.drop_last(), d - cdepth(a));
        assert((a + b).drop_last() == a + b.drop_last());
        assert((a + b).last() == b.last());
    }
}

/// Statements without pointer moves and without loops.
proof fn lemma_moves_plain(a: Seq<CStmt>, d: int)
    requires
        forall|k: int|
            0 <= k < a.len() ==> !(#[trigger] a[k] is MoveHead) && !(a[k] is WhileOpen) && !(
            a[k] is WhileClose),
    ensures
        cdepth(a) == 0,
        moves_at(a, d) == 0,
    decreases a.len(),
{
    if a.len() > 0 {
        assert forall|k: int|
            0 <= k < a.len() - 1 implies !(#[trigger] a.drop_last()[k] is MoveHead) && !(
            a.drop_last()[k] is WhileOpen) && !(a.drop_last()[k] is WhileClose) by {
            assert(a.drop_last()[k] == a[k]);
        }
        lemma_moves_plain(a.drop_last(), d);
        assert(a.last() == a[a.len() - 1]);
    }
}

proof fn lemma_single_moves(x: CStmt, d: int)
    ensures
        cdepth(seq![x]) == match x {
            CStmt::WhileOpen => 1int,
            CStmt::WhileClose => -1int,
            _ => 0,
        },
        moves_at(seq![x], d) == match x {
            CStmt::MoveHead { delta } => if d == 0 {
                delta as int
            } else {
                0
            },
            _ => 0,
        },
{
    let e = Seq::<CStmt>::empty();
    assert(seq![x].drop_last() == e);
    assert(seq![x].last() == x);
    assert(cdepth(e) == 0);
    assert(moves_at(e, d) == 0);
}

proof fn lemma_flush_move_if(b: nat, m: i32, d: int)
    ensures
        cdepth(flush_if(b)) == 0,
        moves_at(flush_if(b), d) == 0,
        cdepth(move_if(m)) == 0,
        moves_at(move_if(m), d) == if d == 0 {
            m as int
        } else {
            0
        },
{
    if b > 0 {
        lemma_single_moves(CStmt::Flush { count: b as usize }, d);
    }
    if m != 0 {
        lemma_single_moves(CStmt::MoveHead { delta: m }, d);
    }
}

proof fn lemma_block_moves(ir: Seq<IrNode>, d: int)
    ensures
        cdepth(block_prefix(ir).0) == 0,
        d < 0 ==> moves_at(block_prefix(ir).0, d) == 0,
        d == 0 ==> moves_at(block_prefix(ir).0, d) == loop_priors(ir),
    decreases ir, 1nat,
{
    if ir.len() == 0 {
        assert(block_prefix(ir).0 == Seq::<CStmt>::empty());
    } else {
        let pre = block_prefix(ir.drop_last());
        lemma_block_moves(ir.drop_last(), d);
        lemma_op_moves(ir.last(), pre.1, d);
        lemma_moves_concat(pre.0, op_stmts(ir.last(), pre.1).0, d);
    }
}

proof fn lemma_op_moves(op: IrNode, b: nat, d: int)
    ensures
        cdepth(op_stmts(op, b).0) == 0,
        d < 0 ==> moves_at(op_stmts(op, b).0, d) == 0,
        d == 0 ==> moves_at(op_stmts(op, b).0, d) == match op {
            IrNode::Loop { move_head_prior, .. } => move_head_prior as int,
            _ => 0,
        },
        d == 1 ==> moves_at(op_stmts(op, b).0, d) == match op {
            IrNode::Loop { move_head_after_iter, body, .. } => move_head_after_iter + loop_priors(body),
            _ => 0,
        },
    decreases op, 0nat,
{
    match op {
        IrNode::Loop { move_head_prior, move_head_after_iter, body } => {
            let inner = block_prefix(body);
            lemma_block_moves(body, d - 1);
            let s0 = flush_if(b);
            let s1 = move_if(move_head_prior);
            let s2 = seq![CStmt::WhileOpen];
            let s3 = inner.0;
            let s4 = flush_if(inner.1);
            let s5 = move_if(move_head_after_iter);
            let s6 = seq![CStmt::WhileClose];
            lemma_flush_move_if(b, move_head_prior, d);
            lemma_flush_move_if(inner.1, move_head_after_iter, d - 1);
            lemma_single_moves(CStmt::WhileOpen, d);
            lemma_single_moves(CStmt::WhileClose, d - 1);
            lemma_moves_concat(s0, s1, d);
            let a1 = s0 + s1;
            lemma_moves_concat(a1, s2, d);
            let a2 = a1 + s2;
            lemma_moves_concat(a2, s3, d);
            let a3 = a2 + s3;
            lemma_moves_concat(a3, s4, d);
            let a4 = a3 + s4;
            lemma_moves_concat(a4, s5, d);
            let a5 = a4 + s5;
            lemma_moves_concat(a5, s6, d);
            assert(op_stmts(op, b).0 == a5 + s6);
        },
        IrNode::Input { count, offset } => {
            let a = op_stmts(op, b).0;
            assert forall|k: int|
                0 <= k < a.len() implies !(#[trigger] a[k] is MoveHead) && !(a[k] is WhileOpen) && !(
                a[k] is WhileClose) by {
                assert(a[k] == CStmt::ReadIn { offset });
            }
            lemma_moves_plain(a, d);
        },
        IrNode::Output { count, offset } => {
            let a = op_stmts(op, b).0;
            assert forall|k: int|
                0 <= k < a.len() implies !(#[trigger] a[k] is MoveHead) && !(a[k] is WhileOpen) && !(
                a[k] is WhileClose) by {}
            lemma_moves_plain(a, d);
        },
        _ => {
            let a = op_stmts(op, b).0;
            lemma_single_moves(a[0], d);
            assert(a == seq![a[0]]);
        },
    }
}

/// The C code of a loop moves the tape pointer as the loop moves the head:
/// outside the `while`, by exactly the prior head move; inside it, on each
/// run, by exactly the move per run plus the prior moves of the loops in
/// the body (both with their signs); and its braces balance.
pub proof fn lemma_loop_c_moves(prior: i32, after: i32, body: Seq<IrNode>, b: nat)
    ensures
        ({
            let s = op_stmts(
                IrNode::Loop { move_head_prior: prior, move_head_after_iter: after, body },
                b,
            ).0;
            &&& cdepth(s) == 0
            &&& moves_at(s, 0) == prior
            &&& moves_at(s, 1) == after + loop_priors(body)
        }),
{
    let op = IrNode::Loop { move_head_prior: prior, move_head_after_iter: after, body };
    lemma_op_moves(op, b, 0);
    lemma_op_moves(op, b, 1);
}

/// The C code of a block moves the tape pointer, outside its loops, by the
/// prior head moves of its loops, and its braces balance.
pub proof fn lemma_block_c_moves(ir: Seq<IrNode>)
    ensures
        cdepth(block_stmts(ir)) == 0,
        moves_at(block_stmts(ir), 0) == loop_priors(ir),
{
    lemma_block_moves(ir, 0);
    let pre = block_prefix(ir);
    lemma_flush_move_if(pre.1, 0, 0);
    lemma_moves_concat(pre.0, flush_if(pre.1), 0);
}

/// The number of characters waiting in the output buffer after the
/// statements, when `p` were waiting before them: a store adds one, a flush
/// empties the buffer.
pub open spec fn pending_after(stmts: Seq<CStmt>, p: int) -> int
    decreases stmts.len(),
{
    if stmts.len() == 0 {
        p
    } else {
        match stmts.last() {
            CStmt::StoreOut { .. } => pending_after(stmts.drop_last(), p) + 1,
            CStmt::Flush { .. } => 0,
            _ => pending_after(stmts.drop_last(), p),
        }
    }
}

/// The statements use the output buffer in order, `p` characters waiting
/// before them: each store goes to the next free slot, and each flush
/// prints exactly the characters waiting, at least one.
pub open spec fn buffer_in_order(stmts: Seq<CStmt>, p: int) -> bool
    decreases stmts.len(),
{
    if stmts.len() == 0 {
        true
    } else {
        buffer_in_order(stmts.drop_last(), p) && match stmts.last() {
            CStmt::StoreOut { slot, .. } => slot == pending_after(stmts.drop_last(), p),
            CStmt::Flush { count } => count == pending_after(stmts.drop_last(), p) && count >= 1,
            _ => true,
        }
    }
}

/// How two statement sequences one after the other use the output buffer.
pub proof fn lemma_buffer_in_order_concat(a: Seq<CStmt>, b: Seq<CStmt>, p: int)
    ensures
        pending_after(a + b, p) == pending_after(b, pending_after(a, p)),
        buffer_in_order(a + b, p) == (buffer_in_order(a, p) && buffer_in_order(b, pending_after(a, p))),
    decreases b.len(),
{
    if b.len() == 0 {
        assert(a + b == a);
    } else {
        lemma_buffer_in_order_concat(a, b.drop_last(), p);
        assert((a + b).drop_last() == a + b.drop_last());
        assert((a + b).last() == b.last());
    }
}

/// How one statement uses the output buffer.
pub proof fn lemma_buffer_single(x: CStmt, p: int)
    ensures
        pending_after(seq![x], p) == match x {
            CStmt::StoreOut { .. } => p + 1,
            CStmt::Flush { .. } => 0,
            _ => p,
        },
        buffer_in_order(seq![x], p) == match x {
            CStmt::StoreOut { slot, .. } => slot == p,
            CStmt::Flush { count } => count == p && count >= 1,
            _ => true,
        },
{
    let e = Seq::<CStmt>::empty();
    assert(seq![x].drop_last() == e);
    assert(seq![x].last() == x);
    assert(pending_after(e, p) == p);
    assert(buffer_in_order(e, p));
}

/// Statements that neither store nor flush leave the buffer as it is.
pub proof fn lemma_buffer_plain(a: Seq<CStmt>, p: int)
    requires
        forall|k: int| 0 <= k < a.len() ==> !(#[trigger] a[k] is StoreOut) && !(a[k] is Flush),
    ensures
        pending_after(a, p) == p,
        buffer_in_order(a, p),
    decreases a.len(),
{
    if a.len() > 0 {
        assert forall|k: int| 0 <= k < a.len() - 1 implies !(#[trigger] a.drop_last()[k] is StoreOut) && !(
            a.drop_last()[k] is Flush) by {
            assert(a.drop_last()[k] == a[k]);
        }
        lemma_buffer_plain(a.drop_last(), p);
        assert(a.last() == a[a.len() - 1]);
    }
}

/// A flush of whatever the buffer holds empties it in order.
pub proof fn lemma_flush_if_order(b: nat)
    requires
        b < OUT_BUF_SIZE,
    ensures
        pending_after(flush_if(b), b as int) == 0,
        buffer_in_order(flush_if(b), b as int),
{
    if b > 0 {
        lemma_buffer_single(CStmt::Flush { count: b as usize }, b as int);
    }
}

proof fn lemma_block_prefix_order(ir: Seq<IrNode>)
    ensures
        buffer_in_order(block_prefix(ir).0, 0),
        pending_after(block_prefix(ir).0, 0) == block_prefix(ir).1,
    decreases ir, 1nat,
{
    if ir.len() == 0 {
        assert(block_prefix(ir).0 == Seq::<CStmt>::empty());
    } else {
        let pre = block_prefix(ir.drop_last());
        lemma_block_prefix_order(ir.drop_last());
        lemma_block_prefix_buffer_safe(ir.drop_last());
        lemma_op_stmts_order(ir.last(), pre.1);
        lemma_buffer_in_order_concat(pre.0, op_stmts(ir.last(), pre.1).0, 0);
    }
}

proof fn lemma_op_stmts_order(op: IrNode, b: nat)
    requires
        b < OUT_BUF_SIZE,
    ensures
        buffer_in_order(op_stmts(op, b).0, b as int),
        pending_after(op_stmts(op, b).0, b as int) == op_stmts(op, b).1,
    decreases op, 0nat,
{
    match op {
        IrNode::Loop { move_head_prior, move_head_after_iter, body } => {
            let inner = block_prefix(body);
            lemma_block_prefix_order(body);
            lemma_block_prefix_buffer_safe(body);
            let s0 = flush_if(b);
            let s1 = move_if(move_head_prior);
            let s2 = seq![CStmt::WhileOpen];
            let s3 = inner.0;
            let s4 = flush_if(inner.1);
            let s5 = move_if(move_head_after_iter);
            let s6 = seq![CStmt::WhileClose];
            lemma_flush_if_order(b);
            lemma_flush_if_order(inner.1);
            if move_head_prior != 0 {
                lemma_buffer_single(CStmt::MoveHead { delta: move_head_prior }, 0);
            }
            if move_head_after_iter != 0 {
                lemma_buffer_single(CStmt::MoveHead { delta: move_head_after_iter }, 0);
            }
            lemma_buffer_single(CStmt::WhileOpen, 0);
            lemma_buffer_single(CStmt::WhileClose, 0);
            lemma_buffer_in_order_concat(s0, s1, b as int);
            let a1 = s0 + s1;
            lemma_buffer_in_order_concat(a1, s2, b as int);
            let a2 = a1 + s2;
            lemma_buffer_in_order_concat(a2, s3, b as int);
            let a3 = a2 + s3;
            lemma_buffer_in_order_concat(a3, s4, b as int);
            let a4 = a3 + s4;
            lemma_buffer_in_order_concat(a4, s5, b as int);
            let a5 = a4 + s5;
            lemma_buffer_in_order_concat(a5, s6, b as int);
            assert(op_stmts(op, b).0 == a5 + s6);
        },
        IrNode::Input { count, offset } => {
            let a = op_stmts(op, b).0;
            assert forall|k: int| 0 <= k < a.len() implies !(#[trigger] a[k] is StoreOut) && !(a[k] is Flush) by {
                assert(a[k] == CStmt::ReadIn { offset });
            }
            lemma_buffer_plain(a, b as int);
        },
        IrNode::Output { count, offset } => {
            let st = CStmt::StoreOut { slot: b as usize, offset };
            lemma_buffer_single(st, b as int);
            if b + 1 >= OUT_BUF_SIZE {
                let fl = CStmt::Flush { count: (b + 1) as usize };
                lemma_buffer_single(fl, b as int + 1);
                lemma_buffer_in_order_concat(seq![st], seq![fl], b as int);
                assert(op_stmts(op, b).0 == seq![st] + seq![fl]);
            }
        },
        _ => {
            let a = op_stmts(op, b).0;
            lemma_buffer_single(a[0], b as int);
            assert(a == seq![a[0]]);
        },
    }
}

/// The C code of a block uses the output buffer in order: starting empty,
/// each character is stored in the next free slot, each flush prints exactly
/// the characters stored since the previous one, and nothing is left
/// unprinted at the end.
pub proof fn lemma_c_output_in_order(ir: Seq<IrNode>)
    ensures
        buffer_in_order(block_stmts(ir), 0),
        pending_after(block_stmts(ir), 0) == 0,
{
    lemma_block_prefix_order(ir);
    lemma_block_prefix_buffer_safe(ir);
    let pre = block_prefix(ir);
    lemma_flush_if_order(pre.1);
    lemma_buffer_in_order_concat(pre.0, flush_if(pre.1), 0);
}

/// What C statements do to cells and the output, counted: the sum of the
/// constants they add to cells, the number of input reads, and the number
/// of characters stored for output.
pub open spec fn stmt_tally(stmts: Seq<CStmt>) -> (int, int, int)
    decreases stmts.len(),
{
    if stmts.len() == 0 {
        (0, 0, 0)
    } else {
        let p = stmt_tally(stmts.drop_last());
        match stmts.last() {
            CStmt::AddConst { val, .. } => (p.0 + val, p.1, p.2),
            CStmt::ReadIn { .. } => (p.0, p.1 + 1, p.2),
            CStmt::StoreOut { .. } => (p.0, p.1, p.2 + 1),
            _ => p,
        }
    }
}

/// The same counts for a block of the representation, loop bodies
/// included: the sum of its increments, the sum of its input counts, and
/// its number of output operations.
pub open spec fn ir_tally(ir: Seq<IrNode>) -> (int, int, int)
    decreases ir,
{
    if ir.len() == 0 {
        (0, 0, 0)
    } else {
        let p = ir_tally(ir.drop_last());
        match ir.last() {
            IrNode::Incr { val, .. } => (p.0 + val, p.1, p.2),
            IrNode::Input { count, .. } => (p.0, p.1 + count, p.2),
            IrNode::Output { .. } => (p.0, p.1, p.2 + 1),
            IrNode::Loop { body, .. } => {
                let q = ir_tally(body);
                (p.0 + q.0, p.1 + q.1, p.2 + q.2)
            },
            _ => p,
        }
    }
}

proof fn lemma_tally_concat(a: Seq<CStmt>, b: Seq<CStmt>)
    ensures
        stmt_tally(a + b) == ({
            let x = stmt_tally(a);
            let y = stmt_tally(b);
            (x.0 + y.0, x.1 + y.1, x.2 + y.2)
        }),
    decreases b.len(),
{
    if b.len() == 0 {
        assert(a + b == a);
    } else {
        lemma_tally_concat(a, b.drop_last());
        assert((a + b).drop_last() == a + b.drop_last());
        assert((a + b).last() == b.last());
    }
}

proof fn lemma_tally_single(x: CStmt)
    ensures
        stmt_tally(seq![x]) == match x {
            CStmt::AddConst { val, .. } => (val as int, 0int, 0int),
            CStmt::ReadIn { .. } => (0int, 1int, 0int),
            CStmt::StoreOut { .. } => (0int, 0int, 1int),
            _ => (0int, 0int, 0int),
        },
{
    assert(seq![x].drop_last() == Seq::<CStmt>::empty());
    assert(seq![x].last() == x);
    assert(stmt_tally(Seq::<CStmt>::empty()) == (0int, 0int, 0int));
}

proof fn lemma_tally_reads(n: nat, st: CStmt)
    requires
        st is ReadIn,
    ensures
        stmt_tally(Seq::new(n, |j: int| st)) == (0int, n as int, 0int),
    decreases n,
{
    if n > 0 {
        lemma_tally_reads((n - 1) as nat, st);
        assert(Seq::new(n, |j: int| st).drop_last() == Seq::new((n - 1) as nat, |j: int| st));
    }
}

proof fn lemma_tally_flush_move(b: nat, m: i32)
    ensures
        stmt_tally(flush_if(b)) == (0int, 0int, 0int),
        stmt_tally(move_if(m)) == (0int, 0int, 0int),
{
    assert(stmt_tally(Seq::<CStmt>::empty()) == (0int, 0int, 0int));
    if b > 0 {
        lemma_tally_single(CStmt::Flush { count: b as usize });
    }
    if m != 0 {
        lemma_tally_single(CStmt::MoveHead { delta: m });
    }
}

proof fn lemma_block_tally(ir: Seq<IrNode>)
    ensures
        stmt_tally(block_prefix(ir).0) == ir_tally(ir),
    decreases ir, 1nat,
{
    if ir.len() == 0 {
        assert(block_prefix(ir).0 == Seq::<CStmt>::empty());
    } else {
        let pre = block_prefix(ir.drop_last());
        lemma_block_tally(ir.drop_last());
        lemma_op_tally(ir.last(), pre.1);
        lemma_tally_concat(pre.0, op_stmts(ir.last(), pre.1).0);
        let x = ir.last();
        let e = Seq::<IrNode>::empty();
        assert(seq![x].drop_last() == e);
        assert(seq![x].last() == x);
        assert(ir_tally(e) == (0int, 0int, 0int));
        let p = ir_tally(ir.drop_last());
        let q = ir_tally(seq![x]);
        assert(ir_tally(ir) == (p.0 + q.0, p.1 + q.1, p.2 + q.2));
    }
}

proof fn lemma_op_tally(op: IrNode, b: nat)
    ensures
        stmt_tally(op_stmts(op, b).0) == ir_tally(seq![op]),
    decreases op, 0nat,
{
    let e = Seq::<IrNode>::empty();
    assert(seq![op].drop_last() == e);
    assert(seq![op].last() == op);
    assert(ir_tally(e) == (0int, 0int, 0int));
    match op {
        IrNode::Loop { move_head_prior, move_head_after_iter, body } => {
            let inner = block_prefix(body);
            lemma_block_tally(body);
            let s0 = flush_if(b);
            let s1 = move_if(move_head_prior);
            let s2 = seq![CStmt::WhileOpen];
            let s3 = inner.0;
            let s4 = flush_if(inner.1);
            let s5 = move_if(move_head_after_iter);
            let s6 = seq![CStmt::WhileClose];
            lemma_tally_flush_move(b, move_head_prior);
            lemma_tally_flush_move(inner.1, move_head_after_iter);
            lemma_tally_single(CStmt::WhileOpen);
            lemma_tally_single(CStmt::WhileClose);
            lemma_tally_concat(s0, s1);
            let a1 = s0 + s1;
            lemma_tally_concat(a1, s2);
            let a2 = a1 + s2;
            lemma_tally_concat(a2, s3);
            let a3 = a2 + s3;
            lemma_tally_concat(a3, s4);
            let a4 = a3 + s4;
            lemma_tally_concat(a4, s5);
            let a5 = a4 + s5;
            lemma_tally_concat(a5, s6);
            assert(op_stmts(op, b).0 == a5 + s6);
        },
        IrNode::Input { count, offset } => {
            lemma_tally_reads(count as nat, CStmt::ReadIn { offset });
        },
        IrNode::Output { count, offset } => {
            let st = CStmt::StoreOut { slot: b as usize, offset };
            lemma_tally_single(st);
            if b + 1 >= OUT_BUF_SIZE {
                let fl = CStmt::Flush { count: (b + 1) as usize };
                lemma_tally_single(fl);
                lemma_tally_concat(seq![st], seq![fl]);
                assert(op_stmts(op, b).0 == seq![st] + seq![fl]);
            }
        },
        _ => {
            let a = op_stmts(op, b).0;
            lemma_tally_single(a[0]);
            assert(a == seq![a[0]]);
        },
    }
}

/// The C code of a block does to cells and output what the block does, as
/// far as counting goes: its added constants sum to the block's increments,
/// it reads input once per unit of the block's input counts, and it stores
/// one character per output operation (loop bodies included).
pub proof fn lemma_c_keeps_tally(ir: Seq<IrNode>)
    ensures
        stmt_tally(block_stmts(ir)) == ir_tally(ir),
{
    lemma_block_tally(ir);
    let pre = block_prefix(ir);
    lemma_tally_flush_move(pre.1, 0);
    lemma_tally_concat(pre.0, flush_if(pre.1));
}

/// The C code of any block keeps every store into the output buffer inside
/// the buffer, and never flushes nothing or more than a buffer.
pub proof fn lemma_c_buffer_safe(ir: Seq<IrNode>)
    ensures
        buffer_safe(block_stmts(ir)),
{
    lemma_block_prefix_buffer_safe(ir);
    let pre = block_prefix(ir);
    assert(buffer_safe(flush_if(pre.1)));
    lemma_buffer_safe_concat(pre.0, flush_if(pre.1));
}

/// Appends one statement to `c`, whose text so far is `c0` followed by that
/// of `done`.
fn emit_next(c: &mut String, st: CStmt, Ghost(c0): Ghost<Seq<char>>, Ghost(done): Ghost<Seq<CStmt>>)
    requires
        old(c)@ == c0 + c_text(done),
    ensures
        final(c)@ == c0 + c_text(done.push(st)),
{
    emit(c, &st);
    proof {
        lemma_c_text_push(done, st);
    }
}

/// Appends the C statements of a loop to `c`, the output buffer holding
/// `buf` characters before it.
fn write_loop_to_c(c: &mut String, lp: &IrLoop, buf: usize)
    requires
        buf < OUT_BUF_SIZE,
        op_c_fits(IrOp::Loop(*lp)@),
    ensures
        final(c)@ == old(c)@ + c_text(op_stmts(IrOp::Loop(*lp)@, buf as nat).0),
    decreases node_size(IrOp::Loop(*lp)@), 0nat,
{
    let ghost c0 = c@;
    let ghost mut done: Seq<CStmt> = Seq::empty();
    let ghost body = view_ops(lp.body@);
    if buf > 0 {
        emit_next(c, CStmt::Flush { count: buf }, Ghost(c0), Ghost(done));
        proof {
            done = done.push(CStmt::Flush { count: buf });
        }
    }
    assert(done == flush_if(buf as nat));
    if lp.move_head_prior != 0 {
        emit_next(c, CStmt::MoveHead { delta: lp.move_head_prior }, Ghost(c0), Ghost(done));
        proof {
            done = done.push(CStmt::MoveHead { delta: lp.move_head_prior });
        }
    }
    assert(done == flush_if(buf as nat) + move_if(lp.move_head_prior));
    emit_next(c, CStmt::WhileOpen, Ghost(c0), Ghost(done));
    proof {
        done = done.push(CStmt::WhileOpen);
    }
    let ghost before = c@;
    write_ir_body_to_c(c, lp.body.as_slice());
    proof {
        lemma_c_text_concat(done, block_stmts(body));
        assert(c@ == c0 + c_text(done + block_stmts(body)));
        done = done + block_stmts(body);
    }
    if lp.move_head_after_iter != 0 {
        emit_next(c, CStmt::MoveHead { delta: lp.move_head_after_iter }, Ghost(c0), Ghost(done));
        proof {
            done = done.push(CStmt::MoveHead { delta: lp.move_head_after_iter });
        }
    }
    emit_next(c, CStmt::WhileClose, Ghost(c0), Ghost(done));
    proof {
        done = done.push(CStmt::WhileClose);
        assert(done == op_stmts(IrOp::Loop(*lp)@, buf as nat).0);
    }
}

/// Appends the C statements of one operation to `c`, the output buffer
/// holding `buf` characters before it; returns the number it holds after it.
fn write_op_to_c(c: &mut String, op: &IrOp, buf: usize) -> (r: usize)
    requires
        buf < OUT_BUF_SIZE,
        op_c_fits(op@),
    ensures
        final(c)@ == old(c)@ + c_text(op_stmts(op@, buf as nat).0),
        r == op_stmts(op@, buf as nat).1,
    decreases node_size(op@), 1nat,
{
    let ghost c0 = c@;
    proof {
        assert(c0 == c0 + c_text(Seq::<CStmt>::empty()));
    }
    match op {
        IrOp::Incr { val, offset } => {
            emit_next(c, CStmt::AddConst { offset: *offset, val: *val }, Ghost(c0), Ghost(Seq::empty()));
            assert(Seq::<CStmt>::empty().push(CStmt::AddConst { offset: *offset, val: *val }) == op_stmts(op@, buf as nat).0);
            buf
        },
        IrOp::SetCell { val, offset } => {
            let byte: u8 = #[verifier::truncate] (*val as u8);
            emit_next(c, CStmt::SetConst { offset: *offset, byte }, Ghost(c0), Ghost(Seq::empty()));
            assert(Seq::<CStmt>::empty().push(CStmt::SetConst { offset: *offset, byte }) == op_stmts(op@, buf as nat).0);
            buf
        },
        IrOp::MulBy { src_offset, mul, dst_offset } => {
            emit_next(
                c,
                CStmt::MulInto { dst: *dst_offset, src: *src_offset, mul: *mul },
                Ghost(c0),
                Ghost(Seq::empty()),
            );
            assert(Seq::<CStmt>::empty().push(CStmt::MulInto { dst: *dst_offset, src: *src_offset, mul: *mul }) == op_stmts(op@, buf as nat).0);
            buf
        },
        IrOp::Input { count, offset } => {
            let ghost mut done: Seq<CStmt> = Seq::empty();
            let mut j: u32 = 0;
            while j < *count
                invariant
                    0 <= j <= *count,
                    c@ == c0 + c_text(done),
                    done == Seq::new(j as nat, |jj: int| CStmt::ReadIn { offset: *offset }),
                decreases *count - j,
            {
                emit_next(c, CStmt::ReadIn { offset: *offset }, Ghost(c0), Ghost(done));
                proof {
                    done = done.push(CStmt::ReadIn { offset: *offset });
                }
                j = j + 1;
            }
            buf
        },
        IrOp::Output { count, offset } => {
            let ghost s1 = seq![CStmt::StoreOut { slot: buf, offset: *offset }];
            emit_next(c, CStmt::StoreOut { slot: buf, offset: *offset }, Ghost(c0), Ghost(Seq::empty()));
            assert(Seq::<CStmt>::empty().push(CStmt::StoreOut { slot: buf, offset: *offset }) == s1);
            let mut out_buf_offset = buf + 1;
            if out_buf_offset >= OUT_BUF_SIZE {
                emit_next(c, CStmt::Flush { count: out_buf_offset }, Ghost(c0), Ghost(s1));
                assert(s1.push(CStmt::Flush { count: out_buf_offset }) == op_stmts(op@, buf as nat).0);
                out_buf_offset = 0;
            }
            out_buf_offset
        },
        IrOp::Loop(lp) => {
            write_loop_to_c(c, lp, buf);
            0
        },
    }
}

/// Appends the C statements of a block of operations to `c`, one per line.
pub fn write_ir_body_to_c(c: &mut String, ir: &[IrOp])
    requires
        c_fits(view_ops(ir@)),
    ensures
        final(c)@ == old(c)@ + c_text(block_stmts(view_ops(ir@))),
    decreases ir_size(view_ops(ir@)), 2nat,
{
    let ghost c0 = c@;
    let ghost v = view_ops(ir@);
    proof {
        lemma_view_ops_index(ir@);
        lemma_block_prefix_parts(v);
        assert(v.take(0) == Seq::<IrNode>::empty());
    }
    let mut out_buf_offset: usize = 0;
    let mut i: usize = 0;
    while i < ir.len()
        invariant
            v == view_ops(ir@),
            v.len() == ir@.len(),
            0 <= i <= ir@.len(),
            forall|t: int| 0 <= t < ir@.len() ==> #[trigger] v[t] == view_op(ir@[t]),
            forall|t: int| 0 <= t < v.len() ==> node_size(#[trigger] v[t]) <= ir_size(v),
            forall|t: int| 0 <= t < v.len() ==> op_c_fits(#[trigger] v[t]),
            forall|k: int| 0 <= k < v.len() ==> #[trigger] block_prefix(v.take(k + 1)) == (
                block_prefix(v.take(k)).0 + op_stmts(v[k], block_prefix(v.take(k)).1).0,
                op_stmts(v[k], block_prefix(v.take(k)).1).1,
            ),
            c@ == c0 + c_text(block_prefix(v.take(i as int)).0),
            out_buf_offset == block_prefix(v.take(i as int)).1,
        decreases ir@.len() - i,
    {
        let ghost pre = block_prefix(v.take(i as int));
        proof {
            lemma_block_prefix_buffer(v.take(i as int));
            assert(node_size(v[i as int]) <= ir_size(v));
        }
        out_buf_offset = write_op_to_c(c, &ir[i], out_buf_offset);
        proof {
            lemma_c_text_concat(pre.0, op_stmts(v[i as int], pre.1).0);
            assert(block_prefix(v.take(i + 1)) == (
                pre.0 + op_stmts(v[i as int], pre.1).0,
                op_stmts(v[i as int], pre.1).1,
            ));
        }
        i = i + 1;
    }
    proof {
        assert(v.take(v.len() as int) == v);
    }
    let ghost pre = block_prefix(v);
    if out_buf_offset > 0 {
        let st = CStmt::Flush { count: out_buf_offset };
        emit(c, &st);
        proof {
            lemma_c_text_push(pre.0, st);
            assert(block_stmts(v) == pre.0.push(st));
        }
    } else {
        assert(block_stmts(v) == pre.0);
    }
}

} // verus!
