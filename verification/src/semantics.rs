use vstd::prelude::*;

use crate::opt::{
    delta_at, deltas_fit, drop_loops, first_writer, fits_i32, frame_fits, frame_ops, incr_deltas,
    incr_up_to, is_incr, is_mul_loop, lemma_first_writer, mul_moves, mul_replacement,
    mul_targets_fit, scan_fits, sorted_entries, sorted_entries_of, strip_ir_frontmatter,
    writes_by_itself, IrNode,
};
use crate::parse::{
    lemma_loop_close_bounds, loop_close, nesting_delta, strip_frontmatter, token_count,
    writes_cell, Token,
};

verus! {

/// A program of the representation while it runs: the tape, unbounded both
/// ways with one byte per cell; the cell that the offsets of the current
/// block are taken from; the input, an endless stream of bytes, with the
/// number read so far; and the output so far.
#[verifier::ext_equal]
pub struct Machine {
    pub tape: spec_fn(int) -> u8,
    pub base: int,
    pub input: spec_fn(nat) -> u8,
    pub read: nat,
    pub output: Seq<u8>,
}

/// The tape with cell `a` set to `v`.
pub open spec fn set_cell(t: spec_fn(int) -> u8, a: int, v: u8) -> spec_fn(int) -> u8 {
    |i: int| if i == a { v } else { t(i) }
}

/// The machine with another tape.
pub open spec fn with_tape(m: Machine, t: spec_fn(int) -> u8) -> Machine {
    Machine { tape: t, base: m.base, input: m.input, read: m.read, output: m.output }
}

/// The machine with its base moved by `d` cells.
pub open spec fn moved(m: Machine, d: int) -> Machine {
    Machine { tape: m.tape, base: m.base + d, input: m.input, read: m.read, output: m.output }
}

/// A byte, wrapped around from an integer.
pub open spec fn wrap_byte(v: int) -> u8 {
    (v % 256) as u8
}

/// What an operation that is not a loop does. An increment adds to its cell
/// and a set stores the low byte of its value, both modulo 256; a
/// multiplication stores the product of its source cell and its factor, as
/// the C statement `c[dst] = c[src] * mul;` does; an input reads `count`
/// bytes into its cell, which keeps the last; an output writes its cell
/// `count` times.
pub open spec fn step_op(op: IrNode, m: Machine) -> Machine {
    let t = m.tape;
    match op {
        IrNode::Incr { val, offset } => with_tape(
            m,
            set_cell(t, m.base + offset, wrap_byte(t(m.base + offset) + val)),
        ),
        IrNode::SetCell { val, offset } => with_tape(m, set_cell(t, m.base + offset, wrap_byte(val as int))),
        IrNode::MulBy { src_offset, mul, dst_offset } => with_tape(
            m,
            set_cell(t, m.base + dst_offset, wrap_byte(t(m.base + src_offset) * mul)),
        ),
        IrNode::Input { count, offset } => if count == 0 {
            m
        } else {
            Machine {
                tape: set_cell(t, m.base + offset, (m.input)((m.read + count - 1) as nat)),
                base: m.base,
                input: m.input,
                read: m.read + count as nat,
                output: m.output,
            }
        },
        IrNode::Output { count, offset } => Machine {
            tape: t,
            base: m.base,
            input: m.input,
            read: m.read,
            output: m.output + Seq::new(count as nat, |j: int| t(m.base + offset)),
        },
        IrNode::Loop { .. } => m,
    }
}

/// What a block does, `None` when its loops run more than `fuel` times in a
/// row. A loop first moves the base by its prior move; then, while the cell
/// at the base is not zero, it runs its body from the base and moves the
/// base by its move per run from where the body left it. The operations
/// after a loop take their offsets from where the loop left the base.
pub open spec fn run_block(ops: Seq<IrNode>, m: Machine, fuel: nat) -> Option<Machine>
    decreases fuel, ops,
{
    if ops.len() == 0 {
        Some(m)
    } else {
        match ops[0] {
            IrNode::Loop { move_head_prior, move_head_after_iter, body } => {
                match run_loop(body, move_head_after_iter, moved(m, move_head_prior as int), fuel) {
                    Some(m2) => run_block(ops.drop_first(), m2, fuel),
                    None => None,
                }
            },
            _ => run_block(ops.drop_first(), step_op(ops[0], m), fuel),
        }
    }
}

/// What a loop does from where its prior move left the base (see
/// `run_block`); a run of the body costs one unit of `fuel`.
pub open spec fn run_loop(body: Seq<IrNode>, after: i32, m: Machine, fuel: nat) -> Option<Machine>
    decreases fuel, body,
{
    if (m.tape)(m.base) == 0 {
        Some(m)
    } else if fuel == 0 {
        None
    } else {
        match run_block(body, m, (fuel - 1) as nat) {
            Some(m2) => run_loop(body, after, moved(m2, after as int), (fuel - 1) as nat),
            None => None,
        }
    }
}

/// The machine with its tape and its base shifted `d` cells to the right.
pub open spec fn shifted(m: Machine, d: int) -> Machine {
    let t = m.tape;
    Machine { tape: |i: int| t(i - d), base: m.base + d, input: m.input, read: m.read, output: m.output }
}

/// A possible outcome, shifted `d` cells to the right.
pub open spec fn shifted_outcome(r: Option<Machine>, d: int) -> Option<Machine> {
    match r {
        Some(m) => Some(shifted(m, d)),
        None => None,
    }
}

proof fn lemma_step_shift(op: IrNode, m: Machine, d: int)
    requires
        !(op is Loop),
    ensures
        step_op(op, shifted(m, d)) == shifted(step_op(op, m), d),
{
    let l = step_op(op, shifted(m, d));
    let r = shifted(step_op(op, m), d);
    assert(l.tape =~= r.tape);
    assert(l.output =~= r.output);
    assert(l =~= r);
}

proof fn lemma_moved_shift(m: Machine, x: int, d: int)
    ensures
        moved(shifted(m, d), x) == shifted(moved(m, x), d),
{
    assert(moved(shifted(m, d), x) =~= shifted(moved(m, x), d));
}

/// A block does the same wherever the tape sits: shifting the tape and the
/// base before the run shifts the outcome by as much.
pub proof fn lemma_run_block_shift(ops: Seq<IrNode>, m: Machine, fuel: nat, d: int)
    ensures
        run_block(ops, shifted(m, d), fuel) == shifted_outcome(run_block(ops, m, fuel), d),
    decreases fuel, ops,
{
    if ops.len() > 0 {
        assert(decreases_to!(ops => ops[0]));
        match ops[0] {
            IrNode::Loop { move_head_prior, move_head_after_iter, body } => {
                lemma_moved_shift(m, move_head_prior as int, d);
                lemma_run_loop_shift(body, move_head_after_iter, moved(m, move_head_prior as int), fuel, d);
                match run_loop(body, move_head_after_iter, moved(m, move_head_prior as int), fuel) {
                    Some(m2) => {
                        lemma_run_block_shift(ops.drop_first(), m2, fuel, d);
                    },
                    None => {},
                }
            },
            _ => {
                lemma_step_shift(ops[0], m, d);
                lemma_run_block_shift(ops.drop_first(), step_op(ops[0], m), fuel, d);
            },
        }
    }
}

/// A loop does the same wherever the tape sits (see `lemma_run_block_shift`).
pub proof fn lemma_run_loop_shift(body: Seq<IrNode>, after: i32, m: Machine, fuel: nat, d: int)
    ensures
        run_loop(body, after, shifted(m, d), fuel) == shifted_outcome(run_loop(body, after, m, fuel), d),
    decreases fuel, body,
{
    if (m.tape)(m.base) != 0 && fuel > 0 {
        let f = (fuel - 1) as nat;
        lemma_run_block_shift(body, m, f, d);
        match run_block(body, m, f) {
            Some(m2) => {
                lemma_moved_shift(m2, after as int, d);
                lemma_run_loop_shift(body, after, moved(m2, after as int), f, d);
            },
            None => {},
        }
    }
}

proof fn lemma_drop_loops_front(x: IrNode, s: Seq<IrNode>)
    ensures
        drop_loops(seq![x] + s) == if x is Loop {
            drop_loops(s)
        } else {
            seq![x] + drop_loops(s)
        },
    decreases s.len(),
{
    let e = Seq::<IrNode>::empty();
    if s.len() == 0 {
        assert(seq![x] + s == seq![x]);
        assert(seq![x].drop_last() == e);
        assert(seq![x].last() == x);
        assert(drop_loops(e) == e);
        assert(e.push(x) == seq![x] + e);
    } else {
        let u = seq![x] + s;
        lemma_drop_loops_front(x, s.drop_last());
        assert(u.drop_last() == seq![x] + s.drop_last());
        assert(u.last() == s.last());
        if s.last() is Loop {
            assert(drop_loops(u) == drop_loops(u.drop_last()));
            assert(drop_loops(s) == drop_loops(s.drop_last()));
        } else {
            assert(drop_loops(u) == drop_loops(u.drop_last()).push(s.last()));
            assert(drop_loops(s) == drop_loops(s.drop_last()).push(s.last()));
            assert((seq![x] + drop_loops(s.drop_last())).push(s.last()) == seq![x] + drop_loops(
                s.drop_last(),
            ).push(s.last()));
        }
    }
}

/// Dropping the loops in front of a block, one operation at a time.
proof fn lemma_strip_front(ops: Seq<IrNode>)
    requires
        ops.len() > 0,
    ensures
        writes_by_itself(ops[0]) ==> strip_ir_frontmatter(ops) == ops,
        !writes_by_itself(ops[0]) ==> strip_ir_frontmatter(ops) == if ops[0] is Loop {
            strip_ir_frontmatter(ops.drop_first())
        } else {
            seq![ops[0]] + strip_ir_frontmatter(ops.drop_first())
        },
{
    let t = ops.drop_first();
    if writes_by_itself(ops[0]) {
        assert(ops.take(0) == Seq::<IrNode>::empty());
        assert(ops.skip(0) == ops);
    } else {
        let f = first_writer(t);
        lemma_first_writer(t);
        assert(ops.take(1 + f) == seq![ops[0]] + t.take(f));
        assert(ops.skip(1 + f) == t.skip(f));
        lemma_drop_loops_front(ops[0], t.take(f));
        assert(seq![ops[0]] + drop_loops(t.take(f)) + t.skip(f) == seq![ops[0]] + (drop_loops(
            t.take(f),
        ) + t.skip(f)));
    }
}

/// The tape of a program that has not run yet: every cell zero.
pub open spec fn blank_tape() -> spec_fn(int) -> u8 {
    |i: int| 0u8
}

proof fn lemma_blank_shift(m1: Machine, m2: Machine)
    requires
        m1.tape == blank_tape(),
        m2.tape == blank_tape(),
        m1.input == m2.input,
        m1.read == m2.read,
        m1.output == m2.output,
    ensures
        m1 == shifted(m2, m1.base - m2.base),
{
    assert(m1 =~= shifted(m2, m1.base - m2.base));
}

/// Running a block from a blank tape and running it with the loops in front
/// dropped, from another blank tape with the same input and output so far,
/// end alike up to where the tape sits.
proof fn lemma_strip_runs(ops: Seq<IrNode>, m1: Machine, m2: Machine, fuel: nat)
    requires
        m1.tape == blank_tape(),
        m2.tape == blank_tape(),
        m1.input == m2.input,
        m1.read == m2.read,
        m1.output == m2.output,
    ensures
        (run_block(ops, m1, fuel) is Some) == (run_block(strip_ir_frontmatter(ops), m2, fuel) is Some),
        run_block(ops, m1, fuel) is Some ==> exists|d: int|
            run_block(ops, m1, fuel).unwrap() == #[trigger] shifted(
                run_block(strip_ir_frontmatter(ops), m2, fuel).unwrap(),
                d,
            ),
    decreases ops.len(), 1nat,
{
    if ops.len() == 0 {
        assert(ops.take(0) == Seq::<IrNode>::empty());
        assert(strip_ir_frontmatter(ops) == ops);
        lemma_blank_shift(m1, m2);
    } else {
        lemma_strip_front(ops);
        let x = ops[0];
        let t = ops.drop_first();
        if writes_by_itself(x) {
            let d = m1.base - m2.base;
            lemma_blank_shift(m1, m2);
            lemma_run_block_shift(ops, m2, fuel, d);
        } else if x is Loop {
            lemma_strip_runs_loop(ops, m1, m2, fuel);
        } else {
            lemma_strip_runs_output(ops, m1, m2, fuel);
        }
    }
}

proof fn lemma_strip_runs_loop(ops: Seq<IrNode>, m1: Machine, m2: Machine, fuel: nat)
    requires
        ops.len() > 0,
        ops[0] is Loop,
        m1.tape == blank_tape(),
        m2.tape == blank_tape(),
        m1.input == m2.input,
        m1.read == m2.read,
        m1.output == m2.output,
    ensures
        (run_block(ops, m1, fuel) is Some) == (run_block(strip_ir_frontmatter(ops), m2, fuel) is Some),
        run_block(ops, m1, fuel) is Some ==> exists|d: int|
            run_block(ops, m1, fuel).unwrap() == #[trigger] shifted(
                run_block(strip_ir_frontmatter(ops), m2, fuel).unwrap(),
                d,
            ),
    decreases ops.len(), 0nat,
{
    let t = ops.drop_first();
    lemma_strip_front(ops);
    assert(!writes_by_itself(ops[0]));
    assert(strip_ir_frontmatter(ops) == strip_ir_frontmatter(t));
    if let IrNode::Loop { move_head_prior, move_head_after_iter, body } = ops[0] {
        let m1b = moved(m1, move_head_prior as int);
        assert(run_loop(body, move_head_after_iter, m1b, fuel) == Some(m1b));
        assert(run_block(ops, m1, fuel) == run_block(t, m1b, fuel));
        lemma_strip_runs(t, m1b, m2, fuel);
    }
}

proof fn lemma_strip_runs_output(ops: Seq<IrNode>, m1: Machine, m2: Machine, fuel: nat)
    requires
        ops.len() > 0,
        !(ops[0] is Loop),
        !writes_by_itself(ops[0]),
        m1.tape == blank_tape(),
        m2.tape == blank_tape(),
        m1.input == m2.input,
        m1.read == m2.read,
        m1.output == m2.output,
    ensures
        (run_block(ops, m1, fuel) is Some) == (run_block(strip_ir_frontmatter(ops), m2, fuel) is Some),
        run_block(ops, m1, fuel) is Some ==> exists|d: int|
            run_block(ops, m1, fuel).unwrap() == #[trigger] shifted(
                run_block(strip_ir_frontmatter(ops), m2, fuel).unwrap(),
                d,
            ),
    decreases ops.len(), 0nat,
{
    let x = ops[0];
    let t = ops.drop_first();
    let st = strip_ir_frontmatter(t);
    lemma_strip_front(ops);
    assert(strip_ir_frontmatter(ops) == seq![x] + st);
    let n1 = step_op(x, m1);
    let n2 = step_op(x, m2);
    assert(n1.output =~= n2.output);
    assert(n1.tape == blank_tape());
    assert(n2.tape == blank_tape());
    assert(run_block(ops, m1, fuel) == run_block(t, n1, fuel));
    assert((seq![x] + st)[0] == x);
    assert((seq![x] + st).drop_first() == st);
    assert(run_block(seq![x] + st, m2, fuel) == run_block(st, n2, fuel));
    lemma_strip_runs(t, n1, n2, fuel);
}

/// Dropping the loops in front of the first operation that writes a cell
/// does not change what a program does from a blank tape: both runs stop
/// within the same fuel or neither does, and when they stop they have read
/// the same input, written the same output, and left the same tape up to
/// where it sits (the dropped loops would only have moved the head).
pub proof fn lemma_remove_frontmatter_keeps_behavior(ops: Seq<IrNode>, m: Machine, fuel: nat)
    requires
        m.tape == blank_tape(),
    ensures
        (run_block(strip_ir_frontmatter(ops), m, fuel) is Some) == (run_block(ops, m, fuel) is Some),
        run_block(ops, m, fuel) is Some ==> {
            let a = run_block(ops, m, fuel).unwrap();
            let b = run_block(strip_ir_frontmatter(ops), m, fuel).unwrap();
            &&& a.output == b.output
            &&& a.read == b.read
            &&& exists|d: int| a == #[trigger] shifted(b, d)
        },
{
    lemma_strip_runs(ops, m, m, fuel);
}

/// A block of one operation that is not a loop does what the operation does.
proof fn lemma_run_single(x: IrNode, m: Machine, fuel: nat)
    requires
        !(x is Loop),
    ensures
        run_block(seq![x], m, fuel) == Some(step_op(x, m)),
{
    assert(seq![x][0] == x);
    assert(seq![x].drop_first() == Seq::<IrNode>::empty());
    assert(run_block(Seq::<IrNode>::empty(), step_op(x, m), fuel) == Some(step_op(x, m)));
}

/// Running two blocks one after the other is running the first, then the
/// second from where the first stopped.
pub proof fn lemma_run_block_concat(a: Seq<IrNode>, b: Seq<IrNode>, m: Machine, fuel: nat)
    ensures
        run_block(a + b, m, fuel) == match run_block(a, m, fuel) {
            Some(r) => run_block(b, r, fuel),
            None => None,
        },
    decreases a.len(),
{
    if a.len() == 0 {
        assert(a + b == b);
    } else {
        assert((a + b)[0] == a[0]);
        assert((a + b).drop_first() == a.drop_first() + b);
        match a[0] {
            IrNode::Loop { move_head_prior, move_head_after_iter, body } => {
                match run_loop(body, move_head_after_iter, moved(m, move_head_prior as int), fuel) {
                    Some(m2) => lemma_run_block_concat(a.drop_first(), b, m2, fuel),
                    None => {},
                }
            },
            _ => lemma_run_block_concat(a.drop_first(), b, step_op(a[0], m), fuel),
        }
    }
}

/// Wrapping a sum of a wrapped byte and an integer is wrapping the sum.
proof fn lemma_wrap_add(x: int, y: int)
    ensures
        wrap_byte(wrap_byte(x) as int + y) == wrap_byte(x + y),
{
    vstd::arithmetic::div_mod::lemma_add_mod_noop(x, y, 256);
    vstd::arithmetic::div_mod::lemma_add_mod_noop(x % 256, y, 256);
    vstd::arithmetic::div_mod::lemma_mod_twice(x, 256);
}

/// The tape after `j` runs of a body of increments whose totals per offset
/// from cell `c` are `d`.
pub open spec fn add_deltas(t: spec_fn(int) -> u8, c: int, d: Map<i32, i32>, j: int) -> spec_fn(int) -> u8 {
    |i: int|
        if fits_i32(i - c) && d.contains_key((i - c) as i32) {
            wrap_byte(t(i) + j * d[(i - c) as i32])
        } else {
            t(i)
        }
}

/// A block of increments adds, to each cell, the total of its increments
/// there.
proof fn lemma_run_increments(body: Seq<IrNode>, m: Machine, fuel: nat)
    requires
        incr_up_to(body, body.len() as int),
        deltas_fit(body),
    ensures
        run_block(body, m, fuel) == Some(with_tape(m, add_deltas(m.tape, m.base, incr_deltas(body), 1))),
    decreases body.len(),
{
    let t = m.tape;
    let c = m.base;
    if body.len() == 0 {
        assert(add_deltas(t, c, incr_deltas(body), 1) =~= t);
        assert(with_tape(m, t) =~= m);
    } else {
        let pre = body.drop_last();
        let x = body.last();
        assert(is_incr(body[body.len() - 1]));
        assert forall|k: int| 0 <= k < pre.len() implies #[trigger] is_incr(pre[k]) by {
            assert(pre[k] == body[k]);
            assert(is_incr(body[k]));
        }
        lemma_run_increments(pre, m, fuel);
        assert(pre + seq![x] == body);
        lemma_run_block_concat(pre, seq![x], m, fuel);
        let d0 = incr_deltas(pre);
        let m1 = with_tape(m, add_deltas(t, c, d0, 1));
        assert(x == body[body.len() - 1]);
        assert(x is Incr);
        assert(seq![x][0] == x);
        assert(seq![x].drop_first() == Seq::<IrNode>::empty());
        assert(run_block(Seq::<IrNode>::empty(), step_op(x, m1), fuel) == Some(step_op(x, m1)));
        assert(run_block(seq![x], m1, fuel) == Some(step_op(x, m1)));
        if let IrNode::Incr { val, offset } = x {
            let d1 = incr_deltas(body);
            assert(d1 == d0.insert(offset, (delta_at(d0, offset) + val) as i32));
            let t1 = add_deltas(t, c, d0, 1);
            let t2 = step_op(x, m1).tape;
            assert forall|i: int| #[trigger] t2(i) == add_deltas(t, c, d1, 1)(i) by {
                if i == c + offset {
                    assert((i - c) as i32 == offset);
                    if d0.contains_key(offset) {
                        lemma_wrap_add(t(i) + d0[offset], val as int);
                    }
                }
            }
            assert(t2 =~= add_deltas(t, c, d1, 1));
            assert(step_op(x, m1) =~= with_tape(m, add_deltas(t, c, d1, 1)));
        }
    }
}

proof fn lemma_add_deltas_step(t: spec_fn(int) -> u8, c: int, d: Map<i32, i32>, j: int)
    ensures
        add_deltas(add_deltas(t, c, d, j), c, d, 1) == add_deltas(t, c, d, j + 1),
{
    assert forall|i: int| #[trigger] add_deltas(add_deltas(t, c, d, j), c, d, 1)(i) == add_deltas(
        t,
        c,
        d,
        j + 1,
    )(i) by {
        if fits_i32(i - c) && d.contains_key((i - c) as i32) {
            let dk = d[(i - c) as i32] as int;
            lemma_wrap_add(t(i) + j * dk, dk);
            assert(j * dk + dk == (j + 1) * dk) by (nonlinear_arith);
        }
    }
    assert(add_deltas(add_deltas(t, c, d, j), c, d, 1) =~= add_deltas(t, c, d, j + 1));
}

/// A byte is its own wrap.
proof fn lemma_wrap_small(x: int)
    requires
        0 <= x < 256,
    ensures
        wrap_byte(x) == x,
{
    vstd::arithmetic::div_mod::lemma_small_mod(x as nat, 256);
}

/// A multiplication loop that does not move the head per run, started with
/// `v` in its counter cell, runs `v` times: from any number `j` of runs done
/// so far, it ends with every other cell incremented `v` times in all.
proof fn lemma_mul_loop_runs(body: Seq<IrNode>, m: Machine, j: int, fuel: nat)
    requires
        is_mul_loop(body),
        deltas_fit(body),
        0 <= j <= (m.tape)(m.base),
        fuel >= (m.tape)(m.base) - j,
    ensures
        run_loop(body, 0, with_tape(m, add_deltas(m.tape, m.base, incr_deltas(body), j)), fuel) == Some(
            with_tape(m, add_deltas(m.tape, m.base, incr_deltas(body), (m.tape)(m.base) as int)),
        ),
    decreases (m.tape)(m.base) - j,
{
    let t = m.tape;
    let c = m.base;
    let d = incr_deltas(body);
    let v = t(c) as int;
    let mj = with_tape(m, add_deltas(t, c, d, j));
    assert((c - c) as i32 == 0);
    assert(add_deltas(t, c, d, j)(c) == wrap_byte(v + j * (-1)));
    if j == v {
        lemma_wrap_small(0);
    } else {
        lemma_wrap_small(v - j);
        let f = (fuel - 1) as nat;
        lemma_run_increments(body, mj, f);
        lemma_add_deltas_step(t, c, d, j);
        assert(with_tape(mj, add_deltas(add_deltas(t, c, d, j), c, d, 1)) =~= moved(
            with_tape(m, add_deltas(t, c, d, j + 1)),
            0,
        ));
        lemma_mul_loop_runs(body, m, j + 1, f);
    }
}

/// The tape after the multiplications of `s` with the counter cell at `c`:
/// for each entry with a nonzero offset, the cell at that offset from `c`
/// set to the counter times the entry's total, modulo 256.
pub open spec fn mul_tape(t: spec_fn(int) -> u8, c: int, s: Seq<(i32, i32)>) -> spec_fn(int) -> u8
    decreases s.len(),
{
    if s.len() == 0 {
        t
    } else {
        let e = s.last();
        let r = mul_tape(t, c, s.drop_last());
        if e.0 != 0 {
            set_cell(r, c + e.0, wrap_byte(t(c) * e.1))
        } else {
            r
        }
    }
}

proof fn lemma_mul_tape_counter(t: spec_fn(int) -> u8, c: int, s: Seq<(i32, i32)>)
    ensures
        mul_tape(t, c, s)(c) == t(c),
    decreases s.len(),
{
    if s.len() > 0 {
        lemma_mul_tape_counter(t, c, s.drop_last());
    }
}

/// The multiplications of a replaced loop leave the tape as `mul_tape` says.
proof fn lemma_run_mul_moves(s: Seq<(i32, i32)>, p: i32, m: Machine, fuel: nat)
    requires
        forall|i: int| 0 <= i < s.len() && (#[trigger] s[i]).0 != 0 ==> fits_i32(p + s[i].0),
    ensures
        run_block(mul_moves(s, p), m, fuel) == Some(with_tape(m, mul_tape(m.tape, m.base + p, s))),
    decreases s.len(),
{
    let t = m.tape;
    let c = m.base + p;
    if s.len() == 0 {
        assert(with_tape(m, t) =~= m);
    } else {
        let pre = s.drop_last();
        let e = s.last();
        assert forall|i: int| 0 <= i < pre.len() && (#[trigger] pre[i]).0 != 0 implies fits_i32(
            p + pre[i].0,
        ) by {
            assert(pre[i] == s[i]);
        }
        lemma_run_mul_moves(pre, p, m, fuel);
        if e.0 != 0 {
            assert(s[s.len() - 1] == e);
            let x = IrNode::MulBy { src_offset: p, mul: e.1, dst_offset: (p + e.0) as i32 };
            let m1 = with_tape(m, mul_tape(t, c, pre));
            assert(mul_moves(pre, p).push(x) == mul_moves(pre, p) + seq![x]);
            lemma_run_block_concat(mul_moves(pre, p), seq![x], m, fuel);
            lemma_run_single(x, m1, fuel);
            lemma_mul_tape_counter(t, c, pre);
            assert(step_op(x, m1).tape =~= mul_tape(t, c, s));
            assert(step_op(x, m1) =~= with_tape(m, mul_tape(t, c, s)));
        }
    }
}

/// The cells that the multiplications of `s` set, when the offsets of its
/// entries increase.
proof fn lemma_mul_tape_at(t: spec_fn(int) -> u8, c: int, s: Seq<(i32, i32)>)
    requires
        forall|i: int, j: int| 0 <= i < j < s.len() ==> s[i].0 < s[j].0,
    ensures
        forall|j: int|
            0 <= j < s.len() && (#[trigger] s[j]).0 != 0 ==> mul_tape(t, c, s)(c + s[j].0) == wrap_byte(
                t(c) * s[j].1,
            ),
        forall|i: int|
            (forall|j: int| 0 <= j < s.len() ==> (#[trigger] s[j]).0 == 0 || i != c + s[j].0)
                ==> #[trigger] mul_tape(t, c, s)(i) == t(i),
    decreases s.len(),
{
    if s.len() > 0 {
        let pre = s.drop_last();
        let e = s.last();
        lemma_mul_tape_at(t, c, pre);
        assert forall|j: int|
            0 <= j < s.len() && (#[trigger] s[j]).0 != 0 implies mul_tape(t, c, s)(c + s[j].0)
            == wrap_byte(t(c) * s[j].1) by {
            if j < s.len() - 1 {
                assert(s[j] == pre[j]);
                assert(s[j].0 < e.0);
            }
        }
        assert forall|i: int|
            (forall|j: int| 0 <= j < s.len() ==> (#[trigger] s[j]).0 == 0 || i != c + s[j].0)
                implies #[trigger] mul_tape(t, c, s)(i) == t(i) by {
            assert forall|j: int| 0 <= j < pre.len() implies (#[trigger] pre[j]).0 == 0 || i != c
                + pre[j].0 by {
                assert(pre[j] == s[j]);
            }
            assert(mul_tape(t, c, pre)(i) == t(i));
            assert(s[s.len() - 1] == e);
            assert(e.0 == 0 || i != c + e.0);
        }
    }
}

/// A finite map with `i32` keys has a listing of its entries in increasing
/// order of keys.
proof fn lemma_sorted_entries_exist(m: Map<i32, i32>)
    requires
        m.dom().finite(),
    ensures
        exists|s: Seq<(i32, i32)>| sorted_entries_of(s, m),
    decreases m.dom().len(),
{
    if m.dom().len() == 0 {
        vstd::set_lib::lemma_set_empty_equivalency_len(m.dom());
        assert(sorted_entries_of(Seq::<(i32, i32)>::empty(), m));
    } else {
        let leq = |a: i32, b: i32| a <= b;
        assert(vstd::relations::total_ordering(leq));
        m.dom().find_unique_maximal_ensures(leq);
        let k = m.dom().find_unique_maximal(leq);
        let m2 = m.remove(k);
        assert(m2.dom() =~= m.dom().remove(k));
        lemma_sorted_entries_exist(m2);
        let s2 = choose|s: Seq<(i32, i32)>| sorted_entries_of(s, m2);
        let s = s2.push((k, m[k]));
        assert forall|i: int| 0 <= i < s2.len() implies (#[trigger] s2[i]).0 < k by {
            let q = s2[i].0;
            assert(m2.contains_key(q));
            assert(m.dom().contains(q));
            assert(q != k);
            assert(leq(k, q) ==> leq(q, k));
        }
        assert forall|q: i32| #[trigger] m.contains_key(q) implies exists|i: int|
            0 <= i < s.len() && s[i].0 == q by {
            if q == k {
                assert(s[s.len() - 1].0 == q);
            } else {
                assert(m2.contains_key(q));
                let i = choose|i: int| 0 <= i < s2.len() && s2[i].0 == q;
                assert(s[i] == s2[i]);
            }
        }
        assert forall|i: int| 0 <= i < s.len() implies #[trigger] m.contains_key(s[i].0) && m[s[i].0]
            == s[i].1 by {
            if i < s2.len() {
                assert(s[i] == s2[i]);
                assert(m2.contains_key(s2[i].0));
            }
        }
        assert forall|i: int, j: int| 0 <= i < j < s.len() implies s[i].0 < s[j].0 by {
            assert(s[i] == s2[i]);
            if j < s2.len() {
                assert(s[j] == s2[j]);
            }
        }
        assert(sorted_entries_of(s, m));
    }
}

proof fn lemma_incr_deltas_finite(ops: Seq<IrNode>)
    ensures
        incr_deltas(ops).dom().finite(),
    decreases ops.len(),
{
    if ops.len() > 0 {
        lemma_incr_deltas_finite(ops.drop_last());
    }
}

/// A multiplication loop does what its replacement does, as far as the
/// replacement can: when the loop does not move the head per run and every
/// cell it adds a multiple of its counter to holds zero before it, the
/// replacement leaves the same tape, input and output as the loop (within
/// the 255 runs that the loop needs at most), but leaves the head where the
/// loop started rather than where its prior move took it.
pub proof fn lemma_mul_loop_replacement(prior: i32, body: Seq<IrNode>, m: Machine, fuel: nat)
    requires
        is_mul_loop(body),
        scan_fits(body),
        mul_targets_fit(body, prior),
        forall|k: i32| #[trigger] incr_deltas(body).contains_key(k) && k != 0 ==> (m.tape)(m.base
            + prior + k) == 0,
        fuel >= 255,
    ensures
        run_block(mul_replacement(body, prior), m, fuel) is Some,
        run_block(seq![IrNode::Loop { move_head_prior: prior, move_head_after_iter: 0, body }], m, fuel)
            == Some(moved(run_block(mul_replacement(body, prior), m, fuel).unwrap(), prior as int)),
{
    let t = m.tape;
    let c = m.base + prior;
    let d = incr_deltas(body);
    let v = t(c) as int;
    assert(body.take(body.len() as int) == body);
    assert(deltas_fit(body));
    // The loop.
    let mp = moved(m, prior as int);
    assert forall|i: int| #[trigger] add_deltas(t, c, d, 0)(i) == t(i) by {
        lemma_wrap_small(t(i) as int);
    }
    assert(with_tape(mp, add_deltas(t, c, d, 0)) =~= mp);
    lemma_mul_loop_runs(body, mp, 0, fuel);
    let a = add_deltas(t, c, d, v);
    let lp = IrNode::Loop { move_head_prior: prior, move_head_after_iter: 0, body };
    assert(seq![lp][0] == lp);
    assert(seq![lp].drop_first() == Seq::<IrNode>::empty());
    assert(run_block(Seq::<IrNode>::empty(), with_tape(mp, a), fuel) == Some(with_tape(mp, a)));
    assert(run_block(seq![lp], m, fuel) == Some(with_tape(mp, a)));
    // The replacement.
    lemma_incr_deltas_finite(body);
    lemma_sorted_entries_exist(d);
    let s = sorted_entries(d);
    assert(sorted_entries_of(s, d));
    assert forall|i: int| 0 <= i < s.len() && (#[trigger] s[i]).0 != 0 implies fits_i32(prior + s[i].0) by {
        assert(d.contains_key(s[i].0));
    }
    lemma_run_mul_moves(s, prior, m, fuel);
    let mt = mul_tape(t, c, s);
    let st = IrNode::SetCell { val: 0, offset: prior };
    let m1 = with_tape(m, mt);
    assert(mul_replacement(body, prior) == mul_moves(s, prior) + seq![st]);
    lemma_run_block_concat(mul_moves(s, prior), seq![st], m, fuel);
    lemma_run_single(st, m1, fuel);
    lemma_wrap_small(0);
    let r = with_tape(m, set_cell(mt, c, 0));
    assert(step_op(st, m1) =~= r);
    // The two tapes agree.
    lemma_mul_tape_at(t, c, s);
    assert forall|i: int| #[trigger] a(i) == set_cell(mt, c, 0)(i) by {
        if i == c {
            assert((i - c) as i32 == 0);
            assert(d.contains_key(0));
            assert(v + v * d[0] == 0);
        } else if fits_i32(i - c) && d.contains_key((i - c) as i32) {
            let k = (i - c) as i32;
            assert(k != 0);
            assert(i == m.base + prior + k);
            let j = choose|j: int| 0 <= j < s.len() && s[j].0 == k;
            assert(s[j].1 == d[k]);
            assert(t(i) == 0);
        } else {
            assert forall|j: int| 0 <= j < s.len() implies (#[trigger] s[j]).0 == 0 || i != c
                + s[j].0 by {
                assert(d.contains_key(s[j].0));
                if s[j].0 != 0 && i == c + s[j].0 {
                    assert((i - c) as i32 == s[j].0);
                }
            }
        }
    }
    assert(a =~= set_cell(mt, c, 0));
    assert(with_tape(mp, a) =~= moved(r, prior as int));
}

/// What a token other than a bracket does, the base of the machine being
/// the head: `<` and `>` move the head by their count; `+` and `-` add or
/// subtract their count, modulo 256, at the head; `.` writes the cell at the
/// head `count` times; `,` reads `count` bytes into it, which keeps the last.
pub open spec fn token_step(t: Token, m: Machine) -> Machine {
    let c = (m.tape)(m.base);
    match t {
        Token::Left(n) => moved(m, -(n as int)),
        Token::Right(n) => moved(m, n as int),
        Token::Incr(n) => with_tape(m, set_cell(m.tape, m.base, wrap_byte(c + n))),
        Token::Decr(n) => with_tape(m, set_cell(m.tape, m.base, wrap_byte(c - n))),
        Token::Out(n) => step_op(IrNode::Output { count: n, offset: 0 }, m),
        Token::In(n) => step_op(IrNode::Input { count: n, offset: 0 }, m),
        _ => m,
    }
}

/// What the tokens from index `i` on do, up to the `]` that ends the frame
/// (or the end of the tokens): the machine then, and the index where the
/// run stopped; `None` when loops run more than `fuel` times in a row. A `[`
/// runs the tokens after it, up to its matching `]`, while the cell at the
/// head is not zero, then goes on after that `]`.
pub open spec fn run_frame(toks: Seq<Token>, i: int, m: Machine, fuel: nat) -> Option<(Machine, int)>
    decreases fuel, toks.len() + 1 - i, 1nat,
{
    if !(0 <= i < toks.len()) {
        Some((m, i))
    } else {
        match toks[i] {
            Token::LoopStart => {
                let e = loop_close(toks, i + 1, 1);
                proof {
                    lemma_loop_close_bounds(toks, i + 1, 1);
                }
                match run_tok_loop(toks, i, m, fuel) {
                    Some(l) => run_frame(toks, e + 1, l, fuel),
                    None => None,
                }
            },
            Token::LoopEnd => Some((m, i)),
            _ => run_frame(toks, i + 1, token_step(toks[i], m), fuel),
        }
    }
}

/// What the loop whose `[` is at index `i` does: while the cell at the head
/// is not zero, run the tokens after the `[` up to its matching `]` (see
/// `run_frame`); each run costs one unit of `fuel`.
pub open spec fn run_tok_loop(toks: Seq<Token>, i: int, m: Machine, fuel: nat) -> Option<Machine>
    decreases fuel, toks.len() + 1 - i, 0nat,
{
    if (m.tape)(m.base) == 0 {
        Some(m)
    } else if fuel == 0 {
        None
    } else {
        match run_frame(toks, i + 1, m, (fuel - 1) as nat) {
            Some(r) => run_tok_loop(toks, i, r.0, (fuel - 1) as nat),
            None => None,
        }
    }
}

/// Every count of the tokens fits in an `i32`.
pub open spec fn counts_fit(toks: Seq<Token>) -> bool {
    forall|k: int| 0 <= k < toks.len() ==> token_count(#[trigger] toks[k]) <= i32::MAX
}

proof fn lemma_moved_zero(m: Machine)
    ensures
        moved(m, 0) == m,
{
    assert(moved(m, 0) =~= m);
}

/// A token loop does what the loop that the block is built with does.
proof fn lemma_loop_matches(toks: Seq<Token>, i: int, m: Machine, fuel: nat)
    requires
        counts_fit(toks),
        0 <= i < toks.len(),
        frame_fits(toks, i + 1, 0),
    ensures
        run_tok_loop(toks, i, m, fuel) == run_loop(
            frame_ops(toks, i + 1, 0).0,
            frame_ops(toks, i + 1, 0).1,
            m,
            fuel,
        ),
    decreases fuel, toks.len() + 1 - i, 0nat,
{
    let inner = frame_ops(toks, i + 1, 0);
    if (m.tape)(m.base) != 0 && fuel > 0 {
        let f = (fuel - 1) as nat;
        lemma_frame_matches(toks, i + 1, 0, m, f);
        lemma_moved_zero(m);
        match run_block(inner.0, m, f) {
            Some(r1) => {
                lemma_loop_matches(toks, i, moved(r1, inner.1 as int), f);
            },
            None => {},
        }
    }
}

/// The block built from the tokens from index `i` on, in a frame whose head
/// offset so far is `head`, does what the tokens do from that offset: the
/// runs stop together, with the same tape, input and output, the head of
/// the token run sitting at the final head offset from the base of the
/// block run.
proof fn lemma_frame_matches(toks: Seq<Token>, i: int, head: i32, m: Machine, fuel: nat)
    requires
        counts_fit(toks),
        0 <= i,
        frame_fits(toks, i, head),
    ensures
        match run_block(frame_ops(toks, i, head).0, m, fuel) {
            Some(r) => {
                &&& run_frame(toks, i, moved(m, head as int), fuel) is Some
                &&& run_frame(toks, i, moved(m, head as int), fuel).unwrap().0 == moved(
                    r,
                    frame_ops(toks, i, head).1 as int,
                )
            },
            None => run_frame(toks, i, moved(m, head as int), fuel) is None,
        },
    decreases fuel, toks.len() + 1 - i, 1nat,
{
    let mh = moved(m, head as int);
    if i >= toks.len() {
        assert(run_block(Seq::<IrNode>::empty(), m, fuel) == Some(m));
    } else {
        assert(token_count(toks[i]) <= i32::MAX);
        match toks[i] {
            Token::Left(n) => {
                let h2 = (head - (n as i32)) as i32;
                assert(moved(m, h2 as int) =~= token_step(toks[i], mh));
                lemma_frame_matches(toks, i + 1, h2, m, fuel);
            },
            Token::Right(n) => {
                let h2 = (head + (n as i32)) as i32;
                assert(moved(m, h2 as int) =~= token_step(toks[i], mh));
                lemma_frame_matches(toks, i + 1, h2, m, fuel);
            },
            Token::LoopStart => {
                let e = loop_close(toks, i + 1, 1);
                lemma_loop_close_bounds(toks, i + 1, 1);
                let inner = frame_ops(toks, i + 1, 0);
                let rest = frame_ops(toks, e + 1, 0);
                let lp = IrNode::Loop {
                    move_head_prior: head,
                    move_head_after_iter: inner.1,
                    body: inner.0,
                };
                assert(frame_ops(toks, i, head).0 == seq![lp] + rest.0);
                assert((seq![lp] + rest.0)[0] == lp);
                assert((seq![lp] + rest.0).drop_first() == rest.0);
                lemma_loop_matches(toks, i, mh, fuel);
                assert(toks[i] is LoopStart);
                match run_loop(inner.0, inner.1, mh, fuel) {
                    Some(l) => {
                        lemma_frame_matches(toks, e + 1, 0, l, fuel);
                        lemma_moved_zero(l);
                    },
                    None => {},
                }
            },
            Token::LoopEnd => {
                assert(run_block(Seq::<IrNode>::empty(), m, fuel) == Some(m));
            },
            _ => {
                let x = frame_ops(toks, i, head).0[0];
                let rest = frame_ops(toks, i + 1, head);
                assert(frame_ops(toks, i, head).0 == seq![x] + rest.0);
                assert((seq![x] + rest.0).drop_first() == rest.0);
                let m1 = step_op(x, m);
                assert(moved(m1, head as int) =~= token_step(toks[i], mh));
                lemma_frame_matches(toks, i + 1, head, m1, fuel);
            },
        }
    }
}

/// The block that `construct_ir` builds from the first token does what the
/// tokens do: from any machine, both runs stop within the same fuel or
/// neither does, and when they stop they have read the same input, written
/// the same output and left the same tape, the head of the token run
/// sitting at the block's final head offset from where the block run left
/// its base. Counts beyond `i32::MAX` are left out: the block takes them
/// modulo 2^32 as `i32` values, so such a move goes the other way.
pub proof fn lemma_construct_ir_keeps_behavior(toks: Seq<Token>, m: Machine, fuel: nat)
    requires
        counts_fit(toks),
        frame_fits(toks, 0, 0),
    ensures
        (run_block(frame_ops(toks, 0, 0).0, m, fuel) is Some) == (run_frame(toks, 0, m, fuel) is Some),
        run_block(frame_ops(toks, 0, 0).0, m, fuel) is Some ==> run_frame(toks, 0, m, fuel).unwrap().0
            == moved(run_block(frame_ops(toks, 0, 0).0, m, fuel).unwrap(), frame_ops(toks, 0, 0).1 as int),
{
    lemma_frame_matches(toks, 0, 0, m, fuel);
    lemma_moved_zero(m);
}

/// Building the block from the first token and dropping the loops in front
/// of its first cell write keeps what the tokens do from a blank tape: both
/// runs stop within the same fuel or neither does, and when they stop they
/// have read the same input, written the same output, and left the same
/// tape up to where it sits.
pub proof fn lemma_stripped_ir_keeps_behavior(toks: Seq<Token>, m: Machine, fuel: nat)
    requires
        counts_fit(toks),
        frame_fits(toks, 0, 0),
        m.tape == blank_tape(),
    ensures
        ({
            let ir = strip_ir_frontmatter(frame_ops(toks, 0, 0).0);
            &&& (run_block(ir, m, fuel) is Some) == (run_frame(toks, 0, m, fuel) is Some)
            &&& run_frame(toks, 0, m, fuel) is Some ==> {
                let a = run_frame(toks, 0, m, fuel).unwrap().0;
                let b = run_block(ir, m, fuel).unwrap();
                &&& a.output == b.output
                &&& a.read == b.read
                &&& exists|d: int| a.tape == #[trigger] shifted(b, d).tape
            }
        }),
{
    let ops = frame_ops(toks, 0, 0).0;
    lemma_construct_ir_keeps_behavior(toks, m, fuel);
    lemma_remove_frontmatter_keeps_behavior(ops, m, fuel);
    if run_frame(toks, 0, m, fuel) is Some {
        let a = run_block(ops, m, fuel).unwrap();
        let b = run_block(strip_ir_frontmatter(ops), m, fuel).unwrap();
        let d = choose|d: int| a == #[trigger] shifted(b, d);
        assert(run_frame(toks, 0, m, fuel).unwrap().0.tape == shifted(b, d).tape);
    }
}

/// Scanning for a closing bracket in a suffix of the tokens finds the same
/// token as scanning the whole sequence from the same place.
proof fn lemma_loop_close_skip(s: Seq<Token>, k: int, j: int, d: int)
    requires
        0 <= k <= s.len(),
        0 <= j,
    ensures
        loop_close(s.skip(k), j, d) == loop_close(s, k + j, d) - k,
    decreases s.len() - k - j,
{
    let t = s.skip(k);
    if 0 <= j < t.len() {
        assert(t[j] == s[k + j]);
        if d + nesting_delta(t[j]) != 0 {
            lemma_loop_close_skip(s, k, j + 1, d + nesting_delta(t[j]));
        }
    }
}

/// The machine that a run of tokens ends with, if it ends.
pub open spec fn frame_machine(r: Option<(Machine, int)>) -> Option<Machine> {
    match r {
        Some(p) => Some(p.0),
        None => None,
    }
}

/// Running a suffix of the tokens is running the whole sequence from the
/// same place: the runs end alike, at indices `k` apart.
proof fn lemma_run_frame_skip(s: Seq<Token>, k: int, j: int, m: Machine, fuel: nat)
    requires
        0 <= k <= s.len(),
        0 <= j,
    ensures
        run_frame(s.skip(k), j, m, fuel) == match run_frame(s, k + j, m, fuel) {
            Some(p) => Some((p.0, p.1 - k)),
            None => None,
        },
    decreases fuel, s.len() - k + 1 - j, 1nat,
{
    let t = s.skip(k);
    if 0 <= j < t.len() {
        assert(t[j] == s[k + j]);
        match t[j] {
            Token::LoopStart => {
                lemma_loop_close_skip(s, k, j + 1, 1);
                lemma_loop_close_bounds(t, j + 1, 1);
                let e = loop_close(t, j + 1, 1);
                lemma_run_tok_loop_skip(s, k, j, m, fuel);
                match run_tok_loop(t, j, m, fuel) {
                    Some(l) => lemma_run_frame_skip(s, k, e + 1, l, fuel),
                    None => {},
                }
            },
            Token::LoopEnd => {},
            _ => lemma_run_frame_skip(s, k, j + 1, token_step(t[j], m), fuel),
        }
    }
}

proof fn lemma_run_tok_loop_skip(s: Seq<Token>, k: int, j: int, m: Machine, fuel: nat)
    requires
        0 <= k <= s.len(),
        0 <= j,
    ensures
        run_tok_loop(s.skip(k), j, m, fuel) == run_tok_loop(s, k + j, m, fuel),
    decreases fuel, s.len() - k + 1 - j, 0nat,
{
    if (m.tape)(m.base) != 0 && fuel > 0 {
        let f = (fuel - 1) as nat;
        lemma_run_frame_skip(s, k, j + 1, m, f);
        match run_frame(s, k + j + 1, m, f) {
            Some(r) => lemma_run_tok_loop_skip(s, k, j, r.0, f),
            None => {},
        }
    }
}

/// Once a cell has been written, every token is kept.
proof fn lemma_strip_keeps_rest(toks: Seq<Token>, i: int)
    requires
        0 <= i <= toks.len(),
    ensures
        strip_frontmatter(toks, i, false) == toks.skip(i),
    decreases toks.len() + 1 - i,
{
    if i < toks.len() {
        lemma_strip_keeps_rest(toks, i + 1);
        assert(toks.skip(i) == seq![toks[i]] + toks.skip(i + 1));
    } else {
        assert(toks.skip(i) == Seq::<Token>::empty());
    }
}

/// Running the tokens from index `i` on and running what dropping the loops
/// in front leaves of them end with the same machine, when the tape is blank
/// while no cell has been written (`zero`).
proof fn lemma_strip_tokens_runs(toks: Seq<Token>, i: int, zero: bool, m: Machine, fuel: nat)
    requires
        0 <= i,
        zero ==> m.tape == blank_tape(),
    ensures
        frame_machine(run_frame(strip_frontmatter(toks, i, zero), 0, m, fuel)) == frame_machine(
            run_frame(toks, i, m, fuel),
        ),
    decreases toks.len() + 1 - i,
{
    if i >= toks.len() {
        assert(strip_frontmatter(toks, i, zero) == Seq::<Token>::empty());
    } else {
        let t = toks[i];
        let z = zero && !writes_cell(t);
        if !z {
            lemma_strip_keeps_rest(toks, i + 1);
            assert(toks.skip(i) == seq![t] + toks.skip(i + 1));
            if zero {
                assert(strip_frontmatter(toks, i, zero) == seq![t] + strip_frontmatter(toks, i + 1, z));
            } else {
                lemma_strip_keeps_rest(toks, i);
            }
            assert(strip_frontmatter(toks, i, zero) == toks.skip(i));
            lemma_run_frame_skip(toks, i, 0, m, fuel);
        } else if t == Token::LoopStart {
            let e = loop_close(toks, i + 1, 1);
            lemma_loop_close_bounds(toks, i + 1, 1);
            assert(run_tok_loop(toks, i, m, fuel) == Some(m));
            lemma_strip_tokens_runs(toks, e + 1, z, m, fuel);
        } else {
            let r = strip_frontmatter(toks, i + 1, z);
            let u = seq![t] + r;
            assert(strip_frontmatter(toks, i, zero) == u);
            assert(u[0] == t);
            assert(u.skip(1) == r);
            if t is LoopEnd {
            } else {
                let m1 = token_step(t, m);
                assert(m1.tape == blank_tape()) by {
                    assert(m1.tape =~= m.tape);
                }
                lemma_run_frame_skip(u, 1, 0, m1, fuel);
                lemma_strip_tokens_runs(toks, i + 1, z, m1, fuel);
            }
        }
    }
}

/// Dropping the loops in front of the first token that writes a cell does
/// not change what the tokens do from a blank tape: both runs stop within
/// the same fuel or neither does, and then with the same machine (tape,
/// head, input and output); the dropped loops would run no time.
pub proof fn lemma_remove_frontmatter_tokens_keeps_behavior(toks: Seq<Token>, m: Machine, fuel: nat)
    requires
        m.tape == blank_tape(),
    ensures
        frame_machine(run_frame(strip_frontmatter(toks, 0, true), 0, m, fuel)) == frame_machine(
            run_frame(toks, 0, m, fuel),
        ),
{
    lemma_strip_tokens_runs(toks, 0, true, m, fuel);
}

} // verus!
