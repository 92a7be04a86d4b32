use std::collections::BTreeMap;
use vstd::prelude::*;

use crate::parse::{expand, lemma_expand_front, run_char, token_count, token_text, Token};

verus! {

/// A simpler tree representation for analysis: every head move and every
/// input or output stays a node of its own.
#[derive(Debug, PartialEq, Eq)]
pub enum Ir {
    Shift { amount: i64 },
    /// Subtraction is an addition that wraps around.
    Add { val: u8 },
    Out {},
    In {},
    Loop { body: Vec<Ir> },
}

/// The mathematical value of an `Ir`: the same tree with sequences in place
/// of vectors.
pub enum IrTree {
    Shift { amount: i64 },
    Add { val: u8 },
    Out,
    In,
    Loop { body: Seq<IrTree> },
}

pub open spec fn view_ir(op: Ir) -> IrTree
    decreases op,
{
    match op {
        Ir::Shift { amount } => IrTree::Shift { amount },
        Ir::Add { val } => IrTree::Add { val },
        Ir::Out {  } => IrTree::Out,
        Ir::In {  } => IrTree::In,
        Ir::Loop { body } => IrTree::Loop { body: view_irs(body@) },
    }
}

pub open spec fn view_irs(ops: Seq<Ir>) -> Seq<IrTree>
    decreases ops,
{
    if ops.len() == 0 {
        Seq::empty()
    } else {
        view_irs(ops.drop_last()).push(view_ir(ops.last()))
    }
}

impl View for Ir {
    type V = IrTree;

    open spec fn view(&self) -> IrTree {
        view_ir(*self)
    }
}

/// `view_irs` of a sequence with one more element.
pub proof fn lemma_view_irs_push(ops: Seq<Ir>, op: Ir)
    ensures
        view_irs(ops.push(op)) == view_irs(ops).push(view_ir(op)),
{
    assert(ops.push(op).drop_last() == ops);
}

/// A copy of an analysis node, subtree included.
fn clone_ir(op: &Ir) -> (r: Ir)
    ensures
        r@ == op@,
    decreases op,
{
    match op {
        Ir::Shift { amount } => Ir::Shift { amount: *amount },
        Ir::Add { val } => Ir::Add { val: *val },
        Ir::Out {  } => Ir::Out {  },
        Ir::In {  } => Ir::In {  },
        Ir::Loop { body } => Ir::Loop { body: clone_irs(body) },
    }
}

/// A copy of a sequence of analysis nodes.
fn clone_irs(ops: &Vec<Ir>) -> (r: Vec<Ir>)
    ensures
        view_irs(r@) == view_irs(ops@),
    decreases ops,
{
    let mut r: Vec<Ir> = Vec::new();
    let mut i: usize = 0;
    while i < ops.len()
        invariant
            0 <= i <= ops@.len(),
            view_irs(r@) == view_irs(ops@.take(i as int)),
        decreases ops@.len() - i,
    {
        proof {
            assert(decreases_to!(ops => ops@[i as int]));
        }
        let ghost old_r = r@;
        let c = clone_ir(&ops[i]);
        r.push(c);
        proof {
            assert(r@.drop_last() == old_r);
            assert(ops@.take(i as int + 1).drop_last() == ops@.take(i as int));
        }
        i = i + 1;
    }
    assert(ops@.take(ops@.len() as int) == ops@);
    r
}

impl Clone for Ir {
    fn clone(&self) -> (r: Self)
        ensures
            r@ == self@,
    {
        clone_ir(self)
    }
}

/// What is known of the tape cells, by cell index.
#[derive(Clone, Debug)]
pub struct CellPreds {
    cells: BTreeMap<i64, CellPred>,
}

impl CellPreds {
    /// What is known of the cells, as a map.
    pub closed spec fn known(&self) -> Map<i64, CellPred> {
        self.cells@
    }

    /// Nothing known of any cell yet.
    pub fn new() -> (r: Self)
        ensures
            r.known() == Map::<i64, CellPred>::empty(),
    {
        CellPreds { cells: BTreeMap::new() }
    }
}

/// What is known of one cell: its value, when it is known.
#[derive(Copy, Clone, Debug)]
pub struct CellPred {
    pub known_val: Option<u8>,
}

impl CellPred {
    /// A cell known to hold zero.
    pub fn zero() -> (r: Self)
        ensures
            r.known_val == Some(0u8),
    {
        CellPred { known_val: Some(0) }
    }
}

/// Whether `v` fits in an `i64`.
pub open spec fn fits_i64(v: int) -> bool {
    i64::MIN <= v <= i64::MAX
}

/// What is known of a cell before an operation: zero until something
/// touched it.
pub open spec fn known_at(m: Map<i64, CellPred>, h: i64) -> Option<u8> {
    if m.contains_key(h) {
        m[h].known_val
    } else {
        Some(0)
    }
}

/// The head position and the knowledge about cells after a block without
/// loops (a loop is passed over), starting at position zero with every cell
/// known to be zero: additions update a known value, wrapping around modulo
/// 256 (a subtraction is an addition of its two's complement), and input
/// forgets it.
pub open spec fn anal_state(ir: Seq<IrTree>) -> (int, Map<i64, CellPred>)
    decreases ir.len(),
{
    if ir.len() == 0 {
        (0, Map::empty())
    } else {
        let pre = anal_state(ir.drop_last());
        let h = pre.0;
        let m = pre.1;
        match ir.last() {
            IrTree::Shift { amount } => (h + amount, m),
            IrTree::Add { val } => (
                h,
                m.insert(
                    h as i64,
                    CellPred {
                        known_val: match known_at(m, h as i64) {
                            Some(k) => Some(((k + val) % 256) as u8),
                            None => None,
                        },
                    },
                ),
            ),
            IrTree::In => (h, m.insert(h as i64, CellPred { known_val: None })),
            _ => (h, m),
        }
    }
}

/// The head position of the analysis stays in the `i64` range.
pub open spec fn anal_fits(ir: Seq<IrTree>) -> bool
    decreases ir.len(),
{
    if ir.len() == 0 {
        true
    } else {
        let pre = anal_state(ir.drop_last());
        anal_fits(ir.drop_last()) && match ir.last() {
            IrTree::Shift { amount } => fits_i64(pre.0 + amount),
            _ => true,
        }
    }
}

proof fn lemma_view_irs_index(ops: Seq<Ir>)
    ensures
        view_irs(ops).len() == ops.len(),
        forall|t: int| 0 <= t < ops.len() ==> #[trigger] view_irs(ops)[t] == view_ir(ops[t]),
    decreases ops.len(),
{
    if ops.len() > 0 {
        lemma_view_irs_index(ops.drop_last());
    }
}

/// Tracks the head and what is known of each cell through a block, passing
/// over loops: returns the final head position and what is known of each
/// cell that the block touched (see `anal_state`).
pub fn track_cells(ir: &[Ir]) -> (r: (i64, BTreeMap<i64, CellPred>))
    requires
        anal_fits(view_irs(ir@)),
    ensures
        r.0 as int == anal_state(view_irs(ir@)).0,
        r.1@ == anal_state(view_irs(ir@)).1,
{
    let ghost v = view_irs(ir@);
    proof {
        lemma_view_irs_index(ir@);
        assert(v.take(0) == Seq::<IrTree>::empty());
    }
    let mut head: i64 = 0;
    let mut cell_states: BTreeMap<i64, CellPred> = BTreeMap::new();
    let mut i: usize = 0;
    while i < ir.len()
        invariant
            v == view_irs(ir@),
            v.len() == ir@.len(),
            forall|t: int| 0 <= t < ir@.len() ==> #[trigger] v[t] == view_ir(ir@[t]),
            0 <= i <= ir@.len(),
            anal_fits(v),
            head as int == anal_state(v.take(i as int)).0,
            cell_states@ == anal_state(v.take(i as int)).1,
        decreases ir@.len() - i,
    {
        proof {
            lemma_anal_fits_prefix(v, i as int + 1);
            assert(v.take(i + 1).drop_last() == v.take(i as int));
            assert(v[i as int] == ir@[i as int]@);
        }
        match &ir[i] {
            Ir::Shift { amount } => {
                head = head + *amount;
            },
            Ir::Add { val } => {
                let mut pred: CellPred = match cell_states.get(&head) {
                    Some(p) => *p,
                    None => CellPred::zero(),
                };
                if let Some(known_val) = pred.known_val {
                    let sum: u8 = known_val.wrapping_add(*val);
                    assert(sum == (known_val + *val) % 256);
                    pred.known_val = Some(sum);
                }
                cell_states.insert(head, pred);
            },
            Ir::Out {  } => {
                let _pred = cell_states.get(&head);
            },
            Ir::In {  } => {
                let mut pred: CellPred = match cell_states.get(&head) {
                    Some(p) => *p,
                    None => CellPred::zero(),
                };
                pred.known_val = None;
                cell_states.insert(head, pred);
            },
            Ir::Loop { .. } => {},
        }
        i = i + 1;
    }
    proof {
        assert(v.take(i as int) == v);
    }
    (head, cell_states)
}

/// Tracks the head and what is known of each cell through a block, passing
/// over loops; the result is not kept (see `track_cells`).
fn anal_no_loops(ir: &[Ir])
    requires
        anal_fits(view_irs(ir@)),
{
    let _ = track_cells(ir);
}

/// `anal_fits` holds of every prefix of a block it holds of.
proof fn lemma_anal_fits_prefix(ir: Seq<IrTree>, k: int)
    requires
        anal_fits(ir),
        0 <= k <= ir.len(),
    ensures
        anal_fits(ir.take(k)),
    decreases ir.len(),
{
    if k < ir.len() {
        assert(ir.drop_last().take(k) == ir.take(k));
        lemma_anal_fits_prefix(ir.drop_last(), k);
    } else {
        assert(ir.take(k) == ir);
    }
}

/// The addition that subtracts `n` from a byte (two's complement of `n`'s
/// low byte).
pub open spec fn neg_byte(n: u32) -> u8 {
    ((256 - (n % 256)) % 256) as u8
}

/// `n` nodes that are all `node`.
pub open spec fn repeat_node(n: u32, node: IrTree) -> Seq<IrTree> {
    Seq::new(n as nat, |j: int| node)
}

/// What converting the tokens from index `i` on gives, the head offset of
/// the frame being `off`: the nodes, the final head offset, and the token
/// index at which the conversion returns. A `]` ends the frame just after
/// itself. A `[` converts a nested frame from the next token, and the
/// current frame then goes on one token past the index where the nested
/// frame returned.
pub open spec fn conv(toks: Seq<Token>, i: int, off: int) -> (Seq<IrTree>, int, int)
    decreases toks.len() + 1 - i,
{
    if !(0 <= i < toks.len()) {
        (Seq::empty(), off, i)
    } else {
        match toks[i] {
            Token::Left(n) => {
                let r = conv(toks, i + 1, off - n);
                (seq![IrTree::Shift { amount: (-(n as int)) as i64 }] + r.0, r.1, r.2)
            },
            Token::Right(n) => {
                let r = conv(toks, i + 1, off + n);
                (seq![IrTree::Shift { amount: n as i64 }] + r.0, r.1, r.2)
            },
            Token::Incr(n) => {
                let r = conv(toks, i + 1, off);
                (seq![IrTree::Add { val: n as u8 }] + r.0, r.1, r.2)
            },
            Token::Decr(n) => {
                let r = conv(toks, i + 1, off);
                (seq![IrTree::Add { val: neg_byte(n) }] + r.0, r.1, r.2)
            },
            Token::Out(n) => {
                let r = conv(toks, i + 1, off);
                (repeat_node(n, IrTree::Out) + r.0, r.1, r.2)
            },
            Token::In(n) => {
                let r = conv(toks, i + 1, off);
                (repeat_node(n, IrTree::In) + r.0, r.1, r.2)
            },
            Token::LoopStart => {
                let inner = conv(toks, i + 1, 0);
                let e = inner.2;
                if e >= toks.len() {
                    (seq![IrTree::Loop { body: inner.0 }], off, e + 1)
                } else if e >= i {
                    let r = conv(toks, e + 1, off);
                    (seq![IrTree::Loop { body: inner.0 }] + r.0, r.1, r.2)
                } else {
                    (Seq::empty(), off, i)
                }
            },
            Token::LoopEnd => (Seq::empty(), off, i + 1),
        }
    }
}

/// The conversion returns past its start, and at most one past the end of
/// the tokens for each token.
pub proof fn lemma_conv_end(toks: Seq<Token>, i: int, off: int)
    requires
        0 <= i <= toks.len(),
    ensures
        i <= conv(toks, i, off).2 <= 2 * toks.len() + 1 - i,
        i < toks.len() ==> i < conv(toks, i, off).2,
    decreases toks.len() + 1 - i,
{
    if i < toks.len() {
        match toks[i] {
            Token::Left(n) => lemma_conv_end(toks, i + 1, off - n),
            Token::Right(n) => lemma_conv_end(toks, i + 1, off + n),
            Token::LoopStart => {
                lemma_conv_end(toks, i + 1, 0);
                let e = conv(toks, i + 1, 0).2;
                if e < toks.len() {
                    lemma_conv_end(toks, e + 1, off);
                }
            },
            Token::LoopEnd => {},
            _ => lemma_conv_end(toks, i + 1, off),
        }
    }
}

/// The head offsets of the conversion, nested frames included, stay in the
/// `i64` range.
pub open spec fn conv_fits(toks: Seq<Token>, i: int, off: int) -> bool
    decreases toks.len() + 1 - i,
{
    if !(0 <= i < toks.len()) {
        true
    } else {
        match toks[i] {
            Token::Left(n) => fits_i64(off - n) && conv_fits(toks, i + 1, off - n),
            Token::Right(n) => fits_i64(off + n) && conv_fits(toks, i + 1, off + n),
            Token::LoopStart => {
                let e = conv(toks, i + 1, 0).2;
                conv_fits(toks, i + 1, 0) && (e < toks.len() && e >= i ==> conv_fits(
                    toks,
                    e + 1,
                    off,
                ))
            },
            Token::LoopEnd => true,
            _ => conv_fits(toks, i + 1, off),
        }
    }
}

/// Converts the tokens from `*tok_idx` on into analysis nodes, up to and
/// including the `]` that closes the frame (or the end of the tokens),
/// leaving `*tok_idx` where the conversion returns; also returns the head
/// offset of the frame at that point.
pub fn convert_rec(toks: &[Token], tok_idx: &mut usize) -> (r: (Vec<Ir>, i64))
    requires
        toks@.len() <= usize::MAX / 2,
        conv_fits(toks@, *old(tok_idx) as int, 0),
    ensures
        view_irs(r.0@) == conv(toks@, *old(tok_idx) as int, 0).0,
        r.1 as int == conv(toks@, *old(tok_idx) as int, 0).1,
        *final(tok_idx) as int == conv(toks@, *old(tok_idx) as int, 0).2,
    decreases toks@.len() + 1 - *old(tok_idx),
{
    if *tok_idx > toks.len() {
        return (Vec::new(), 0);
    }
    let ghost start = *tok_idx as int;
    let mut ir: Vec<Ir> = Vec::new();
    let mut curr_offset: i64 = 0;
    proof {
        lemma_conv_end(toks@, start, 0);
    }
    while !(*tok_idx >= toks.len())
        invariant
            start == *old(tok_idx),
            start <= *tok_idx <= 2 * toks@.len() + 1,
            toks@.len() <= usize::MAX / 2,
            conv_fits(toks@, *tok_idx as int, curr_offset as int),
            view_irs(ir@) + conv(toks@, *tok_idx as int, curr_offset as int).0 == conv(
                toks@,
                start,
                0,
            ).0,
            conv(toks@, *tok_idx as int, curr_offset as int).1 == conv(toks@, start, 0).1,
            conv(toks@, *tok_idx as int, curr_offset as int).2 == conv(toks@, start, 0).2,
        decreases 2 * toks@.len() + 2 - *tok_idx,
    {
        let idx = *tok_idx;
        let ghost old_ir = ir@;
        let ghost off = curr_offset as int;
        match &toks[idx] {
            Token::Left(num) => {
                curr_offset = curr_offset - (*num as i64);
                ir.push(Ir::Shift { amount: -(*num as i64) });
            },
            Token::Right(num) => {
                curr_offset = curr_offset + (*num as i64);
                ir.push(Ir::Shift { amount: *num as i64 });
            },
            Token::Incr(num) => {
                ir.push(Ir::Add { val: #[verifier::truncate] (*num as u8) });
            },
            Token::Decr(num) => {
                let n: u32 = *num;
                let low: u8 = #[verifier::truncate] (n as u8);
                let flipped: u8 = !low;
                let neg: u8 = flipped.wrapping_add(1);
                proof {
                    assert(flipped + low == 255) by (bit_vector)
                        requires
                            flipped == !low,
                    ;
                    assert(low as int == n as int % 256) by (bit_vector)
                        requires
                            low == n as u8,
                    ;
                }
                ir.push(Ir::Add { val: neg });
            },
            Token::Out(num) => {
                let mut j: u32 = 0;
                while j < *num
                    invariant
                        0 <= j <= *num,
                        view_irs(ir@) == view_irs(old_ir) + repeat_node(j, IrTree::Out),
                    decreases *num - j,
                {
                    let ghost before = ir@;
                    ir.push(Ir::Out {  });
                    proof {
                        lemma_view_irs_push(before, Ir::Out {  });
                        assert(repeat_node((j + 1) as u32, IrTree::Out) == repeat_node(j, IrTree::Out).push(IrTree::Out));
                    }
                    j = j + 1;
                }
            },
            Token::In(num) => {
                let mut j: u32 = 0;
                while j < *num
                    invariant
                        0 <= j <= *num,
                        view_irs(ir@) == view_irs(old_ir) + repeat_node(j, IrTree::In),
                    decreases *num - j,
                {
                    let ghost before = ir@;
                    ir.push(Ir::In {  });
                    proof {
                        lemma_view_irs_push(before, Ir::In {  });
                        assert(repeat_node((j + 1) as u32, IrTree::In) == repeat_node(j, IrTree::In).push(IrTree::In));
                    }
                    j = j + 1;
                }
            },
            Token::LoopStart => {
                *tok_idx = idx + 1;
                proof {
                    lemma_conv_end(toks@, idx + 1, 0);
                }
                let (body, _loop_shift) = convert_rec(toks, tok_idx);
                let ghost before = ir@;
                let node = Ir::Loop { body };
                proof {
                    lemma_view_irs_push(before, node);
                }
                ir.push(node);
                proof {
                    let e = conv(toks@, idx + 1, 0).2;
                    assert(*tok_idx as int == e);
                    if e >= toks@.len() {
                        assert(conv(toks@, e + 1, off) == (Seq::<IrTree>::empty(), off, e + 1));
                    }
                    assert(view_irs(ir@) + conv(toks@, e + 1, off).0 == view_irs(old_ir) + conv(toks@, idx as int, off).0);
                }
            },
            Token::LoopEnd => {
                *tok_idx = idx + 1;
                return (ir, curr_offset);
            },
        }
        proof {
            if !(toks@[idx as int] is LoopStart) && !(toks@[idx as int] is Out) && !(toks@[idx as int] is In) {
                lemma_view_irs_push(old_ir, ir@.last());
                assert(ir@ == old_ir.push(ir@.last()));
            }
        }
        *tok_idx = *tok_idx + 1;
    }
    (ir, curr_offset)
}

/// Whether converting the tokens from `*tok_idx` on keeps every head
/// offset in the `i64` range (see `conv_fits`); when it does, `*tok_idx` is
/// left where `convert_rec` leaves it.
fn check_conv_from(toks: &[Token], tok_idx: &mut usize) -> (r: bool)
    requires
        *old(tok_idx) <= toks@.len() <= usize::MAX / 2,
    ensures
        r == conv_fits(toks@, *old(tok_idx) as int, 0),
        r ==> *final(tok_idx) as int == conv(toks@, *old(tok_idx) as int, 0).2,
    decreases toks@.len() + 1 - *old(tok_idx),
{
    let ghost start = *tok_idx as int;
    let mut cur: i64 = 0;
    proof {
        lemma_conv_end(toks@, start, 0);
    }
    while !(*tok_idx >= toks.len())
        invariant
            start == *old(tok_idx),
            start <= *tok_idx <= 2 * toks@.len() + 1,
            toks@.len() <= usize::MAX / 2,
            conv_fits(toks@, *tok_idx as int, cur as int) == conv_fits(toks@, start, 0),
            conv(toks@, *tok_idx as int, cur as int).2 == conv(toks@, start, 0).2,
        decreases 2 * toks@.len() + 2 - *tok_idx,
    {
        let idx = *tok_idx;
        let ghost off = cur as int;
        match &toks[idx] {
            Token::Left(num) => {
                let next: i128 = cur as i128 - *num as i128;
                if next < i64::MIN as i128 || next > i64::MAX as i128 {
                    return false;
                }
                cur = next as i64;
            },
            Token::Right(num) => {
                let next: i128 = cur as i128 + *num as i128;
                if next < i64::MIN as i128 || next > i64::MAX as i128 {
                    return false;
                }
                cur = next as i64;
            },
            Token::LoopStart => {
                *tok_idx = idx + 1;
                proof {
                    lemma_conv_end(toks@, idx + 1, 0);
                }
                if !check_conv_from(toks, tok_idx) {
                    return false;
                }
                proof {
                    let e = conv(toks@, idx + 1, 0).2;
                    assert(*tok_idx as int == e);
                    assert(conv_fits(toks@, idx as int, off) == conv_fits(toks@, e + 1, off));
                    assert(conv(toks@, idx as int, off).2 == conv(toks@, e + 1, off).2);
                }
            },
            Token::LoopEnd => {
                *tok_idx = idx + 1;
                return true;
            },
            _ => {},
        }
        *tok_idx = *tok_idx + 1;
    }
    true
}

/// Whether converting a whole token sequence keeps every head offset in the
/// `i64` range (see `conv_fits`).
pub fn check_conv_fits(toks: &[Token]) -> (r: bool)
    requires
        toks@.len() <= usize::MAX / 2,
    ensures
        r == conv_fits(toks@, 0, 0),
{
    let mut idx: usize = 0;
    check_conv_from(toks, &mut idx)
}

/// How many times byte `c` occurs in `s`.
pub open spec fn count_byte(s: Seq<u8>, c: u8) -> int
    decreases s.len(),
{
    if s.len() == 0 {
        0
    } else {
        count_byte(s.drop_last(), c) + if s.last() == c {
            1int
        } else {
            0
        }
    }
}

/// The number of output nodes of an analysis tree, loop bodies included.
pub open spec fn tree_outs(t: Seq<IrTree>) -> int
    decreases t,
{
    if t.len() == 0 {
        0
    } else {
        tree_outs(t.drop_last()) + match t.last() {
            IrTree::Out => 1int,
            IrTree::Loop { body } => tree_outs(body),
            _ => 0,
        }
    }
}

/// The number of input nodes of an analysis tree, loop bodies included.
pub open spec fn tree_ins(t: Seq<IrTree>) -> int
    decreases t,
{
    if t.len() == 0 {
        0
    } else {
        tree_ins(t.drop_last()) + match t.last() {
            IrTree::In => 1int,
            IrTree::Loop { body } => tree_ins(body),
            _ => 0,
        }
    }
}

/// The total head movement of the shift nodes of an analysis tree, outside
/// loops.
pub open spec fn tree_shift(t: Seq<IrTree>) -> int
    decreases t.len(),
{
    if t.len() == 0 {
        0
    } else {
        tree_shift(t.drop_last()) + match t.last() {
            IrTree::Shift { amount } => amount as int,
            _ => 0,
        }
    }
}

/// The sum of the additions of an analysis tree, outside loops.
pub open spec fn tree_adds(t: Seq<IrTree>) -> int
    decreases t.len(),
{
    if t.len() == 0 {
        0
    } else {
        tree_adds(t.drop_last()) + match t.last() {
            IrTree::Add { val } => val as int,
            _ => 0,
        }
    }
}

proof fn lemma_count_concat(a: Seq<u8>, b: Seq<u8>, c: u8)
    ensures
        count_byte(a + b, c) == count_byte(a, c) + count_byte(b, c),
    decreases b.len(),
{
    if b.len() == 0 {
        assert(a + b == a);
    } else {
        lemma_count_concat(a, b.drop_last(), c);
        assert((a + b).drop_last() == a + b.drop_last());
        assert((a + b).last() == b.last());
    }
}

proof fn lemma_count_repeat(n: nat, x: u8, c: u8)
    ensures
        count_byte(Seq::new(n, |i: int| x), c) == if x == c {
            n as int
        } else {
            0
        },
    decreases n,
{
    if n > 0 {
        lemma_count_repeat((n - 1) as nat, x, c);
        assert(Seq::new(n, |i: int| x).drop_last() == Seq::new((n - 1) as nat, |i: int| x));
    }
}

proof fn lemma_tree_front(x: IrTree, r: Seq<IrTree>)
    ensures
        tree_outs(seq![x] + r) == tree_outs(seq![x]) + tree_outs(r),
        tree_ins(seq![x] + r) == tree_ins(seq![x]) + tree_ins(r),
        tree_shift(seq![x] + r) == tree_shift(seq![x]) + tree_shift(r),
        tree_adds(seq![x] + r) == tree_adds(seq![x]) + tree_adds(r),
    decreases r.len(),
{
    if r.len() == 0 {
        assert(seq![x] + r == seq![x]);
    } else {
        lemma_tree_front(x, r.drop_last());
        assert((seq![x] + r).drop_last() == seq![x] + r.drop_last());
        assert((seq![x] + r).last() == r.last());
    }
    assert(seq![x].drop_last() == Seq::<IrTree>::empty());
    assert(seq![x].last() == x);
}

proof fn lemma_tree_single(x: IrTree)
    ensures
        tree_outs(seq![x]) == if x == IrTree::Out { 1int } else if x is Loop { tree_outs(x->body) } else { 0 },
        tree_ins(seq![x]) == if x == IrTree::In { 1int } else if x is Loop { tree_ins(x->body) } else { 0 },
        tree_shift(seq![x]) == match x {
            IrTree::Shift { amount } => amount as int,
            _ => 0,
        },
        tree_adds(seq![x]) == match x {
            IrTree::Add { val } => val as int,
            _ => 0,
        },
{
    let e = Seq::<IrTree>::empty();
    assert(seq![x].drop_last() == e);
    assert(seq![x].last() == x);
    assert(tree_outs(e) == 0 && tree_ins(e) == 0 && tree_shift(e) == 0 && tree_adds(e) == 0);
}

proof fn lemma_tree_repeat(n: u32, x: IrTree, r: Seq<IrTree>)
    requires
        x == IrTree::Out || x == IrTree::In,
    ensures
        tree_outs(repeat_node(n, x) + r) == tree_outs(r) + if x == IrTree::Out {
            n as int
        } else {
            0
        },
        tree_ins(repeat_node(n, x) + r) == tree_ins(r) + if x == IrTree::In {
            n as int
        } else {
            0
        },
        tree_shift(repeat_node(n, x) + r) == tree_shift(r),
        tree_adds(repeat_node(n, x) + r) == tree_adds(r),
    decreases n,
{
    if n > 0 {
        let m = (n - 1) as u32;
        lemma_tree_repeat(m, x, r);
        assert(repeat_node(n, x) + r == seq![x] + (repeat_node(m, x) + r));
        lemma_tree_front(x, repeat_node(m, x) + r);
        assert(seq![x].drop_last() == Seq::<IrTree>::empty());
        assert(seq![x].last() == x);
        let e = Seq::<IrTree>::empty();
        assert(tree_outs(e) == 0 && tree_ins(e) == 0 && tree_shift(e) == 0 && tree_adds(e) == 0);
        assert(tree_adds(seq![x]) == tree_adds(e));
        assert(tree_outs(seq![x]) == tree_outs(e) + if x == IrTree::Out { 1int } else { 0 });
        assert(tree_ins(seq![x]) == tree_ins(e) + if x == IrTree::In { 1int } else { 0 });
        assert(tree_shift(seq![x]) == tree_shift(e));
    } else {
        assert(repeat_node(n, x) == Seq::<IrTree>::empty());
        assert(repeat_node(n, x) + r == r);
    }
}

/// Converting a frame keeps every command of its tokens: when the tokens
/// from index `i` up to index `c` hold no bracket and the frame ends at
/// `c` (a `]` there, or the end of the tokens), the tree has one output
/// node per `.` and one input node per `,` of those tokens, its shifts add
/// up to their `>` commands minus their `<` commands, the frame's head
/// offset moves by as much, and the conversion returns just past the `]`
/// (or at the end).
pub proof fn lemma_conv_keeps_commands(toks: Seq<Token>, i: int, c: int, off: int)
    requires
        0 <= i <= c <= toks.len(),
        forall|k: int| i <= k < c ==> !(#[trigger] toks[k] is LoopStart) && !(toks[k] is LoopEnd),
        c < toks.len() ==> toks[c] is LoopEnd,
    ensures
        ({
            let r = conv(toks, i, off);
            let text = expand(toks.subrange(i, c));
            &&& tree_outs(r.0) == count_byte(text, 46u8)
            &&& tree_ins(r.0) == count_byte(text, 44u8)
            &&& tree_shift(r.0) == count_byte(text, 62u8) - count_byte(text, 60u8)
            &&& r.1 == off + count_byte(text, 62u8) - count_byte(text, 60u8)
            &&& r.2 == if c < toks.len() { c + 1 } else { c }
            &&& tree_adds(r.0) % 256 == (count_byte(text, 43u8) - count_byte(text, 45u8)) % 256
        }),
    decreases c - i,
{
    let s = toks.subrange(i, c);
    if i == c {
        assert(s == Seq::<Token>::empty());
        assert(expand(s) == Seq::<u8>::empty());
    } else {
        let t = toks[i];
        assert(s[0] == t);
        assert(s.drop_first() == toks.subrange(i + 1, c));
        lemma_expand_front(s);
        let rest = expand(toks.subrange(i + 1, c));
        assert(!(t is LoopStart) && !(t is LoopEnd));
        assert(token_text(t) == Seq::new(token_count(t), |j: int| run_char(t).unwrap()));
        let x = run_char(t).unwrap();
        lemma_count_concat(token_text(t), rest, 46u8);
        lemma_count_concat(token_text(t), rest, 44u8);
        lemma_count_concat(token_text(t), rest, 62u8);
        lemma_count_concat(token_text(t), rest, 60u8);
        lemma_count_concat(token_text(t), rest, 43u8);
        lemma_count_concat(token_text(t), rest, 45u8);
        lemma_count_repeat(token_count(t), x, 43u8);
        lemma_count_repeat(token_count(t), x, 45u8);
        lemma_count_repeat(token_count(t), x, 46u8);
        lemma_count_repeat(token_count(t), x, 44u8);
        lemma_count_repeat(token_count(t), x, 62u8);
        lemma_count_repeat(token_count(t), x, 60u8);
        match t {
            Token::Left(n) => {
                lemma_conv_keeps_commands(toks, i + 1, c, off - n);
                let r = conv(toks, i + 1, off - n);
                lemma_tree_front(IrTree::Shift { amount: (-(n as int)) as i64 }, r.0);
                lemma_tree_single(IrTree::Shift { amount: (-(n as int)) as i64 });
            },
            Token::Right(n) => {
                lemma_conv_keeps_commands(toks, i + 1, c, off + n);
                let r = conv(toks, i + 1, off + n);
                lemma_tree_front(IrTree::Shift { amount: n as i64 }, r.0);
                lemma_tree_single(IrTree::Shift { amount: n as i64 });
            },
            Token::Incr(n) => {
                lemma_conv_keeps_commands(toks, i + 1, c, off);
                let r = conv(toks, i + 1, off);
                lemma_tree_front(IrTree::Add { val: n as u8 }, r.0);
                lemma_tree_single(IrTree::Add { val: n as u8 });
                let low: u8 = n as u8;
                assert(low as int == n as int % 256) by (bit_vector)
                    requires
                        low == n as u8,
                ;
                let ta = tree_adds(r.0);
                let d = count_byte(rest, 43u8) - count_byte(rest, 45u8);
                vstd::arithmetic::div_mod::lemma_add_mod_noop(low as int, ta, 256);
                vstd::arithmetic::div_mod::lemma_add_mod_noop(n as int, d, 256);
                vstd::arithmetic::div_mod::lemma_mod_twice(n as int, 256);
            },
            Token::Decr(n) => {
                lemma_conv_keeps_commands(toks, i + 1, c, off);
                let r = conv(toks, i + 1, off);
                lemma_tree_front(IrTree::Add { val: neg_byte(n) }, r.0);
                lemma_tree_single(IrTree::Add { val: neg_byte(n) });
                let ta = tree_adds(r.0);
                let d = count_byte(rest, 43u8) - count_byte(rest, 45u8);
                let v = neg_byte(n) as int;
                assert(v == (256 - (n as int % 256)) % 256);
                vstd::arithmetic::div_mod::lemma_add_mod_noop(v, ta, 256);
                vstd::arithmetic::div_mod::lemma_add_mod_noop(-(n as int), d, 256);
                vstd::arithmetic::div_mod::lemma_mod_twice(256 - (n as int % 256), 256);
                assert((256 - (n as int % 256)) % 256 == (-(n as int)) % 256) by {
                    vstd::arithmetic::div_mod::lemma_add_mod_noop(256, -(n as int), 256);
                    vstd::arithmetic::div_mod::lemma_sub_mod_noop(256, n as int, 256);
                    vstd::arithmetic::div_mod::lemma_mod_twice(n as int, 256);
                    vstd::arithmetic::div_mod::lemma_mod_self_0(256);
                }
            },
            Token::Out(n) => {
                lemma_conv_keeps_commands(toks, i + 1, c, off);
                lemma_tree_repeat(n, IrTree::Out, conv(toks, i + 1, off).0);
            },
            Token::In(n) => {
                lemma_conv_keeps_commands(toks, i + 1, c, off);
                lemma_tree_repeat(n, IrTree::In, conv(toks, i + 1, off).0);
            },
            _ => {},
        }
    }
}

} // verus!
