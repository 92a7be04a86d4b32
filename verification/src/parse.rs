use vstd::prelude::*;

verus! {

/// One lexical unit of a brainfuck program. The counted variants stand for a
/// run of the same command character, `count` times in a row.
#[derive(Debug, PartialEq, Eq)]
pub enum Token {
    Left(u32),
    Right(u32),
    Incr(u32),
    Decr(u32),
    Out(u32),
    In(u32),
    LoopStart,
    LoopEnd,
}

impl Clone for Token {
    fn clone(&self) -> (r: Self)
        ensures
            r == *self,
    {
        match self {
            Token::Left(n) => Token::Left(*n),
            Token::Right(n) => Token::Right(*n),
            Token::Incr(n) => Token::Incr(*n),
            Token::Decr(n) => Token::Decr(*n),
            Token::Out(n) => Token::Out(*n),
            Token::In(n) => Token::In(*n),
            Token::LoopStart => Token::LoopStart,
            Token::LoopEnd => Token::LoopEnd,
        }
    }
}

/// Why a program text was refused.
#[derive(Debug, PartialEq, Eq)]
pub enum ParseError {
    /// A `]` closes no open `[`.
    UnmatchedLoopEnd,
    /// Some `[` is never closed.
    UnmatchedLoopStart,
}

impl ParseError {
    /// The message that reports the refusal.
    pub fn message(&self) -> (s: String)
        ensures
            s@ == match *self {
                ParseError::UnmatchedLoopEnd => "unmatched loop end"@,
                ParseError::UnmatchedLoopStart => "unmatched loop start"@,
            },
    {
        match self {
            ParseError::UnmatchedLoopEnd => String::from_str("unmatched loop end"),
            ParseError::UnmatchedLoopStart => String::from_str("unmatched loop start"),
        }
    }
}

/// The eight command characters of the language.
pub open spec fn is_command(b: u8) -> bool {
    b == 60u8 || b == 62u8 || b == 43u8 || b == 45u8 || b == 46u8 || b == 44u8 || b == 91u8
        || b == 93u8
}

/// The command characters of `text`, in order; every other byte is a comment.
pub open spec fn commands(text: Seq<u8>) -> Seq<u8>
    decreases text.len(),
{
    if text.len() == 0 {
        Seq::empty()
    } else if is_command(text.last()) {
        commands(text.drop_last()).push(text.last())
    } else {
        commands(text.drop_last())
    }
}

/// How much a byte changes the bracket nesting depth.
pub open spec fn bracket_delta(b: u8) -> int {
    if b == 91u8 {
        1
    } else if b == 93u8 {
        -1
    } else {
        0
    }
}

/// Number of `[` minus number of `]` in `text`.
pub open spec fn depth(text: Seq<u8>) -> int
    decreases text.len(),
{
    if text.len() == 0 {
        0
    } else {
        depth(text.drop_last()) + bracket_delta(text.last())
    }
}

/// The nesting depth after the first `i` bytes of `text`.
#[verifier::opaque]
pub open spec fn prefix_depth(text: Seq<u8>, i: int) -> int {
    depth(text.take(i))
}

/// No prefix of `text` closes more loops than it opened.
pub open spec fn never_closes_unopened(text: Seq<u8>) -> bool {
    forall|i: int| 0 <= i <= text.len() ==> #[trigger] prefix_depth(text, i) >= 0
}

/// The command character that a counted token repeats, if it is one.
pub open spec fn run_char(t: Token) -> Option<u8> {
    match t {
        Token::Left(_) => Some(60u8),
        Token::Right(_) => Some(62u8),
        Token::Incr(_) => Some(43u8),
        Token::Decr(_) => Some(45u8),
        Token::Out(_) => Some(46u8),
        Token::In(_) => Some(44u8),
        Token::LoopStart => None,
        Token::LoopEnd => None,
    }
}

/// How many times a token repeats its command (1 for a bracket).
pub open spec fn token_count(t: Token) -> nat {
    match t {
        Token::Left(n) => n as nat,
        Token::Right(n) => n as nat,
        Token::Incr(n) => n as nat,
        Token::Decr(n) => n as nat,
        Token::Out(n) => n as nat,
        Token::In(n) => n as nat,
        Token::LoopStart => 1,
        Token::LoopEnd => 1,
    }
}

/// The command characters that one token stands for.
pub open spec fn token_text(t: Token) -> Seq<u8> {
    match t {
        Token::LoopStart => seq![91u8],
        Token::LoopEnd => seq![93u8],
        _ => Seq::new(token_count(t), |i: int| run_char(t).unwrap()),
    }
}

/// The command characters that a token sequence stands for.
pub open spec fn expand(toks: Seq<Token>) -> Seq<u8>
    decreases toks.len(),
{
    if toks.len() == 0 {
        Seq::empty()
    } else {
        expand(toks.drop_last()) + token_text(toks.last())
    }
}

/// Runs are merged as far as a `u32` count allows: every counted token
/// counts at least one command, and a counted token followed by a token of
/// the same command is full.
pub open spec fn well_merged(toks: Seq<Token>) -> bool {
    &&& forall|i: int| 0 <= i < toks.len() ==> token_count(#[trigger] toks[i]) >= 1
    &&& forall|i: int|
        0 <= i < toks.len() - 1 && (#[trigger] run_char(toks[i])) is Some && run_char(toks[i])
            == run_char(toks[i + 1]) ==> token_count(toks[i]) == u32::MAX
}

proof fn lemma_commands_step(text: Seq<u8>, i: int)
    requires
        0 <= i < text.len(),
    ensures
        commands(text.take(i + 1)) == if is_command(text[i]) {
            commands(text.take(i)).push(text[i])
        } else {
            commands(text.take(i))
        },
        depth(text.take(i + 1)) == depth(text.take(i)) + bracket_delta(text[i]),
{
    assert(text.take(i + 1).drop_last() == text.take(i));
}

proof fn lemma_expand_push(toks: Seq<Token>, t: Token)
    ensures
        expand(toks.push(t)) == expand(toks) + token_text(t),
{
    assert(toks.push(t).drop_last() == toks);
}

proof fn lemma_expand_bump(toks: Seq<Token>, u: Token, c: u8)
    requires
        toks.len() > 0,
        run_char(toks.last()) == Some(c),
        token_count(u) == token_count(toks.last()) + 1,
        run_char(u) == Some(c),
    ensures
        expand(toks.update(toks.len() - 1, u)) == expand(toks).push(c),
{
    let n = toks.len() - 1;
    let v = toks.update(n, u);
    assert(v.drop_last() == toks.drop_last());
    assert(token_text(u) == token_text(toks.last()).push(c));
}

/// Appends one command character to a merged token sequence.
fn push_command(ir: &mut Vec<Token>, b: u8)
    requires
        is_command(b),
        well_merged(old(ir)@),
    ensures
        well_merged(final(ir)@),
        expand(final(ir)@) == expand(old(ir)@).push(b),
{
    let ghost old_ir = ir@;
    if b == 91u8 {
        proof {
            lemma_expand_push(old_ir, Token::LoopStart);
        }
        ir.push(Token::LoopStart);
        return;
    } else if b == 93u8 {
        proof {
            lemma_expand_push(old_ir, Token::LoopEnd);
        }
        ir.push(Token::LoopEnd);
        return;
    }
    let n = ir.len();
    if n > 0 {
        let last = ir[n - 1].clone();
        let bumped: Option<Token> = match last {
            Token::Left(k) => if b == 60u8 && k < u32::MAX { Some(Token::Left(k + 1)) } else { None },
            Token::Right(k) => if b == 62u8 && k < u32::MAX { Some(Token::Right(k + 1)) } else { None },
            Token::Incr(k) => if b == 43u8 && k < u32::MAX { Some(Token::Incr(k + 1)) } else { None },
            Token::Decr(k) => if b == 45u8 && k < u32::MAX { Some(Token::Decr(k + 1)) } else { None },
            Token::Out(k) => if b == 46u8 && k < u32::MAX { Some(Token::Out(k + 1)) } else { None },
            Token::In(k) => if b == 44u8 && k < u32::MAX { Some(Token::In(k + 1)) } else { None },
            _ => None,
        };
        if let Some(u) = bumped {
            proof {
                lemma_expand_bump(old_ir, u, b);
            }
            ir.set(n - 1, u);
            assert forall|j: int| 0 <= j < ir@.len() - 1 && (#[trigger] run_char(ir@[j])) is Some
                && run_char(ir@[j]) == run_char(ir@[j + 1]) implies token_count(ir@[j]) == u32::MAX by {
                assert(ir@[j] == old_ir[j]);
                assert(run_char(old_ir[j]) == run_char(old_ir[j + 1]));
            }
            return;
        }
    }
    let t = if b == 60u8 {
        Token::Left(1)
    } else if b == 62u8 {
        Token::Right(1)
    } else if b == 43u8 {
        Token::Incr(1)
    } else if b == 45u8 {
        Token::Decr(1)
    } else if b == 46u8 {
        Token::Out(1)
    } else {
        Token::In(1)
    };
    proof {
        lemma_expand_push(old_ir, t);
        assert(token_text(t) == seq![b]);
    }
    ir.push(t);
    assert forall|j: int| 0 <= j < ir@.len() - 1 && (#[trigger] run_char(ir@[j])) is Some
        && run_char(ir@[j]) == run_char(ir@[j + 1]) implies token_count(ir@[j]) == u32::MAX by {
        if j < old_ir.len() - 1 {
            assert(ir@[j] == old_ir[j]);
            assert(ir@[j + 1] == old_ir[j + 1]);
        }
    }
}

/// Lexes a program text into tokens, merging runs of the same command.
pub fn parse(text: &[u8]) -> (res: Result<Vec<Token>, ParseError>)
    ensures
        res is Ok <==> never_closes_unopened(text@) && depth(text@) == 0,
        res == Err::<Vec<Token>, ParseError>(ParseError::UnmatchedLoopEnd) <==> !never_closes_unopened(text@),
        res == Err::<Vec<Token>, ParseError>(ParseError::UnmatchedLoopStart) <==> never_closes_unopened(text@) && depth(text@) != 0,
        res matches Ok(toks) ==> expand(toks@) == commands(text@) && well_merged(toks@),
{
    let mut ir: Vec<Token> = Vec::new();
    let mut loop_depth: usize = 0;
    let mut i: usize = 0;
    assert(text@.take(0) == Seq::<u8>::empty());
    assert(prefix_depth(text@, 0) == 0) by {
        reveal(prefix_depth);
    }
    while i < text.len()
        invariant
            0 <= i <= text@.len(),
            expand(ir@) == commands(text@.take(i as int)),
            well_merged(ir@),
            loop_depth == prefix_depth(text@, i as int),
            loop_depth <= i,
            forall|j: int| 0 <= j <= i ==> #[trigger] prefix_depth(text@, j) >= 0,
        decreases text@.len() - i,
    {
        let b = text[i];
        proof {
            lemma_commands_step(text@, i as int);
        }
        if is_command_byte(b) {
            push_command(&mut ir, b);
        }
        if b == 91u8 {
            loop_depth = loop_depth + 1;
        } else if b == 93u8 {
            if loop_depth > 0 {
                loop_depth = loop_depth - 1;
            } else {
                assert(prefix_depth(text@, i as int + 1) < 0) by {
                    reveal(prefix_depth);
                }
                return Err(ParseError::UnmatchedLoopEnd);
            }
        }
        assert(loop_depth == prefix_depth(text@, i as int + 1)) by {
            reveal(prefix_depth);
        }
        i = i + 1;
    }
    assert(text@.take(text@.len() as int) == text@);
    assert(prefix_depth(text@, text@.len() as int) == depth(text@)) by {
        reveal(prefix_depth);
    }
    if loop_depth != 0 {
        return Err(ParseError::UnmatchedLoopStart);
    }
    Ok(ir)
}

/// How much a token changes the loop nesting depth.
pub open spec fn nesting_delta(t: Token) -> int {
    match t {
        Token::LoopStart => 1,
        Token::LoopEnd => -1,
        _ => 0,
    }
}

/// Scanning from index `i` at nesting depth `d`, the index of the token that
/// brings the depth to zero, or `toks.len()` when no token does.
pub open spec fn loop_close(toks: Seq<Token>, i: int, d: int) -> int
    decreases toks.len() - i,
{
    if !(0 <= i < toks.len()) {
        toks.len() as int
    } else if d + nesting_delta(toks[i]) == 0 {
        i
    } else {
        loop_close(toks, i + 1, d + nesting_delta(toks[i]))
    }
}

/// The index that `loop_close` finds lies between the start of the scan and
/// the end of the tokens.
pub proof fn lemma_loop_close_bounds(toks: Seq<Token>, i: int, d: int)
    requires
        0 <= i <= toks.len(),
    ensures
        i <= loop_close(toks, i, d) <= toks.len(),
    decreases toks.len() - i,
{
    if 0 <= i < toks.len() && d + nesting_delta(toks[i]) != 0 {
        lemma_loop_close_bounds(toks, i + 1, d + nesting_delta(toks[i]));
    }
}

/// Whether a token may change a cell of the tape by itself.
pub open spec fn writes_cell(t: Token) -> bool {
    match t {
        Token::Incr(_) | Token::Decr(_) | Token::In(_) => true,
        _ => false,
    }
}

/// The tokens from index `i` on, where `zero` says whether the whole tape is
/// still known to be zero: while it is, a loop cannot run and is dropped
/// together with its body.
pub open spec fn strip_frontmatter(toks: Seq<Token>, i: int, zero: bool) -> Seq<Token>
    decreases toks.len() + 1 - i,
{
    if !(0 <= i < toks.len()) {
        Seq::empty()
    } else {
        let z = zero && !writes_cell(toks[i]);
        if z && toks[i] == Token::LoopStart {
            let e = loop_close(toks, i + 1, 1);
            proof {
                lemma_loop_close_bounds(toks, i + 1, 1);
            }
            strip_frontmatter(toks, e + 1, z)
        } else {
            seq![toks[i]] + strip_frontmatter(toks, i + 1, z)
        }
    }
}

/// Drops the loops that come before any token that writes a cell: the tape
/// starts all zero, so such a loop never runs.
pub fn remove_frontmatter_tokens(toks: &[Token]) -> (new_toks: Vec<Token>)
    ensures
        new_toks@ == strip_frontmatter(toks@, 0, true),
{
    let mut new_toks: Vec<Token> = Vec::new();
    let mut all_mem_still_zero = true;
    let mut tok_idx: usize = 0;
    let len = toks.len();

    while !(tok_idx >= len)
        invariant
            len == toks@.len(),
            0 <= tok_idx <= len,
            new_toks@ + strip_frontmatter(toks@, tok_idx as int, all_mem_still_zero)
                == strip_frontmatter(toks@, 0, true),
        decreases toks@.len() + 1 - tok_idx,
    {
        let tok = &toks[tok_idx];
        let ghost zero_before = all_mem_still_zero;
        let ghost start = tok_idx as int;

        match tok {
            Token::Incr(_) | Token::Decr(_) | Token::In(_) => {
                all_mem_still_zero = false;
            },
            _ => {},
        }

        assert(all_mem_still_zero == (zero_before && !writes_cell(toks@[start])));
        if matches!(tok, Token::LoopStart) && all_mem_still_zero {
            tok_idx = tok_idx + 1;
            let mut skip_loop_depth: usize = 1;
            while !(tok_idx >= len)
                invariant_except_break
                    len == toks@.len(),
                    0 <= start,
                    start + 1 <= tok_idx <= toks@.len(),
                    1 <= skip_loop_depth <= tok_idx - start,
                    loop_close(toks@, tok_idx as int, skip_loop_depth as int)
                        == loop_close(toks@, start + 1, 1),
                ensures
                    tok_idx == loop_close(toks@, start + 1, 1),
                    start + 1 <= tok_idx <= toks@.len(),
                decreases toks@.len() - tok_idx,
            {
                let t = &toks[tok_idx];
                match t {
                    Token::LoopStart => {
                        skip_loop_depth = skip_loop_depth + 1;
                    },
                    Token::LoopEnd => {
                        skip_loop_depth = skip_loop_depth - 1;
                    },
                    _ => {},
                }
                if skip_loop_depth == 0 {
                    break;
                }
                tok_idx = tok_idx + 1;
            }
            assert(tok_idx == loop_close(toks@, start + 1, 1));
            assert(strip_frontmatter(toks@, start, zero_before)
                == strip_frontmatter(toks@, tok_idx + 1, all_mem_still_zero));
            if tok_idx < len {
                tok_idx = tok_idx + 1;
            }
        } else {
            assert(strip_frontmatter(toks@, start, zero_before)
                == seq![toks@[start]] + strip_frontmatter(toks@, start + 1, all_mem_still_zero));
            let ghost before = new_toks@;
            new_toks.push(tok.clone());
            assert(new_toks@ + strip_frontmatter(toks@, start + 1, all_mem_still_zero)
                == before + strip_frontmatter(toks@, start, zero_before));
            tok_idx = tok_idx + 1;
        }
    }
    assert(strip_frontmatter(toks@, tok_idx as int, all_mem_still_zero) == Seq::<Token>::empty());
    assert(new_toks@ + Seq::<Token>::empty() == new_toks@);
    new_toks
}

/// The nesting depth of a sum of texts is the sum of their depths.
pub proof fn lemma_depth_concat(x: Seq<u8>, y: Seq<u8>)
    ensures
        depth(x + y) == depth(x) + depth(y),
    decreases y.len(),
{
    if y.len() == 0 {
        assert(x + y == x);
    } else {
        lemma_depth_concat(x, y.drop_last());
        assert((x + y).drop_last() == x + y.drop_last());
        assert((x + y).last() == y.last());
    }
}

/// Dropping comments keeps the nesting depth.
pub proof fn lemma_commands_depth(text: Seq<u8>)
    ensures
        depth(commands(text)) == depth(text),
    decreases text.len(),
{
    if text.len() > 0 {
        lemma_commands_depth(text.drop_last());
        let c = commands(text.drop_last());
        if is_command(text.last()) {
            assert(c.push(text.last()).drop_last() == c);
        } else {
            assert(bracket_delta(text.last()) == 0);
        }
    }
}

/// Dropping comments keeps a text from closing loops it did not open.
pub proof fn lemma_commands_never_closes(text: Seq<u8>)
    requires
        never_closes_unopened(text),
    ensures
        never_closes_unopened(commands(text)),
    decreases text.len(),
{
    reveal(prefix_depth);
    if text.len() > 0 {
        let d = text.drop_last();
        assert forall|i: int| 0 <= i <= d.len() implies #[trigger] prefix_depth(d, i) >= 0 by {
            assert(d.take(i) == text.take(i));
            assert(prefix_depth(text, i) >= 0);
        }
        lemma_commands_never_closes(d);
        let c = commands(d);
        let cc = commands(text);
        assert(prefix_depth(text, text.len() as int) >= 0);
        assert(text.take(text.len() as int) == text);
        lemma_commands_depth(text);
        assert forall|i: int| 0 <= i <= cc.len() implies #[trigger] prefix_depth(cc, i) >= 0 by {
            if i <= c.len() {
                assert(cc.take(i) == c.take(i));
                assert(prefix_depth(c, i) >= 0);
            } else {
                assert(cc.take(i) == cc);
            }
        }
    }
}

/// The commands of two texts one after the other are the commands of the
/// first followed by those of the second.
proof fn lemma_commands_concat(a: Seq<u8>, b: Seq<u8>)
    ensures
        commands(a + b) == commands(a) + commands(b),
    decreases b.len(),
{
    if b.len() == 0 {
        assert(a + b == a);
        assert(commands(a) + Seq::<u8>::empty() == commands(a));
    } else {
        lemma_commands_concat(a, b.drop_last());
        assert((a + b).drop_last() == a + b.drop_last());
        assert((a + b).last() == b.last());
        if is_command(b.last()) {
            assert((commands(a) + commands(b.drop_last())).push(b.last()) == commands(a) + commands(
                b.drop_last(),
            ).push(b.last()));
        }
    }
}

proof fn lemma_commands_idempotent(text: Seq<u8>)
    ensures
        commands(commands(text)) == commands(text),
    decreases text.len(),
{
    if text.len() > 0 {
        lemma_commands_idempotent(text.drop_last());
        let c = commands(text.drop_last());
        if is_command(text.last()) {
            assert(c.push(text.last()).drop_last() == c);
            assert(c.push(text.last()).last() == text.last());
        }
    }
}

/// Dropping the comment bytes of a text changes nothing that `parse` looks
/// at: the commands, the nesting depth, and whether some prefix closes a
/// loop it did not open are those of the text. So `parse` gives the same
/// result on a text and on its commands alone: the same error, or tokens
/// that spell out the same commands and are merged alike, which makes them
/// the same tokens (`lemma_tokenization_unique`).
pub proof fn lemma_parse_ignores_comments(text: Seq<u8>)
    ensures
        commands(commands(text)) == commands(text),
        depth(commands(text)) == depth(text),
        never_closes_unopened(commands(text)) == never_closes_unopened(text),
{
    lemma_commands_idempotent(text);
    lemma_commands_depth(text);
    if never_closes_unopened(text) {
        lemma_commands_never_closes(text);
    }
    if never_closes_unopened(commands(text)) {
        let c = commands(text);
        reveal(prefix_depth);
        assert forall|i: int| 0 <= i <= text.len() implies #[trigger] prefix_depth(text, i) >= 0 by {
            let a = text.take(i);
            let b = text.skip(i);
            assert(a + b == text);
            lemma_commands_concat(a, b);
            let j = commands(a).len() as int;
            assert(c.take(j) == commands(a));
            assert(prefix_depth(c, j) >= 0);
            lemma_commands_depth(a);
        }
    }
}

/// The command character that a token starts with.
pub open spec fn first_char(t: Token) -> u8 {
    match t {
        Token::LoopStart => 91u8,
        Token::LoopEnd => 93u8,
        _ => run_char(t).unwrap(),
    }
}

/// The commands of a token sequence are those of its first token followed
/// by those of the rest.
pub proof fn lemma_expand_front(toks: Seq<Token>)
    requires
        toks.len() > 0,
    ensures
        expand(toks) == token_text(toks[0]) + expand(toks.drop_first()),
    decreases toks.len(),
{
    if toks.len() == 1 {
        assert(toks.drop_last() == Seq::<Token>::empty());
        assert(toks.drop_first() == Seq::<Token>::empty());
        assert(expand(Seq::<Token>::empty()) == Seq::<u8>::empty());
        assert(token_text(toks[0]) + Seq::<u8>::empty() == token_text(toks[0]));
    } else {
        lemma_expand_front(toks.drop_last());
        assert(toks.drop_last().drop_first() == toks.drop_first().drop_last());
        assert(toks.drop_first().last() == toks.last());
    }
}

proof fn lemma_token_text(t: Token)
    requires
        token_count(t) >= 1,
    ensures
        token_text(t).len() == token_count(t),
        forall|k: int| 0 <= k < token_count(t) ==> #[trigger] token_text(t)[k] == first_char(t),
        (t is LoopStart || t is LoopEnd) ==> token_count(t) == 1,
{
}

proof fn lemma_well_merged_tail(toks: Seq<Token>)
    requires
        toks.len() > 0,
        well_merged(toks),
    ensures
        well_merged(toks.drop_first()),
{
    let d = toks.drop_first();
    assert forall|i: int| 0 <= i < d.len() implies token_count(#[trigger] d[i]) >= 1 by {
        assert(d[i] == toks[i + 1]);
    }
    assert forall|i: int|
        0 <= i < d.len() - 1 && (#[trigger] run_char(d[i])) is Some && run_char(d[i]) == run_char(
            d[i + 1],
        ) implies token_count(d[i]) == u32::MAX by {
        assert(d[i] == toks[i + 1]);
        assert(d[i + 1] == toks[i + 2]);
        assert(run_char(toks[i + 1]) is Some);
    }
}

/// A text has only one well-merged tokenization: the tokens that `parse`
/// returns are the only ones that meet its contract.
pub proof fn lemma_tokenization_unique(a: Seq<Token>, b: Seq<Token>)
    requires
        well_merged(a),
        well_merged(b),
        expand(a) == expand(b),
    ensures
        a == b,
    decreases a.len(),
{
    if a.len() == 0 || b.len() == 0 {
        if a.len() > 0 {
            lemma_expand_front(a);
            lemma_token_text(a[0]);
            assert(expand(b) == Seq::<u8>::empty());
        } else if b.len() > 0 {
            lemma_expand_front(b);
            lemma_token_text(b[0]);
            assert(expand(a) == Seq::<u8>::empty());
        }
    } else {
        let x = a[0];
        let y = b[0];
        let ra = a.drop_first();
        let rb = b.drop_first();
        lemma_expand_front(a);
        lemma_expand_front(b);
        lemma_token_text(x);
        lemma_token_text(y);
        let e = expand(a);
        assert(e[0] == token_text(x)[0]);
        assert(e[0] == token_text(y)[0]);
        assert(first_char(x) == first_char(y));
        let cx = token_count(x) as int;
        let cy = token_count(y) as int;
        if cx < cy {
            assert(cx < u32::MAX);
            assert(e[cx] == token_text(y)[cx]);
            if ra.len() > 0 {
                lemma_expand_front(ra);
                lemma_token_text(ra[0]);
                assert(e[cx] == expand(ra)[0]);
                assert(a[1] == ra[0]);
                assert(first_char(x) != first_char(ra[0]));
            } else {
                assert(expand(ra) == Seq::<u8>::empty());
                assert(e.len() == cx);
            }
        } else if cy < cx {
            assert(cy < u32::MAX);
            assert(e[cy] == token_text(x)[cy]);
            if rb.len() > 0 {
                lemma_expand_front(rb);
                lemma_token_text(rb[0]);
                assert(e[cy] == expand(rb)[0]);
                assert(b[1] == rb[0]);
                assert(first_char(y) != first_char(rb[0]));
            } else {
                assert(expand(rb) == Seq::<u8>::empty());
                assert(e.len() == cy);
            }
        }
        assert(cx == cy);
        assert(x == y);
        assert(token_text(x) == token_text(y));
        assert(expand(ra) == e.skip(cx));
        assert(expand(rb) == e.skip(cy));
        lemma_well_merged_tail(a);
        lemma_well_merged_tail(b);
        lemma_tokenization_unique(ra, rb);
        assert(a == seq![x] + ra);
        assert(b == seq![y] + rb);
    }
}

/// Every `[` of the tokens comes after a token that writes a cell.
pub open spec fn loops_after_write(toks: Seq<Token>) -> bool {
    forall|k: int|
        0 <= k < toks.len() && #[trigger] toks[k] == Token::LoopStart ==> exists|j: int|
            0 <= j < k && writes_cell(#[trigger] toks[j])
}

proof fn lemma_strip_loops_after_write(toks: Seq<Token>, i: int, zero: bool)
    requires
        0 <= i,
    ensures
        ({
            let r = strip_frontmatter(toks, i, zero);
            forall|k: int|
                0 <= k < r.len() && #[trigger] r[k] == Token::LoopStart ==> !zero || exists|j: int|
                    0 <= j < k && writes_cell(#[trigger] r[j])
        }),
    decreases toks.len() + 1 - i,
{
    if 0 <= i < toks.len() {
        let z = zero && !writes_cell(toks[i]);
        if z && toks[i] == Token::LoopStart {
            lemma_loop_close_bounds(toks, i + 1, 1);
            lemma_strip_loops_after_write(toks, loop_close(toks, i + 1, 1) + 1, z);
        } else {
            lemma_strip_loops_after_write(toks, i + 1, z);
            let rest = strip_frontmatter(toks, i + 1, z);
            let r = strip_frontmatter(toks, i, zero);
            assert(r == seq![toks[i]] + rest);
            assert forall|k: int|
                0 <= k < r.len() && #[trigger] r[k] == Token::LoopStart implies !zero || exists|j: int|
                    0 <= j < k && writes_cell(#[trigger] r[j]) by {
                if k > 0 && zero {
                    assert(r[k] == rest[k - 1]);
                    if writes_cell(toks[i]) {
                        assert(r[0] == toks[i]);
                    } else {
                        let j = choose|j: int| 0 <= j < k - 1 && writes_cell(#[trigger] rest[j]);
                        assert(r[j + 1] == rest[j]);
                    }
                }
            }
        }
    }
}

proof fn lemma_strip_keeps(toks: Seq<Token>, i: int, zero: bool)
    requires
        0 <= i <= toks.len(),
        loops_after_write(toks),
        zero ==> forall|j: int| 0 <= j < i ==> !writes_cell(#[trigger] toks[j]),
    ensures
        strip_frontmatter(toks, i, zero) == toks.skip(i),
    decreases toks.len() - i,
{
    if i < toks.len() {
        let z = zero && !writes_cell(toks[i]);
        if z && toks[i] == Token::LoopStart {
            let j = choose|j: int| 0 <= j < i && writes_cell(#[trigger] toks[j]);
            assert(!writes_cell(toks[j]));
        }
        lemma_strip_keeps(toks, i + 1, z);
        assert(toks.skip(i) == seq![toks[i]] + toks.skip(i + 1));
    } else {
        assert(toks.skip(i) == Seq::<Token>::empty());
    }
}

/// After dropping the loops in front, every remaining loop comes after a
/// token that writes a cell, so dropping them again changes nothing.
pub proof fn lemma_remove_frontmatter_tokens_idempotent(toks: Seq<Token>)
    ensures
        loops_after_write(strip_frontmatter(toks, 0, true)),
        strip_frontmatter(strip_frontmatter(toks, 0, true), 0, true) == strip_frontmatter(toks, 0, true),
{
    lemma_strip_loops_after_write(toks, 0, true);
    let r = strip_frontmatter(toks, 0, true);
    lemma_strip_keeps(r, 0, true);
    assert(r.skip(0) == r);
}

fn is_command_byte(b: u8) -> (r: bool)
    ensures
        r == is_command(b),
{
    b == 60u8 || b == 62u8 || b == 43u8 || b == 45u8 || b == 46u8 || b == 44u8 || b == 91u8
        || b == 93u8
}

} // verus!
