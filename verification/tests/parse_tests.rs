use bfopt::parse::{parse, remove_frontmatter_tokens, ParseError, Token};

#[test]
fn parse_merges_runs() {
    let toks = parse(b"+++>>--<.,,").unwrap();
    assert_eq!(
        toks,
        vec![
            Token::Incr(3),
            Token::Right(2),
            Token::Decr(2),
            Token::Left(1),
            Token::Out(1),
            Token::In(2),
        ]
    );
}

#[test]
fn parse_skips_comments() {
    let toks = parse(b"add + and - then stop").unwrap();
    assert_eq!(toks, vec![Token::Incr(1), Token::Decr(1)]);
}

#[test]
fn parse_comment_does_not_split_a_run() {
    let toks = parse(b"+ x +\n+").unwrap();
    assert_eq!(toks, vec![Token::Incr(3)]);
}

#[test]
fn parse_keeps_brackets_apart() {
    let toks = parse(b"[[->+<]]").unwrap();
    assert_eq!(
        toks,
        vec![
            Token::LoopStart,
            Token::LoopStart,
            Token::Decr(1),
            Token::Right(1),
            Token::Incr(1),
            Token::Left(1),
            Token::LoopEnd,
            Token::LoopEnd,
        ]
    );
}

#[test]
fn parse_empty_text() {
    assert_eq!(parse(b"no commands here").unwrap(), vec![]);
    assert_eq!(parse(b"").unwrap(), vec![]);
}

#[test]
fn parse_unmatched_loop_end() {
    assert_eq!(parse(b"]"), Err(ParseError::UnmatchedLoopEnd));
    assert_eq!(parse(b"[]]["), Err(ParseError::UnmatchedLoopEnd));
}

#[test]
fn parse_unmatched_loop_start() {
    assert_eq!(parse(b"["), Err(ParseError::UnmatchedLoopStart));
    assert_eq!(parse(b"[[+]"), Err(ParseError::UnmatchedLoopStart));
}

#[test]
fn token_clone_is_equal() {
    let t = Token::Out(7);
    assert_eq!(t.clone(), Token::Out(7));
}

#[test]
fn frontmatter_comment_loop_removed() {
    let toks = parse(b"[this is a comment.]+[-]").unwrap();
    let out = remove_frontmatter_tokens(&toks);
    assert_eq!(
        out,
        vec![Token::Incr(1), Token::LoopStart, Token::Decr(1), Token::LoopEnd]
    );
}

#[test]
fn frontmatter_nested_loops_removed() {
    let toks = parse(b"[[.]>[,]]>.").unwrap();
    let out = remove_frontmatter_tokens(&toks);
    assert_eq!(out, vec![Token::Right(1), Token::Out(1)]);
}

#[test]
fn frontmatter_moves_and_output_do_not_write() {
    let toks = parse(b">.[-]<").unwrap();
    let out = remove_frontmatter_tokens(&toks);
    assert_eq!(out, vec![Token::Right(1), Token::Out(1), Token::Left(1)]);
}

#[test]
fn frontmatter_input_writes() {
    let toks = parse(b",[.,]").unwrap();
    let out = remove_frontmatter_tokens(&toks);
    assert_eq!(out, toks);
}

#[test]
fn frontmatter_unclosed_loop_skips_to_end() {
    let toks = vec![Token::LoopStart, Token::Incr(1), Token::Out(1)];
    assert_eq!(remove_frontmatter_tokens(&toks), vec![]);
}

#[test]
fn frontmatter_removal_is_idempotent() {
    let toks = parse(b"[a][b]>-[c]+[d]").unwrap();
    let once = remove_frontmatter_tokens(&toks);
    let twice = remove_frontmatter_tokens(&once);
    assert_eq!(once, twice);
    assert_eq!(
        once,
        vec![
            Token::Right(1),
            Token::Decr(1),
            Token::LoopStart,
            Token::LoopEnd,
            Token::Incr(1),
            Token::LoopStart,
            Token::LoopEnd,
        ]
    );
}

#[test]
fn parse_error_messages() {
    assert_eq!(ParseError::UnmatchedLoopEnd.message(), "unmatched loop end");
    assert_eq!(ParseError::UnmatchedLoopStart.message(), "unmatched loop start");
}

#[test]
fn parse_ignores_comment_bytes() {
    assert_eq!(parse(b"+ a\n+"), Ok(vec![Token::Incr(2)]));
    assert_eq!(parse(b"x[y-z]w."), parse(b"[-]."));
    assert_eq!(parse(b"no ] here ["), parse(b"]["));
}
