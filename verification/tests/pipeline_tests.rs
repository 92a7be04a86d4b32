use bfopt::anal::{convert_rec, Ir};
use bfopt::opt::{construct_ir, IrLoop, IrOp};
use bfopt::parse::{parse, Token};
use bfopt::pipeline::{check_tokens_in_range, compile_tokens};

#[test]
fn small_program_is_in_range() {
    let toks = parse(b"[comment]++[->+++<]>.").unwrap();
    assert!(check_tokens_in_range(&toks));
    assert!(check_tokens_in_range(&[]));
}

#[test]
fn large_head_movement_is_out_of_range() {
    // Four times the total movement must stay within i32::MAX.
    let edge = vec![Token::Right(536870911)];
    assert!(check_tokens_in_range(&edge));
    let over = vec![Token::Right(536870911), Token::Left(1)];
    assert!(!check_tokens_in_range(&over));
}

#[test]
fn large_increment_is_out_of_range() {
    let edge = vec![Token::Incr(2147483647)];
    assert!(check_tokens_in_range(&edge));
    let over = vec![Token::Incr(2147483647), Token::Decr(1)];
    assert!(!check_tokens_in_range(&over));
}

#[test]
fn compile_tokens_builds_optimizes_and_prints() {
    let toks = parse(b"[comment]++[->+++<]>.").unwrap();
    let (root, c) = compile_tokens(&toks).unwrap();
    let mut idx = 0;
    let (expected_root, _) = construct_ir(&toks, &mut idx);
    assert_eq!(root, expected_root);
    assert_eq!(
        root[0],
        IrOp::Loop(IrLoop { move_head_prior: 0, move_head_after_iter: 0, body: vec![] })
    );
    assert_eq!(
        c,
        "c[0] += 2;\nc[1] = c[0] * 3;\nc[0] = 0;\no[0] = c[1];\nprint_now(o, 1);\n"
    );
}

#[test]
fn compile_tokens_of_nothing() {
    let (root, c) = compile_tokens(&[]).unwrap();
    assert!(root.is_empty());
    assert_eq!(c, "");
}

#[test]
fn in_range_tokens_convert_for_analysis() {
    let toks = parse(b">+[<-]").unwrap();
    assert!(check_tokens_in_range(&toks));
    let mut idx = 0;
    let (irs, off) = convert_rec(&toks, &mut idx);
    // The frame steps one token past the `]` that ends the loop.
    assert_eq!(idx, toks.len() + 1);
    assert_eq!(off, 1);
    assert_eq!(
        irs,
        vec![
            Ir::Shift { amount: 1 },
            Ir::Add { val: 1 },
            Ir::Loop { body: vec![Ir::Shift { amount: -1 }, Ir::Add { val: 255 }] },
        ]
    );
}

#[test]
fn compile_tokens_refuses_out_of_range() {
    // A `-` run of 2^31 does not negate as an `i32`.
    assert!(compile_tokens(&[Token::Decr(2147483648)]).is_none());
    // The head offset would leave the `i32` range.
    assert!(compile_tokens(&[Token::Right(2147483647), Token::Right(1), Token::Incr(1)]).is_none());
    // An increment of `i32::MIN` cannot be printed.
    assert!(compile_tokens(&[Token::Incr(1), Token::Decr(2147483647), Token::Decr(1)]).is_some());
    assert!(compile_tokens(&[Token::Incr(2147483648)]).is_none());
}

#[test]
fn compile_tokens_accepts_more_than_the_range_check() {
    // Large moves that cancel out: every offset stays in range.
    let toks = vec![Token::Right(1000000000), Token::Left(1000000000), Token::Incr(1)];
    assert!(!check_tokens_in_range(&toks));
    let (_, c) = compile_tokens(&toks).unwrap();
    assert_eq!(c, "c[0] += 1;\n");
}
