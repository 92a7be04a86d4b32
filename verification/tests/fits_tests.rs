use bfopt::fits::{check_c_fits, check_frame_fits, check_mul_opt_fits};
use bfopt::opt::{IrLoop, IrOp};
use bfopt::parse::{parse, Token};

fn lp(prior: i32, after: i32, body: Vec<IrOp>) -> IrOp {
    IrOp::Loop(IrLoop { move_head_prior: prior, move_head_after_iter: after, body })
}

#[test]
fn frame_fits_of_parsed_program() {
    assert!(check_frame_fits(&parse(b"++[->+<]>.").unwrap()));
    assert!(check_frame_fits(&[]));
}

#[test]
fn frame_fits_refuses_head_overflow() {
    assert!(check_frame_fits(&[Token::Right(2147483647)]));
    assert!(!check_frame_fits(&[Token::Right(2147483647), Token::Right(1)]));
    assert!(check_frame_fits(&[Token::Left(2147483647), Token::Left(1)]));
    assert!(!check_frame_fits(&[Token::Left(2147483647), Token::Left(2)]));
}

#[test]
fn frame_fits_looks_inside_loops() {
    let toks = vec![Token::LoopStart, Token::Right(2147483647), Token::Right(1), Token::LoopEnd];
    assert!(!check_frame_fits(&toks));
    // The head offset starts again from zero after a loop.
    let toks = vec![
        Token::Right(2147483647),
        Token::LoopStart,
        Token::LoopEnd,
        Token::Right(2147483647),
    ];
    assert!(check_frame_fits(&toks));
}

#[test]
fn frame_fits_refuses_long_minus_run() {
    assert!(!check_frame_fits(&[Token::Decr(2147483648)]));
    assert!(check_frame_fits(&[Token::Decr(2147483647)]));
}

#[test]
fn mul_opt_fits_refuses_total_overflow() {
    let ok = vec![lp(0, 0, vec![IrOp::Incr { val: 2147483647, offset: 1 }])];
    assert!(check_mul_opt_fits(&ok));
    let bad = vec![lp(
        0,
        0,
        vec![IrOp::Incr { val: 2147483647, offset: 1 }, IrOp::Incr { val: 1, offset: 1 }],
    )];
    assert!(!check_mul_opt_fits(&bad));
}

#[test]
fn mul_opt_fits_ignores_totals_after_other_operations() {
    let body = vec![
        IrOp::Output { count: 1, offset: 0 },
        IrOp::Incr { val: 2147483647, offset: 1 },
        IrOp::Incr { val: 1, offset: 1 },
    ];
    assert!(check_mul_opt_fits(&[lp(0, 0, body)]));
}

#[test]
fn mul_opt_fits_refuses_target_overflow() {
    let body = vec![IrOp::Incr { val: -1, offset: 0 }, IrOp::Incr { val: 1, offset: 1 }];
    assert!(check_mul_opt_fits(&[lp(2147483646, 0, body.clone())]));
    assert!(!check_mul_opt_fits(&[lp(2147483647, 0, body.clone())]));
    // Not a multiplication loop: the targets are not computed.
    let body = vec![IrOp::Incr { val: -2, offset: 0 }, IrOp::Incr { val: 1, offset: 1 }];
    assert!(check_mul_opt_fits(&[lp(2147483647, 0, body)]));
}

#[test]
fn mul_opt_fits_looks_inside_loops() {
    let inner = lp(
        0,
        0,
        vec![IrOp::Incr { val: 2147483647, offset: 1 }, IrOp::Incr { val: 1, offset: 1 }],
    );
    let outer = lp(0, 0, vec![IrOp::Output { count: 1, offset: 0 }, inner]);
    assert!(!check_mul_opt_fits(&[outer]));
}

#[test]
fn c_fits_refuses_min_values() {
    assert!(check_c_fits(&[IrOp::Incr { val: -2147483647, offset: 0 }]));
    assert!(!check_c_fits(&[IrOp::Incr { val: -2147483647 - 1, offset: 0 }]));
    assert!(!check_c_fits(&[lp(-2147483647 - 1, 0, vec![])]));
    assert!(!check_c_fits(&[lp(0, -2147483647 - 1, vec![])]));
    assert!(!check_c_fits(&[lp(0, 0, vec![IrOp::Incr { val: -2147483647 - 1, offset: 0 }])]));
    assert!(check_c_fits(&[IrOp::SetCell { val: -2147483647 - 1, offset: 0 }]));
}
