use bfopt::opt::{
    construct_ir, opt_mul_loops, opt_remove_frontmatter, write_ir_body_to_c, IrLoop, IrOp,
};
use bfopt::parse::{parse, Token};

fn build(text: &[u8]) -> (Vec<IrOp>, i32, usize) {
    let toks = parse(text).unwrap();
    let mut idx = 0;
    let (ops, head) = construct_ir(&toks, &mut idx);
    assert_eq!(idx, toks.len());
    (ops, head, idx)
}

#[test]
fn construct_ir_offsets() {
    let (ops, head, _) = build(b"+>+<-.,");
    assert_eq!(
        ops,
        vec![
            IrOp::Incr { val: 1, offset: 0 },
            IrOp::Incr { val: 1, offset: 1 },
            IrOp::Incr { val: -1, offset: 0 },
            IrOp::Output { count: 1, offset: 0 },
            IrOp::Input { count: 1, offset: 0 },
        ]
    );
    assert_eq!(head, 0);
}

#[test]
fn construct_ir_loop_moves() {
    let (ops, head, _) = build(b"++>>[-<]>");
    assert_eq!(
        ops,
        vec![
            IrOp::Incr { val: 2, offset: 0 },
            IrOp::Loop(IrLoop {
                move_head_prior: 2,
                move_head_after_iter: -1,
                body: vec![IrOp::Incr { val: -1, offset: 0 }],
            }),
        ]
    );
    assert_eq!(head, 1);
}

#[test]
fn construct_ir_stops_at_stray_loop_end() {
    let toks = vec![Token::Incr(1), Token::LoopEnd, Token::Incr(1)];
    let mut idx = 0;
    let (ops, head) = construct_ir(&toks, &mut idx);
    assert_eq!(ops, vec![IrOp::Incr { val: 1, offset: 0 }]);
    assert_eq!(head, 0);
    assert_eq!(idx, 1);
}

#[test]
fn construct_ir_unclosed_loop_runs_past_end() {
    let toks = vec![Token::Right(1), Token::LoopStart, Token::Incr(1)];
    let mut idx = 0;
    let (ops, head) = construct_ir(&toks, &mut idx);
    assert_eq!(
        ops,
        vec![IrOp::Loop(IrLoop {
            move_head_prior: 1,
            move_head_after_iter: 0,
            body: vec![IrOp::Incr { val: 1, offset: 0 }],
        })]
    );
    assert_eq!(head, 0);
    assert_eq!(idx, 4);
}

#[test]
fn construct_ir_from_inside_a_loop() {
    let toks = parse(b"[>+<-]+").unwrap();
    let mut idx = 1;
    let (ops, head) = construct_ir(&toks, &mut idx);
    assert_eq!(
        ops,
        vec![
            IrOp::Incr { val: 1, offset: 1 },
            IrOp::Incr { val: -1, offset: 0 },
        ]
    );
    assert_eq!(head, 0);
    assert_eq!(idx, 5);
}

#[test]
fn writes_cells_by_itself_kinds() {
    assert!(IrOp::Incr { val: 1, offset: 0 }.writes_cells_by_itself());
    assert!(IrOp::SetCell { val: 0, offset: 0 }.writes_cells_by_itself());
    assert!(IrOp::MulBy { src_offset: 0, mul: 2, dst_offset: 1 }.writes_cells_by_itself());
    assert!(IrOp::Input { count: 1, offset: 0 }.writes_cells_by_itself());
    assert!(!IrOp::Output { count: 1, offset: 0 }.writes_cells_by_itself());
    let lp = IrOp::Loop(IrLoop {
        move_head_prior: 0,
        move_head_after_iter: 0,
        body: vec![IrOp::Incr { val: 1, offset: 0 }],
    });
    assert!(!lp.writes_cells_by_itself());
}

#[test]
fn irop_clone_is_deep() {
    let (ops, _, _) = build(b"+[>[-]<-]");
    let copy: Vec<IrOp> = ops.iter().map(|o| o.clone()).collect();
    assert_eq!(copy, ops);
}

#[test]
fn remove_frontmatter_drops_leading_loops() {
    let (mut ops, _, _) = build(b"[comment].>[x]+[-]");
    opt_remove_frontmatter(&mut ops);
    assert_eq!(
        ops,
        vec![
            IrOp::Output { count: 1, offset: 0 },
            IrOp::Incr { val: 1, offset: 0 },
            IrOp::Loop(IrLoop {
                move_head_prior: 0,
                move_head_after_iter: 0,
                body: vec![IrOp::Incr { val: -1, offset: 0 }],
            }),
        ]
    );
    let again = ops.clone();
    opt_remove_frontmatter(&mut ops);
    assert_eq!(ops, again);
}

#[test]
fn remove_frontmatter_without_writer_drops_every_loop() {
    let (mut ops, _, _) = build(b"[a].[b]");
    opt_remove_frontmatter(&mut ops);
    assert_eq!(ops, vec![IrOp::Output { count: 1, offset: 0 }]);
}

#[test]
fn mul_loop_becomes_multiplications() {
    let (mut ops, _, _) = build(b"+[->++>+++<<]");
    let did = opt_mul_loops(&mut ops);
    assert!(did);
    assert_eq!(
        ops,
        vec![
            IrOp::Incr { val: 1, offset: 0 },
            IrOp::MulBy { src_offset: 0, mul: 2, dst_offset: 1 },
            IrOp::MulBy { src_offset: 0, mul: 3, dst_offset: 2 },
            IrOp::SetCell { val: 0, offset: 0 },
        ]
    );
}

#[test]
fn mul_loop_targets_in_increasing_order() {
    let (mut ops, _, _) = build(b">>[>>>+<<+<<+>>>>>+<+<<<-]");
    let did = opt_mul_loops(&mut ops);
    assert!(did);
    assert_eq!(
        ops,
        vec![
            IrOp::MulBy { src_offset: 2, mul: 1, dst_offset: 1 },
            IrOp::MulBy { src_offset: 2, mul: 1, dst_offset: 3 },
            IrOp::MulBy { src_offset: 2, mul: 2, dst_offset: 5 },
            IrOp::MulBy { src_offset: 2, mul: 1, dst_offset: 6 },
            IrOp::SetCell { val: 0, offset: 2 },
        ]
    );
}

#[test]
fn mul_loop_needs_counter_down_by_one() {
    let (mut ops, _, _) = build(b"[-->+<]");
    let before = ops.clone();
    let did = opt_mul_loops(&mut ops);
    assert!(!did);
    assert_eq!(ops, before);
}

#[test]
fn mul_loop_needs_only_increments() {
    let (mut ops, _, _) = build(b"[->+.<]");
    let before = ops.clone();
    assert!(!opt_mul_loops(&mut ops));
    assert_eq!(ops, before);
}

#[test]
fn mul_loop_inside_other_loop() {
    let (mut ops, _, _) = build(b"+[>[->+<]<-]");
    let did = opt_mul_loops(&mut ops);
    assert!(did);
    assert_eq!(
        ops,
        vec![
            IrOp::Incr { val: 1, offset: 0 },
            IrOp::Loop(IrLoop {
                move_head_prior: 0,
                move_head_after_iter: -1,
                body: vec![
                    IrOp::MulBy { src_offset: 1, mul: 1, dst_offset: 2 },
                    IrOp::SetCell { val: 0, offset: 1 },
                    IrOp::Incr { val: -1, offset: -1 },
                ],
            }),
        ]
    );
    let again = ops.clone();
    assert!(!opt_mul_loops(&mut ops));
    assert_eq!(ops, again);
}

#[test]
fn clear_loop_is_a_reset() {
    let (mut ops, _, _) = build(b"+[-]");
    assert!(opt_mul_loops(&mut ops));
    assert_eq!(
        ops,
        vec![IrOp::Incr { val: 1, offset: 0 }, IrOp::SetCell { val: 0, offset: 0 }]
    );
}

fn c_of(ops: &[IrOp]) -> String {
    let mut c = String::new();
    write_ir_body_to_c(&mut c, ops);
    c
}

#[test]
fn c_for_increments() {
    let ops = vec![
        IrOp::Incr { val: 3, offset: 0 },
        IrOp::Incr { val: -2, offset: -1 },
        IrOp::Incr { val: 0, offset: 4 },
    ];
    assert_eq!(c_of(&ops), "c[0] += 3;\nc[-1] -= 2;\nc[4] -= 0;\n");
}

#[test]
fn c_for_set_mul_and_input() {
    let ops = vec![
        IrOp::SetCell { val: 300, offset: 2 },
        IrOp::MulBy { src_offset: 0, mul: -5, dst_offset: 12 },
        IrOp::Input { count: 2, offset: 1 },
    ];
    assert_eq!(
        c_of(&ops),
        "c[2] = 44;\nc[12] = c[0] * -5;\nc[1] = getchar();\nc[1] = getchar();\n"
    );
}

#[test]
fn c_for_output_flushes_at_end() {
    let ops = vec![
        IrOp::Output { count: 3, offset: 0 },
        IrOp::Output { count: 1, offset: 1 },
    ];
    assert_eq!(c_of(&ops), "o[0] = c[0];\no[1] = c[1];\nprint_now(o, 2);\n");
}

#[test]
fn c_for_output_flushes_full_buffer() {
    let ops: Vec<IrOp> = (0..33).map(|_| IrOp::Output { count: 1, offset: 0 }).collect();
    let c = c_of(&ops);
    let mut expected = String::new();
    for k in 0..32 {
        expected.push_str(&format!("o[{}] = c[0];\n", k));
    }
    expected.push_str("print_now(o, 32);\n");
    expected.push_str("o[0] = c[0];\nprint_now(o, 1);\n");
    assert_eq!(c, expected);
}

#[test]
fn c_for_loop() {
    let ops = vec![
        IrOp::Output { count: 1, offset: 0 },
        IrOp::Loop(IrLoop {
            move_head_prior: 2,
            move_head_after_iter: -1,
            body: vec![
                IrOp::Incr { val: -1, offset: 0 },
                IrOp::Output { count: 1, offset: 0 },
            ],
        }),
        IrOp::Loop(IrLoop {
            move_head_prior: -3,
            move_head_after_iter: 0,
            body: vec![],
        }),
    ];
    assert_eq!(
        c_of(&ops),
        "o[0] = c[0];\nprint_now(o, 1);\nc += 2;\nwhile (*c) {\nc[0] -= 1;\no[0] = c[0];\nprint_now(o, 1);\nc -= 1;\n}\nc -= 3;\nwhile (*c) {\n}\n"
    );
}

#[test]
fn c_appends_to_existing_text() {
    let mut c = String::from("int x;\n");
    write_ir_body_to_c(&mut c, &[IrOp::Incr { val: 2147483647, offset: -2147483648 }]);
    assert_eq!(c, "int x;\nc[-2147483648] += 2147483647;\n");
}

#[test]
fn whole_pipeline_hello() {
    let toks = parse(b"[comment]++[->+++<]>.").unwrap();
    let mut idx = 0;
    let (mut ops, _) = construct_ir(&toks, &mut idx);
    opt_remove_frontmatter(&mut ops);
    opt_mul_loops(&mut ops);
    assert_eq!(
        c_of(&ops),
        "c[0] += 2;\nc[1] = c[0] * 3;\nc[0] = 0;\no[0] = c[1];\nprint_now(o, 1);\n"
    );
}

#[test]
fn construct_ir_from_past_the_end_is_empty() {
    let toks = parse(b"+>").unwrap();
    let mut idx = 7;
    let (ops, head) = construct_ir(&toks, &mut idx);
    assert!(ops.is_empty());
    assert_eq!(head, 0);
    assert_eq!(idx, 7);
}
