use bfopt::anal::{check_conv_fits, convert_rec, track_cells, CellPred, CellPreds, Ir};
use bfopt::parse::{parse, Token};

#[test]
fn convert_counts_and_shifts() {
    let toks = parse(b"++<<<>.,,").unwrap();
    let mut idx = 0;
    let (ir, offset) = convert_rec(&toks, &mut idx);
    assert_eq!(
        ir,
        vec![
            Ir::Add { val: 2 },
            Ir::Shift { amount: -3 },
            Ir::Shift { amount: 1 },
            Ir::Out {},
            Ir::In {},
            Ir::In {},
        ]
    );
    assert_eq!(offset, -2);
    assert_eq!(idx, toks.len());
}

#[test]
fn convert_subtraction_wraps() {
    let toks = vec![Token::Decr(3), Token::Decr(256), Token::Incr(300)];
    let mut idx = 0;
    let (ir, _) = convert_rec(&toks, &mut idx);
    assert_eq!(ir, vec![Ir::Add { val: 253 }, Ir::Add { val: 0 }, Ir::Add { val: 44 }]);
}

#[test]
fn convert_loop_end_returns_after_itself() {
    let toks = vec![Token::Right(2), Token::LoopEnd, Token::Incr(1)];
    let mut idx = 0;
    let (ir, offset) = convert_rec(&toks, &mut idx);
    assert_eq!(ir, vec![Ir::Shift { amount: 2 }]);
    assert_eq!(offset, 2);
    assert_eq!(idx, 2);
}

#[test]
fn convert_skips_token_after_loop() {
    // The frame goes on one token past where the nested frame returned,
    // so the `+` right after the loop is passed over.
    let toks = parse(b"[-]+>").unwrap();
    let mut idx = 0;
    let (ir, offset) = convert_rec(&toks, &mut idx);
    assert_eq!(
        ir,
        vec![Ir::Loop { body: vec![Ir::Add { val: 255 }] }, Ir::Shift { amount: 1 }]
    );
    assert_eq!(offset, 1);
    assert_eq!(idx, 5);
}

#[test]
fn convert_nested_loops() {
    let toks = parse(b"[>[<]]").unwrap();
    let mut idx = 0;
    let (ir, _) = convert_rec(&toks, &mut idx);
    assert_eq!(
        ir,
        vec![Ir::Loop {
            body: vec![Ir::Shift { amount: 1 }, Ir::Loop { body: vec![Ir::Shift { amount: -1 }] }]
        }]
    );
}

#[test]
fn cell_pred_zero_is_known_zero() {
    assert_eq!(CellPred::zero().known_val, Some(0));
}

#[test]
fn cell_preds_new_is_empty() {
    let preds = CellPreds::new();
    assert_eq!(format!("{:?}", preds), "CellPreds { cells: {} }");
}

#[test]
fn ir_clone_is_deep() {
    let toks = parse(b"+[>,[-]<.]").unwrap();
    let mut idx = 0;
    let (ir, _) = convert_rec(&toks, &mut idx);
    let copy = ir.clone();
    assert_eq!(copy, ir);
}

#[test]
fn track_cells_wraps_additions() {
    // `+++++-`: the `-` is an addition of 255, which wraps.
    let ir = vec![Ir::Add { val: 5 }, Ir::Add { val: 255 }];
    let (head, cells) = track_cells(&ir);
    assert_eq!(head, 0);
    assert_eq!(cells.get(&0).unwrap().known_val, Some(4));
}

#[test]
fn track_cells_moves_and_forgets() {
    let ir = vec![
        Ir::Add { val: 3 },
        Ir::Shift { amount: 2 },
        Ir::Add { val: 1 },
        Ir::In {},
        Ir::Shift { amount: -1 },
        Ir::Out {},
        Ir::Loop { body: vec![Ir::Add { val: 9 }] },
    ];
    let (head, cells) = track_cells(&ir);
    assert_eq!(head, 1);
    assert_eq!(cells.get(&0).unwrap().known_val, Some(3));
    assert_eq!(cells.get(&2).unwrap().known_val, None);
    assert!(cells.get(&1).is_none());
    assert_eq!(cells.len(), 2);
}

#[test]
fn convert_from_past_the_end_is_empty() {
    let toks = parse(b"+>").unwrap();
    let mut idx = 5;
    let (ir, offset) = convert_rec(&toks, &mut idx);
    assert!(ir.is_empty());
    assert_eq!(offset, 0);
    assert_eq!(idx, 5);
}

#[test]
fn conv_fits_checks_offsets() {
    assert!(check_conv_fits(&parse(b"+[>-]<").unwrap()));
    assert!(check_conv_fits(&[Token::Right(4294967295)]));
    let far: Vec<Token> = vec![Token::Right(4294967295); 2147483648 / 1024];
    assert!(check_conv_fits(&far));
    assert!(check_conv_fits(&[]));
}
