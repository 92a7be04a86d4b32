use bfopt::lower::lower_tokens;
use bfopt::parse::{parse, remove_frontmatter_tokens, Token};

fn lower_text(text: &[u8]) -> Option<String> {
    lower_tokens(&parse(text).unwrap())
}

#[test]
fn lower_straight_line() {
    assert_eq!(
        lower_text(b"+++>>-.<,").unwrap(),
        "c[0] += 3;\nc[2] -= 1;\no[0] = c[2];\nc[1] = getchar();\nprint_now(o, 1);\n"
    );
}

#[test]
fn lower_loop_materializes_offset() {
    assert_eq!(
        lower_text(b">>[-<+>]<.").unwrap(),
        "c = c + 2;\nwhile (*c) {\nc[0] -= 1;\nc[-1] += 1;\n}\no[0] = c[-1];\nprint_now(o, 1);\n"
    );
}

#[test]
fn lower_brackets_flush_and_move() {
    assert_eq!(
        lower_text(b".[>.]").unwrap(),
        "o[0] = c[0];\nprint_now(o, 1);\nwhile (*c) {\no[0] = c[1];\nc = c + 1;\nprint_now(o, 1);\n}\n"
    );
}

#[test]
fn lower_counts() {
    let toks = vec![Token::Incr(300), Token::Decr(256), Token::Out(5), Token::In(3)];
    assert_eq!(
        lower_tokens(&toks).unwrap(),
        "c[0] += 44;\nc[0] -= 0;\no[0] = c[0];\nc[0] = getchar();\nc[0] = getchar();\nc[0] = getchar();\nprint_now(o, 1);\n"
    );
}

#[test]
fn lower_flushes_full_buffer() {
    let toks = vec![Token::Out(1); 33];
    let mut expected = String::new();
    for k in 0..32 {
        expected.push_str(&format!("o[{k}] = c[0];\n"));
    }
    expected.push_str("print_now(o, 32);\no[0] = c[0];\nprint_now(o, 1);\n");
    assert_eq!(lower_tokens(&toks).unwrap(), expected);
}

#[test]
fn lower_truncates_long_moves() {
    // A count above i32::MAX moves the other way, as the cast wraps.
    let toks = vec![Token::Right(3000000000), Token::LoopStart];
    assert_eq!(lower_tokens(&toks).unwrap(), "c = c - 1294967296;\nwhile (*c) {\n");
}

#[test]
fn lower_refuses_token_after_outer_close() {
    assert_eq!(lower_tokens(&[Token::LoopEnd]).unwrap(), "}\n");
    assert_eq!(lower_tokens(&[Token::LoopEnd, Token::Incr(1)]), None);
}

#[test]
fn lower_refuses_offset_overflow() {
    assert_eq!(lower_tokens(&[Token::Right(2147483647)]).unwrap(), "");
    assert_eq!(lower_tokens(&[Token::Right(2147483647), Token::Right(1)]), None);
    assert_eq!(lower_tokens(&[Token::Left(2147483648)]), None);
}

#[test]
fn lower_refuses_min_offset_at_bracket() {
    let toks = vec![Token::Left(2147483647), Token::Left(1)];
    assert_eq!(lower_tokens(&toks).unwrap(), "");
    let toks = vec![Token::Left(2147483647), Token::Left(1), Token::LoopEnd];
    assert_eq!(lower_tokens(&toks), None);
}

#[test]
fn lower_after_frontmatter_removal() {
    let toks = parse(b"[comment]++[->+++<]>.").unwrap();
    let toks = remove_frontmatter_tokens(&toks);
    assert_eq!(
        lower_tokens(&toks).unwrap(),
        "c[0] += 2;\nwhile (*c) {\nc[0] -= 1;\nc[1] += 3;\n}\no[0] = c[1];\nprint_now(o, 1);\n"
    );
}
