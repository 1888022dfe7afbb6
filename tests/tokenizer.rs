use bfjit::tokenizer::{optimize, tokenizer, Token, TokenizerErrorKind};

#[test]
fn test_compile() {
    assert_eq!(
        tokenizer("+[,.]").unwrap(),
        vec![
            Token::IncrementData(1),
            Token::LoopStart(4),
            Token::Input,
            Token::Output,
            Token::LoopEnd(1),
        ]
    );

    assert_eq!(
        tokenizer("[arst]+[,.  \r\n        +]").unwrap(),
        vec![
            Token::LoopStart(1),
            Token::LoopEnd(0),
            Token::IncrementData(1),
            Token::LoopStart(7),
            Token::Input,
            Token::Output,
            Token::IncrementData(1),
            Token::LoopEnd(3),
        ]
    );

    match tokenizer("]").unwrap_err().kind {
        TokenizerErrorKind::UncloseLeftBracket => {}
        _ => panic!(),
    }

    match tokenizer("[").unwrap_err().kind {
        TokenizerErrorKind::UncloseRightBracket => {}
        _ => panic!(),
    }

    let mut token = tokenizer("[++++++]").unwrap();
    optimize(&mut token);
    assert_eq!(
        token,
        vec![
            Token::LoopStart(2),
            Token::IncrementData(6),
            Token::LoopEnd(0),
        ]
    )
}

#[test]
fn unmatched_close_reports_its_position() {
    let e = tokenizer("+\n ]").unwrap_err();
    assert_eq!(e.kind, TokenizerErrorKind::UncloseLeftBracket);
    assert_eq!((e.line, e.col), (2, 2));
}

#[test]
fn first_unmatched_close_is_reported() {
    let e = tokenizer("[]]\n]").unwrap_err();
    assert_eq!(e.kind, TokenizerErrorKind::UncloseLeftBracket);
    assert_eq!((e.line, e.col), (1, 3));
}

#[test]
fn oldest_unmatched_open_is_reported() {
    let e = tokenizer("[[]\n[").unwrap_err();
    assert_eq!(e.kind, TokenizerErrorKind::UncloseRightBracket);
    assert_eq!((e.line, e.col), (1, 1));

    let e = tokenizer("[]\n  [[]").unwrap_err();
    assert_eq!(e.kind, TokenizerErrorKind::UncloseRightBracket);
    assert_eq!((e.line, e.col), (2, 3));
}

#[test]
fn comments_are_skipped() {
    assert_eq!(
        tokenizer("a+ b\n-c>d<e").unwrap(),
        vec![
            Token::IncrementData(1),
            Token::DecrementData(1),
            Token::IncrementPointer(1),
            Token::DecrementPointer(1),
        ]
    );
    assert_eq!(tokenizer("no instructions here").unwrap(), vec![]);
    assert_eq!(tokenizer("").unwrap(), vec![]);
}

#[test]
fn nested_loops_target_their_partners() {
    assert_eq!(
        tokenizer("[[+]>]").unwrap(),
        vec![
            Token::LoopStart(5),
            Token::LoopStart(3),
            Token::IncrementData(1),
            Token::LoopEnd(1),
            Token::IncrementPointer(1),
            Token::LoopEnd(0),
        ]
    );
}

#[test]
fn optimize_folds_each_counted_run() {
    let mut t = tokenizer("+++-->><<<,.,").unwrap();
    optimize(&mut t);
    assert_eq!(
        t,
        vec![
            Token::IncrementData(3),
            Token::DecrementData(2),
            Token::IncrementPointer(2),
            Token::DecrementPointer(3),
            Token::Input,
            Token::Output,
            Token::Input,
        ]
    );
}

#[test]
fn optimize_rederives_loop_targets() {
    let mut t = tokenizer("++[-->>]<<[[-]+]").unwrap();
    optimize(&mut t);
    assert_eq!(
        t,
        vec![
            Token::IncrementData(2),
            Token::LoopStart(4),
            Token::DecrementData(2),
            Token::IncrementPointer(2),
            Token::LoopEnd(1),
            Token::DecrementPointer(2),
            Token::LoopStart(11),
            Token::LoopStart(9),
            Token::DecrementData(1),
            Token::LoopEnd(7),
            Token::IncrementData(1),
            Token::LoopEnd(6),
        ]
    );
}

#[test]
fn optimize_wraps_data_counts() {
    let src = "+".repeat(256 + 7);
    let mut t = tokenizer(&src).unwrap();
    optimize(&mut t);
    assert_eq!(t, vec![Token::IncrementData(7)]);
}

#[test]
fn optimize_does_not_merge_across_loops() {
    let mut t = tokenizer("+[]+").unwrap();
    optimize(&mut t);
    assert_eq!(
        t,
        vec![
            Token::IncrementData(1),
            Token::LoopStart(2),
            Token::LoopEnd(1),
            Token::IncrementData(1),
        ]
    );
}

#[test]
fn optimize_keeps_empty_program_empty() {
    let mut t: Vec<Token> = vec![];
    optimize(&mut t);
    assert!(t.is_empty());
}

#[test]
fn error_kinds_have_messages() {
    assert_eq!(TokenizerErrorKind::UncloseLeftBracket.message(), "Unclose left bracket");
    assert_eq!(TokenizerErrorKind::UncloseRightBracket.message(), "Unclose right bracket");
}
