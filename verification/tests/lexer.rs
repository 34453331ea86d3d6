use hyperfc::ir::{Block, Instr, IrProgram, Terminator};
use hyperfc::lexer::{classify, next_token, Token};
use hyperfc::opt::{optimize, run_round};

#[test]
fn classify_operators() {
    assert_eq!(classify(b'>'), Some(Token::Right));
    assert_eq!(classify(b'<'), Some(Token::Left));
    assert_eq!(classify(b'+'), Some(Token::Plus));
    assert_eq!(classify(b'-'), Some(Token::Minus));
    assert_eq!(classify(b'.'), Some(Token::Output));
    assert_eq!(classify(b','), Some(Token::Input));
    assert_eq!(classify(b'['), Some(Token::Open));
    assert_eq!(classify(b']'), Some(Token::Close));
}

#[test]
fn classify_comments() {
    for b in [b'a', b' ', b'\n', 0u8, 0xff, b'(', b'!', b'=', b'/', b'\\', b'^'] {
        assert_eq!(classify(b), None);
    }
}

#[test]
fn next_token_skips_comments() {
    let src = b"ab+ c]";
    assert_eq!(next_token(src, 0), (Token::Plus, 2));
    assert_eq!(next_token(src, 2), (Token::Plus, 2));
    assert_eq!(next_token(src, 3), (Token::Close, 5));
    assert_eq!(next_token(src, 6), (Token::End, 6));
}

#[test]
fn next_token_at_end() {
    assert_eq!(next_token(b"", 0), (Token::End, 0));
    assert_eq!(next_token(b"hello", 0), (Token::End, 5));
    assert_eq!(next_token(b"+hello", 1), (Token::End, 6));
}

#[test]
fn well_formedness_is_decidable() {
    let good = IrProgram {
        blocks: vec![
            Block { instrs: vec![], term: Terminator::CondBranch { nonzero: 1, zero: 0 } },
            Block { instrs: vec![], term: Terminator::Return },
        ],
    };
    assert!(good.is_well_formed());
    assert!(!IrProgram { blocks: vec![] }.is_well_formed());
    let far = IrProgram { blocks: vec![Block { instrs: vec![], term: Terminator::Branch { target: 1 } }] };
    assert!(!far.is_well_formed());
    let cond = IrProgram {
        blocks: vec![Block { instrs: vec![], term: Terminator::CondBranch { nonzero: 0, zero: 1 } }],
    };
    assert!(!cond.is_well_formed());
}

#[test]
fn round_limit_can_stop_before_the_fixed_point() {
    let half: i64 = 1 << 62;
    let mv = Instr::MovePointer { offset: half };
    let add = |offset: i64| Instr::AddToCell { offset, amount: 1 };
    let program = |instrs: Vec<Instr>| IrProgram { blocks: vec![Block { instrs, term: Terminator::Return }] };
    let start = program(vec![
        add(5),
        add(half),
        add(5),
        mv,
        mv,
        mv,
        add(i64::MAX),
        Instr::SetCell { offset: i64::MIN, value: 7 },
        Instr::SetCell { offset: i64::MAX, value: 0 },
    ]);
    let one = run_round(start.clone(), 2, None);
    assert_eq!(
        one,
        program(vec![
            add(5),
            add(half),
            add(5),
            mv,
            mv,
            mv,
            Instr::SetCell { offset: i64::MIN, value: 7 },
            Instr::SetCell { offset: i64::MAX, value: 0 },
        ])
    );
    let two = run_round(one, 2, None);
    assert_eq!(
        two,
        program(vec![
            add(5),
            add(half),
            add(5),
            mv,
            mv,
            Instr::SetCell { offset: -half, value: 7 },
            mv,
            Instr::SetCell { offset: i64::MAX, value: 0 },
        ])
    );
    let once = optimize(start, 2, None);
    assert_eq!(
        once,
        program(vec![
            add(5),
            add(5),
            Instr::SetCell { offset: half, value: 7 },
            mv,
            mv,
            mv,
            Instr::SetCell { offset: i64::MAX, value: 0 },
        ])
    );
    let twice = optimize(once.clone(), 2, None);
    assert_eq!(
        twice,
        program(vec![
            Instr::AddToCell { offset: 5, amount: 2 },
            Instr::SetCell { offset: half, value: 7 },
            mv,
            mv,
            mv,
            Instr::SetCell { offset: i64::MAX, value: 0 },
        ])
    );
    let thrice = optimize(twice.clone(), 2, None);
    assert_eq!(thrice, twice);
}
