use hyperfc::builder::{count_blocks, lower, try_lower};
use hyperfc::compile::compile;
use hyperfc::interp::interpret;
use hyperfc::ir::{Block, Instr, IrProgram, Terminator};
use hyperfc::opt::selection::parse_pass_list;
use hyperfc::opt::{copy_program, optimize, run_pass, run_round, same_program, Pass, PassSet, MAX_ROUNDS};
use hyperfc::parser::parse;
use hyperfc::render::render_ir;

const HELLO: &str = "++++++++[>++++[>++>+++>+++>+<<<<-]>+>+>->>+[<]<-]>>.>---.+++++++..+++.>>.<-.<.+++.------.--------.>>+.>++.";

fn single_block(instrs: Vec<Instr>) -> IrProgram {
    IrProgram { blocks: vec![Block { instrs, term: Terminator::Return }] }
}

fn add(offset: i64, amount: i8) -> Instr {
    Instr::AddToCell { offset, amount }
}

fn set(offset: i64, value: i8) -> Instr {
    Instr::SetCell { offset, value }
}

fn only(pass: Pass) -> Option<PassSet> {
    Some(PassSet::empty().with(pass))
}

#[test]
fn lower_straight_line() {
    let ast = parse("+>,.").unwrap();
    let ir = lower(&ast);
    assert_eq!(
        ir,
        single_block(vec![
            add(0, 1),
            Instr::MovePointer { offset: 1 },
            Instr::Input { offset: 0 },
            Instr::Output { offset: 0 },
        ])
    );
}

#[test]
fn lower_loop_shape() {
    let ast = parse("+[-].").unwrap();
    assert_eq!(count_blocks(&ast), Some(3));
    let ir = lower(&ast);
    assert_eq!(
        ir,
        IrProgram {
            blocks: vec![
                Block { instrs: vec![add(0, 1)], term: Terminator::Branch { target: 1 } },
                Block { instrs: vec![], term: Terminator::CondBranch { nonzero: 2, zero: 3 } },
                Block { instrs: vec![add(0, -1)], term: Terminator::Branch { target: 1 } },
                Block { instrs: vec![Instr::Output { offset: 0 }], term: Terminator::Return },
            ],
        }
    );
    assert_eq!(try_lower(&ast), Some(ir));
}

#[test]
fn lower_nested_loops() {
    let ast = parse("[>[-]<]").unwrap();
    let ir = lower(&ast);
    assert_eq!(
        ir,
        IrProgram {
            blocks: vec![
                Block { instrs: vec![], term: Terminator::Branch { target: 1 } },
                Block { instrs: vec![], term: Terminator::CondBranch { nonzero: 2, zero: 3 } },
                Block { instrs: vec![Instr::MovePointer { offset: 1 }], term: Terminator::Branch { target: 4 } },
                Block { instrs: vec![], term: Terminator::Return },
                Block { instrs: vec![], term: Terminator::CondBranch { nonzero: 5, zero: 6 } },
                Block { instrs: vec![add(0, -1)], term: Terminator::Branch { target: 4 } },
                Block { instrs: vec![Instr::MovePointer { offset: -1 }], term: Terminator::Branch { target: 1 } },
            ],
        }
    );
}

#[test]
fn render_unoptimized_loop() {
    let ir = compile("+[-].", 0, None).unwrap();
    assert_eq!(
        render_ir(&ir),
        "block 0:\n  add 0, 1\n  br 1\nblock 1:\n  brnz 2, 3\nblock 2:\n  add 0, -1\n  br 1\nblock 3:\n  out 0\n  ret\n"
    );
}

#[test]
fn render_every_instruction() {
    let ir = single_block(vec![
        add(-3, -128),
        Instr::MovePointer { offset: 1234567890123 },
        set(0, 127),
        Instr::Output { offset: 10 },
        Instr::Input { offset: -10 },
        Instr::MultiplyAddCell { src_offset: 0, dst_offset: i64::MIN, factor: -1 },
    ]);
    assert_eq!(
        render_ir(&ir),
        "block 0:\n  add -3, -128\n  move 1234567890123\n  set 0, 127\n  out 10\n  in -10\n  muladd 0, -9223372036854775808, -1\n  ret\n"
    );
}

#[test]
fn render_does_not_change_the_program() {
    let ir = compile(HELLO, 2, None).unwrap();
    let before = copy_program(&ir);
    let first = render_ir(&ir);
    let second = render_ir(&ir);
    assert_eq!(first, second);
    assert_eq!(ir, before);
}

#[test]
fn level_zero_changes_nothing() {
    let ir = lower(&parse(HELLO).unwrap());
    let out = optimize(ir.clone(), 0, None);
    assert_eq!(out, ir);
    let out = optimize(ir.clone(), 0, Some(PassSet::all()));
    assert_eq!(out, ir);
}

#[test]
fn coalescing_folds_moves_into_offsets() {
    let ir = lower(&parse(">+>.<<-").unwrap());
    let out = run_pass(ir, Pass::OffsetCoalescing);
    assert_eq!(
        out,
        single_block(vec![
            add(1, 1),
            Instr::MovePointer { offset: 2 },
            Instr::Output { offset: 0 },
            add(-2, -1),
            Instr::MovePointer { offset: -2 },
        ])
    );
}

#[test]
fn coalescing_drops_moves_that_cancel() {
    let out = run_pass(lower(&parse("><>><<").unwrap()), Pass::OffsetCoalescing);
    assert_eq!(out, single_block(vec![]));
}

#[test]
fn coalescing_moves_before_input() {
    let out = run_pass(lower(&parse(">,").unwrap()), Pass::OffsetCoalescing);
    assert_eq!(out, single_block(vec![Instr::MovePointer { offset: 1 }, Instr::Input { offset: 0 }]));
}

#[test]
fn coalescing_keeps_offsets_in_range() {
    let ir = single_block(vec![
        Instr::MovePointer { offset: i64::MAX },
        Instr::MovePointer { offset: 1 },
        add(i64::MAX, 1),
        set(-1, 2),
    ]);
    let out = run_pass(ir, Pass::OffsetCoalescing);
    assert_eq!(
        out,
        single_block(vec![
            Instr::MovePointer { offset: i64::MAX },
            Instr::MovePointer { offset: 1 },
            add(i64::MAX, 1),
            set(-1, 2),
        ])
    );
}

#[test]
fn coalescing_shifts_multiply_add() {
    let ir = single_block(vec![
        Instr::MovePointer { offset: 3 },
        Instr::MultiplyAddCell { src_offset: 0, dst_offset: 2, factor: 4 },
    ]);
    let out = run_pass(ir, Pass::OffsetCoalescing);
    assert_eq!(
        out,
        single_block(vec![
            Instr::MultiplyAddCell { src_offset: 3, dst_offset: 5, factor: 4 },
            Instr::MovePointer { offset: 3 },
        ])
    );
}

#[test]
fn folding_merges_neighbours() {
    let ir = single_block(vec![add(0, 1), add(0, 1), add(0, 1), add(1, 2), add(0, 1), set(2, 5), add(2, 3), add(2, -1)]);
    let out = run_pass(ir, Pass::DeltaFolding);
    assert_eq!(out, single_block(vec![add(0, 3), add(1, 2), add(0, 1), set(2, 7)]));
}

#[test]
fn folding_wraps() {
    let out = run_pass(single_block(vec![add(0, 127), add(0, 1)]), Pass::DeltaFolding);
    assert_eq!(out, single_block(vec![add(0, -128)]));
    let out = run_pass(single_block(vec![set(0, -128), add(0, -1)]), Pass::DeltaFolding);
    assert_eq!(out, single_block(vec![set(0, 127)]));
}

#[test]
fn folding_leaves_add_then_set() {
    let ir = single_block(vec![add(0, 1), set(0, 4)]);
    let out = run_pass(ir.clone(), Pass::DeltaFolding);
    assert_eq!(out, ir);
}

#[test]
fn dead_stores_are_dropped() {
    let ir = single_block(vec![add(1, 5), add(0, 1), set(1, 0), Instr::Output { offset: 0 }, set(3, 1), set(3, 2)]);
    let out = run_pass(ir, Pass::DeadStore);
    assert_eq!(out, single_block(vec![add(0, 1), set(1, 0), Instr::Output { offset: 0 }, set(3, 2)]));
}

#[test]
fn touching_the_cell_keeps_stores_alive() {
    let keep = vec![
        vec![add(1, 5), Instr::Output { offset: 1 }, set(1, 0)],
        vec![add(1, 5), Instr::Output { offset: 30_001 }, set(1, 0)],
        vec![add(1, 5), Instr::Output { offset: -29_999 }, set(1, 0)],
        vec![set(1, 5), Instr::Input { offset: 1 }, set(1, 0)],
        vec![add(1, 5), Instr::MovePointer { offset: 0 }, set(1, 0)],
        vec![add(1, 5), Instr::MultiplyAddCell { src_offset: 1, dst_offset: 2, factor: 1 }, set(1, 0)],
        vec![add(1, 5), Instr::MultiplyAddCell { src_offset: 2, dst_offset: 1, factor: 1 }, set(1, 0)],
        vec![add(1, 5), set(2, 0)],
        vec![add(1, 5), set(30_001, 0)],
    ];
    for instrs in keep {
        let ir = single_block(instrs);
        let out = run_pass(ir.clone(), Pass::DeadStore);
        assert_eq!(out, ir);
    }
}

#[test]
fn other_cells_do_not_keep_stores_alive() {
    let out = run_pass(single_block(vec![add(1, 5), Instr::Output { offset: 0 }, set(1, 0)]), Pass::DeadStore);
    assert_eq!(out, single_block(vec![Instr::Output { offset: 0 }, set(1, 0)]));
    let out = run_pass(single_block(vec![set(1, 5), Instr::Input { offset: 2 }, set(1, 0)]), Pass::DeadStore);
    assert_eq!(out, single_block(vec![Instr::Input { offset: 2 }, set(1, 0)]));
    let out = run_pass(
        single_block(vec![
            add(1, 5),
            Instr::MultiplyAddCell { src_offset: 0, dst_offset: 2, factor: 3 },
            add(1, 1),
            set(1, 0),
        ]),
        Pass::DeadStore,
    );
    assert_eq!(
        out,
        single_block(vec![Instr::MultiplyAddCell { src_offset: 0, dst_offset: 2, factor: 3 }, set(1, 0)])
    );
}

#[test]
fn clear_loop_is_recognised() {
    let ir = compile("+++[-].", 1, None).unwrap();
    assert_eq!(
        render_ir(&ir),
        "block 0:\n  add 0, 3\n  br 1\nblock 1:\n  set 0, 0\n  br 3\nblock 2:\n  add 0, -1\n  br 1\nblock 3:\n  out 0\n  ret\n"
    );
    let up = compile("[+]", 1, None).unwrap();
    assert_eq!(up.blocks[1], Block { instrs: vec![set(0, 0)], term: Terminator::Branch { target: 3 } });
}

#[test]
fn clear_loop_needs_a_single_step() {
    for src in ["[--]", "[>]", "[-+]", "[+>]", "[.]", "[]"] {
        let ir = lower(&parse(src).unwrap());
        let out = run_pass(ir.clone(), Pass::ClearLoop);
        assert_eq!(out, ir, "{}", src);
    }
    let folded = compile("[--]", 2, None).unwrap();
    assert_eq!(folded.blocks[1].term, Terminator::CondBranch { nonzero: 2, zero: 3 });
    assert_eq!(folded.blocks[2].instrs, vec![add(0, -2)]);
}

#[test]
fn clear_loop_prints_zero_at_every_level() {
    for level in 0..=2u8 {
        let ir = compile("+++[-].", level, None).unwrap();
        let stop = interpret(&ir, vec![], 10_000);
        assert_eq!(stop.block, None);
        assert_eq!(stop.machine.output, vec![0]);
    }
}

#[test]
fn copy_loop_is_recognised() {
    let ir = compile("+++[->+>+<<]", 2, None).unwrap();
    assert_eq!(
        render_ir(&ir),
        "block 0:\n  add 0, 3\n  br 1\nblock 1:\n  muladd 0, 1, 1\n  muladd 0, 2, 1\n  set 0, 0\n  br 3\nblock 2:\n  add 0, -1\n  add 1, 1\n  add 2, 1\n  br 1\nblock 3:\n  ret\n"
    );
    let level_one = compile("+++[->+>+<<]", 1, None).unwrap();
    assert_eq!(level_one.blocks[1], Block { instrs: vec![], term: Terminator::CondBranch { nonzero: 2, zero: 3 } });
}

#[test]
fn copy_loop_leaves_the_same_tape_at_every_level() {
    for level in 0..=2u8 {
        for passes in [None, Some(PassSet::all()), only(Pass::OffsetCoalescing), only(Pass::CopyLoop)] {
            let ir = compile("+++[->+>+<<]", level, passes).unwrap();
            let stop = interpret(&ir, vec![], 10_000);
            assert_eq!(stop.block, None);
            assert_eq!(&stop.machine.tape[0..4], &[0, 3, 3, 0]);
            assert_eq!(stop.machine.ptr, 0);
        }
    }
}

#[test]
fn copy_loop_multiplies() {
    let ir = compile("+++++[->+++>--<<]>.>.", 2, None).unwrap();
    assert_eq!(
        ir.blocks[1].instrs,
        vec![
            Instr::MultiplyAddCell { src_offset: 0, dst_offset: 1, factor: 3 },
            Instr::MultiplyAddCell { src_offset: 0, dst_offset: 2, factor: -2 },
            set(0, 0),
        ]
    );
    let stop = interpret(&ir, vec![], 100);
    assert_eq!(stop.machine.output, vec![15, 246]);
}

#[test]
fn copy_loop_rejects_other_shapes() {
    let shapes = vec![
        vec![add(0, -1), add(0, -1), add(1, 1)],
        vec![add(0, 1), add(1, 1)],
        vec![add(1, 1)],
        vec![add(0, -1), add(30_000, 1)],
        vec![add(0, -1), add(-30_000, 1)],
        vec![add(0, -1), set(1, 1)],
        vec![add(0, -1), Instr::Output { offset: 1 }],
        vec![add(0, -1), Instr::MovePointer { offset: 0 }],
    ];
    for body in shapes {
        let ir = IrProgram {
            blocks: vec![
                Block { instrs: vec![], term: Terminator::CondBranch { nonzero: 1, zero: 2 } },
                Block { instrs: body, term: Terminator::Branch { target: 0 } },
                Block { instrs: vec![], term: Terminator::Return },
            ],
        };
        let out = run_pass(ir.clone(), Pass::CopyLoop);
        assert_eq!(out, ir);
    }
}

#[test]
fn copy_loop_accepts_the_widest_offsets() {
    let ir = IrProgram {
        blocks: vec![
            Block { instrs: vec![], term: Terminator::CondBranch { nonzero: 1, zero: 2 } },
            Block { instrs: vec![add(29_999, 1), add(0, -1), add(-29_999, 2)], term: Terminator::Branch { target: 0 } },
            Block { instrs: vec![], term: Terminator::Return },
        ],
    };
    let out = run_pass(ir, Pass::CopyLoop);
    assert_eq!(
        out.blocks[0],
        Block {
            instrs: vec![
                Instr::MultiplyAddCell { src_offset: 0, dst_offset: 29_999, factor: 1 },
                Instr::MultiplyAddCell { src_offset: 0, dst_offset: -29_999, factor: 2 },
                set(0, 0),
            ],
            term: Terminator::Branch { target: 2 },
        }
    );
}

#[test]
fn loop_head_with_instructions_is_left_alone() {
    let ir = IrProgram {
        blocks: vec![
            Block { instrs: vec![add(0, 1)], term: Terminator::CondBranch { nonzero: 1, zero: 2 } },
            Block { instrs: vec![add(0, -1)], term: Terminator::Branch { target: 0 } },
            Block { instrs: vec![], term: Terminator::Return },
        ],
    };
    assert_eq!(run_pass(ir.clone(), Pass::ClearLoop), ir);
    assert_eq!(run_pass(ir.clone(), Pass::CopyLoop), ir);
}

#[test]
fn whitelist_of_coalescing_leaves_loops() {
    let list = parse_pass_list("offset-coalescing");
    assert_eq!(list, only(Pass::OffsetCoalescing));
    let clear = compile(">+++[-]", 2, list).unwrap();
    assert_eq!(
        render_ir(&clear),
        "block 0:\n  add 1, 1\n  add 1, 1\n  add 1, 1\n  move 1\n  br 1\nblock 1:\n  brnz 2, 3\nblock 2:\n  add 0, -1\n  br 1\nblock 3:\n  ret\n"
    );
    let copy = compile("[->+<]", 2, list).unwrap();
    assert_eq!(
        render_ir(&copy),
        "block 0:\n  br 1\nblock 1:\n  brnz 2, 3\nblock 2:\n  add 0, -1\n  add 1, 1\n  br 1\nblock 3:\n  ret\n"
    );
}

#[test]
fn whitelist_does_not_lift_the_level() {
    let ir = compile("+++[->+<]", 1, only(Pass::CopyLoop)).unwrap();
    assert_eq!(ir, lower(&parse("+++[->+<]").unwrap()));
}

#[test]
fn pass_names() {
    for pass in [Pass::OffsetCoalescing, Pass::DeltaFolding, Pass::ClearLoop, Pass::CopyLoop, Pass::DeadStore] {
        assert_eq!(Pass::from_name(pass.name()), Some(pass));
    }
    assert_eq!(Pass::OffsetCoalescing.name(), "offset-coalescing");
    assert_eq!(Pass::DeltaFolding.name(), "delta-folding");
    assert_eq!(Pass::ClearLoop.name(), "clear-loop");
    assert_eq!(Pass::CopyLoop.name(), "copy-loop");
    assert_eq!(Pass::DeadStore.name(), "dead-store-elimination");
    assert_eq!(Pass::from_name("inline"), None);
    assert_eq!(Pass::from_name(""), None);
    assert_eq!(Pass::OffsetCoalescing.level(), 1);
    assert_eq!(Pass::DeltaFolding.level(), 1);
    assert_eq!(Pass::ClearLoop.level(), 1);
    assert_eq!(Pass::CopyLoop.level(), 2);
    assert_eq!(Pass::DeadStore.level(), 2);
}

#[test]
fn pass_lists() {
    assert_eq!(
        parse_pass_list("clear-loop,delta-folding"),
        Some(PassSet::empty().with(Pass::ClearLoop).with(Pass::DeltaFolding))
    );
    assert_eq!(
        parse_pass_list("offset-coalescing,delta-folding,clear-loop,copy-loop,dead-store-elimination"),
        Some(PassSet::all())
    );
    assert_eq!(parse_pass_list("copy-loop,copy-loop"), only(Pass::CopyLoop));
    assert_eq!(parse_pass_list("copy-loop,unroll"), None);
    assert_eq!(parse_pass_list("unroll,copy-loop"), None);
    assert_eq!(parse_pass_list("copy-loop,"), None);
    assert_eq!(parse_pass_list(""), None);
    assert_eq!(parse_pass_list(" copy-loop"), None);
}

#[test]
fn pass_sets() {
    assert!(PassSet::all().contains(Pass::DeadStore));
    assert!(!PassSet::empty().contains(Pass::DeadStore));
    let s = PassSet::empty().with(Pass::CopyLoop);
    assert!(s.contains(Pass::CopyLoop));
    assert!(!s.contains(Pass::ClearLoop));
}

#[test]
fn optimizing_again_changes_nothing() {
    for src in [HELLO, "+++[-].", "+++[->+>+<<]", ">>+<<[->>+<<]", ",[.,]", "[[[-]]]"] {
        for level in 0..=2u8 {
            let once = compile(src, level, None).unwrap();
            let twice = optimize(once.clone(), level, None);
            assert_eq!(twice, once);
            let round = run_round(once.clone(), level, None);
            assert!(same_program(&round, &once));
        }
    }
}

#[test]
fn a_later_round_can_still_fold() {
    let ir = single_block(vec![add(0, 1), add(1, 1), add(0, 1), set(1, 0)]);
    let one = run_round(ir.clone(), 2, None);
    assert_eq!(one, single_block(vec![add(0, 1), add(0, 1), set(1, 0)]));
    let out = optimize(ir, 2, None);
    assert_eq!(out, single_block(vec![add(0, 2), set(1, 0)]));
    assert_eq!(MAX_ROUNDS, 4);
}

#[test]
fn hello_world_at_every_level() {
    for level in 0..=2u8 {
        let ir = compile(HELLO, level, None).unwrap();
        let stop = interpret(&ir, vec![], 1_000_000);
        assert_eq!(stop.block, None);
        assert_eq!(stop.machine.output, b"Hello World!\n".to_vec());
    }
}

#[test]
fn optimized_programs_leave_the_same_machine() {
    let sources = [
        HELLO,
        ",[.,]",
        ",>,<[->+<]>.",
        "+[->,.<]",
        "-[>+<-----]>.",
        "<+>>>>++[-<<<<+>>>>]<<<<.",
        ",[>+>+<<-]>>[<<+>>-]<<.>.",
        "++[>++[>++[>+<-]<-]<-]>>>.",
    ];
    for src in sources {
        let plain = interpret(&compile(src, 0, None).unwrap(), b"abc".to_vec(), 1_000_000);
        assert_eq!(plain.block, None);
        for level in 1..=2u8 {
            let stop = interpret(&compile(src, level, None).unwrap(), b"abc".to_vec(), 1_000_000);
            assert_eq!(stop.block, None);
            assert_eq!(stop.machine.output, plain.machine.output);
            assert_eq!(stop.machine.tape, plain.machine.tape);
            assert_eq!(stop.machine.ptr, plain.machine.ptr);
            assert_eq!(stop.machine.consumed, plain.machine.consumed);
        }
    }
}

#[test]
fn same_program_tells_programs_apart() {
    let a = single_block(vec![add(0, 1)]);
    let b = single_block(vec![add(0, 2)]);
    assert!(same_program(&a, &copy_program(&a)));
    assert!(!same_program(&a, &b));
    assert!(!same_program(&a, &single_block(vec![])));
    let c = IrProgram { blocks: vec![Block { instrs: vec![add(0, 1)], term: Terminator::Branch { target: 0 } }] };
    assert!(!same_program(&a, &c));
}
