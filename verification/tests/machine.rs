use hyperfc::interp::{interpret, Machine};
use hyperfc::ir::{Block, Instr, IrProgram, Terminator};
use hyperfc::machine::{wrapped_cell, wrapped_i8_add, wrapped_index, wrapped_mul_add, TAPE_SIZE};

fn single_block(instrs: Vec<Instr>) -> IrProgram {
    IrProgram { blocks: vec![Block { instrs, term: Terminator::Return }] }
}

#[test]
fn tape_size_is_conventional() {
    assert_eq!(TAPE_SIZE, 30_000);
}

#[test]
fn index_wraps_at_both_ends() {
    assert_eq!(wrapped_index(0, -1), 29_999);
    assert_eq!(wrapped_index(29_999, 1), 0);
    assert_eq!(wrapped_index(10, 0), 10);
    assert_eq!(wrapped_index(10, 30_000), 10);
    assert_eq!(wrapped_index(10, -30_000), 10);
    assert_eq!(wrapped_index(10, 60_005), 15);
    assert_eq!(wrapped_index(5, i64::MIN), 4197);
    assert_eq!(wrapped_index(7, i64::MAX), 25_814);
}

#[test]
fn cell_arithmetic_wraps() {
    assert_eq!(wrapped_cell(255, 1), 0);
    assert_eq!(wrapped_cell(0, -1), 255);
    assert_eq!(wrapped_cell(100, 27), 127);
    assert_eq!(wrapped_cell(0, -128), 128);
    assert_eq!(wrapped_cell(200, 127), 71);
    assert_eq!(wrapped_i8_add(127, 1), -128);
    assert_eq!(wrapped_i8_add(-128, -1), 127);
    assert_eq!(wrapped_i8_add(5, -7), -2);
    assert_eq!(wrapped_mul_add(10, 3, 5), 25);
    assert_eq!(wrapped_mul_add(0, 255, -128), 128);
    assert_eq!(wrapped_mul_add(200, 100, -3), 156);
}

#[test]
fn new_machine_is_blank() {
    let m = Machine::new(vec![1, 2, 3]);
    assert_eq!(m.tape.len(), 30_000);
    assert!(m.tape.iter().all(|c| *c == 0));
    assert_eq!(m.ptr, 0);
    assert_eq!(m.consumed, 0);
    assert_eq!(m.input, vec![1, 2, 3]);
    assert!(m.output.is_empty());
}

#[test]
fn every_instruction_has_its_effect() {
    let mut m = Machine::new(vec![9]);
    m.exec(Instr::AddToCell { offset: 2, amount: 5 });
    assert_eq!(m.tape[2], 5);
    m.exec(Instr::MovePointer { offset: 2 });
    assert_eq!(m.ptr, 2);
    m.exec(Instr::MultiplyAddCell { src_offset: 0, dst_offset: -1, factor: 3 });
    assert_eq!(m.tape[1], 15);
    m.exec(Instr::SetCell { offset: -2, value: -1 });
    assert_eq!(m.tape[0], 255);
    m.exec(Instr::Output { offset: -1 });
    assert_eq!(m.output, vec![15]);
    m.exec(Instr::Input { offset: 1 });
    assert_eq!(m.tape[3], 9);
    assert_eq!(m.consumed, 1);
    m.exec(Instr::Input { offset: 0 });
    assert_eq!(m.tape[2], 0);
    assert_eq!(m.consumed, 1);
}

#[test]
fn cell_returns_after_256_increments() {
    let mut instrs = vec![Instr::SetCell { offset: 0, value: 77 }];
    for _ in 0..256 {
        instrs.push(Instr::AddToCell { offset: 0, amount: 1 });
    }
    let stop = interpret(&single_block(instrs), vec![], 10);
    assert_eq!(stop.block, None);
    assert_eq!(stop.machine.tape[0], 77);
}

#[test]
fn pointer_wraps_below_and_above() {
    let below = interpret(
        &single_block(vec![Instr::MovePointer { offset: -1 }, Instr::AddToCell { offset: 0, amount: 1 }]),
        vec![],
        10,
    );
    assert_eq!(below.machine.ptr, 29_999);
    assert_eq!(below.machine.tape[29_999], 1);
    let mut instrs = Vec::new();
    for _ in 0..30_000 {
        instrs.push(Instr::MovePointer { offset: 1 });
    }
    instrs.push(Instr::AddToCell { offset: 0, amount: 1 });
    let above = interpret(&single_block(instrs), vec![], 10);
    assert_eq!(above.machine.ptr, 0);
    assert_eq!(above.machine.tape[0], 1);
}

#[test]
fn input_at_end_reads_zero() {
    let p = single_block(vec![
        Instr::Input { offset: 0 },
        Instr::Output { offset: 0 },
        Instr::Input { offset: 0 },
        Instr::Output { offset: 0 },
    ]);
    let stop = interpret(&p, vec![65], 10);
    assert_eq!(stop.machine.output, vec![65, 0]);
}

#[test]
fn step_limit_stops_a_loop() {
    let p = IrProgram {
        blocks: vec![
            Block { instrs: vec![Instr::AddToCell { offset: 0, amount: 1 }], term: Terminator::Branch { target: 1 } },
            Block { instrs: vec![], term: Terminator::CondBranch { nonzero: 1, zero: 2 } },
            Block { instrs: vec![], term: Terminator::Return },
        ],
    };
    let stop = interpret(&p, vec![], 1000);
    assert_eq!(stop.block, Some(1));
    assert_eq!(stop.machine.tape[0], 1);
    let none = interpret(&p, vec![], 0);
    assert_eq!(none.block, Some(0));
    assert_eq!(none.machine.tape[0], 0);
}
