use hyperfc::backend::{backend_pipeline, lower_to_backend};
use hyperfc::compile::compile;
use hyperfc::ir::{Block, Instr, IrProgram, Terminator};

const HEAD: &str = "@tape = internal global [30000 x i8] zeroinitializer\n\ndeclare i32 @putchar(i32)\n\ndeclare i32 @getchar()\n\ndefine i32 @main() {\nentry:\n  %ptr = alloca i64\n  store i64 0, ptr %ptr\n  br label %b0\n";

fn module_of(instrs: Vec<Instr>) -> String {
    lower_to_backend(&IrProgram { blocks: vec![Block { instrs, term: Terminator::Return }] })
}

#[test]
fn backend_empty_program() {
    assert_eq!(module_of(vec![]), format!("{HEAD}b0:\n  ret i32 0\n}}\n"));
}

#[test]
fn backend_add_and_output() {
    let ir = compile("+.", 0, None).unwrap();
    let want = format!(
        "{HEAD}b0:\n\
         \x20 %b0.0.dp = load i64, ptr %ptr\n\
         \x20 %b0.0.di = add i64 %b0.0.dp, 0\n\
         \x20 %b0.0.dw = urem i64 %b0.0.di, 30000\n\
         \x20 %b0.0.da = getelementptr [30000 x i8], ptr @tape, i64 0, i64 %b0.0.dw\n\
         \x20 %b0.0.v = load i8, ptr %b0.0.da\n\
         \x20 %b0.0.r = add i8 %b0.0.v, 1\n\
         \x20 store i8 %b0.0.r, ptr %b0.0.da\n\
         \x20 %b0.1.dp = load i64, ptr %ptr\n\
         \x20 %b0.1.di = add i64 %b0.1.dp, 0\n\
         \x20 %b0.1.dw = urem i64 %b0.1.di, 30000\n\
         \x20 %b0.1.da = getelementptr [30000 x i8], ptr @tape, i64 0, i64 %b0.1.dw\n\
         \x20 %b0.1.v = load i8, ptr %b0.1.da\n\
         \x20 %b0.1.z = zext i8 %b0.1.v to i32\n\
         \x20 %b0.1.c = call i32 @putchar(i32 %b0.1.z)\n\
         \x20 ret i32 0\n}}\n"
    );
    assert_eq!(lower_to_backend(&ir), want);
}

#[test]
fn backend_move_keeps_pointer_on_tape() {
    let want = format!(
        "{HEAD}b0:\n\
         \x20 %b0.0.dp = load i64, ptr %ptr\n\
         \x20 %b0.0.di = add i64 %b0.0.dp, 29999\n\
         \x20 %b0.0.dw = urem i64 %b0.0.di, 30000\n\
         \x20 store i64 %b0.0.dw, ptr %ptr\n\
         \x20 ret i32 0\n}}\n"
    );
    assert_eq!(module_of(vec![Instr::MovePointer { offset: -1 }]), want);
    assert_eq!(module_of(vec![Instr::MovePointer { offset: 59_999 }]), want);
}

#[test]
fn backend_set_and_input() {
    let want = format!(
        "{HEAD}b0:\n\
         \x20 %b0.0.dp = load i64, ptr %ptr\n\
         \x20 %b0.0.di = add i64 %b0.0.dp, 2\n\
         \x20 %b0.0.dw = urem i64 %b0.0.di, 30000\n\
         \x20 %b0.0.da = getelementptr [30000 x i8], ptr @tape, i64 0, i64 %b0.0.dw\n\
         \x20 store i8 -7, ptr %b0.0.da\n\
         \x20 %b0.1.dp = load i64, ptr %ptr\n\
         \x20 %b0.1.di = add i64 %b0.1.dp, 0\n\
         \x20 %b0.1.dw = urem i64 %b0.1.di, 30000\n\
         \x20 %b0.1.da = getelementptr [30000 x i8], ptr @tape, i64 0, i64 %b0.1.dw\n\
         \x20 %b0.1.c = call i32 @getchar()\n\
         \x20 %b0.1.e = icmp slt i32 %b0.1.c, 0\n\
         \x20 %b0.1.s = select i1 %b0.1.e, i32 0, i32 %b0.1.c\n\
         \x20 %b0.1.t = trunc i32 %b0.1.s to i8\n\
         \x20 store i8 %b0.1.t, ptr %b0.1.da\n\
         \x20 ret i32 0\n}}\n"
    );
    assert_eq!(module_of(vec![Instr::SetCell { offset: 2, value: -7 }, Instr::Input { offset: 0 }]), want);
}

#[test]
fn backend_multiply_add() {
    let want = format!(
        "{HEAD}b0:\n\
         \x20 %b0.0.sp = load i64, ptr %ptr\n\
         \x20 %b0.0.si = add i64 %b0.0.sp, 0\n\
         \x20 %b0.0.sw = urem i64 %b0.0.si, 30000\n\
         \x20 %b0.0.sa = getelementptr [30000 x i8], ptr @tape, i64 0, i64 %b0.0.sw\n\
         \x20 %b0.0.dp = load i64, ptr %ptr\n\
         \x20 %b0.0.di = add i64 %b0.0.dp, 1\n\
         \x20 %b0.0.dw = urem i64 %b0.0.di, 30000\n\
         \x20 %b0.0.da = getelementptr [30000 x i8], ptr @tape, i64 0, i64 %b0.0.dw\n\
         \x20 %b0.0.sv = load i8, ptr %b0.0.sa\n\
         \x20 %b0.0.m = mul i8 %b0.0.sv, -2\n\
         \x20 %b0.0.v = load i8, ptr %b0.0.da\n\
         \x20 %b0.0.r = add i8 %b0.0.v, %b0.0.m\n\
         \x20 store i8 %b0.0.r, ptr %b0.0.da\n\
         \x20 ret i32 0\n}}\n"
    );
    assert_eq!(module_of(vec![Instr::MultiplyAddCell { src_offset: 0, dst_offset: 1, factor: -2 }]), want);
}

#[test]
fn backend_loop_blocks() {
    let ir = compile("[]", 0, None).unwrap();
    let want = format!(
        "{HEAD}b0:\n\
         \x20 br label %b1\n\
         b1:\n\
         \x20 %b1.0.dp = load i64, ptr %ptr\n\
         \x20 %b1.0.da = getelementptr [30000 x i8], ptr @tape, i64 0, i64 %b1.0.dp\n\
         \x20 %b1.0.v = load i8, ptr %b1.0.da\n\
         \x20 %b1.0.c = icmp ne i8 %b1.0.v, 0\n\
         \x20 br i1 %b1.0.c, label %b2, label %b3\n\
         b2:\n\
         \x20 br label %b1\n\
         b3:\n\
         \x20 ret i32 0\n}}\n"
    );
    assert_eq!(lower_to_backend(&ir), want);
}

#[test]
fn backend_pipelines() {
    assert_eq!(backend_pipeline(0), Some("default<O0>"));
    assert_eq!(backend_pipeline(1), Some("default<O1>"));
    assert_eq!(backend_pipeline(2), Some("default<O2>"));
    assert_eq!(backend_pipeline(3), Some("default<O3>"));
    assert_eq!(backend_pipeline(4), None);
    assert_eq!(backend_pipeline(255), None);
}
