use compile_sysy::assembly::Asm;
use compile_sysy::koopa::{KoopaLine, KoopaLines, KoopaParam, KoopaType};
use compile_sysy::lower::lower_async_sugar_lines;
use compile_sysy::riscv::{AsmLine, AsmValue, RegName};

fn s(x: &str) -> String {
    x.to_string()
}

#[test]
fn koopa_types_print_in_koopa_syntax() {
    let ty = KoopaType::array(KoopaType::ptr(KoopaType::I32), 4);
    assert_eq!(ty.display_wrapped(), "[*i32, 4]");
    let p = KoopaType::Promise(Box::new(KoopaType::Struct(s("node"))));
    assert_eq!(p.display_wrapped(), "promise<struct @node>");
}

#[test]
fn koopa_lines_print_one_per_row() {
    let mut lines = KoopaLines::new();
    lines.add_line(KoopaLine::FuncStart(
        s("add"),
        vec![KoopaParam::new(s("@a"), KoopaType::I32), KoopaParam::new(s("@b"), KoopaType::I32)],
        KoopaType::I32,
    ));
    lines.add_line(KoopaLine::Label(s("%entry")));
    lines.add_line(KoopaLine::Binary(s("%0"), s("add"), s("@a"), s("@b")));
    lines.add_line(KoopaLine::Ret(s("%0")));
    lines.close();
    assert_eq!(
        lines.to_wrapped_string(),
        "fun @add(@a: i32, @b: i32): i32 {\n%entry:\n\t%0 = add @a, @b\n\tret %0\n}\n"
    );
}

#[test]
fn closing_an_open_body_adds_a_return() {
    let mut lines = KoopaLines::with_line(KoopaLine::Label(s("%entry")));
    lines.close();
    assert_eq!(lines.lines().len(), 3);
    assert_eq!(lines.to_wrapped_string(), "%entry:\n\tret\n}\n");
}

#[test]
fn a_block_jumps_on_unless_it_already_leaves() {
    let open = KoopaLines::with_line(KoopaLine::Store(s("1"), s("@x")));
    let block = KoopaLines::make_block(open, s("%then"), Some(s("%end")));
    assert_eq!(block.to_wrapped_string(), "%then:\n\tstore 1, @x\n\tjump %end");
    let closed = KoopaLines::with_line(KoopaLine::VoidRet);
    let block = KoopaLines::make_block(closed, s("%else"), Some(s("%end")));
    assert_eq!(block.to_wrapped_string(), "%else:\n\tret");
}

#[test]
fn function_declarations_list_parameter_types() {
    let line = KoopaLine::FuncDecl(s("putint"), vec![KoopaParam::new(s("@x"), KoopaType::I32)], KoopaType::Void);
    assert_eq!(line.to_wrapped_string(), "decl @putint(i32)");
    let line = KoopaLine::FuncDecl(s("getint"), vec![], KoopaType::I32);
    assert_eq!(line.to_wrapped_string(), "decl @getint(): i32");
}

#[test]
fn lowering_removes_async_sugar() {
    let mut lines = KoopaLines::new();
    lines.add_line(KoopaLine::PromiseDecl(s("task"), KoopaType::I32));
    lines.add_line(KoopaLine::AsyncFuncStart(s("task"), vec![], KoopaType::I32));
    lines.add_line(KoopaLine::AsyncCall(s("%p"), s("work"), s("")));
    lines.add_line(KoopaLine::PromiseWait(s("%p")));
    lines.add_line(KoopaLine::Sleep(s("%s"), s("10")));
    lines.add_line(KoopaLine::CallbackWrap(s("%r"), s("%p"), s("cb")));
    lines.add_line(KoopaLine::Alloc(s("@q"), KoopaType::Promise(Box::new(KoopaType::I32))));
    lines.add_line(KoopaLine::FuncEnd);
    let lowered = lower_async_sugar_lines(&lines);
    assert_eq!(
        lowered.to_wrapped_string(),
        "fun @task(): i32 {\n\t%p = call @work()\n\t%s = add 0, 0\n\t%r = add 0, %p\n\t@q = alloc i32\n}\n"
    );
}

#[test]
fn registers_and_operands_print_in_assembler_syntax() {
    assert_eq!(RegName::Param(3).to_string(), "a3");
    assert_eq!(RegName::TempS(11).to_string(), "s11");
    assert_eq!(AsmValue::Offset(-8, RegName::Stack).to_string(), "-8(sp)");
    assert_eq!(AsmLine::Load(RegName::TempT(0), AsmValue::Offset(4, RegName::Stack)).to_string(), "\tlw t0, 4(sp)");
    assert_eq!(AsmLine::Store(AsmValue::Offset(0, RegName::Stack), RegName::Ret).to_string(), "\tsw a0, 0(sp)");
    assert_eq!(AsmLine::Addi(RegName::Stack, RegName::Stack, -16).to_string(), "\taddi sp, sp, -16");
    assert_eq!(AsmLine::Beqz(RegName::TempT(1), 7).to_string(), "\tbeqz t1, L7");
    assert_eq!(AsmLine::DirText.to_string(), "\n\t.text");
}

#[test]
fn placeholders_are_replaced_before_printing() {
    let mut program = Asm::new();
    program.add_line(AsmLine::Global(s("main")));
    program.add_line(AsmLine::PlaceHold(s("prologue")));
    program.add_line(AsmLine::Li(RegName::Ret, 0));
    program.add_line(AsmLine::PlaceHold(s("other")));
    program.add_line(AsmLine::PlaceHold(s("prologue")));
    program.convert_placehold(s("prologue"), vec![AsmLine::Addi(RegName::Stack, RegName::Stack, -16)]);
    program.convert_placehold(s("other"), vec![]);
    assert_eq!(
        program.to_string(),
        "\t.global main\n\taddi sp, sp, -16\n\tli a0, 0\n\taddi sp, sp, -16\n"
    );
}

#[test]
fn an_empty_program_prints_nothing() {
    assert_eq!(Asm::new().to_string(), "");
    let mut outer = Asm::new();
    let mut inner = Asm::new();
    inner.add_line(AsmLine::Ret);
    outer.add_asm(inner);
    assert_eq!(outer.to_string(), "\tret\n");
}
