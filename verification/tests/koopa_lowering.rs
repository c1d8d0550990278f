use compile_sysy::ast_tool::{flatten_var_decl, gen_unary_koopa_ir, resolve_decl_value_type, static_functions};
use compile_sysy::lalr::{BType, Exp, SingleDecl, StructDef, StructField, Type, UnaryOp, VarDecl};
use compile_sysy::ast_tool::{Background, StructFieldLayout, StructLayout, ValueType};
use compile_sysy::koopa::{KoopaLine, KoopaLines, KoopaParam, KoopaType};
use compile_sysy::lower::lower_lines;

fn point_background() -> Background {
    let mut bg = Background::new();
    bg.struct_layouts.insert(
        "P".to_string(),
        StructLayout {
            name: "P".to_string(),
            fields: vec![
                StructFieldLayout { name: "x".to_string(), ty: ValueType::Int, offset: 0 },
                StructFieldLayout {
                    name: "next".to_string(),
                    ty: ValueType::Pointer(Box::new(ValueType::Struct("P".to_string()))),
                    offset: 4,
                },
            ],
            size: 8,
            align: 4,
        },
    );
    bg
}

fn lines_of(v: Vec<KoopaLine>) -> KoopaLines {
    let mut lines = KoopaLines::new();
    for l in v {
        lines.add_line(l);
    }
    lines
}

#[test]
fn struct_objects_become_word_arrays() {
    let bg = point_background();
    let lines = lines_of(vec![
        KoopaLine::FuncStart("main".to_string(), vec![], KoopaType::I32),
        KoopaLine::Label("%entry".to_string()),
        KoopaLine::Alloc("@p".to_string(), KoopaType::Struct("P".to_string())),
        KoopaLine::StructFieldPtr("%0".to_string(), "@p".to_string(), "x".to_string()),
        KoopaLine::Store("1".to_string(), "%0".to_string()),
        KoopaLine::Load("%1".to_string(), "%0".to_string()),
        KoopaLine::Ret("%1".to_string()),
        KoopaLine::FuncEnd,
    ]);
    assert_eq!(
        lower_lines(&lines, &bg),
        "fun @main(): i32 {\n%entry:\n\t@p = alloc [i32, 2]\n\t@fpfieldnext = alloc *i32\n\t%0 = getptr @p, 0\n\tstore 1, %0\n\t%1 = load %0\n\tret %1\n}\n"
    );
}

#[test]
fn pointer_fields_are_reached_through_their_storage() {
    let bg = point_background();
    let lines = lines_of(vec![
        KoopaLine::Alloc("@p".to_string(), KoopaType::Struct("P".to_string())),
        KoopaLine::StructFieldPtr("%2".to_string(), "@p".to_string(), "next".to_string()),
        KoopaLine::Store("%3".to_string(), "%2".to_string()),
        KoopaLine::GetPtr("%4".to_string(), "@p".to_string(), "1".to_string()),
        KoopaLine::Load("%5".to_string(), "%4".to_string()),
    ]);
    assert_eq!(
        lower_lines(&lines, &bg),
        "\t@p = alloc [i32, 2]\n\t@fpfieldnext = alloc *i32\n\tstore %3, @fpfieldnext\n\t%5 = load @fpfieldnext"
    );
}

#[test]
fn heap_objects_call_malloc_which_gets_declared() {
    let bg = point_background();
    let lines = lines_of(vec![
        KoopaLine::HeapAlloc("%h".to_string(), KoopaType::I32),
        KoopaLine::HeapAlloc("%s".to_string(), KoopaType::Struct("P".to_string())),
    ]);
    assert_eq!(
        lower_lines(&lines, &bg),
        "decl @malloc(i32): *i32\n\t%h = call @malloc(4)\n\t%s = call @malloc(8)\n\t%fsfieldnext = alloc *i32"
    );
}

#[test]
fn a_declared_malloc_is_not_declared_again() {
    let bg = point_background();
    let lines = lines_of(vec![
        KoopaLine::FuncDecl(
            "malloc".to_string(),
            vec![KoopaParam::new("%n".to_string(), KoopaType::I32)],
            KoopaType::Ptr(Box::new(KoopaType::I32)),
        ),
        KoopaLine::HeapAlloc("%h".to_string(), KoopaType::Array(Box::new(KoopaType::I32), 3)),
    ]);
    assert_eq!(lower_lines(&lines, &bg), "decl @malloc(i32): *i32\n\t%h = call @malloc(12)");
}

#[test]
fn falling_off_a_function_returns_its_default() {
    let bg = point_background();
    let lines = lines_of(vec![
        KoopaLine::FuncStart(
            "f".to_string(),
            vec![KoopaParam::new("%a".to_string(), KoopaType::Ptr(Box::new(KoopaType::Struct("P".to_string()))))],
            KoopaType::Promise(Box::new(KoopaType::I32)),
        ),
        KoopaLine::VoidRet,
        KoopaLine::FuncEnd,
        KoopaLine::FuncStart("g".to_string(), vec![], KoopaType::Void),
        KoopaLine::VoidRet,
        KoopaLine::FuncEnd,
    ]);
    assert_eq!(
        lower_lines(&lines, &bg),
        "fun @f(%a: *i32): i32 {\n\tret 0\n}\n\nfun @g() {\n\tret\n}\n"
    );
}

#[test]
fn promise_lines_lower_to_plain_values() {
    let bg = point_background();
    let lines = lines_of(vec![
        KoopaLine::PromiseDecl("f".to_string(), KoopaType::I32),
        KoopaLine::AsyncCall("%p".to_string(), "f".to_string(), "1".to_string()),
        KoopaLine::CallbackWrap("%v".to_string(), "%p".to_string(), "cb".to_string()),
        KoopaLine::Sleep("%s".to_string(), "10".to_string()),
        KoopaLine::PromiseWait("%p".to_string()),
        KoopaLine::ArgJump("%end".to_string(), "%v".to_string()),
    ]);
    assert_eq!(
        lower_lines(&lines, &bg),
        "\t%p = call @f(1)\n\t%v = add 0, %p\n\t%s = add 0, 0\n\tjump %end(%v)"
    );
}

#[test]
fn global_struct_objects_get_global_field_storage() {
    let bg = point_background();
    let lines = lines_of(vec![KoopaLine::GlobalAlloc(
        "@g".to_string(),
        KoopaType::Struct("P".to_string()),
        "zeroinit".to_string(),
    )]);
    assert_eq!(
        lower_lines(&lines, &bg),
        "global @g = alloc [i32, 2], zeroinit\n\nglobal @fgfieldnext = alloc *i32, zeroinit\n"
    );
}

#[test]
fn background_names_temporaries_blocks_and_scopes() {
    let mut bg = Background::new();
    assert_eq!(bg.next_temp(), "%0");
    assert_eq!(bg.next_temp(), "%1");
    assert_eq!(bg.new_bb(), "%bb0");
    assert_eq!(bg.new_variable("x".to_string()), "@x");
    let outer = bg.record();
    bg.increment_time();
    assert_eq!(bg.new_variable("x".to_string()), "@x_2");
    assert_eq!(bg.get_variable("x".to_string()), "@x_2");
    bg.set_constant("n".to_string(), 7);
    assert_eq!(bg.try_get_constant("n".to_string()), Some(7));
    bg.rollback(outer);
    assert_eq!(bg.get_variable("x".to_string()), "@x");
    assert_eq!(bg.try_get_constant("n".to_string()), None);
    bg.new_next_bb_if_none();
    assert_eq!(bg.next_bb(), Some("%bb1".to_string()));
    bg.new_next_bb_if_none();
    assert_eq!(bg.next_bb(), Some("%bb1".to_string()));
}

#[test]
fn value_types_have_word_sizes() {
    let bg = point_background();
    let arr = ValueType::Array(3, Box::new(ValueType::Struct("P".to_string())));
    assert_eq!(arr.size(&bg), 24);
    assert_eq!(arr.align(&bg), 4);
    assert_eq!(arr.slot_count(&bg), 6);
    match ValueType::Pointer(Box::new(ValueType::Int)).to_koopa_type(&bg) {
        KoopaType::Ptr(inner) => assert!(matches!(*inner, KoopaType::I32)),
        other => panic!("unexpected type {:?}", other),
    }
}


fn field(ty: Type, var: VarDecl) -> StructField {
    StructField { span: None, ty, decls: vec![SingleDecl { span: None, var, init: None }] }
}

#[test]
fn structs_are_laid_out_in_order_of_definition() {
    let mut bg = Background::new();
    bg.register_struct_def(StructDef {
        span: None,
        name: "A".to_string(),
        fields: vec![
            field(Type::BType(BType::I32), VarDecl::Ident("x".to_string())),
            field(
                Type::BType(BType::I32),
                VarDecl::Array(Box::new(VarDecl::Ident("y".to_string())), Exp::Number(3)),
            ),
        ],
    });
    bg.register_struct_def(StructDef {
        span: None,
        name: "B".to_string(),
        fields: vec![
            field(Type::BType(BType::Struct("A".to_string())), VarDecl::Ident("a".to_string())),
            field(Type::BType(BType::Ptr(Box::new(BType::I32))), VarDecl::Ident("p".to_string())),
        ],
    });
    bg.resolve_struct_layouts();
    let a = bg.get_struct_layout("A");
    assert_eq!((a.size, a.align, a.fields.len()), (16, 4, 2));
    assert_eq!(bg.get_struct_field("A", "y").offset, 4);
    let b = bg.get_struct_layout("B");
    assert_eq!((b.size, b.align), (20, 4));
    assert_eq!(bg.get_struct_field("B", "p").offset, 16);
}

#[test]
fn declarations_fold_their_dimensions() {
    let mut bg = Background::new();
    bg.set_constant("n".to_string(), 2);
    let var = VarDecl::Array(
        Box::new(VarDecl::Array(Box::new(VarDecl::Ident("m".to_string())), Exp::Ident("n".to_string()))),
        Exp::Number(5),
    );
    let (name, dims) = flatten_var_decl(&var, &bg).unwrap();
    assert_eq!(name, "m");
    assert_eq!(dims, vec![2, 5]);
    match resolve_decl_value_type(&Type::BType(BType::I32), &var, &bg) {
        ValueType::Array(5, inner) => assert!(matches!(*inner, ValueType::Array(2, _))),
        other => panic!("unexpected type {:?}", other),
    }
    let missing = VarDecl::Array(Box::new(VarDecl::Ident("z".to_string())), Exp::Ident("k".to_string()));
    assert!(flatten_var_decl(&missing, &bg).is_none());
}

#[test]
fn the_runtime_has_eight_functions() {
    let fs = static_functions();
    let names: Vec<&str> = fs.iter().map(|f| f.0).collect();
    assert_eq!(names, vec!["getint", "getch", "getarray", "putint", "putch", "putarray", "starttime", "stoptime"]);
}

#[test]
fn unary_operators_compare_or_subtract_from_zero() {
    let mut bg = Background::new();
    let r = gen_unary_koopa_ir(&UnaryOp::Neg, "%7".to_string(), &mut bg);
    assert_eq!(r.value, Some("%0".to_string()));
    assert_eq!(r.content.to_wrapped_string(), "\t%0 = sub 0, %7");
    let r = gen_unary_koopa_ir(&UnaryOp::Not, "%0".to_string(), &mut bg);
    assert_eq!(r.content.to_wrapped_string(), "\t%1 = eq %0, 0");
}

#[test]
fn constants_fold_with_the_names_in_scope() {
    let mut bg = Background::new();
    bg.set_constant("n".to_string(), 6);
    let e = Exp::BinaryExp(
        compile_sysy::lalr::BinaryOp::Mul,
        Box::new(Exp::Ident("n".to_string())),
        Box::new(Exp::UnaryExp(UnaryOp::Neg, Box::new(Exp::Number(7)))),
    );
    assert_eq!(e.try_eval_const(&bg), Some(-42));
    assert_eq!(Exp::Ident("m".to_string()).try_eval_const(&bg), None);
}
