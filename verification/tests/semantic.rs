use compile_sysy::lalr::{
    BType, BinaryOp, CompUnit, Exp, FuncDef, FuncParam, GlobalDef, InitVal, SingleDecl, Stmt,
    StructDef, StructField, Type, VarDecl,
};

fn int_ty() -> Type {
    Type::BType(BType::I32)
}

fn num(n: i32) -> Exp {
    Exp::Number(n)
}

fn ident(n: &str) -> Exp {
    Exp::Ident(n.to_string())
}

fn decl(ty: Type, name: &str, init: Option<Exp>) -> Stmt {
    Stmt::Decl(
        ty,
        vec![SingleDecl { span: None, var: VarDecl::Ident(name.to_string()), init: init.map(InitVal::Exp) }],
    )
}

fn func(name: &str, is_async: bool, ret: BType, params: Vec<FuncParam>, block: Vec<Stmt>) -> GlobalDef {
    GlobalDef::FuncDef(FuncDef {
        span: None,
        is_async,
        func_type: Type::BType(ret),
        ident: name.to_string(),
        func_params: params,
        block,
    })
}

fn main_returning(block: Vec<Stmt>) -> GlobalDef {
    func("main", false, BType::I32, vec![], block)
}

fn structure(name: &str, fields: Vec<(BType, &str)>) -> GlobalDef {
    GlobalDef::StructDef(StructDef {
        span: None,
        name: name.to_string(),
        fields: fields
            .into_iter()
            .map(|(ty, n)| StructField {
                span: None,
                ty: Type::BType(ty),
                decls: vec![SingleDecl { span: None, var: VarDecl::Ident(n.to_string()), init: None }],
            })
            .collect(),
    })
}

fn program(defs: Vec<GlobalDef>) -> CompUnit {
    CompUnit { global_defs: defs }
}

fn message(unit: &CompUnit) -> String {
    unit.validate_semantics().expect_err("program should be rejected").message
}

#[test]
fn a_simple_program_is_accepted() {
    let unit = program(vec![main_returning(vec![
        decl(int_ty(), "x", Some(num(1))),
        Stmt::Assign(ident("x"), Exp::BinaryExp(BinaryOp::Add, Box::new(ident("x")), Box::new(num(2)))),
        Stmt::Return(Some(ident("x"))),
    ])]);
    assert!(unit.validate_semantics().is_ok());
    assert!(unit.validate_async_syntax().is_ok());
}

#[test]
fn a_value_function_must_return_on_every_path() {
    let unit = program(vec![main_returning(vec![Stmt::If(num(1), Box::new(Stmt::Return(Some(num(0)))))])]);
    assert_eq!(message(&unit), "Function returning int may fall through without return");
}

#[test]
fn both_branches_returning_is_enough() {
    let unit = program(vec![main_returning(vec![Stmt::IfElse(
        num(1),
        Box::new(Stmt::Return(Some(num(0)))),
        Box::new(Stmt::Block(vec![Stmt::Return(Some(num(1)))])),
    )])]);
    assert!(unit.validate_semantics().is_ok());
}

#[test]
fn unknown_identifiers_are_rejected() {
    let unit = program(vec![main_returning(vec![Stmt::Return(Some(ident("y")))])]);
    assert_eq!(message(&unit), "Unknown identifier y");
}

#[test]
fn a_local_may_not_be_defined_twice_in_one_scope() {
    let unit = program(vec![main_returning(vec![
        decl(int_ty(), "x", None),
        decl(int_ty(), "x", None),
        Stmt::Return(Some(num(0))),
    ])]);
    assert_eq!(message(&unit), "Duplicate local definition: x");
    let shadowed = program(vec![main_returning(vec![
        decl(int_ty(), "x", None),
        Stmt::Block(vec![decl(int_ty(), "x", None)]),
        Stmt::Return(Some(num(0))),
    ])]);
    assert!(shadowed.validate_semantics().is_ok());
}

#[test]
fn break_outside_a_loop_is_rejected() {
    let unit = program(vec![main_returning(vec![Stmt::Break, Stmt::Return(Some(num(0)))])]);
    assert_eq!(message(&unit), "break/continue used outside a loop");
    let in_loop = program(vec![main_returning(vec![
        Stmt::While(num(1), Box::new(Stmt::Block(vec![Stmt::Break]))),
        Stmt::Return(Some(num(0))),
    ])]);
    assert!(in_loop.validate_semantics().is_ok());
}

#[test]
fn duplicate_structs_are_rejected() {
    let unit = program(vec![
        structure("S", vec![(BType::I32, "a")]),
        structure("S", vec![(BType::I32, "b")]),
        main_returning(vec![Stmt::Return(Some(num(0)))]),
    ]);
    assert_eq!(message(&unit), "Duplicate struct definition: S");
}

#[test]
fn duplicate_fields_are_rejected() {
    let unit = program(vec![
        structure("S", vec![(BType::I32, "a"), (BType::I32, "a")]),
        main_returning(vec![Stmt::Return(Some(num(0)))]),
    ]);
    assert_eq!(message(&unit), "Duplicate field a in struct S");
}

#[test]
fn structs_that_hold_each_other_are_rejected() {
    let unit = program(vec![
        structure("A", vec![(BType::Struct("B".to_string()), "b")]),
        structure("B", vec![(BType::Array(2, Box::new(BType::Struct("A".to_string()))), "items")]),
        main_returning(vec![Stmt::Return(Some(num(0)))]),
    ]);
    assert_eq!(message(&unit), "Cyclic struct definition detected through field B.items: A -> B -> A");
}

#[test]
fn structs_holding_pointers_to_themselves_are_accepted() {
    let unit = program(vec![
        structure("Node", vec![(BType::I32, "v"), (BType::Ptr(Box::new(BType::Struct("Node".to_string()))), "next")]),
        main_returning(vec![Stmt::Return(Some(num(0)))]),
    ]);
    assert!(unit.validate_semantics().is_ok());
}

#[test]
fn unknown_struct_types_are_rejected() {
    let unit = program(vec![
        structure("A", vec![(BType::Struct("Missing".to_string()), "m")]),
        main_returning(vec![Stmt::Return(Some(num(0)))]),
    ]);
    assert_eq!(message(&unit), "Unknown struct type Missing");
}

#[test]
fn globals_may_not_reuse_runtime_names() {
    let unit = program(vec![
        GlobalDef::GlobalDecl(int_ty(), vec![SingleDecl { span: None, var: VarDecl::Ident("getint".to_string()), init: None }]),
        main_returning(vec![Stmt::Return(Some(num(0)))]),
    ]);
    assert_eq!(message(&unit), "Duplicate global definition: getint");
}

#[test]
fn functions_may_not_be_defined_twice() {
    let unit = program(vec![
        main_returning(vec![Stmt::Return(Some(num(0)))]),
        main_returning(vec![Stmt::Return(Some(num(1)))]),
    ]);
    assert_eq!(message(&unit), "Duplicate function definition: main");
}

#[test]
fn duplicate_parameters_are_rejected() {
    let p = |n: &str| FuncParam { btype: BType::I32, name: n.to_string(), array_dims: None };
    let unit = program(vec![func("f", false, BType::Void, vec![p("a"), p("a")], vec![])]);
    assert_eq!(message(&unit), "Duplicate parameter a in function f");
}

#[test]
fn calls_check_their_arguments() {
    let unit = program(vec![main_returning(vec![
        Stmt::Exp(Exp::FuncCall("putint".to_string(), vec![])),
        Stmt::Return(Some(num(0))),
    ])]);
    assert_eq!(message(&unit), "Function putint expects 1 argument(s), got 0");
    let ok = program(vec![main_returning(vec![
        Stmt::Exp(Exp::FuncCall("putint".to_string(), vec![num(3)])),
        Stmt::Return(Some(Exp::FuncCall("getint".to_string(), vec![]))),
    ])]);
    assert!(ok.validate_semantics().is_ok());
}

#[test]
fn a_promise_must_be_consumed() {
    let promise = Type::BType(BType::Promise(Box::new(BType::I32)));
    let unit = program(vec![
        func("task", true, BType::I32, vec![], vec![Stmt::Return(Some(num(1)))]),
        func(
            "main",
            true,
            BType::I32,
            vec![],
            vec![decl(promise, "p", Some(Exp::FuncCall("task".to_string(), vec![]))), Stmt::Return(Some(num(0)))],
        ),
    ]);
    assert_eq!(
        message(&unit),
        "Promise variable p must be awaited or explicitly blocked with Promise.wait()"
    );
}

#[test]
fn an_awaited_promise_is_consumed() {
    let promise = Type::BType(BType::Promise(Box::new(BType::I32)));
    let unit = program(vec![
        func("task", true, BType::I32, vec![], vec![Stmt::Return(Some(num(1)))]),
        func(
            "main",
            true,
            BType::I32,
            vec![],
            vec![
                decl(promise, "p", Some(Exp::FuncCall("task".to_string(), vec![]))),
                Stmt::Return(Some(Exp::Await(Box::new(ident("p"))))),
            ],
        ),
    ]);
    assert!(unit.validate_semantics().is_ok());
}

#[test]
fn await_outside_async_functions_is_rejected() {
    let unit = program(vec![
        func("task", true, BType::I32, vec![], vec![Stmt::Return(Some(num(1)))]),
        main_returning(vec![Stmt::Return(Some(Exp::Await(Box::new(Exp::FuncCall("task".to_string(), vec![])))))]),
    ]);
    assert_eq!(message(&unit), "await is only allowed inside async functions");
}

#[test]
fn local_constants_size_arrays() {
    let unit = program(vec![main_returning(vec![
        decl(Type::Const(BType::I32), "n", Some(num(3))),
        Stmt::Decl(
            int_ty(),
            vec![SingleDecl {
                span: None,
                var: VarDecl::Array(Box::new(VarDecl::Ident("a".to_string())), ident("n")),
                init: Some(InitVal::Arr(vec![InitVal::Exp(num(1)), InitVal::Exp(num(2))])),
            }],
        ),
        Stmt::Return(Some(Exp::ArrGet(Box::new(ident("a")), Box::new(num(0))))),
    ])]);
    assert!(unit.validate_semantics().is_ok());
    let too_many = program(vec![main_returning(vec![
        Stmt::Decl(
            int_ty(),
            vec![SingleDecl {
                span: None,
                var: VarDecl::Array(Box::new(VarDecl::Ident("a".to_string())), num(1)),
                init: Some(InitVal::Arr(vec![InitVal::Exp(num(1)), InitVal::Exp(num(2))])),
            }],
        ),
        Stmt::Return(Some(num(0))),
    ])]);
    assert_eq!(message(&too_many), "Too many initializer values for int[1]");
}
