use compile_sysy::lalr::{BType, BinaryOp, CompUnit, Exp, FuncDef, GlobalDef, InitVal, SingleDecl, Stmt, Type};
use compile_sysy::lalr::VarDecl;

fn decl(name: &str, init: Exp) -> Stmt {
    Stmt::Decl(
        Type::BType(BType::I32),
        vec![SingleDecl { span: None, var: VarDecl::Ident(name.to_string()), init: Some(InitVal::Exp(init)) }],
    )
}

fn ident(n: &str) -> Exp {
    Exp::Ident(n.to_string())
}

fn async_main() -> FuncDef {
    FuncDef {
        span: None,
        is_async: true,
        func_type: Type::BType(BType::I32),
        ident: "main".to_string(),
        func_params: vec![],
        block: vec![
            decl("a", Exp::Number(1)),
            decl("b", Exp::Number(2)),
            Stmt::While(
                Exp::Number(1),
                Box::new(Stmt::Block(vec![Stmt::Exp(Exp::Await(Box::new(Exp::Sleep(Box::new(Exp::Number(1))))))])),
            ),
            decl("c", Exp::Await(Box::new(Exp::FuncCall("f".to_string(), vec![])))),
            Stmt::Return(Some(Exp::BinaryExp(BinaryOp::Add, Box::new(ident("a")), Box::new(ident("c"))))),
        ],
    }
}

#[test]
fn await_points_are_numbered_in_order_with_their_loop_flag() {
    let analysis = async_main().analyze_async();
    assert_eq!(analysis.name, "main");
    assert_eq!(analysis.await_points.len(), 2);
    assert_eq!(analysis.await_points[0].continuation_id, 1);
    assert!(analysis.await_points[0].in_loop);
    assert_eq!(analysis.await_points[1].continuation_id, 2);
    assert!(!analysis.await_points[1].in_loop);
}

#[test]
fn frame_candidates_are_declared_before_and_read_after_an_await() {
    let analysis = async_main().analyze_async();
    assert_eq!(analysis.frame_local_candidates, vec!["a".to_string(), "c".to_string()]);
}

#[test]
fn only_async_functions_are_analysed() {
    let sync = FuncDef {
        span: None,
        is_async: false,
        func_type: Type::BType(BType::Void),
        ident: "helper".to_string(),
        func_params: vec![],
        block: vec![],
    };
    let unit = CompUnit { global_defs: vec![GlobalDef::FuncDef(sync), GlobalDef::FuncDef(async_main())] };
    let analysis = unit.analyze_async();
    assert_eq!(analysis.functions.len(), 1);
    assert_eq!(analysis.functions[0].name, "main");
}
