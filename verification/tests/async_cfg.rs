use compile_sysy::lalr::{BType, BinaryOp, Exp, FuncDef, FuncParam, InitVal, SingleDecl, Stmt, Type, VarDecl};
use compile_sysy::llvm::async_cfg::{build_async_cfg, build_top_level_async_cfg, block_use_def, AsyncTerminator};

fn call(name: &str) -> Exp {
    Exp::FuncCall(name.to_string(), Vec::new())
}

#[test]
fn cfg_splits_loop_and_short_circuit_awaits() {
    let func = FuncDef {
        span: None,
        is_async: true,
        func_type: Type::BType(BType::I32),
        ident: "f".to_string(),
        func_params: Vec::<FuncParam>::new(),
        block: vec![
            Stmt::While(
                Exp::Await(Box::new(call("tick"))),
                Box::new(Stmt::Block(vec![Stmt::If(
                    Exp::BinaryExp(
                        BinaryOp::And,
                        Box::new(Exp::Await(Box::new(call("lhs")))),
                        Box::new(Exp::Await(Box::new(call("rhs")))),
                    ),
                    Box::new(Stmt::Break),
                )])),
            ),
            Stmt::Return(Some(Exp::Number(0))),
        ],
    };

    let cfg = build_async_cfg(&func);
    let await_count = cfg
        .blocks
        .iter()
        .filter(|block| matches!(block.terminator, AsyncTerminator::Await(_)))
        .count();
    let branch_count = cfg
        .blocks
        .iter()
        .filter(|block| matches!(block.terminator, AsyncTerminator::Branch { .. }))
        .count();
    let jump_count = cfg
        .blocks
        .iter()
        .filter(|block| matches!(block.terminator, AsyncTerminator::Jump(_)))
        .count();

    assert_eq!(await_count, 3);
    assert!(branch_count >= 2);
    assert!(jump_count >= 2);
}

#[test]
fn cfg_liveness_tracks_values_used_after_await() {
    let func = FuncDef {
        span: None,
        is_async: true,
        func_type: Type::BType(BType::I32),
        ident: "f".to_string(),
        func_params: Vec::<FuncParam>::new(),
        block: vec![
            Stmt::Decl(
                Type::BType(BType::I32),
                vec![SingleDecl {
                    span: None,
                    var: VarDecl::Ident("x".to_string()),
                    init: Some(InitVal::Exp(Exp::Number(7))),
                }],
            ),
            Stmt::Exp(Exp::Await(Box::new(call("tick")))),
            Stmt::Return(Some(Exp::Ident("x".to_string()))),
        ],
    };

    let cfg = build_async_cfg(&func);
    let live = cfg.live_across_awaits();

    assert_eq!(live.len(), 1);
    assert_eq!(live[0].state, 1);
    assert_eq!(live[0].vars, vec!["x".to_string()]);
}

#[test]
fn liveness_lists_names_in_ascending_order_and_drops_redefined_ones() {
    let decl = |name: &str| {
        Stmt::Decl(
            Type::BType(BType::I32),
            vec![SingleDecl { span: None, var: VarDecl::Ident(name.to_string()), init: Some(InitVal::Exp(Exp::Number(1))) }],
        )
    };
    let func = FuncDef {
        span: None,
        is_async: true,
        func_type: Type::BType(BType::I32),
        ident: "g".to_string(),
        func_params: Vec::new(),
        block: vec![
            decl("zeta"),
            decl("alpha"),
            decl("mid"),
            Stmt::Exp(Exp::Await(Box::new(call("tick")))),
            Stmt::Assign(Exp::Ident("mid".to_string()), Exp::Number(3)),
            Stmt::Return(Some(Exp::BinaryExp(
                BinaryOp::Add,
                Box::new(Exp::BinaryExp(
                    BinaryOp::Add,
                    Box::new(Exp::Ident("zeta".to_string())),
                    Box::new(Exp::Ident("alpha".to_string())),
                )),
                Box::new(Exp::Ident("mid".to_string())),
            ))),
        ],
    };
    let cfg = build_async_cfg(&func);
    let live = cfg.live_across_awaits();
    assert_eq!(live.len(), 1);
    assert_eq!(live[0].vars, vec!["alpha".to_string(), "zeta".to_string()]);
}

#[test]
fn awaited_value_gets_a_fresh_temporary() {
    let func = FuncDef {
        span: None,
        is_async: true,
        func_type: Type::BType(BType::I32),
        ident: "h".to_string(),
        func_params: Vec::new(),
        block: vec![Stmt::Return(Some(Exp::Await(Box::new(call("tick")))))],
    };
    let cfg = build_async_cfg(&func);
    let points = cfg.await_points();
    assert_eq!(points.len(), 1);
    assert_eq!(points[0].state, 1);
    assert_eq!(points[0].result_target, Some("__sysy_cfg_await_tmp_0".to_string()));
    let resume = points[0].resume_block;
    match &cfg.blocks[resume].terminator {
        AsyncTerminator::Return(Some(Exp::Ident(name))) => assert_eq!(name, "__sysy_cfg_await_tmp_0"),
        _ => panic!("the resumed block returns the temporary"),
    }
    let (uses, defs) = block_use_def(&cfg.blocks[resume]);
    assert_eq!(uses.names, vec!["__sysy_cfg_await_tmp_0".to_string()]);
    assert!(defs.names.is_empty());
}

#[test]
fn top_level_cfg_has_one_block_per_awaiting_statement() {
    let func = FuncDef {
        span: None,
        is_async: true,
        func_type: Type::BType(BType::Void),
        ident: "k".to_string(),
        func_params: Vec::new(),
        block: vec![
            Stmt::Exp(Exp::Await(Box::new(call("a")))),
            Stmt::Exp(call("plain")),
            Stmt::Assign(Exp::Ident("v".to_string()), Exp::Await(Box::new(call("b")))),
        ],
    };
    let cfg = build_top_level_async_cfg(&func);
    assert_eq!(cfg.blocks.len(), 3);
    match &cfg.blocks[1].terminator {
        AsyncTerminator::Await(a) => {
            assert_eq!(a.state, 2);
            assert_eq!(a.resume_stmt_index, 3);
            assert_eq!(a.result_target, Some("v".to_string()));
        }
        _ => panic!("second block suspends"),
    }
    assert_eq!(cfg.blocks[1].ops.len(), 1);
    assert!(matches!(cfg.blocks[2].terminator, AsyncTerminator::Return(None)));
}
