use compile_sysy::lalr::{BType, BinaryOp, Exp, FuncDef, InitVal, SingleDecl, Stmt, Type, VarDecl};
use compile_sysy::llvm::async_cfg::build_async_cfg;
use compile_sysy::llvm::async_lower::{async_frame_layout, collect_await_points, rename_async_locals};
use compile_sysy::llvm::module::ModuleCtx;
use compile_sysy::llvm::types::LlvmType;
use compile_sysy::syntax::var_decl_name;
use compile_sysy::table::{NameSet, Table};

fn decl(name: &str, value: i32) -> Stmt {
    Stmt::Decl(
        Type::BType(BType::I32),
        vec![SingleDecl {
            span: None,
            var: VarDecl::Ident(name.to_string()),
            init: Some(InitVal::Exp(Exp::Number(value))),
        }],
    )
}

fn collect_decl_names(stmts: &[Stmt], names: &mut Vec<String>) {
    for stmt in stmts {
        match stmt {
            Stmt::Spanned(stmt, _) => collect_decl_names(std::slice::from_ref(stmt.as_ref()), names),
            Stmt::Block(stmts) => collect_decl_names(stmts, names),
            Stmt::Decl(_, decls) => {
                for decl in decls {
                    names.push(var_decl_name(&decl.var));
                }
            }
            Stmt::If(_, then_stmt) => collect_decl_names(std::slice::from_ref(then_stmt), names),
            Stmt::IfElse(_, then_stmt, else_stmt) => {
                collect_decl_names(std::slice::from_ref(then_stmt), names);
                collect_decl_names(std::slice::from_ref(else_stmt), names);
            }
            Stmt::While(_, body) => collect_decl_names(std::slice::from_ref(body), names),
            Stmt::Assign(_, _)
            | Stmt::Exp(_)
            | Stmt::PromiseWait(_)
            | Stmt::Continue
            | Stmt::Break
            | Stmt::Return(_)
            | Stmt::Empty => {}
        }
    }
}

#[test]
fn frame_layout_uses_live_across_await_only() {
    let module = ModuleCtx::new();
    let func = FuncDef {
        span: None,
        is_async: true,
        func_type: Type::BType(BType::I32),
        ident: "keep_live".to_string(),
        func_params: Vec::new(),
        block: vec![
            decl("live", 21),
            decl("dead", 7),
            Stmt::Exp(Exp::Await(Box::new(Exp::Sleep(Box::new(Exp::Number(1)))))),
            Stmt::Return(Some(Exp::BinaryExp(
                BinaryOp::Mul,
                Box::new(Exp::Ident("live".to_string())),
                Box::new(Exp::Number(2)),
            ))),
        ],
    };
    let lowered = rename_async_locals(&func);
    let cfg = build_async_cfg(&lowered);
    let mut frame_locals = NameSet::new();
    for live in cfg.live_across_awaits() {
        for var in live.vars {
            frame_locals.insert(var);
        }
    }
    let layout = async_frame_layout(
        &module,
        "%async.frame.keep_live",
        &Vec::new(),
        &lowered.block,
        &frame_locals,
        &Table::new(),
        cfg.await_points().len(),
    )
    .expect("frame layout should be valid");

    assert!(layout.fields.entries.iter().any(|(name, _)| name.ends_with("_live")));
    assert!(!layout.fields.entries.iter().any(|(name, _)| name.ends_with("_dead")));
}

#[test]
fn local_renaming_distinguishes_shadowed_names() {
    let func = FuncDef {
        span: None,
        is_async: true,
        func_type: Type::BType(BType::I32),
        ident: "shadow".to_string(),
        func_params: Vec::new(),
        block: vec![
            decl("x", 30),
            Stmt::Block(vec![decl("x", 5), Stmt::Return(Some(Exp::Ident("x".to_string())))]),
        ],
    };
    let lowered = rename_async_locals(&func);
    let mut names = Vec::new();
    collect_decl_names(&lowered.block, &mut names);

    assert_eq!(names.len(), 2);
    assert_ne!(names[0], names[1]);
    assert!(names.iter().all(|name| name.starts_with("__sysy_local_")));
}

#[test]
fn renaming_numbers_locals_and_resolves_the_innermost_binding() {
    let func = FuncDef {
        span: None,
        is_async: true,
        func_type: Type::BType(BType::I32),
        ident: "shadow".to_string(),
        func_params: Vec::new(),
        block: vec![
            decl("x", 30),
            Stmt::Block(vec![decl("x", 5), Stmt::Return(Some(Exp::Ident("x".to_string())))]),
            Stmt::Return(Some(Exp::Ident("x".to_string()))),
        ],
    };
    let lowered = rename_async_locals(&func);
    let mut names = Vec::new();
    collect_decl_names(&lowered.block, &mut names);
    assert_eq!(names, vec!["__sysy_local_0_x".to_string(), "__sysy_local_1_x".to_string()]);
    match &lowered.block[1] {
        Stmt::Block(inner) => match &inner[1] {
            Stmt::Return(Some(Exp::Ident(n))) => assert_eq!(n, "__sysy_local_1_x"),
            _ => panic!("inner return"),
        },
        _ => panic!("block"),
    }
    match &lowered.block[2] {
        Stmt::Return(Some(Exp::Ident(n))) => assert_eq!(n, "__sysy_local_0_x"),
        _ => panic!("outer return"),
    }
}

#[test]
fn frame_has_promise_params_awaits_and_return_in_order() {
    let module = ModuleCtx::new();
    let params = vec![("p".to_string(), LlvmType::I32)];
    let layout = async_frame_layout(
        &module,
        "%frame",
        &params,
        &Vec::new(),
        &NameSet::new(),
        &Table::new(),
        2,
    )
    .expect("valid");
    let names: Vec<String> = layout.ordered_fields.iter().map(|(n, _)| n.clone()).collect();
    assert_eq!(names, vec!["__promise", "p", "__await0", "__await1", "__return"]);
    // promise 8, p 4, the await slots 8 each at offsets 16 and 24, return 4 at 32: 36 rounded up to 40
    assert_eq!(layout.size, 40);
    assert_eq!(layout.frame_name, "%frame");
}

#[test]
fn await_points_name_their_slots_and_continuations() {
    let func = FuncDef {
        span: None,
        is_async: true,
        func_type: Type::BType(BType::I32),
        ident: "f".to_string(),
        func_params: Vec::new(),
        block: vec![
            Stmt::Exp(Exp::Await(Box::new(Exp::Sleep(Box::new(Exp::Number(1)))))),
            Stmt::Exp(Exp::Await(Box::new(Exp::Sleep(Box::new(Exp::Number(2)))))),
        ],
    };
    let cfg = build_async_cfg(&func);
    let infos = collect_await_points(&ModuleCtx::new(), "f", &cfg);
    assert_eq!(infos.len(), 2);
    assert_eq!(infos[1].state, 2);
    assert_eq!(infos[1].child_field, "__await1");
    assert_eq!(infos[1].callback_name, "__sysy_async_cont_f_2");
    assert_eq!(infos[0].result_target, None);
}
