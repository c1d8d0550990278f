use compile_sysy::lalr::{BType, Exp, FuncDef, FuncParam, SingleDecl, Stmt, Type, UnaryOp, VarDecl};
use compile_sysy::llvm::module::ModuleCtx;
use compile_sysy::llvm::type_env::{collect_function_type_env, infer_exp_type};
use compile_sysy::llvm::types::LlvmType;
use compile_sysy::table::Table;

fn env_with_locals() -> Table<LlvmType> {
    let mut env = Table::new();
    env.insert("p".to_string(), LlvmType::Ptr(Box::new(LlvmType::I32)));
    env.insert("a".to_string(), LlvmType::Array(3, Box::new(LlvmType::I32)));
    env
}

#[test]
fn expression_types_follow_pointers_and_arrays() {
    let module = ModuleCtx::new();
    let env = env_with_locals();
    let deref = Exp::UnaryExp(UnaryOp::Deref, Box::new(Exp::Ident("p".to_string())));
    assert!(matches!(infer_exp_type(&module, &env, &deref), Some(LlvmType::I32)));
    let elem = Exp::ArrGet(Box::new(Exp::Ident("a".to_string())), Box::new(Exp::Number(0)));
    assert!(matches!(infer_exp_type(&module, &env, &elem), Some(LlvmType::I32)));
    let addr = Exp::UnaryExp(UnaryOp::Addr, Box::new(Exp::Ident("a".to_string())));
    match infer_exp_type(&module, &env, &addr) {
        Some(LlvmType::Ptr(inner)) => assert!(matches!(*inner, LlvmType::Array(3, _))),
        other => panic!("unexpected type {:?}", other),
    }
    match infer_exp_type(&module, &env, &Exp::Sleep(Box::new(Exp::Number(5)))) {
        Some(LlvmType::Promise(inner)) => assert!(matches!(*inner, LlvmType::Void)),
        other => panic!("unexpected type {:?}", other),
    }
    assert!(infer_exp_type(&module, &env, &Exp::Ident("q".to_string())).is_none());
    let bad = Exp::UnaryExp(UnaryOp::Deref, Box::new(Exp::Number(1)));
    assert!(infer_exp_type(&module, &env, &bad).is_none());
}

#[test]
fn a_function_env_lists_parameters_then_locals() {
    let module = ModuleCtx::new();
    let func = FuncDef {
        span: None,
        is_async: true,
        func_type: Type::BType(BType::I32),
        ident: "f".to_string(),
        func_params: vec![FuncParam { btype: BType::I32, name: "n".to_string(), array_dims: None }],
        block: vec![Stmt::Decl(
            Type::BType(BType::I32),
            vec![SingleDecl {
                span: None,
                var: VarDecl::Array(Box::new(VarDecl::Ident("buf".to_string())), Exp::Number(4)),
                init: None,
            }],
        )],
    };
    let env = collect_function_type_env(&module, &func).unwrap();
    assert_eq!(env.entries.len(), 2);
    assert_eq!(env.entries[0].0, "n");
    assert!(matches!(env.entries[0].1, LlvmType::I32));
    assert_eq!(env.entries[1].0, "buf");
    assert!(matches!(env.entries[1].1, LlvmType::Array(4, _)));
}
