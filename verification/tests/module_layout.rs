use compile_sysy::lalr::{BType, Exp, SingleDecl, StructDef, StructField, Type, VarDecl};
use compile_sysy::llvm::module::ModuleCtx;

fn ident_decl(name: &str) -> SingleDecl {
    SingleDecl {
        span: None,
        var: VarDecl::Ident(name.to_string()),
        init: None,
    }
}

#[test]
fn resolve_struct_layouts_reports_unknown_struct() {
    let mut module = ModuleCtx::new();
    module.structs.insert(
        "holder".to_string(),
        StructDef {
            span: None,
            name: "holder".to_string(),
            fields: vec![StructField {
                span: None,
                ty: Type::BType(BType::Struct("missing".to_string())),
                decls: vec![ident_decl("value")],
            }],
        },
    );

    let err = module.resolve_struct_layouts().unwrap_err();
    assert!(err.contains("Unknown struct type missing"));
}

#[test]
fn resolve_struct_layouts_reports_nested_array_struct_cycle() {
    let mut module = ModuleCtx::new();
    module.structs.insert(
        "node".to_string(),
        StructDef {
            span: None,
            name: "node".to_string(),
            fields: vec![StructField {
                span: None,
                ty: Type::BType(BType::Struct("node".to_string())),
                decls: vec![SingleDecl {
                    span: None,
                    var: VarDecl::Array(
                        Box::new(VarDecl::Ident("children".to_string())),
                        Exp::Number(2),
                    ),
                    init: None,
                }],
            }],
        },
    );

    let err = module.resolve_struct_layouts().unwrap_err();
    assert!(err.contains("Cyclic struct definition detected: node"));
}
