use starpls::ids::{ExprId, StmtId};
use starpls::resolver::{BuiltinGlobals, Export, Resolver};
use starpls::scope::{
    BuiltinFunctionId, FunctionId, IntrinsicId, ScopeDef, ScopeHirId, Scopes, TextRange, TypeRefId,
};

fn declare(scopes: &mut Scopes, scope: usize, name: &str, def: ScopeDef) {
    let decls = &mut scopes.scopes[scope].declarations;
    match decls.iter_mut().find(|(n, _)| n == name) {
        Some((_, defs)) => defs.push(def),
        None => decls.push((name.to_string(), vec![def])),
    }
}

fn var(e: u32) -> ScopeDef {
    ScopeDef::Variable { expr: ExprId(e) }
}

fn no_globals() -> BuiltinGlobals {
    BuiltinGlobals { functions: vec![], variables: vec![] }
}

/// `x = 1\ndef f():\n    x = 2\n    return x\n`
fn shadowing_source() -> Scopes {
    let mut scopes = Scopes::new_module(TextRange::new(0, 38));
    let f = scopes.add_scope(0, ScopeHirId::Stmt(StmtId(1)), TextRange::new(6, 37));
    declare(&mut scopes, 0, "x", var(0));
    declare(&mut scopes, 0, "f", ScopeDef::Function(FunctionId(0)));
    declare(&mut scopes, f, "x", var(2));
    scopes
}

#[test]
fn lexical_shadowing() {
    let scopes = shadowing_source();
    let intrinsics = vec![];
    let globals = no_globals();
    let x = "x".to_string();
    let inner = Resolver::new_for_offset(&scopes, &intrinsics, &globals, 36);
    assert_eq!(inner.scope_chain, vec![1, 0]);
    assert_eq!(inner.resolve_name(&x), Some(vec![var(2)]));
    // At the end of the file (offset 38) the nearest-predecessor rule picks
    // `f`'s scope, which starts before the cursor, and past the end no scope
    // holds the cursor; the module-level `x` is seen from inside `x = 1` and
    // from the module scope.
    let top = Resolver::new_for_offset(&scopes, &intrinsics, &globals, 2);
    assert_eq!(top.scope_chain, vec![0]);
    assert_eq!(top.resolve_name(&x), Some(vec![var(0)]));
    let module = Resolver::new_for_module(&scopes, &intrinsics, &globals);
    assert_eq!(module.resolve_name(&x), Some(vec![var(0)]));
}

#[test]
fn shadowing_falls_through_to_parent() {
    let scopes = shadowing_source();
    let intrinsics = vec![];
    let globals = no_globals();
    let inner = Resolver::from_parts(&scopes, &intrinsics, &globals, Some(1));
    assert_eq!(
        inner.resolve_name(&"f".to_string()),
        Some(vec![ScopeDef::Function(FunctionId(0))])
    );
}

#[test]
fn nearest_predecessor_after_a_node() {
    // `def f():\n    y = 1\n    ` with the cursor after the body.
    let mut scopes = Scopes::new_module(TextRange::new(0, 30));
    let f = scopes.add_scope(0, ScopeHirId::Stmt(StmtId(0)), TextRange::new(0, 19));
    declare(&mut scopes, f, "y", var(1));
    let intrinsics = vec![];
    let globals = no_globals();
    let r = Resolver::new_for_offset(&scopes, &intrinsics, &globals, 24);
    assert_eq!(r.scope_chain, vec![1, 0]);
    assert_eq!(r.resolve_name(&"y".to_string()), Some(vec![var(1)]));
}

#[test]
fn offset_outside_every_scope_sees_only_builtins() {
    let scopes = shadowing_source();
    let intrinsics = vec![("len".to_string(), IntrinsicId(1))];
    let globals = no_globals();
    let r = Resolver::new_for_offset(&scopes, &intrinsics, &globals, 100);
    assert!(r.scope_chain.is_empty());
    assert_eq!(r.resolve_name(&"x".to_string()), None);
    assert_eq!(
        r.resolve_name(&"len".to_string()),
        Some(vec![ScopeDef::IntrinsicFunction(IntrinsicId(1))])
    );
}

#[test]
fn resolution_returns_all_declarations_in_order() {
    let mut scopes = Scopes::new_module(TextRange::new(0, 20));
    declare(&mut scopes, 0, "x", var(0));
    declare(&mut scopes, 0, "x", var(5));
    let intrinsics = vec![];
    let globals = no_globals();
    let r = Resolver::new_for_module(&scopes, &intrinsics, &globals);
    assert_eq!(r.resolve_name(&"x".to_string()), Some(vec![var(0), var(5)]));
    assert_eq!(r.resolve_export(&"x".to_string()), Some(Export::Variable(ExprId(5))));
}

#[test]
fn export_via_load() {
    // `PUBLIC = 1\n_private = 2\n`
    let mut scopes = Scopes::new_module(TextRange::new(0, 24));
    declare(&mut scopes, 0, "PUBLIC", var(0));
    declare(&mut scopes, 0, "_private", var(1));
    let intrinsics = vec![];
    let globals = no_globals();
    let public = "PUBLIC".to_string();
    let private = "_private".to_string();
    let missing = "missing".to_string();
    assert_eq!(
        Resolver::resolve_export_in_file(&scopes, &intrinsics, &globals, &public),
        Some(Export::Variable(ExprId(0)))
    );
    assert_eq!(
        Resolver::resolve_export_in_file(&scopes, &intrinsics, &globals, &private),
        Some(Export::Variable(ExprId(1)))
    );
    assert_eq!(Resolver::resolve_export_in_file(&scopes, &intrinsics, &globals, &missing), None);
}

#[test]
fn export_skips_non_exportable_and_builtins() {
    let mut scopes = Scopes::new_module(TextRange::new(0, 40));
    declare(&mut scopes, 0, "f", ScopeDef::Function(FunctionId(3)));
    declare(&mut scopes, 0, "p", ScopeDef::Parameter { func: FunctionId(3), index: 0 });
    let intrinsics = vec![("len".to_string(), IntrinsicId(1))];
    let globals = no_globals();
    let r = Resolver::new_for_module(&scopes, &intrinsics, &globals);
    assert_eq!(r.resolve_export(&"f".to_string()), Some(Export::Function(FunctionId(3))));
    assert_eq!(r.resolve_export(&"p".to_string()), None);
    assert_eq!(r.resolve_export(&"len".to_string()), None);
}

#[test]
fn builtin_fallback_glob() {
    let scopes = Scopes::new_module(TextRange::new(0, 10));
    let intrinsics = vec![];
    let globals = BuiltinGlobals {
        functions: vec![("glob".to_string(), BuiltinFunctionId(7))],
        variables: vec![],
    };
    let r = Resolver::new_for_module(&scopes, &intrinsics, &globals);
    assert_eq!(
        r.resolve_name(&"glob".to_string()),
        Some(vec![ScopeDef::BuiltinFunction(BuiltinFunctionId(7))])
    );
}

#[test]
fn builtin_priority_order() {
    let scopes = Scopes::new_module(TextRange::new(0, 10));
    let intrinsics = vec![("a".to_string(), IntrinsicId(1))];
    let globals = BuiltinGlobals {
        functions: vec![("a".to_string(), BuiltinFunctionId(2)), ("b".to_string(), BuiltinFunctionId(3))],
        variables: vec![
            ("a".to_string(), TypeRefId(4)),
            ("b".to_string(), TypeRefId(5)),
            ("c".to_string(), TypeRefId(6)),
        ],
    };
    let r = Resolver::new_for_module(&scopes, &intrinsics, &globals);
    assert_eq!(
        r.resolve_name(&"a".to_string()),
        Some(vec![ScopeDef::IntrinsicFunction(IntrinsicId(1))])
    );
    assert_eq!(
        r.resolve_name(&"b".to_string()),
        Some(vec![ScopeDef::BuiltinFunction(BuiltinFunctionId(3))])
    );
    assert_eq!(
        r.resolve_name(&"c".to_string()),
        Some(vec![ScopeDef::BuiltinVariable(TypeRefId(6))])
    );
    assert_eq!(r.resolve_name(&"d".to_string()), None);
}

#[test]
fn user_definition_hides_builtin() {
    let mut scopes = Scopes::new_module(TextRange::new(0, 10));
    declare(&mut scopes, 0, "glob", var(4));
    let intrinsics = vec![];
    let globals = BuiltinGlobals {
        functions: vec![("glob".to_string(), BuiltinFunctionId(7))],
        variables: vec![],
    };
    let r = Resolver::new_for_module(&scopes, &intrinsics, &globals);
    assert_eq!(r.resolve_name(&"glob".to_string()), Some(vec![var(4)]));
}

#[test]
fn names_closer_scope_and_first_declaration_win() {
    let mut scopes = shadowing_source();
    declare(&mut scopes, 0, "x", var(7));
    declare(&mut scopes, 0, "len", var(8));
    let intrinsics = vec![("len".to_string(), IntrinsicId(1)), ("str".to_string(), IntrinsicId(2))];
    let globals = BuiltinGlobals {
        functions: vec![("str".to_string(), BuiltinFunctionId(3))],
        variables: vec![("CONFIG".to_string(), TypeRefId(4))],
    };
    let r = Resolver::from_parts(&scopes, &intrinsics, &globals, Some(1));
    let module_names = r.module_names();
    assert_eq!(
        module_names,
        vec![
            ("x".to_string(), var(2)),
            ("f".to_string(), ScopeDef::Function(FunctionId(0))),
            ("len".to_string(), var(8)),
        ]
    );
    let names = r.names();
    assert_eq!(
        names,
        vec![
            ("x".to_string(), var(2)),
            ("f".to_string(), ScopeDef::Function(FunctionId(0))),
            ("len".to_string(), var(8)),
            ("str".to_string(), ScopeDef::IntrinsicFunction(IntrinsicId(2))),
            ("CONFIG".to_string(), ScopeDef::BuiltinVariable(TypeRefId(4))),
        ]
    );
    let top = Resolver::from_parts(&scopes, &intrinsics, &globals, Some(0));
    assert_eq!(top.module_names()[0], ("x".to_string(), var(0)));
}

#[test]
fn scope_chain_ends_at_module() {
    let mut scopes = Scopes::new_module(TextRange::new(0, 100));
    let a = scopes.add_scope(0, ScopeHirId::Stmt(StmtId(0)), TextRange::new(10, 90));
    let b = scopes.add_scope(a, ScopeHirId::Expr(ExprId(4)), TextRange::new(20, 30));
    let c = scopes.add_scope(0, ScopeHirId::Expr(ExprId(5)), TextRange::new(91, 99));
    assert_eq!(scopes.scope_chain(Some(b)), vec![b, a, 0]);
    assert_eq!(scopes.scope_chain(Some(c)), vec![c, 0]);
    assert_eq!(scopes.scope_chain(Some(0)), vec![0]);
    assert_eq!(scopes.scope_chain(None), Vec::<usize>::new());
    assert_eq!(scopes.scope_for_hir_id(ScopeHirId::Expr(ExprId(4))), Some(b));
    assert_eq!(scopes.scope_for_hir_id(ScopeHirId::Expr(ExprId(6))), None);
    let intrinsics = vec![];
    let globals = no_globals();
    let r = Resolver::new_for_expr(&scopes, &intrinsics, &globals, ExprId(4));
    assert_eq!(r.scope_chain, vec![b, a, 0]);
    // The innermost range wins; inside it, no narrower scope starts before 25.
    let r = Resolver::new_for_offset(&scopes, &intrinsics, &globals, 25);
    assert_eq!(r.scope_chain, vec![b, a, 0]);
    // Inside `a` but after `b`: `b` is the nearest predecessor.
    let r = Resolver::new_for_offset(&scopes, &intrinsics, &globals, 50);
    assert_eq!(r.scope_chain, vec![b, a, 0]);
}

#[test]
fn text_range_basics() {
    let outer = TextRange::new(2, 10);
    assert_eq!(outer.len(), 8);
    assert!(outer.contains_range(TextRange::new(2, 10)));
    assert!(outer.contains_range(TextRange::new(3, 4)));
    assert!(!outer.contains_range(TextRange::new(1, 4)));
}

#[test]
fn builtin_lookups_directly() {
    let mut scopes = Scopes::new_module(TextRange::new(0, 10));
    declare(&mut scopes, 0, "a", var(1));
    let intrinsics = vec![("a".to_string(), IntrinsicId(1))];
    let globals = BuiltinGlobals {
        functions: vec![("a".to_string(), BuiltinFunctionId(2))],
        variables: vec![("a".to_string(), TypeRefId(4)), ("v".to_string(), TypeRefId(5))],
    };
    let r = Resolver::new_for_module(&scopes, &intrinsics, &globals);
    // The scope's own `a` is not consulted by the builtin lookups.
    assert_eq!(
        r.resolve_name_in_builtins(&"a".to_string()),
        Some(vec![ScopeDef::IntrinsicFunction(IntrinsicId(1))])
    );
    assert_eq!(
        r.resolve_name_in_builtin_globals(&"a".to_string()),
        Some(vec![ScopeDef::BuiltinFunction(BuiltinFunctionId(2))])
    );
    assert_eq!(
        r.resolve_name_in_builtin_globals(&"v".to_string()),
        Some(vec![ScopeDef::BuiltinVariable(TypeRefId(5))])
    );
    assert_eq!(r.resolve_name_in_builtin_globals(&"w".to_string()), None);
}
