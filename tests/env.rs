use trsc::type_env::{Alias, ModName, NodeAssign, TensorScriptDiagnostic, TensorTy, Term, TyFnAppArg, TypeEnv};
use trsc::types::{Span, Type};

fn sp() -> Span {
    Span::new(0, 0)
}

fn var(s: &str) -> Alias {
    Alias::Variable(s.to_string())
}

fn strs(v: &[&str]) -> Vec<String> {
    v.iter().map(|s| s.to_string()).collect()
}

#[test]
fn fresh_variables_count_up() {
    let mut env = TypeEnv::new();
    assert_eq!(env.fresh_var(&sp()), Type::Var(1, sp()));
    assert_eq!(env.fresh_dim(&sp()), Type::Dim(2, sp()));
    assert_eq!(env.fresh_var(&sp()), Type::Var(3, sp()));
}

#[test]
fn add_and_resolve() {
    let mut env = TypeEnv::new();
    let g = ModName::Global;
    assert!(env.add_type(&g, &var("x"), Type::Int(sp())).is_ok());
    assert_eq!(env.resolve_type(&g, &var("x")), Some(Type::Int(sp())));
    let m = ModName::Named("lin".to_string());
    env.upsert_module(&m);
    assert_eq!(env.resolve_type(&m, &var("x")), Some(Type::Int(sp())));
    assert_eq!(env.resolve_type(&m, &var("y")), None);
    assert!(env.alias_exists(&g, &var("x")));
    assert!(!env.alias_exists(&m, &var("x")));
}

#[test]
fn duplicate_in_scope_is_reported() {
    let mut env = TypeEnv::new();
    let g = ModName::Global;
    env.add_type(&g, &var("x"), Type::Int(sp())).unwrap();
    match env.add_type(&g, &var("x"), Type::Float(sp())) {
        Err(TensorScriptDiagnostic::DuplicateVarInScope(name, orig, new)) => {
            assert_eq!(name, "x");
            assert_eq!(orig, Type::Int(sp()));
            assert_eq!(new, Type::Float(sp()));
        }
        _ => panic!("expected a duplicate"),
    }
    assert_eq!(env.resolve_type(&g, &var("x")), Some(Type::Int(sp())));
    env.add_type_allow_dup(&g, &var("x"), Type::Bool(sp()));
    assert_eq!(env.resolve_type(&g, &var("x")), Some(Type::Bool(sp())));
}

#[test]
fn scopes_push_pop_and_collect() {
    let mut env = TypeEnv::new();
    let m = ModName::Named("net".to_string());
    env.upsert_module(&m);
    env.push_scope(&m);
    env.add_type(&m, &var("a"), Type::Int(sp())).unwrap();
    assert!(env.alias_exists(&m, &var("a")));
    env.pop_scope(&m);
    assert!(!env.alias_exists(&m, &var("a")));
    env.push_scope_collection(&m);
    assert_eq!(env.resolve_type(&m, &var("a")), Some(Type::Int(sp())));
}

#[test]
fn outer_binding_is_seen_first() {
    let mut env = TypeEnv::new();
    let m = ModName::Named("net".to_string());
    env.upsert_module(&m);
    env.add_type(&m, &var("a"), Type::Int(sp())).unwrap();
    env.push_scope(&m);
    env.add_type(&m, &var("a"), Type::Float(sp())).unwrap();
    assert_eq!(env.resolve_type(&m, &var("a")), Some(Type::Int(sp())));
}

#[test]
fn tensor_alias_declares_dimensions() {
    let mut env = TypeEnv::new();
    let g = ModName::Global;
    env.add_tsr_alias(&g, &var("T"), &strs(&["n", "28"]), &sp()).unwrap();
    let t = env.resolve_type(&g, &var("T")).unwrap();
    let ds = t.as_vec().unwrap();
    assert_eq!(ds.len(), 2);
    assert!(matches!(ds[0], Type::Dim(_, _)));
    assert_eq!(ds[1], Type::ResolvedDim(28, sp()));
    assert!(env.alias_exists(&g, &var("n")));
}

#[test]
fn create_tensor_splices_tensor_aliases() {
    let mut env = TypeEnv::new();
    let g = ModName::Global;
    env.add_resolved_dim_alias(&g, &var("k"), 5, &sp()).unwrap();
    env.add_tsr_alias(&g, &var("T"), &strs(&["k", "-3"]), &sp()).unwrap();
    let t = env.create_tensor(&g, &strs(&["T", "7", "k", "new"]), &sp());
    let ds = t.as_vec().unwrap();
    assert_eq!(ds.len(), 5);
    assert_eq!(ds[0], Type::ResolvedDim(5, sp()));
    assert_eq!(ds[1], Type::ResolvedDim(-3, sp()));
    assert_eq!(ds[2], Type::ResolvedDim(7, sp()));
    assert_eq!(ds[3], Type::ResolvedDim(5, sp()));
    assert!(matches!(ds[4], Type::Dim(_, _)));
}

#[test]
fn resolve_tensor_by_alias() {
    let mut env = TypeEnv::new();
    let g = ModName::Global;
    env.add_tsr_alias(&g, &var("T"), &strs(&["3"]), &sp()).unwrap();
    let t = env.resolve_tensor(&g, &TensorTy::Tensor("T".to_string(), Span::new(4, 5)), &sp());
    assert_eq!(t, Type::Tsr(vec![Type::ResolvedDim(3, sp())], sp()));
    assert_eq!(t.span().start, 4);
    let u = env.resolve_tensor(&g, &TensorTy::Generic(strs(&["2", "2"]), sp()), &sp());
    assert_eq!(u.as_rank(), 2);
}

#[test]
fn node_assign_and_top_level_signature() {
    let mut env = TypeEnv::new();
    let g = ModName::Global;
    let d = NodeAssign::Dimension { ident: "batch".to_string(), rhs: Term::Integer(32, sp()), span: sp() };
    env.import_node_assign(&g, &d).unwrap();
    assert_eq!(env.resolve_type(&g, &var("batch")), Some(Type::ResolvedDim(32, sp())));
    let t = NodeAssign::Tensor {
        ident: "img".to_string(),
        rhs: TensorTy::Generic(strs(&["batch", "c"]), sp()),
        span: sp(),
    };
    env.import_node_assign(&g, &t).unwrap();
    assert!(env.alias_exists(&g, &var("c")));
    env.import_top_level_ty_sig(&g, &TensorTy::Generic(strs(&["h", "10"]), sp())).unwrap();
    assert!(env.alias_exists(&g, &var("h")));
    assert!(!env.alias_exists(&g, &var("10")));
}

#[test]
fn inits_are_saved_per_module() {
    let mut env = TypeEnv::new();
    let m = ModName::Named("net".to_string());
    env.upsert_module(&m);
    env.add_init(&m, "fc1", vec![TyFnAppArg { name: Some("in".to_string()), arg: Type::ResolvedDim(10, sp()) }]);
    let got = env.resolve_init(&m, "fc1").unwrap();
    assert_eq!(got.len(), 1);
    assert_eq!(got[0].name.as_deref(), Some("in"));
    assert_eq!(got[0].arg, Type::ResolvedDim(10, sp()));
    assert!(env.resolve_init(&m, "fc2").is_none());
}

#[test]
fn module_import_and_prelude() {
    let mut env = TypeEnv::new();
    let fun = Type::Fun("view".to_string(), "forward".to_string(), Box::new(Type::Int(sp())), Box::new(Type::Int(sp())), sp());
    env.import_prelude(Some(vec![("forward".to_string(), fun.clone())])).unwrap();
    assert_eq!(env.resolve_type(&ModName::Global, &var("view")), Some(Type::Module("view".to_string(), None, sp())));
    let m = ModName::Named("view".to_string());
    assert_eq!(env.resolve_type(&m, &Alias::Function("forward".to_string())), Some(fun));
    assert!(env.import_module("nothing", None).is_none());
}

#[test]
fn unresolved_functions_need_a_known_module() {
    let env = TypeEnv::new();
    let u = Type::UnresolvedModuleFun("core".to_string(), "conv".to_string(), "forward".to_string(), Span::new(3, 4));
    match env.resolve_unresolved(&u, "forward", None) {
        Err(TensorScriptDiagnostic::SymbolNotFound(m, s)) => {
            assert_eq!(m, "conv");
            assert_eq!(s.start, 3);
        }
        _ => panic!("expected a missing symbol"),
    }
    assert_eq!(env.resolve_unresolved(&u, "forward", Some(Some(Type::Int(sp())))).unwrap(), Some(Type::Int(sp())));
}

#[test]
fn current_module_and_unverified() {
    let mut env = TypeEnv::new();
    assert!(matches!(env.module(), ModName::Global));
    env.set_module(ModName::Named("a".to_string()));
    assert_eq!(env.module().as_str(), "a");
    env.add_unverified(Type::Int(sp()));
    env.add_unverified(Type::Int(Span::new(1, 1)));
    assert_eq!(Alias::Function("f".to_string()).as_str(), "f");
}

#[test]
fn create_tensor_stamps_its_span() {
    let mut env = TypeEnv::new();
    let g = ModName::Global;
    let t = env.create_tensor(&g, &strs(&["4", "fresh"]), &Span::new(11, 12));
    assert_eq!(t.span().start, 11);
    let ds = t.as_vec().unwrap();
    assert_eq!(ds[0].span().start, 11);
    assert_eq!(ds[1].span().start, 11);
}
