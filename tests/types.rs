use std::collections::HashSet;
use trsc::type_env::ModName;
use trsc::types::{Span, Type};

fn sp(a: u32) -> Span {
    Span::new(a, a)
}

#[test]
fn should_not_take_span_into_hash() {
    let mut h = HashSet::new();
    h.insert(Type::Var(1, Span::new(1, 1)));
    h.insert(Type::Var(1, Span::new(2, 2)));
    h.insert(Type::Var(2, Span::new(1, 1)));
    h.insert(Type::Var(2, Span::new(2, 2)));
    assert_eq!(h.len(), 2);
}

#[test]
fn equality_ignores_spans_but_not_structure() {
    let a = Type::Tsr(vec![Type::Dim(1, sp(1)), Type::ResolvedDim(28, sp(2))], sp(3));
    let b = Type::Tsr(vec![Type::Dim(1, sp(7)), Type::ResolvedDim(28, sp(8))], sp(9));
    assert_eq!(a, b);
    assert_ne!(Type::Dim(1, sp(0)), Type::ResolvedDim(1, sp(0)));
    assert_ne!(Type::Var(1, sp(0)), Type::Dim(1, sp(0)));
    assert_ne!(Type::Var(1, sp(0)), Type::Var(2, sp(0)));
    assert_ne!(
        Type::Tsr(vec![Type::ResolvedDim(3, sp(0))], sp(0)),
        Type::Tsr(vec![Type::ResolvedDim(3, sp(0)), Type::ResolvedDim(4, sp(0))], sp(0))
    );
}

#[test]
fn with_span_replaces_only_the_span() {
    let t = Type::Fun(
        "m".to_string(),
        "f".to_string(),
        Box::new(Type::Var(1, sp(1))),
        Box::new(Type::Int(sp(2))),
        sp(3),
    );
    let u = t.with_span(&Span::new(10, 20));
    assert_eq!(u, t);
    assert_eq!(u.span().start, 10);
    assert_eq!(u.span().end, 20);
    assert_eq!(t.span().start, 3);
}

#[test]
fn first_arg_ty_looks_through_functions() {
    let args = Type::FnArgs(
        vec![
            Type::FnArg(Some("x".to_string()), Box::new(Type::Int(sp(0))), sp(0)),
            Type::FnArg(None, Box::new(Type::Float(sp(0))), sp(0)),
        ],
        sp(0),
    );
    assert_eq!(args.first_arg_ty(), Some(Type::Int(sp(0))));
    let f = Type::Fun("m".to_string(), "f".to_string(), Box::new(args), Box::new(Type::Unit(sp(0))), sp(0));
    assert_eq!(f.first_arg_ty(), Some(Type::Int(sp(0))));
    assert_eq!(Type::Int(sp(0)).first_arg_ty(), None);
    assert_eq!(Type::FnArgs(vec![], sp(0)).first_arg_ty(), None);
}

#[test]
fn as_args_map_keeps_named_arguments() {
    let args = Type::FnArgs(
        vec![
            Type::FnArg(Some("x".to_string()), Box::new(Type::Int(sp(0))), sp(0)),
            Type::FnArg(None, Box::new(Type::Float(sp(0))), sp(0)),
            Type::FnArg(Some("y".to_string()), Box::new(Type::Bool(sp(0))), sp(0)),
        ],
        sp(0),
    );
    let m = args.as_args_map().unwrap();
    assert_eq!(m.len(), 2);
    assert_eq!(m[0].0, "x");
    assert_eq!(m[0].1, Type::Int(sp(0)));
    assert_eq!(m[1].0, "y");
    assert_eq!(m[1].1, Type::Bool(sp(0)));
    assert!(Type::Int(sp(0)).as_args_map().is_none());
}

#[test]
fn rank_num_and_vec() {
    let t = Type::Tsr(vec![Type::ResolvedDim(3, sp(0)), Type::Dim(2, sp(0))], sp(0));
    assert_eq!(t.as_rank(), 2);
    assert_eq!(t.as_vec().unwrap(), vec![Type::ResolvedDim(3, sp(0)), Type::Dim(2, sp(0))]);
    assert_eq!(Type::ResolvedDim(-5, sp(0)).as_num(), Some(-5));
    assert_eq!(Type::Dim(5, sp(0)).as_num(), None);
    assert!(Type::Int(sp(0)).as_vec().is_none());
}

#[test]
fn is_resolved_looks_everywhere() {
    assert!(Type::Int(sp(0)).is_resolved());
    assert!(!Type::Var(1, sp(0)).is_resolved());
    assert!(!Type::Tsr(vec![Type::ResolvedDim(3, sp(0)), Type::Dim(2, sp(0))], sp(0)).is_resolved());
    assert!(Type::Tsr(vec![Type::ResolvedDim(3, sp(0))], sp(0)).is_resolved());
    assert!(!Type::UnresolvedModuleFun("p".to_string(), "m".to_string(), "f".to_string(), sp(0)).is_resolved());
    let f = Type::Fun("m".to_string(), "f".to_string(), Box::new(Type::Int(sp(0))), Box::new(Type::Var(3, sp(0))), sp(0));
    assert!(!f.is_resolved());
    assert!(Type::Module("view".to_string(), None, sp(0)).is_resolved());
}

#[test]
fn as_string_renders_tensors() {
    let t = Type::Tsr(
        vec![Type::ResolvedDim(-12, sp(0)), Type::Dim(2, sp(0)), Type::ResolvedDim(28, sp(0))],
        sp(0),
    );
    assert_eq!(t.as_string(), "-12, -1, 28");
    assert_eq!(Type::ResolvedDim(0, sp(0)).as_string(), "0");
    assert_eq!(Type::Module("conv".to_string(), None, sp(0)).as_string(), "conv");
}

#[test]
fn as_mod_name_names_the_module() {
    let m = Type::Module("lin".to_string(), None, sp(0)).as_mod_name();
    assert_eq!(m.as_str(), "lin");
    assert!(matches!(m, ModName::Named(_)));
}

#[test]
fn as_args_map_last_argument_of_a_name_wins() {
    let args = Type::FnArgs(
        vec![
            Type::FnArg(Some("x".to_string()), Box::new(Type::Int(sp(0))), sp(0)),
            Type::FnArg(Some("y".to_string()), Box::new(Type::Bool(sp(0))), sp(0)),
            Type::FnArg(Some("x".to_string()), Box::new(Type::Float(sp(0))), sp(0)),
        ],
        sp(0),
    );
    let m = args.as_args_map().unwrap();
    assert_eq!(m.len(), 2);
    let x = m.iter().find(|p| p.0 == "x").unwrap();
    assert_eq!(x.1, Type::Float(sp(0)));
    let y = m.iter().find(|p| p.0 == "y").unwrap();
    assert_eq!(y.1, Type::Bool(sp(0)));
}

#[test]
fn with_span_keeps_the_spans_of_parts() {
    let t = Type::Tsr(vec![Type::Dim(1, sp(5)), Type::ResolvedDim(3, sp(6))], sp(7));
    let u = t.with_span(&sp(9));
    assert_eq!(u.span().start, 9);
    match u {
        Type::Tsr(ds, _) => {
            assert_eq!(ds[0].span().start, 5);
            assert_eq!(ds[1].span().start, 6);
        }
        _ => panic!("expected a tensor"),
    }
}
