use trsc::constraint::Constraints;
use trsc::subst::{occurs, substitute, Substitution};
use trsc::type_env::TypeEnv;
use trsc::types::{Span, Type};
use trsc::unification::ErrorKind;
use trsc::unifier::{TypeError, Unifier};

fn sp() -> Span {
    Span::new(0, 0)
}

fn var(n: usize) -> Type {
    Type::Var(n, sp())
}

fn dim(n: usize) -> Type {
    Type::Dim(n, sp())
}

fn rd(k: i64) -> Type {
    Type::ResolvedDim(k, sp())
}

fn int_ty() -> Type {
    Type::Int(sp())
}

fn float() -> Type {
    Type::Float(sp())
}

fn tsr(ds: Vec<Type>) -> Type {
    Type::Tsr(ds, sp())
}

fn arg(name: &str, t: Type) -> Type {
    Type::FnArg(Some(name.to_string()), Box::new(t), sp())
}

fn run(pairs: Vec<(Type, Type)>) -> (Substitution, Vec<TypeError>) {
    let mut cs = Constraints::new();
    for (a, b) in pairs {
        cs.insert(a, b);
    }
    let mut u = Unifier::new();
    let mut env = TypeEnv::new();
    let s = u.unify(cs, &mut env);
    (s, u.errs)
}

fn kinds(errs: &[TypeError]) -> Vec<ErrorKind> {
    errs.iter().map(|e| e.kind()).collect()
}

#[test]
fn scalar_trivia() {
    let (s, errs) = run(vec![(int_ty(), int_ty()), (float(), float())]);
    assert!(s.0.is_empty());
    assert!(errs.is_empty());
}

#[test]
fn variable_binding() {
    let (s, errs) = run(vec![(var(1), int_ty())]);
    assert_eq!(s.0.len(), 1);
    assert_eq!(s.0[0].0, 1);
    assert_eq!(s.0[0].1, int_ty());
    assert_eq!(s.apply_ty(&var(1)), int_ty());
    assert!(errs.is_empty());
}

#[test]
fn tensor_dimension_propagation() {
    let (s, errs) = run(vec![(tsr(vec![dim(1), dim(2)]), tsr(vec![rd(28), rd(28)]))]);
    assert_eq!(s.0.len(), 2);
    assert_eq!(s.0[0].0, 1);
    assert_eq!(s.0[0].1, rd(28));
    assert_eq!(s.0[1].0, 2);
    assert_eq!(s.0[1].1, rd(28));
    assert!(errs.is_empty());
}

#[test]
fn rank_mismatch() {
    let (s, errs) = run(vec![(tsr(vec![dim(1)]), tsr(vec![rd(3), rd(4)]))]);
    assert!(s.0.is_empty());
    assert_eq!(kinds(&errs), vec![ErrorKind::RankMismatch]);
}

#[test]
fn dimension_mismatch() {
    let (s, errs) = run(vec![(tsr(vec![rd(3), dim(1)]), tsr(vec![rd(4), rd(5)]))]);
    assert_eq!(s.0.len(), 1);
    assert_eq!(s.0[0].0, 1);
    assert_eq!(s.0[0].1, rd(5));
    assert_eq!(errs.len(), 1);
    match &errs[0] {
        TypeError::DimensionMismatch(a, b) => {
            assert_eq!(a.as_num(), Some(3));
            assert_eq!(b.as_num(), Some(4));
        }
        _ => panic!("expected a dimension mismatch"),
    }
}

#[test]
fn occurs_check() {
    let f = Type::Fun("m".to_string(), "f".to_string(), Box::new(var(1)), Box::new(int_ty()), sp());
    let (s, errs) = run(vec![(var(1), f)]);
    assert!(s.0.is_empty());
    assert_eq!(kinds(&errs), vec![ErrorKind::CircularType]);
}

#[test]
fn function_argument_by_name() {
    let (s, errs) = run(vec![
        (arg("x", var(1)), arg("x", int_ty())),
        (arg("x", var(1)), arg("y", float())),
    ]);
    assert_eq!(s.0.len(), 1);
    assert_eq!(s.0[0].0, 1);
    assert_eq!(s.0[0].1, int_ty());
    assert_eq!(kinds(&errs), vec![ErrorKind::ParameterNameMismatch]);
}

#[test]
fn substitution_composition() {
    let s1 = Substitution(vec![(1, var(2))]);
    let s2 = Substitution(vec![(2, int_ty())]);
    let c = s1.compose(s2);
    assert_eq!(c.apply_ty(&var(1)), int_ty());
    assert_eq!(c.apply_ty(&var(2)), int_ty());
}

#[test]
fn compose_later_binding_wins() {
    let s1 = Substitution(vec![(1, int_ty())]);
    let s2 = Substitution(vec![(1, float())]);
    let c = s1.compose(s2);
    assert_eq!(c.0.len(), 1);
    assert_eq!(c.0[0].1, float());
}

#[test]
fn empty_constraints_give_identity() {
    let (s, errs) = run(vec![]);
    assert!(s.0.is_empty());
    assert!(errs.is_empty());
    assert_eq!(Substitution::empty().apply_ty(&var(4)), var(4));
}

#[test]
fn applying_twice_changes_nothing_more() {
    let (s, _) = run(vec![(var(1), var(2)), (var(2), tsr(vec![dim(3)])), (dim(3), rd(7))]);
    let t = Type::FnArgs(vec![arg("a", var(1)), arg("b", var(2))], sp());
    let once = s.apply_ty(&t);
    assert_eq!(s.apply_ty(&once), once);
    assert_eq!(once, Type::FnArgs(vec![arg("a", tsr(vec![rd(7)])), arg("b", tsr(vec![rd(7)]))], sp()));
}

#[test]
fn same_equations_same_result() {
    let make = || vec![(var(1), rd(3)), (rd(3), rd(4)), (tsr(vec![dim(2)]), tsr(vec![var(1)]))];
    let (s1, e1) = run(make());
    let (s2, e2) = run(make());
    assert_eq!(s1.0, s2.0);
    assert_eq!(kinds(&e1), kinds(&e2));
    assert_eq!(kinds(&e1), vec![ErrorKind::DimensionMismatch]);
}

#[test]
fn int_unifies_with_resolved_dimension() {
    let (s, errs) = run(vec![(int_ty(), rd(4)), (rd(4), int_ty())]);
    assert!(s.0.is_empty());
    assert!(errs.is_empty());
}

#[test]
fn incompatible_and_arity() {
    let (_, errs) = run(vec![
        (int_ty(), float()),
        (Type::FnArgs(vec![arg("a", int_ty())], sp()), Type::FnArgs(vec![], sp())),
    ]);
    assert_eq!(kinds(&errs), vec![ErrorKind::IncompatibleTypes, ErrorKind::ArityMismatch]);
}

#[test]
fn unresolved_function_passes_through() {
    let u = Type::UnresolvedModuleFun("core".to_string(), "conv".to_string(), "forward".to_string(), sp());
    let (s, errs) = run(vec![(u, int_ty())]);
    assert!(s.0.is_empty());
    assert!(errs.is_empty());
}

#[test]
fn duplicate_equations_are_kept_once() {
    let mut cs = Constraints::new();
    cs.insert(var(1), int_ty());
    cs.insert(var(1), int_ty());
    assert_eq!(cs.len(), 1);
}

#[test]
fn occurs_and_substitute() {
    let t = tsr(vec![dim(1), rd(2)]);
    assert!(occurs(1, &t));
    assert!(!occurs(2, &t));
    assert_eq!(substitute(&t, 1, &rd(9)), tsr(vec![rd(9), rd(2)]));
    let f = Type::Fun("m".to_string(), "f".to_string(), Box::new(var(1)), Box::new(int_ty()), sp());
    assert!(occurs(1, &f));
}

#[test]
fn module_types_unify_their_insides() {
    let m1 = Type::Module("lin".to_string(), Some(Box::new(var(1))), sp());
    let m2 = Type::Module("lin".to_string(), Some(Box::new(int_ty())), sp());
    let (s, errs) = run(vec![(m1, m2)]);
    assert_eq!(s.0.len(), 1);
    assert!(errs.is_empty());
}

#[test]
fn substitution_moves_spans_as_stated() {
    let t = Type::Tsr(vec![Type::Dim(1, Span::new(3, 4)), Type::Dim(2, Span::new(5, 6))], Span::new(0, 9));
    let r = substitute(&t, 1, &Type::ResolvedDim(28, Span::new(20, 21)));
    match &r {
        Type::Tsr(ds, s) => {
            assert_eq!(s.start, 0);
            assert_eq!(ds[0], rd(28));
            assert_eq!(ds[0].span().start, 3);
            assert_eq!(ds[1].span().start, 5);
        }
        _ => panic!("expected a tensor"),
    }
    let s = Substitution(vec![(2, Type::ResolvedDim(7, Span::new(30, 31)))]);
    let a = s.apply_ty(&r);
    match &a {
        Type::Tsr(ds, _) => {
            assert_eq!(ds[1], rd(7));
            assert_eq!(ds[1].span().start, 5);
            assert_eq!(ds[0].span().start, 3);
        }
        _ => panic!("expected a tensor"),
    }
}
