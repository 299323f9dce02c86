use vstd::prelude::*;
use crate::constraint::{cs_view, Constraints, Equals};
use crate::subst::{occurs, Substitution};
use crate::type_env::TypeEnv;
use crate::types::{clone_ty, lemma_tys_view, tys_view, Type, TypeId};
use crate::unification::{
    below, count_vars, cs_bound, lemma_cs_bound, lemma_first_in, lemma_step_split,
    lemma_tail_decreases, lemma_unify_one_model_drawn, size_cs, size_ty, step, unify_model,
    unify_one_model, unify_result, var_step, zip_tys, Diag, ErrorKind, Step,
};

verus! {

/// A diagnostic found while unifying, with the two sides of the equation it concerns.
#[derive(Debug)]
pub enum TypeError {
    DimensionMismatch(Type, Type),
    RankMismatch(Type, Type),
    ArityMismatch(Type, Type),
    ParameterNameMismatch(Type, Type),
    IncompatibleTypes(Type, Type),
    CircularType(Type, Type),
}

pub open spec fn error_view(e: TypeError) -> Diag {
    match e {
        TypeError::DimensionMismatch(a, b) => (ErrorKind::DimensionMismatch, a@, b@),
        TypeError::RankMismatch(a, b) => (ErrorKind::RankMismatch, a@, b@),
        TypeError::ArityMismatch(a, b) => (ErrorKind::ArityMismatch, a@, b@),
        TypeError::ParameterNameMismatch(a, b) => (ErrorKind::ParameterNameMismatch, a@, b@),
        TypeError::IncompatibleTypes(a, b) => (ErrorKind::IncompatibleTypes, a@, b@),
        TypeError::CircularType(a, b) => (ErrorKind::CircularType, a@, b@),
    }
}

pub open spec fn errors_view(es: Seq<TypeError>) -> Seq<Diag> {
    es.map_values(|e: TypeError| error_view(e))
}

impl TypeError {
    pub fn new(kind: ErrorKind, a: Type, b: Type) -> (r: TypeError)
        ensures
            error_view(r) == (kind, a@, b@),
    {
        match kind {
            ErrorKind::DimensionMismatch => TypeError::DimensionMismatch(a, b),
            ErrorKind::RankMismatch => TypeError::RankMismatch(a, b),
            ErrorKind::ArityMismatch => TypeError::ArityMismatch(a, b),
            ErrorKind::ParameterNameMismatch => TypeError::ParameterNameMismatch(a, b),
            ErrorKind::IncompatibleTypes => TypeError::IncompatibleTypes(a, b),
            ErrorKind::CircularType => TypeError::CircularType(a, b),
        }
    }

    pub fn kind(&self) -> (r: ErrorKind)
        ensures
            r == error_view(*self).0,
    {
        match self {
            TypeError::DimensionMismatch(..) => ErrorKind::DimensionMismatch,
            TypeError::RankMismatch(..) => ErrorKind::RankMismatch,
            TypeError::ArityMismatch(..) => ErrorKind::ArityMismatch,
            TypeError::ParameterNameMismatch(..) => ErrorKind::ParameterNameMismatch,
            TypeError::IncompatibleTypes(..) => ErrorKind::IncompatibleTypes,
            TypeError::CircularType(..) => ErrorKind::CircularType,
        }
    }
}

/// The rule that applies to one equation, with the values it needs.
pub enum Rule {
    Same,
    Bind(TypeId, Type),
    Fail(ErrorKind),
    Split(Vec<Equals>),
}

pub open spec fn rule_view(r: Rule) -> Step {
    match r {
        Rule::Same => Step::Same,
        Rule::Bind(x, t) => Step::Bind(x as nat, t@),
        Rule::Fail(k) => Step::Fail(k),
        Rule::Split(cs) => Step::Split(cs_view(cs@)),
    }
}

/// Accumulates the diagnostics of unification.
pub struct Unifier {
    pub errs: Vec<TypeError>,
}

/// The rule for binding `tvar` to `ty`.
fn unify_var(tvar: TypeId, ty: &Type) -> (r: Rule)
    ensures
        rule_view(r) == var_step(tvar as nat, ty@),
{
    match ty {
        Type::Var(y, _) => {
            if *y == tvar {
                return Rule::Same;
            }
        },
        Type::Dim(y, _) => {
            if *y == tvar {
                return Rule::Same;
            }
        },
        _ => {},
    }
    if occurs(tvar, ty) {
        Rule::Fail(ErrorKind::CircularType)
    } else {
        Rule::Bind(tvar, clone_ty(ty))
    }
}

/// The equations `v1[i] = v2[i]`, for lists of one length.
fn zip_vec(v1: &Vec<Type>, v2: &Vec<Type>) -> (r: Vec<Equals>)
    requires
        v1@.len() == v2@.len(),
    ensures
        cs_view(r@) == zip_tys(tys_view(v1@), tys_view(v2@)),
{
    proof {
        lemma_tys_view(v1@);
        lemma_tys_view(v2@);
    }
    let mut out: Vec<Equals> = Vec::new();
    let mut i: usize = 0;
    while i < v1.len()
        invariant
            i <= v1@.len(),
            v1@.len() == v2@.len(),
            out@.len() == i,
            forall|j: int| 0 <= j < i ==> #[trigger] out@[j].0@ == v1@[j]@ && out@[j].1@ == v2@[j]@,
        decreases v1@.len() - i,
    {
        out.push(Equals(clone_ty(&v1[i]), clone_ty(&v2[i])));
        i += 1;
    }
    assert(cs_view(out@) =~= zip_tys(tys_view(v1@), tys_view(v2@)));
    out
}

fn pair(a: &Type, b: &Type) -> (r: Vec<Equals>)
    ensures
        cs_view(r@) == seq![(a@, b@)],
{
    let r = vec![Equals(clone_ty(a), clone_ty(b))];
    assert(cs_view(r@) =~= seq![(a@, b@)]);
    r
}

/// Picks the rule for the equation `a = b`, trying the rules in order.
fn rule_for(a: &Type, b: &Type) -> (r: Rule)
    ensures
        rule_view(r) == step(a@, b@),
{
    match (a, b) {
        (Type::Unit(_), Type::Unit(_)) => Rule::Same,
        (Type::Int(_), Type::Int(_)) => Rule::Same,
        (Type::Float(_), Type::Float(_)) => Rule::Same,
        (Type::Bool(_), Type::Bool(_)) => Rule::Same,
        (Type::Int(_), Type::ResolvedDim(_, _)) => Rule::Same,
        (Type::ResolvedDim(_, _), Type::Int(_)) => Rule::Same,
        (Type::ResolvedDim(i, _), Type::ResolvedDim(j, _)) => {
            if *i == *j {
                Rule::Same
            } else {
                Rule::Fail(ErrorKind::DimensionMismatch)
            }
        },
        (Type::Var(x, _), _) => unify_var(*x, b),
        (_, Type::Var(x, _)) => unify_var(*x, a),
        (Type::Dim(x, _), _) => unify_var(*x, b),
        (_, Type::Dim(x, _)) => unify_var(*x, a),
        (Type::FnArgs(v1, _), Type::FnArgs(v2, _)) => {
            proof {
                lemma_tys_view(v1@);
                lemma_tys_view(v2@);
            }
            if v1.len() == v2.len() {
                Rule::Split(zip_vec(v1, v2))
            } else {
                Rule::Fail(ErrorKind::ArityMismatch)
            }
        },
        (Type::FnArg(Some(n1), t1, _), Type::FnArg(Some(n2), t2, _)) => {
            if *n1 == *n2 {
                Rule::Split(pair(t1, t2))
            } else {
                Rule::Fail(ErrorKind::ParameterNameMismatch)
            }
        },
        (Type::FnArg(_, t1, _), Type::FnArg(_, t2, _)) => Rule::Split(pair(t1, t2)),
        (Type::Fun(_, _, p1, r1, _), Type::Fun(_, _, p2, r2, _)) => {
            let v = vec![Equals(clone_ty(p1), clone_ty(p2)), Equals(clone_ty(r1), clone_ty(r2))];
            assert(cs_view(v@) =~= seq![(p1@, p2@), (r1@, r2@)]);
            Rule::Split(v)
        },
        (Type::Tsr(d1, _), Type::Tsr(d2, _)) => {
            proof {
                lemma_tys_view(d1@);
                lemma_tys_view(d2@);
            }
            if d1.len() == d2.len() {
                Rule::Split(zip_vec(d1, d2))
            } else {
                Rule::Fail(ErrorKind::RankMismatch)
            }
        },
        (Type::Module(n1, Some(t1), _), Type::Module(n2, Some(t2), _)) => {
            if *n1 == *n2 {
                Rule::Split(pair(t1, t2))
            } else {
                Rule::Fail(ErrorKind::IncompatibleTypes)
            }
        },
        (Type::UnresolvedModuleFun(_, _, _, _), _) => Rule::Same,
        _ => Rule::Fail(ErrorKind::IncompatibleTypes),
    }
}

impl Unifier {
    pub fn new() -> (r: Unifier)
        ensures
            r.errs@.len() == 0,
    {
        Unifier { errs: Vec::new() }
    }

    /// Unifies the equations one after another and returns the substitution found;
    /// the diagnostics are appended to `errs`, in the order they were found.
    pub fn unify(&mut self, constraints: Constraints, tenv: &mut TypeEnv) -> (r: Substitution)
        ensures
            r@ == unify_result(constraints@).0,
            errors_view(final(self).errs@) == errors_view(old(self).errs@) + unify_result(constraints@).1,
            *final(tenv) == *old(tenv),
    {
        proof {
            lemma_cs_bound(constraints@);
        }
        self.unify_bounded(constraints, Ghost(cs_bound(constraints@)))
    }

    fn unify_bounded(&mut self, constraints: Constraints, Ghost(n): Ghost<nat>) -> (r: Substitution)
        requires
            below(constraints@, n),
        ensures
            r@ == unify_model(constraints@, n).0,
            errors_view(final(self).errs@) == errors_view(old(self).errs@) + unify_model(constraints@, n).1,
        decreases count_vars(n, constraints@), size_cs(constraints@), 1nat,
    {
        let ghost cs = constraints@;
        if constraints.is_empty() {
            assert(errors_view(self.errs@) + Seq::<Diag>::empty() =~= errors_view(self.errs@));
            return Substitution::empty();
        }
        let mut v = constraints.0;
        let Equals(a, b) = v.remove(0);
        let rest = Constraints(v);
        proof {
            assert(cs[0] == (a@, b@));
            assert(rest@ =~= cs.subrange(1, cs.len() as int));
            lemma_first_in(cs, n);
            assert(seq![(a@, b@)] == seq![cs[0]]);
            assert forall|x: nat| crate::unification::occurs_cs(x, seq![(a@, b@)]) implies x < n by {
                assert(crate::unification::occurs_cs(x, cs));
            }
            lemma_unify_one_model_drawn(a@, b@, n);
        }
        let ghost errs0 = errors_view(self.errs@);
        let s1 = self.unify_one(a, b, Ghost(n));
        let ghost errs1 = errors_view(self.errs@);
        let tail = s1.apply(&rest);
        proof {
            lemma_tail_decreases(cs, n, s1@);
            assert forall|x: nat| crate::unification::occurs_cs(x, tail@) implies x < n by {
                assert(crate::unification::occurs_cs(x, cs));
            }
        }
        let s2 = self.unify_bounded(tail, Ghost(n));
        proof {
            assert(errors_view(self.errs@) =~= errs0 + unify_model(cs, n).1);
        }
        s1.compose(s2)
    }

    fn unify_one(&mut self, a: Type, b: Type, Ghost(n): Ghost<nat>) -> (r: Substitution)
        requires
            below(seq![(a@, b@)], n),
        ensures
            r@ == unify_one_model(a@, b@, n).0,
            errors_view(final(self).errs@) == errors_view(old(self).errs@) + unify_one_model(a@, b@, n).1,
        decreases count_vars(n, seq![(a@, b@)]), size_ty(a@) + size_ty(b@), 0nat,
    {
        let ghost ga = a@;
        let ghost gb = b@;
        let ghost errs0 = errors_view(self.errs@);
        proof {
            lemma_step_split(ga, gb);
        }
        match rule_for(&a, &b) {
            Rule::Same => {
                assert(errs0 + Seq::<Diag>::empty() =~= errs0);
                Substitution::empty()
            },
            Rule::Bind(x, t) => {
                assert(errs0 + Seq::<Diag>::empty() =~= errs0);
                let r = Substitution(vec![(x, t)]);
                assert(r@ =~= seq![(x as nat, t@)]);
                r
            },
            Rule::Fail(k) => {
                self.errs.push(TypeError::new(k, a, b));
                assert(errors_view(self.errs@) =~= errs0 + seq![(k, ga, gb)]);
                Substitution::empty()
            },
            Rule::Split(subs) => {
                let subs = Constraints(subs);
                proof {
                    crate::unification::lemma_one_pair(ga, gb);
                    assert forall|x: nat| crate::unification::occurs_cs(x, subs@) implies crate::unification::occurs_cs(x, seq![(ga, gb)]) && x < n by {
                    }
                    crate::unification::lemma_count_le(n, seq![(ga, gb)], subs@);
                }
                self.unify_bounded(subs, Ghost(n))
            },
        }
    }
}

} // verus!
