use vstd::prelude::*;
use crate::subst::{
    apply_cs, apply_entries, compose_entries, has_key, in_values, keys_not_in_values, keys_unique,
    lemma_apply_absent, lemma_apply_idempotent, lemma_extend_disjoint, lemma_occurs_apply, lemma_occurs_tys,
    map_values_through, occurs_tys, occurs_ty, subst_wf,
};
use crate::types::Ty;

verus! {

/// The kinds of diagnostic that unification reports.
#[derive(Clone, Copy, Debug, PartialEq, Eq, Structural)]
pub enum ErrorKind {
    DimensionMismatch,
    RankMismatch,
    ArityMismatch,
    ParameterNameMismatch,
    IncompatibleTypes,
    CircularType,
}

/// What unifying one equation amounts to, before any recursion.
pub enum Step {
    /// Nothing to bind and nothing to report.
    Same,
    /// Bind a variable to a type.
    Bind(nat, Ty),
    /// Nothing to bind; report a diagnostic.
    Fail(ErrorKind),
    /// Unify these equations between the parts.
    Split(Seq<(Ty, Ty)>),
}

pub open spec fn zip_tys(v1: Seq<Ty>, v2: Seq<Ty>) -> Seq<(Ty, Ty)> {
    Seq::new(v1.len(), |i: int| (v1[i], v2[i]))
}

/// Binding `x` to `t`: trivial when `t` is `x` itself, refused when `x` occurs in `t`.
pub open spec fn var_step(x: nat, t: Ty) -> Step {
    if t == Ty::Var(x) || t == Ty::Dim(x) {
        Step::Same
    } else if occurs_ty(x, t) {
        Step::Fail(ErrorKind::CircularType)
    } else {
        Step::Bind(x, t)
    }
}

/// The rule that applies to the equation `a = b`; the first matching rule wins.
pub open spec fn step(a: Ty, b: Ty) -> Step {
    match (a, b) {
        (Ty::Unit, Ty::Unit) => Step::Same,
        (Ty::Int, Ty::Int) => Step::Same,
        (Ty::Float, Ty::Float) => Step::Same,
        (Ty::Bool, Ty::Bool) => Step::Same,
        (Ty::Int, Ty::ResolvedDim(_)) => Step::Same,
        (Ty::ResolvedDim(_), Ty::Int) => Step::Same,
        (Ty::ResolvedDim(i), Ty::ResolvedDim(j)) => {
            if i == j {
                Step::Same
            } else {
                Step::Fail(ErrorKind::DimensionMismatch)
            }
        },
        (Ty::Var(x), _) => var_step(x, b),
        (_, Ty::Var(x)) => var_step(x, a),
        (Ty::Dim(x), _) => var_step(x, b),
        (_, Ty::Dim(x)) => var_step(x, a),
        (Ty::FnArgs(v1), Ty::FnArgs(v2)) => {
            if v1.len() == v2.len() {
                Step::Split(zip_tys(v1, v2))
            } else {
                Step::Fail(ErrorKind::ArityMismatch)
            }
        },
        (Ty::FnArg(Some(n1), t1), Ty::FnArg(Some(n2), t2)) => {
            if n1 == n2 {
                Step::Split(seq![(*t1, *t2)])
            } else {
                Step::Fail(ErrorKind::ParameterNameMismatch)
            }
        },
        (Ty::FnArg(_, t1), Ty::FnArg(_, t2)) => Step::Split(seq![(*t1, *t2)]),
        (Ty::Fun(_, _, p1, r1), Ty::Fun(_, _, p2, r2)) => Step::Split(seq![(*p1, *p2), (*r1, *r2)]),
        (Ty::Tsr(d1), Ty::Tsr(d2)) => {
            if d1.len() == d2.len() {
                Step::Split(zip_tys(d1, d2))
            } else {
                Step::Fail(ErrorKind::RankMismatch)
            }
        },
        (Ty::Module(n1, Some(t1)), Ty::Module(n2, Some(t2))) => {
            if n1 == n2 {
                Step::Split(seq![(*t1, *t2)])
            } else {
                Step::Fail(ErrorKind::IncompatibleTypes)
            }
        },
        (Ty::UnresolvedModuleFun(_, _, _), _) => Step::Same,
        _ => Step::Fail(ErrorKind::IncompatibleTypes),
    }
}

// ----- measures -----

pub open spec fn size_ty(t: Ty) -> nat
    decreases t,
{
    match t {
        Ty::Tuple(ts) => 1 + size_tys(ts),
        Ty::Tsr(ts) => 1 + size_tys(ts),
        Ty::FnArgs(ts) => 1 + size_tys(ts),
        Ty::FnArg(_, b) => 1 + size_ty(*b),
        Ty::Fun(_, _, p, r) => 1 + size_ty(*p) + size_ty(*r),
        Ty::Module(_, Some(b)) => 1 + size_ty(*b),
        _ => 1,
    }
}

pub open spec fn size_tys(ts: Seq<Ty>) -> nat
    decreases ts,
{
    if ts.len() == 0 {
        0
    } else {
        size_ty(ts[0]) + size_tys(ts.subrange(1, ts.len() as int))
    }
}

pub open spec fn size_cs(cs: Seq<(Ty, Ty)>) -> nat
    decreases cs.len(),
{
    if cs.len() == 0 {
        0
    } else {
        size_ty(cs[0].0) + size_ty(cs[0].1) + size_cs(cs.subrange(1, cs.len() as int))
    }
}

/// `x` occurs on either side of some equation of `cs`.
pub open spec fn occurs_cs(x: nat, cs: Seq<(Ty, Ty)>) -> bool {
    exists|i: int| 0 <= i < cs.len() && (occurs_ty(x, #[trigger] cs[i].0) || occurs_ty(x, cs[i].1))
}

/// How many variables below `n` occur in `cs`.
pub open spec fn count_vars(n: nat, cs: Seq<(Ty, Ty)>) -> nat
    decreases n,
{
    if n == 0 {
        0
    } else {
        count_vars((n - 1) as nat, cs) + if occurs_cs((n - 1) as nat, cs) { 1nat } else { 0nat }
    }
}

/// Every variable of `cs` is below `n`.
pub open spec fn below(cs: Seq<(Ty, Ty)>, n: nat) -> bool {
    forall|x: nat| occurs_cs(x, cs) ==> x < n
}

pub proof fn lemma_count_le(n: nat, big: Seq<(Ty, Ty)>, small: Seq<(Ty, Ty)>)
    requires
        forall|x: nat| x < n && occurs_cs(x, small) ==> occurs_cs(x, big),
    ensures
        count_vars(n, small) <= count_vars(n, big),
    decreases n,
{
    if n > 0 {
        lemma_count_le((n - 1) as nat, big, small);
    }
}

pub proof fn lemma_count_lt(n: nat, big: Seq<(Ty, Ty)>, small: Seq<(Ty, Ty)>, w: nat)
    requires
        forall|x: nat| x < n && occurs_cs(x, small) ==> occurs_cs(x, big),
        w < n,
        occurs_cs(w, big),
        !occurs_cs(w, small),
    ensures
        count_vars(n, small) < count_vars(n, big),
    decreases n,
{
    if w == n - 1 {
        lemma_count_le((n - 1) as nat, big, small);
    } else {
        lemma_count_lt((n - 1) as nat, big, small, w);
    }
}

pub proof fn lemma_zip(v1: Seq<Ty>, v2: Seq<Ty>)
    requires
        v1.len() == v2.len(),
    ensures
        size_cs(zip_tys(v1, v2)) == size_tys(v1) + size_tys(v2),
        forall|x: nat| occurs_cs(x, zip_tys(v1, v2)) ==> occurs_tys(x, v1) || occurs_tys(x, v2),
    decreases v1.len(),
{
    lemma_occurs_tys_all(v1);
    lemma_occurs_tys_all(v2);
    if v1.len() > 0 {
        let t1 = v1.subrange(1, v1.len() as int);
        let t2 = v2.subrange(1, v2.len() as int);
        assert(zip_tys(v1, v2).subrange(1, v1.len() as int) =~= zip_tys(t1, t2));
        lemma_zip(t1, t2);
    }
    assert forall|x: nat| occurs_cs(x, zip_tys(v1, v2)) implies occurs_tys(x, v1) || occurs_tys(x, v2) by {
        let i = choose|i: int| 0 <= i < zip_tys(v1, v2).len() && (occurs_ty(x, #[trigger] zip_tys(v1, v2)[i].0) || occurs_ty(x, zip_tys(v1, v2)[i].1));
        assert(zip_tys(v1, v2)[i] == (v1[i], v2[i]));
    }
}

proof fn lemma_occurs_tys_all(v: Seq<Ty>)
    ensures
        forall|x: nat| occurs_tys(x, v) <==> exists|i: int| 0 <= i < v.len() && #[trigger] occurs_ty(x, v[i]),
{
    assert forall|x: nat| occurs_tys(x, v) <==> exists|i: int| 0 <= i < v.len() && #[trigger] occurs_ty(x, v[i]) by {
        lemma_occurs_tys(x, v);
    }
}

/// The equations a rule splits into are smaller than the equation, and bring in no
/// variable of their own.
pub proof fn lemma_step_split(a: Ty, b: Ty)
    ensures
        step(a, b) matches Step::Split(subs) ==> size_cs(subs) < size_ty(a) + size_ty(b) && forall|x: nat|
            occurs_cs(x, subs) ==> occurs_ty(x, a) || occurs_ty(x, b),
{
    if let Step::Split(subs) = step(a, b) {
        match (a, b) {
            (Ty::FnArgs(v1), Ty::FnArgs(v2)) => {
                lemma_zip(v1, v2);
                assert(size_cs(subs) < size_ty(a) + size_ty(b));
                assert(subs == zip_tys(v1, v2));
                assert forall|x: nat| occurs_cs(x, subs) implies occurs_ty(x, a) || occurs_ty(x, b) by {
                    assert(occurs_tys(x, v1) || occurs_tys(x, v2));
                }
            },
            (Ty::Tsr(v1), Ty::Tsr(v2)) => {
                lemma_zip(v1, v2);
                assert(size_cs(subs) < size_ty(a) + size_ty(b));
                assert(subs == zip_tys(v1, v2));
                assert forall|x: nat| occurs_cs(x, subs) implies occurs_ty(x, a) || occurs_ty(x, b) by {
                    assert(occurs_tys(x, v1) || occurs_tys(x, v2));
                }
            },
            (Ty::FnArg(_, t1), Ty::FnArg(_, t2)) => {
                lemma_one_pair(*t1, *t2);
                assert(size_cs(subs) < size_ty(a) + size_ty(b));
            },
            (Ty::Module(_, Some(t1)), Ty::Module(_, Some(t2))) => {
                lemma_one_pair(*t1, *t2);
                assert(size_cs(subs) < size_ty(a) + size_ty(b));
            },
            (Ty::Fun(_, _, p1, r1), Ty::Fun(_, _, p2, r2)) => {
                lemma_one_pair(*r1, *r2);
                let two = seq![(*p1, *p2), (*r1, *r2)];
                assert(two.subrange(1, 2) =~= seq![(*r1, *r2)]);
                assert(size_cs(subs) < size_ty(a) + size_ty(b));
                assert forall|x: nat| occurs_cs(x, two) implies occurs_ty(x, a) || occurs_ty(x, b) by {
                    let i = choose|i: int| 0 <= i < two.len() && (occurs_ty(x, #[trigger] two[i].0) || occurs_ty(x, two[i].1));
                    assert(two[0] == (*p1, *p2) && two[1] == (*r1, *r2));
                    assert(i == 0 || i == 1);
                }
            },
            _ => {
                assert(false);
            },
        }
    }
}

pub proof fn lemma_one_pair(p: Ty, q: Ty)
    ensures
        size_cs(seq![(p, q)]) == size_ty(p) + size_ty(q),
        forall|x: nat| occurs_cs(x, seq![(p, q)]) <==> occurs_ty(x, p) || occurs_ty(x, q),
{
    let one = seq![(p, q)];
    assert(one.subrange(1, 1) =~= Seq::<(Ty, Ty)>::empty());
    assert(size_cs(one.subrange(1, 1)) == 0);
    assert forall|x: nat| occurs_cs(x, one) <==> occurs_ty(x, p) || occurs_ty(x, q) by {
        assert(one[0] == (p, q));
        if occurs_ty(x, p) || occurs_ty(x, q) {
            assert(occurs_ty(x, one[0].0) || occurs_ty(x, one[0].1));
        }
        if occurs_cs(x, one) {
            let i = choose|i: int| 0 <= i < one.len() && (occurs_ty(x, #[trigger] one[i].0) || occurs_ty(x, one[i].1));
            assert(i == 0);
        }
    }
}

/// A binding made by a rule never captures its own variable, and binds a variable of
/// the equation to a side of it.
pub proof fn lemma_step_bind(a: Ty, b: Ty)
    ensures
        step(a, b) matches Step::Bind(x, t) ==> !occurs_ty(x, t) && (occurs_ty(x, a) || occurs_ty(x, b))
            && (t == a || t == b),
{
}

// ----- the unification model -----

/// A well-formed substitution whose variables, bound or mentioned, all come from `cs`.
pub open spec fn drawn_from(s: Seq<(nat, Ty)>, cs: Seq<(Ty, Ty)>) -> bool {
    &&& subst_wf(s)
    &&& forall|k: nat| has_key(s, k) ==> occurs_cs(k, cs)
    &&& forall|y: nat| in_values(s, y) ==> occurs_cs(y, cs)
}

/// A diagnostic: its kind and the two sides of the equation it was found on.
pub type Diag = (ErrorKind, Ty, Ty);

/// Unification of a list of equations, first to last: the substitution found and the
/// diagnostics reported, in order. `n` bounds the variables, which makes the recursion's measure finite.
pub open spec fn unify_model(cs: Seq<(Ty, Ty)>, n: nat) -> (Seq<(nat, Ty)>, Seq<Diag>)
    decreases count_vars(n, cs), size_cs(cs), 1nat
    via unify_model_decreases
{
    if cs.len() == 0 {
        (Seq::empty(), Seq::empty())
    } else {
        let first = unify_one_model(cs[0].0, cs[0].1, n);
        let rest = cs.subrange(1, cs.len() as int);
        if below(cs, n) && drawn_from(first.0, seq![cs[0]]) {
            let tail = unify_model(apply_cs(first.0, rest), n);
            (compose_entries(first.0, tail.0), first.1 + tail.1)
        } else {
            (Seq::empty(), Seq::empty())
        }
    }
}

/// Unification of the one equation `a = b`.
pub open spec fn unify_one_model(a: Ty, b: Ty, n: nat) -> (Seq<(nat, Ty)>, Seq<Diag>)
    decreases count_vars(n, seq![(a, b)]), size_ty(a) + size_ty(b), 0nat
    via unify_one_model_decreases
{
    match step(a, b) {
        Step::Same => (Seq::empty(), Seq::empty()),
        Step::Bind(x, t) => (seq![(x, t)], Seq::empty()),
        Step::Fail(k) => (Seq::empty(), seq![(k, a, b)]),
        Step::Split(subs) => unify_model(subs, n),
    }
}

pub proof fn lemma_first_in(cs: Seq<(Ty, Ty)>, n: nat)
    requires
        cs.len() > 0,
    ensures
        count_vars(n, seq![cs[0]]) <= count_vars(n, cs),
        size_ty(cs[0].0) + size_ty(cs[0].1) <= size_cs(cs),
        forall|x: nat| occurs_cs(x, seq![cs[0]]) ==> occurs_cs(x, cs),
{
    assert forall|x: nat| occurs_cs(x, seq![cs[0]]) implies occurs_cs(x, cs) by {
        assert(seq![cs[0]][0] == cs[0]);
    }
    lemma_count_le(n, cs, seq![cs[0]]);
}

/// What occurs in the rest of the equations after the first one's substitution was
/// applied occurred in the equations before, and is not bound by that substitution.
proof fn lemma_tail_vars(cs: Seq<(Ty, Ty)>, s: Seq<(nat, Ty)>)
    requires
        cs.len() > 0,
        drawn_from(s, seq![cs[0]]),
    ensures
        forall|x: nat| occurs_cs(x, apply_cs(s, cs.subrange(1, cs.len() as int))) ==> occurs_cs(x, cs) && !has_key(s, x),
{
    let rest = cs.subrange(1, cs.len() as int);
    let tail = apply_cs(s, rest);
    lemma_first_in(cs, 0);
    assert forall|x: nat| occurs_cs(x, tail) implies occurs_cs(x, cs) && !has_key(s, x) by {
        let i = choose|i: int| 0 <= i < tail.len() && (occurs_ty(x, #[trigger] tail[i].0) || occurs_ty(x, tail[i].1));
        let side = if occurs_ty(x, tail[i].0) { rest[i].0 } else { rest[i].1 };
        lemma_occurs_apply(s, side, x);
        if occurs_ty(x, side) {
            assert(cs[i + 1] == rest[i]);
        }
    }
}

/// Applying the first equation's substitution to the rest of the equations makes progress:
/// fewer variables, or as many and a smaller total size.
pub proof fn lemma_tail_decreases(cs: Seq<(Ty, Ty)>, n: nat, s: Seq<(nat, Ty)>)
    requires
        cs.len() > 0,
        below(cs, n),
        drawn_from(s, seq![cs[0]]),
    ensures
        count_vars(n, apply_cs(s, cs.subrange(1, cs.len() as int))) < count_vars(n, cs) || (
        count_vars(n, apply_cs(s, cs.subrange(1, cs.len() as int))) == count_vars(n, cs)
            && size_cs(apply_cs(s, cs.subrange(1, cs.len() as int))) < size_cs(cs)),
        forall|x: nat| occurs_cs(x, apply_cs(s, cs.subrange(1, cs.len() as int))) ==> occurs_cs(x, cs) && !has_key(s, x),
{
    lemma_first_in(cs, n);
    let rest = cs.subrange(1, cs.len() as int);
    let tail = apply_cs(s, rest);
    lemma_tail_vars(cs, s);
    if s.len() == 0 {
        assert(tail =~= rest);
        assert forall|x: nat| x < n && occurs_cs(x, rest) implies occurs_cs(x, cs) by {
            let i = choose|i: int| 0 <= i < rest.len() && (occurs_ty(x, #[trigger] rest[i].0) || occurs_ty(x, rest[i].1));
            assert(cs[i + 1] == rest[i]);
        }
        lemma_count_le(n, cs, rest);
    } else {
        let w = s[0].0;
        assert(has_key(s, w));
        assert(occurs_cs(w, seq![cs[0]]));
        assert(occurs_cs(w, cs));
        assert(!occurs_cs(w, tail));
        lemma_count_lt(n, cs, tail, w);
    }
}

#[via_fn]
proof fn unify_model_decreases(cs: Seq<(Ty, Ty)>, n: nat) {
    if cs.len() > 0 {
        lemma_first_in(cs, n);
        let rest = cs.subrange(1, cs.len() as int);
        assert forall|s: Seq<(nat, Ty)>| below(cs, n) && drawn_from(s, seq![cs[0]]) implies count_vars(n, #[trigger] apply_cs(s, rest)) < count_vars(n, cs) || (
            count_vars(n, apply_cs(s, rest)) == count_vars(n, cs) && size_cs(apply_cs(s, rest)) < size_cs(cs)) by {
            lemma_tail_decreases(cs, n, s);
        }
    }
}

#[via_fn]
proof fn unify_one_model_decreases(a: Ty, b: Ty, n: nat) {
    lemma_step_split(a, b);
    if let Step::Split(subs) = step(a, b) {
        assert forall|x: nat| x < n && occurs_cs(x, subs) implies occurs_cs(x, seq![(a, b)]) by {
            assert(seq![(a, b)][0] == (a, b));
        }
        lemma_count_le(n, seq![(a, b)], subs);
    }
}

/// Composing two substitutions where the second neither binds nor mentions a variable
/// bound by the first gives a well-formed substitution drawn from the two.
pub proof fn lemma_compose_wf(s1: Seq<(nat, Ty)>, s2: Seq<(nat, Ty)>)
    requires
        subst_wf(s1),
        subst_wf(s2),
        forall|i: int| 0 <= i < s1.len() ==> !has_key(s2, #[trigger] s1[i].0) && !in_values(s2, s1[i].0),
    ensures
        subst_wf(compose_entries(s1, s2)),
        forall|k: nat| has_key(compose_entries(s1, s2), k) ==> has_key(s1, k) || has_key(s2, k),
        forall|y: nat| in_values(compose_entries(s1, s2), y) ==> in_values(s1, y) || in_values(s2, y),
{
    let m = map_values_through(s1, s2);
    assert forall|i: int| 0 <= i < s2.len() implies !has_key(m, #[trigger] s2[i].0) by {
        if has_key(m, s2[i].0) {
            let j = choose|j: int| 0 <= j < m.len() && #[trigger] m[j].0 == s2[i].0;
            assert(m[j].0 == s1[j].0);
            assert(has_key(s2, s1[j].0));
        }
    }
    lemma_extend_disjoint(m, s2);
    let c = compose_entries(s1, s2);
    assert(c == m + s2);
    let ml = m.len() as int;
    assert forall|i: int| 0 <= i < c.len() implies (#[trigger] c[i]).0 == (if i < ml { s1[i].0 } else { s2[i - ml].0 }) && (
        i < ml ==> c[i].1 == apply_entries(s2, s1[i].1)) && (i >= ml ==> c[i].1 == s2[i - ml].1) by {
    }
    assert(keys_unique(c)) by {
        assert forall|i: int, j: int| 0 <= i < c.len() && 0 <= j < c.len() && i != j implies #[trigger] c[i].0 != #[trigger] c[j].0 by {
            if i < ml && j >= ml {
                assert(!has_key(s2, s1[i].0));
                assert(s2[j - ml].0 != s1[i].0);
            } else if i >= ml && j < ml {
                assert(!has_key(s2, s1[j].0));
                assert(s2[i - ml].0 != s1[j].0);
            }
        }
    }
    assert forall|k: nat| has_key(c, k) implies has_key(s1, k) || has_key(s2, k) by {
        let i = choose|i: int| 0 <= i < c.len() && #[trigger] c[i].0 == k;
        if i < ml {
            assert(s1[i].0 == k);
        } else {
            assert(s2[i - ml].0 == k);
        }
    }
    assert forall|y: nat| in_values(c, y) implies in_values(s1, y) || in_values(s2, y) by {
        let i = choose|i: int| 0 <= i < c.len() && occurs_ty(y, #[trigger] c[i].1);
        if i < ml {
            lemma_occurs_apply(s2, s1[i].1, y);
            if occurs_ty(y, s1[i].1) {
                assert(occurs_ty(y, s1[i].1));
            }
        } else {
            assert(occurs_ty(y, s2[i - ml].1));
        }
    }
    assert(keys_not_in_values(c)) by {
        assert forall|i: int, j: int| 0 <= i < c.len() && 0 <= j < c.len() implies !occurs_ty(#[trigger] c[i].0, #[trigger] c[j].1) by {
            let k = c[i].0;
            if occurs_ty(k, c[j].1) {
                if j < ml {
                    lemma_occurs_apply(s2, s1[j].1, k);
                    if i < ml {
                        assert(!occurs_ty(s1[i].0, s1[j].1));
                        assert(!in_values(s2, s1[i].0));
                    } else {
                        assert(has_key(s2, k));
                    }
                } else {
                    if i < ml {
                        assert(!in_values(s2, s1[i].0));
                        assert(occurs_ty(k, s2[j - ml].1));
                    } else {
                        assert(!occurs_ty(s2[i - ml].0, s2[j - ml].1));
                    }
                }
            }
        }
    }
}

/// Every result of unification is a well-formed substitution that binds and mentions
/// only variables of the equations.
pub proof fn lemma_unify_model_drawn(cs: Seq<(Ty, Ty)>, n: nat)
    requires
        below(cs, n),
    ensures
        drawn_from(unify_model(cs, n).0, cs),
    decreases count_vars(n, cs), size_cs(cs), 1nat,
{
    if cs.len() > 0 {
        lemma_first_in(cs, n);
        let (a, b) = cs[0];
        assert(seq![(a, b)] == seq![cs[0]]);
        assert forall|x: nat| occurs_cs(x, seq![(a, b)]) implies x < n by {
            assert(occurs_cs(x, cs));
        }
        lemma_unify_one_model_drawn(a, b, n);
        let s1 = unify_one_model(a, b, n).0;
        let rest = cs.subrange(1, cs.len() as int);
        let t = apply_cs(s1, rest);
        lemma_tail_decreases(cs, n, s1);
        assert forall|x: nat| occurs_cs(x, t) implies x < n by {
            assert(occurs_cs(x, cs));
        }
        lemma_unify_model_drawn(t, n);
        let s2 = unify_model(t, n).0;
        assert forall|i: int| 0 <= i < s1.len() implies !has_key(s2, #[trigger] s1[i].0) && !in_values(s2, s1[i].0) by {
            assert(has_key(s1, s1[i].0));
        }
        lemma_compose_wf(s1, s2);
    }
}

pub proof fn lemma_unify_one_model_drawn(a: Ty, b: Ty, n: nat)
    requires
        below(seq![(a, b)], n),
    ensures
        drawn_from(unify_one_model(a, b, n).0, seq![(a, b)]),
    decreases count_vars(n, seq![(a, b)]), size_ty(a) + size_ty(b), 0nat,
{
    lemma_one_pair(a, b);
    lemma_step_split(a, b);
    lemma_step_bind(a, b);
    match step(a, b) {
        Step::Bind(x, t) => {
            let s = seq![(x, t)];
            assert(s[0] == (x, t));
            assert(has_key(s, x) ==> occurs_cs(x, seq![(a, b)]));
            assert forall|y: nat| in_values(s, y) implies occurs_cs(y, seq![(a, b)]) by {
                assert(occurs_ty(y, t));
            }
        },
        Step::Split(subs) => {
            lemma_count_le(n, seq![(a, b)], subs);
            lemma_unify_model_drawn(subs, n);
        },
        _ => {},
    }
}

// ----- a bound on the variables -----

/// One more than the largest variable of `t`.
pub open spec fn ty_bound(t: Ty) -> nat
    decreases t,
{
    match t {
        Ty::Var(x) => x + 1,
        Ty::Dim(x) => x + 1,
        Ty::Tuple(ts) => tys_bound(ts),
        Ty::Tsr(ts) => tys_bound(ts),
        Ty::FnArgs(ts) => tys_bound(ts),
        Ty::FnArg(_, b) => ty_bound(*b),
        Ty::Fun(_, _, p, r) => nat_max(ty_bound(*p), ty_bound(*r)),
        Ty::Module(_, Some(b)) => ty_bound(*b),
        _ => 0,
    }
}

pub open spec fn nat_max(a: nat, b: nat) -> nat {
    if a < b { b } else { a }
}

pub open spec fn tys_bound(ts: Seq<Ty>) -> nat
    decreases ts,
{
    if ts.len() == 0 {
        0
    } else {
        nat_max(tys_bound(ts.subrange(0, ts.len() - 1)), ty_bound(ts[ts.len() - 1]))
    }
}

pub open spec fn cs_bound(cs: Seq<(Ty, Ty)>) -> nat
    decreases cs.len(),
{
    if cs.len() == 0 {
        0
    } else {
        nat_max(cs_bound(cs.drop_last()), nat_max(ty_bound(cs.last().0), ty_bound(cs.last().1)))
    }
}

pub proof fn lemma_ty_bound(t: Ty, x: nat)
    requires
        occurs_ty(x, t),
    ensures
        x < ty_bound(t),
    decreases t,
{
    match t {
        Ty::Tuple(ts) => lemma_tys_bound(ts, x),
        Ty::Tsr(ts) => lemma_tys_bound(ts, x),
        Ty::FnArgs(ts) => lemma_tys_bound(ts, x),
        Ty::FnArg(_, b) => lemma_ty_bound(*b, x),
        Ty::Fun(_, _, p, r) => {
            if occurs_ty(x, *p) {
                lemma_ty_bound(*p, x);
            } else {
                lemma_ty_bound(*r, x);
            }
        },
        Ty::Module(_, Some(b)) => lemma_ty_bound(*b, x),
        _ => {},
    }
}

pub proof fn lemma_tys_bound(ts: Seq<Ty>, x: nat)
    requires
        occurs_tys(x, ts),
    ensures
        x < tys_bound(ts),
    decreases ts,
{
    if ts.len() > 0 {
        if occurs_tys(x, ts.subrange(0, ts.len() - 1)) {
            lemma_tys_bound(ts.subrange(0, ts.len() - 1), x);
        } else {
            lemma_ty_bound(ts[ts.len() - 1], x);
        }
    }
}

pub proof fn lemma_cs_bound(cs: Seq<(Ty, Ty)>)
    ensures
        below(cs, cs_bound(cs)),
    decreases cs.len(),
{
    if cs.len() > 0 {
        let init = cs.drop_last();
        lemma_cs_bound(init);
        assert forall|x: nat| occurs_cs(x, cs) implies x < cs_bound(cs) by {
            let i = choose|i: int| 0 <= i < cs.len() && (occurs_ty(x, #[trigger] cs[i].0) || occurs_ty(x, cs[i].1));
            if i < cs.len() - 1 {
                assert(init[i] == cs[i]);
                assert(occurs_cs(x, init));
            } else if occurs_ty(x, cs[i].0) {
                lemma_ty_bound(cs[i].0, x);
            } else {
                lemma_ty_bound(cs[i].1, x);
            }
        }
    }
}

/// The result of unifying `cs`: the substitution and the diagnostics, in order.
pub open spec fn unify_result(cs: Seq<(Ty, Ty)>) -> (Seq<(nat, Ty)>, Seq<Diag>) {
    unify_model(cs, cs_bound(cs))
}

// ----- laws of unification -----

/// No binding of a unification result captures its own variable: a variable is never
/// bound to a type that it occurs in.
pub proof fn lemma_no_circular_binding(cs: Seq<(Ty, Ty)>)
    ensures
        forall|i: int| 0 <= i < unify_result(cs).0.len() ==>
            !occurs_ty((#[trigger] unify_result(cs).0[i]).0, unify_result(cs).0[i].1),
{
    lemma_cs_bound(cs);
    lemma_unify_model_drawn(cs, cs_bound(cs));
}

/// The substitution that unification finds is idempotent: applying it a second time
/// changes nothing.
pub proof fn lemma_unify_result_idempotent(cs: Seq<(Ty, Ty)>, t: Ty)
    ensures
        apply_entries(unify_result(cs).0, apply_entries(unify_result(cs).0, t)) == apply_entries(unify_result(cs).0, t),
{
    lemma_cs_bound(cs);
    lemma_unify_model_drawn(cs, cs_bound(cs));
    lemma_apply_idempotent(unify_result(cs).0, t);
}

/// Unifying no equation gives the identity substitution and no diagnostic.
pub proof fn lemma_unify_empty()
    ensures
        unify_result(Seq::empty()) == (Seq::<(nat, Ty)>::empty(), Seq::<Diag>::empty()),
{
}

/// Unification is a function of its equations: the same equations give the same
/// substitution and the same diagnostics, in the same order.
pub proof fn lemma_unify_deterministic(c1: Seq<(Ty, Ty)>, c2: Seq<(Ty, Ty)>)
    requires
        c1 == c2,
    ensures
        unify_result(c1).0 == unify_result(c2).0,
        unify_result(c1).1 == unify_result(c2).1,
{
}

/// Tensors of different ranks never unify: nothing is bound and a rank mismatch is reported.
pub proof fn lemma_rank_mismatch(d1: Seq<Ty>, d2: Seq<Ty>, n: nat)
    requires
        d1.len() != d2.len(),
    ensures
        unify_one_model(Ty::Tsr(d1), Ty::Tsr(d2), n) == (Seq::<(nat, Ty)>::empty(), seq![
            (ErrorKind::RankMismatch, Ty::Tsr(d1), Ty::Tsr(d2)),
        ]),
{
}

/// Equating two resolved dimensions binds nothing; unequal ones report a dimension mismatch.
pub proof fn lemma_dimension_step(i: i64, j: i64, n: nat)
    ensures
        unify_one_model(Ty::ResolvedDim(i), Ty::ResolvedDim(j), n) == (Seq::<(nat, Ty)>::empty(), if i == j {
            Seq::<Diag>::empty()
        } else {
            seq![(ErrorKind::DimensionMismatch, Ty::ResolvedDim(i), Ty::ResolvedDim(j))]
        }),
{
}

/// A variable is never bound to a type it occurs in (other than itself): nothing is bound
/// and a circular type is reported.
pub proof fn lemma_circular_step(x: nat, t: Ty, n: nat)
    requires
        occurs_ty(x, t),
        t != Ty::Var(x),
        t != Ty::Dim(x),
    ensures
        unify_one_model(Ty::Var(x), t, n) == (Seq::<(nat, Ty)>::empty(), seq![(ErrorKind::CircularType, Ty::Var(x), t)]),
        unify_one_model(Ty::Dim(x), t, n) == (Seq::<(nat, Ty)>::empty(), seq![(ErrorKind::CircularType, Ty::Dim(x), t)]),
        unify_one_model(t, Ty::Var(x), n) == (Seq::<(nat, Ty)>::empty(), seq![(ErrorKind::CircularType, t, Ty::Var(x))]),
{
}

/// Unifying two tensors binds nothing unless their ranks agree.
pub proof fn lemma_tensor_binds_only_same_rank(d1: Seq<Ty>, d2: Seq<Ty>, n: nat)
    requires
        unify_one_model(Ty::Tsr(d1), Ty::Tsr(d2), n).0.len() > 0,
    ensures
        d1.len() == d2.len(),
{
}

/// Two different resolved dimensions equated anywhere among the equations always give a
/// dimension mismatch among the diagnostics.
pub proof fn lemma_dimension_mismatch_reported(cs: Seq<(Ty, Ty)>, k: int, i: i64, j: i64)
    requires
        0 <= k < cs.len(),
        cs[k] == (Ty::ResolvedDim(i), Ty::ResolvedDim(j)),
        i != j,
    ensures
        unify_result(cs).1.contains((ErrorKind::DimensionMismatch, Ty::ResolvedDim(i), Ty::ResolvedDim(j))),
{
    lemma_cs_bound(cs);
    lemma_mismatch_in_model(cs, cs_bound(cs), k, i, j);
}

proof fn lemma_mismatch_in_model(cs: Seq<(Ty, Ty)>, n: nat, k: int, i: i64, j: i64)
    requires
        below(cs, n),
        0 <= k < cs.len(),
        cs[k] == (Ty::ResolvedDim(i), Ty::ResolvedDim(j)),
        i != j,
    ensures
        unify_model(cs, n).1.contains((ErrorKind::DimensionMismatch, Ty::ResolvedDim(i), Ty::ResolvedDim(j))),
    decreases count_vars(n, cs), size_cs(cs),
{
    let d = (ErrorKind::DimensionMismatch, Ty::ResolvedDim(i), Ty::ResolvedDim(j));
    lemma_first_in(cs, n);
    let (a, b) = cs[0];
    assert(seq![(a, b)] == seq![cs[0]]);
    assert forall|x: nat| occurs_cs(x, seq![(a, b)]) implies x < n by {
        assert(occurs_cs(x, cs));
    }
    lemma_unify_one_model_drawn(a, b, n);
    let first = unify_one_model(a, b, n);
    let rest = cs.subrange(1, cs.len() as int);
    let t = apply_cs(first.0, rest);
    let r = unify_model(cs, n);
    if k == 0 {
        assert(first.1 == seq![d]);
        assert(r.1 == first.1 + unify_model(t, n).1);
        assert(r.1[0] == d);
    } else {
        lemma_tail_decreases(cs, n, first.0);
        assert forall|x: nat| occurs_cs(x, t) implies x < n by {
            assert(occurs_cs(x, cs));
        }
        assert(rest[k - 1] == cs[k]);
        lemma_apply_absent(first.0, Ty::ResolvedDim(i));
        lemma_apply_absent(first.0, Ty::ResolvedDim(j));
        assert(t[k - 1] == (Ty::ResolvedDim(i), Ty::ResolvedDim(j)));
        lemma_mismatch_in_model(t, n, k - 1, i, j);
        let tl = unify_model(t, n).1;
        let m = choose|m: int| 0 <= m < tl.len() && tl[m] == d;
        assert(r.1 == first.1 + tl);
        assert(r.1[first.1.len() + m] == d);
    }
}

} // verus!
