use vstd::prelude::*;
use crate::constraint::{Constraints, Equals};
use crate::types::{clone_ty, full, fulls, lemma_fulls, lemma_tys_view, set_span, tys_view, SpannedTy, Ty, Type, TypeId};

verus! {

// ----- occurrence of a variable -----

/// `x` occurs in `t` as a type variable or a dimension variable.
pub open spec fn occurs_ty(x: nat, t: Ty) -> bool
    decreases t,
{
    match t {
        Ty::Var(y) => x == y,
        Ty::Dim(y) => x == y,
        Ty::Tuple(ts) => occurs_tys(x, ts),
        Ty::Tsr(ts) => occurs_tys(x, ts),
        Ty::FnArgs(ts) => occurs_tys(x, ts),
        Ty::FnArg(_, b) => occurs_ty(x, *b),
        Ty::Fun(_, _, p, r) => occurs_ty(x, *p) || occurs_ty(x, *r),
        Ty::Module(_, Some(b)) => occurs_ty(x, *b),
        _ => false,
    }
}

pub open spec fn occurs_tys(x: nat, ts: Seq<Ty>) -> bool
    decreases ts,
{
    if ts.len() == 0 {
        false
    } else {
        occurs_tys(x, ts.subrange(0, ts.len() - 1)) || occurs_ty(x, ts[ts.len() - 1])
    }
}

pub proof fn lemma_occurs_tys(x: nat, ts: Seq<Ty>)
    ensures
        occurs_tys(x, ts) <==> exists|i: int| 0 <= i < ts.len() && #[trigger] occurs_ty(x, ts[i]),
    decreases ts.len(),
{
    if ts.len() > 0 {
        let init = ts.subrange(0, ts.len() - 1);
        lemma_occurs_tys(x, init);
        if occurs_tys(x, init) {
            let i = choose|i: int| 0 <= i < init.len() && #[trigger] occurs_ty(x, init[i]);
            assert(occurs_ty(x, ts[i]));
        }
        let last = ts.len() - 1;
        if occurs_ty(x, ts[last]) {
            assert(0 <= last < ts.len() && occurs_ty(x, ts[last]));
        }
        if exists|i: int| 0 <= i < ts.len() && #[trigger] occurs_ty(x, ts[i]) {
            let i = choose|i: int| 0 <= i < ts.len() && #[trigger] occurs_ty(x, ts[i]);
            if i < ts.len() - 1 {
                assert(occurs_ty(x, init[i]));
            }
        }
    }
}

// ----- replacing one variable -----

/// `t` with every `Var(x)` and `Dim(x)` replaced by `r`.
pub open spec fn subst_ty(t: Ty, x: nat, r: Ty) -> Ty
    decreases t,
{
    match t {
        Ty::Var(y) => if y == x { r } else { t },
        Ty::Dim(y) => if y == x { r } else { t },
        Ty::Tuple(ts) => Ty::Tuple(subst_tys(ts, x, r)),
        Ty::Tsr(ts) => Ty::Tsr(subst_tys(ts, x, r)),
        Ty::FnArgs(ts) => Ty::FnArgs(subst_tys(ts, x, r)),
        Ty::FnArg(n, b) => Ty::FnArg(n, Box::new(subst_ty(*b, x, r))),
        Ty::Fun(m, n, p, q) => Ty::Fun(m, n, Box::new(subst_ty(*p, x, r)), Box::new(subst_ty(*q, x, r))),
        Ty::Module(n, Some(b)) => Ty::Module(n, Some(Box::new(subst_ty(*b, x, r)))),
        _ => t,
    }
}

pub open spec fn subst_tys(ts: Seq<Ty>, x: nat, r: Ty) -> Seq<Ty>
    decreases ts,
{
    if ts.len() == 0 {
        Seq::empty()
    } else {
        subst_tys(ts.subrange(0, ts.len() - 1), x, r).push(subst_ty(ts[ts.len() - 1], x, r))
    }
}

pub proof fn lemma_subst_tys(ts: Seq<Ty>, x: nat, r: Ty)
    ensures
        subst_tys(ts, x, r).len() == ts.len(),
        forall|i: int| 0 <= i < ts.len() ==> #[trigger] subst_tys(ts, x, r)[i] == subst_ty(ts[i], x, r),
    decreases ts.len(),
{
    if ts.len() > 0 {
        lemma_subst_tys(ts.subrange(0, ts.len() - 1), x, r);
    }
}

/// Replacing a variable that does not occur changes nothing.
pub proof fn lemma_subst_absent(t: Ty, x: nat, r: Ty)
    requires
        !occurs_ty(x, t),
    ensures
        subst_ty(t, x, r) == t,
    decreases t,
{
    match t {
        Ty::Tuple(ts) => lemma_subst_absent_tys(ts, x, r),
        Ty::Tsr(ts) => lemma_subst_absent_tys(ts, x, r),
        Ty::FnArgs(ts) => lemma_subst_absent_tys(ts, x, r),
        Ty::FnArg(_, b) => lemma_subst_absent(*b, x, r),
        Ty::Fun(_, _, p, q) => {
            lemma_subst_absent(*p, x, r);
            lemma_subst_absent(*q, x, r);
        },
        Ty::Module(_, Some(b)) => lemma_subst_absent(*b, x, r),
        _ => {},
    }
}

pub proof fn lemma_subst_absent_tys(ts: Seq<Ty>, x: nat, r: Ty)
    requires
        !occurs_tys(x, ts),
    ensures
        subst_tys(ts, x, r) == ts,
    decreases ts,
{
    lemma_occurs_tys(x, ts);
    lemma_subst_tys(ts, x, r);
    assert forall|i: int| 0 <= i < ts.len() implies #[trigger] subst_tys(ts, x, r)[i] == ts[i] by {
        assert(!occurs_ty(x, ts[i]));
        lemma_subst_absent(ts[i], x, r);
    }
    assert(subst_tys(ts, x, r) =~= ts);
}

/// What occurs after a replacement occurred before it, or comes from the replacement.
pub proof fn lemma_occurs_subst(t: Ty, x: nat, r: Ty, y: nat)
    requires
        occurs_ty(y, subst_ty(t, x, r)),
    ensures
        (occurs_ty(y, t) && y != x) || occurs_ty(y, r),
    decreases t,
{
    match t {
        Ty::Tuple(ts) => lemma_occurs_subst_tys(ts, x, r, y),
        Ty::Tsr(ts) => lemma_occurs_subst_tys(ts, x, r, y),
        Ty::FnArgs(ts) => lemma_occurs_subst_tys(ts, x, r, y),
        Ty::FnArg(_, b) => lemma_occurs_subst(*b, x, r, y),
        Ty::Fun(_, _, p, q) => {
            if occurs_ty(y, subst_ty(*p, x, r)) {
                lemma_occurs_subst(*p, x, r, y);
            } else {
                lemma_occurs_subst(*q, x, r, y);
            }
        },
        Ty::Module(_, Some(b)) => lemma_occurs_subst(*b, x, r, y),
        _ => {},
    }
}

pub proof fn lemma_occurs_subst_tys(ts: Seq<Ty>, x: nat, r: Ty, y: nat)
    requires
        occurs_tys(y, subst_tys(ts, x, r)),
    ensures
        (occurs_tys(y, ts) && y != x) || occurs_ty(y, r),
    decreases ts,
{
    lemma_subst_tys(ts, x, r);
    lemma_occurs_tys(y, subst_tys(ts, x, r));
    lemma_occurs_tys(y, ts);
    let i = choose|i: int| 0 <= i < subst_tys(ts, x, r).len() && #[trigger] occurs_ty(y, subst_tys(ts, x, r)[i]);
    lemma_occurs_subst(ts[i], x, r, y);
}

/// Two replacements commute when neither variable is brought in by the other.
pub proof fn lemma_subst_commute(u: Ty, k: nat, w: Ty, j: nat, z: Ty)
    requires
        k != j,
        !occurs_ty(k, z),
    ensures
        subst_ty(subst_ty(u, k, w), j, z) == subst_ty(subst_ty(u, j, z), k, subst_ty(w, j, z)),
    decreases u,
{
    match u {
        Ty::Var(y) => {
            if y == j {
                lemma_subst_absent(z, k, subst_ty(w, j, z));
            }
        },
        Ty::Dim(y) => {
            if y == j {
                lemma_subst_absent(z, k, subst_ty(w, j, z));
            }
        },
        Ty::Tuple(ts) => lemma_subst_commute_tys(ts, k, w, j, z),
        Ty::Tsr(ts) => lemma_subst_commute_tys(ts, k, w, j, z),
        Ty::FnArgs(ts) => lemma_subst_commute_tys(ts, k, w, j, z),
        Ty::FnArg(_, b) => lemma_subst_commute(*b, k, w, j, z),
        Ty::Fun(_, _, p, q) => {
            lemma_subst_commute(*p, k, w, j, z);
            lemma_subst_commute(*q, k, w, j, z);
        },
        Ty::Module(_, Some(b)) => lemma_subst_commute(*b, k, w, j, z),
        _ => {},
    }
}

pub proof fn lemma_subst_commute_tys(ts: Seq<Ty>, k: nat, w: Ty, j: nat, z: Ty)
    requires
        k != j,
        !occurs_ty(k, z),
    ensures
        subst_tys(subst_tys(ts, k, w), j, z) == subst_tys(subst_tys(ts, j, z), k, subst_ty(w, j, z)),
    decreases ts,
{
    let wz = subst_ty(w, j, z);
    lemma_subst_tys(ts, k, w);
    lemma_subst_tys(subst_tys(ts, k, w), j, z);
    lemma_subst_tys(ts, j, z);
    lemma_subst_tys(subst_tys(ts, j, z), k, wz);
    assert forall|i: int| 0 <= i < ts.len() implies #[trigger] subst_tys(subst_tys(ts, k, w), j, z)[i]
        == subst_tys(subst_tys(ts, j, z), k, wz)[i] by {
        lemma_subst_commute(ts[i], k, w, j, z);
    }
    assert(subst_tys(subst_tys(ts, k, w), j, z) =~= subst_tys(subst_tys(ts, j, z), k, wz));
}

// ----- substitutions as lists of bindings -----

/// Applies the bindings one after another, first to last.
pub open spec fn apply_entries(es: Seq<(nat, Ty)>, t: Ty) -> Ty
    decreases es.len(),
{
    if es.len() == 0 {
        t
    } else {
        subst_ty(apply_entries(es.drop_last(), t), es.last().0, es.last().1)
    }
}

pub open spec fn has_key(es: Seq<(nat, Ty)>, k: nat) -> bool {
    exists|i: int| 0 <= i < es.len() && #[trigger] es[i].0 == k
}

pub open spec fn keys_unique(es: Seq<(nat, Ty)>) -> bool {
    forall|i: int, j: int| 0 <= i < es.len() && 0 <= j < es.len() && i != j ==> #[trigger] es[i].0 != #[trigger] es[j].0
}

/// No bound variable occurs in any bound value.
pub open spec fn keys_not_in_values(es: Seq<(nat, Ty)>) -> bool {
    forall|i: int, j: int| 0 <= i < es.len() && 0 <= j < es.len() ==> !occurs_ty(#[trigger] es[i].0, #[trigger] es[j].1)
}

/// A well-formed substitution: each variable bound once, and never inside a bound value.
pub open spec fn subst_wf(es: Seq<(nat, Ty)>) -> bool {
    keys_unique(es) && keys_not_in_values(es)
}

pub open spec fn in_values(es: Seq<(nat, Ty)>, y: nat) -> bool {
    exists|i: int| 0 <= i < es.len() && occurs_ty(y, #[trigger] es[i].1)
}

/// Applying `a` then `b` is applying their concatenation.
pub proof fn lemma_apply_concat(a: Seq<(nat, Ty)>, b: Seq<(nat, Ty)>, t: Ty)
    ensures
        apply_entries(a + b, t) == apply_entries(b, apply_entries(a, t)),
    decreases b.len(),
{
    if b.len() == 0 {
        assert(a + b =~= a);
    } else {
        assert((a + b).drop_last() =~= a + b.drop_last());
        lemma_apply_concat(a, b.drop_last(), t);
    }
}

/// A type that holds no bound variable is left as it is.
pub proof fn lemma_apply_absent(es: Seq<(nat, Ty)>, u: Ty)
    requires
        forall|i: int| 0 <= i < es.len() ==> !occurs_ty(#[trigger] es[i].0, u),
    ensures
        apply_entries(es, u) == u,
    decreases es.len(),
{
    if es.len() > 0 {
        lemma_apply_absent(es.drop_last(), u);
        assert(!occurs_ty(es[es.len() - 1].0, u));
        lemma_subst_absent(u, es.last().0, es.last().1);
    }
}

/// After applying a substitution whose values hold no bound variable, what occurs
/// occurred before or comes from a value, and is not bound.
pub proof fn lemma_occurs_apply(es: Seq<(nat, Ty)>, t: Ty, y: nat)
    requires
        keys_not_in_values(es),
        occurs_ty(y, apply_entries(es, t)),
    ensures
        occurs_ty(y, t) || in_values(es, y),
        !has_key(es, y),
    decreases es.len(),
{
    if es.len() > 0 {
        let init = es.drop_last();
        let n = es.len() - 1;
        lemma_occurs_subst(apply_entries(init, t), es.last().0, es.last().1, y);
        if occurs_ty(y, apply_entries(init, t)) && y != es.last().0 {
            assert(keys_not_in_values(init)) by {
                assert forall|i: int, j: int| 0 <= i < init.len() && 0 <= j < init.len()
                    implies !occurs_ty(#[trigger] init[i].0, #[trigger] init[j].1) by {
                    assert(init[i] == es[i] && init[j] == es[j]);
                }
            }
            lemma_occurs_apply(init, t, y);
            if in_values(init, y) {
                let i = choose|i: int| 0 <= i < init.len() && occurs_ty(y, #[trigger] init[i].1);
                assert(es[i] == init[i]);
            }
            if has_key(es, y) {
                let i = choose|i: int| 0 <= i < es.len() && #[trigger] es[i].0 == y;
                assert(init[i] == es[i]);
            }
        } else {
            assert(occurs_ty(y, es[n].1));
            if has_key(es, y) {
                let i = choose|i: int| 0 <= i < es.len() && #[trigger] es[i].0 == y;
                assert(!occurs_ty(es[i].0, es[n].1));
            }
        }
    }
}

/// Applying a substitution commutes with replacing a variable it neither binds nor brings in.
pub proof fn lemma_apply_commute(es: Seq<(nat, Ty)>, u: Ty, k: nat, w: Ty)
    requires
        forall|i: int| 0 <= i < es.len() ==> #[trigger] es[i].0 != k && !occurs_ty(k, es[i].1),
    ensures
        apply_entries(es, subst_ty(u, k, w)) == subst_ty(apply_entries(es, u), k, apply_entries(es, w)),
    decreases es.len(),
{
    if es.len() > 0 {
        let init = es.drop_last();
        let n = es.len() - 1;
        assert(es[n].0 != k && !occurs_ty(k, es[n].1));
        lemma_apply_commute(init, u, k, w);
        lemma_subst_commute(apply_entries(init, u), k, apply_entries(init, w), es[n].0, es[n].1);
    }
}

/// A well-formed substitution is idempotent.
pub proof fn lemma_apply_idempotent(es: Seq<(nat, Ty)>, t: Ty)
    requires
        subst_wf(es),
    ensures
        apply_entries(es, apply_entries(es, t)) == apply_entries(es, t),
{
    let u = apply_entries(es, t);
    assert forall|i: int| 0 <= i < es.len() implies !occurs_ty(#[trigger] es[i].0, u) by {
        if occurs_ty(es[i].0, u) {
            lemma_occurs_apply(es, t, es[i].0);
        }
    }
    lemma_apply_absent(es, u);
}

// ----- composition -----

/// Adds a binding, replacing the one for the same variable if there is one.
pub open spec fn put_entry(es: Seq<(nat, Ty)>, e: (nat, Ty)) -> Seq<(nat, Ty)> {
    if has_key(es, e.0) {
        let i = choose|i: int| 0 <= i < es.len() && #[trigger] es[i].0 == e.0;
        es.update(i, e)
    } else {
        es.push(e)
    }
}

/// Adds the bindings of `more` in order; a later binding wins over an earlier one.
pub open spec fn extend_entries(es: Seq<(nat, Ty)>, more: Seq<(nat, Ty)>) -> Seq<(nat, Ty)>
    decreases more.len(),
{
    if more.len() == 0 {
        es
    } else {
        put_entry(extend_entries(es, more.drop_last()), more.last())
    }
}

/// Each value of `a` rewritten through `b`.
pub open spec fn map_values_through(a: Seq<(nat, Ty)>, b: Seq<(nat, Ty)>) -> Seq<(nat, Ty)> {
    a.map_values(|e: (nat, Ty)| (e.0, apply_entries(b, e.1)))
}

/// `a` followed by `b`: the values of `a` rewritten through `b`, then `b`'s bindings,
/// which win on a shared variable.
pub open spec fn compose_entries(a: Seq<(nat, Ty)>, b: Seq<(nat, Ty)>) -> Seq<(nat, Ty)> {
    extend_entries(map_values_through(a, b), b)
}

pub proof fn lemma_extend_disjoint(es: Seq<(nat, Ty)>, more: Seq<(nat, Ty)>)
    requires
        keys_unique(more),
        forall|i: int| 0 <= i < more.len() ==> !has_key(es, #[trigger] more[i].0),
    ensures
        extend_entries(es, more) == es + more,
    decreases more.len(),
{
    if more.len() == 0 {
        assert(es + more =~= es);
    } else {
        let init = more.drop_last();
        let n = more.len() - 1;
        assert forall|i: int| 0 <= i < init.len() implies !has_key(es, #[trigger] init[i].0) by {
            assert(init[i] == more[i]);
        }
        lemma_extend_disjoint(es, init);
        if has_key(es + init, more[n].0) {
            let i = choose|i: int| 0 <= i < (es + init).len() && #[trigger] (es + init)[i].0 == more[n].0;
            if i < es.len() {
                assert((es + init)[i] == es[i]);
            } else {
                assert((es + init)[i] == more[i - es.len()]);
            }
        }
        assert(es + init + seq![more[n]] =~= es + more);
    }
}

proof fn lemma_map_values_through(a: Seq<(nat, Ty)>, b: Seq<(nat, Ty)>, t: Ty)
    requires
        subst_wf(b),
        forall|i: int| 0 <= i < a.len() ==> !has_key(b, #[trigger] a[i].0) && !in_values(b, a[i].0),
    ensures
        apply_entries(b, apply_entries(map_values_through(a, b), t)) == apply_entries(b, apply_entries(a, t)),
    decreases a.len(),
{
    if a.len() > 0 {
        let init = a.drop_last();
        let n = a.len() - 1;
        let (k, v) = a[n];
        let m = map_values_through(a, b);
        let mi = map_values_through(init, b);
        assert(m.drop_last() =~= mi);
        assert forall|i: int| 0 <= i < init.len() implies !has_key(b, #[trigger] init[i].0) && !in_values(b, init[i].0) by {
            assert(init[i] == a[i]);
        }
        lemma_map_values_through(init, b, t);
        assert(!has_key(b, k) && !in_values(b, k));
        assert forall|i: int| 0 <= i < b.len() implies #[trigger] b[i].0 != k && !occurs_ty(k, b[i].1) by {
            if b[i].0 == k {
                assert(has_key(b, k));
            }
            if occurs_ty(k, b[i].1) {
                assert(in_values(b, k));
            }
        }
        let bv = apply_entries(b, v);
        lemma_apply_commute(b, apply_entries(mi, t), k, bv);
        lemma_apply_idempotent(b, v);
        lemma_apply_commute(b, apply_entries(init, t), k, v);
    }
}

/// Composition law: applying `compose(a, b)` is applying `a` and then `b`, provided `b` is
/// well formed and `b` neither binds nor mentions a variable bound by `a`.
pub proof fn lemma_compose_apply(a: Seq<(nat, Ty)>, b: Seq<(nat, Ty)>, t: Ty)
    requires
        subst_wf(b),
        forall|i: int| 0 <= i < a.len() ==> !has_key(b, #[trigger] a[i].0) && !in_values(b, a[i].0),
    ensures
        apply_entries(compose_entries(a, b), t) == apply_entries(b, apply_entries(a, t)),
{
    let m = map_values_through(a, b);
    assert forall|i: int| 0 <= i < b.len() implies !has_key(m, #[trigger] b[i].0) by {
        if has_key(m, b[i].0) {
            let j = choose|j: int| 0 <= j < m.len() && #[trigger] m[j].0 == b[i].0;
            assert(m[j].0 == a[j].0);
            assert(has_key(b, a[j].0));
        }
    }
    lemma_extend_disjoint(m, b);
    lemma_apply_concat(m, b, t);
    lemma_map_values_through(a, b, t);
}

/// Adding bindings keeps keys distinct, and brings in only the new keys and values.
pub proof fn lemma_extend_props(es: Seq<(nat, Ty)>, more: Seq<(nat, Ty)>)
    requires
        keys_unique(es),
    ensures
        keys_unique(extend_entries(es, more)),
        forall|k: nat| has_key(extend_entries(es, more), k) ==> has_key(es, k) || has_key(more, k),
        forall|y: nat| in_values(extend_entries(es, more), y) ==> in_values(es, y) || in_values(more, y),
    decreases more.len(),
{
    if more.len() > 0 {
        let init = more.drop_last();
        let n = more.len() - 1;
        lemma_extend_props(es, init);
        let x = extend_entries(es, init);
        let e = more[n];
        let r = put_entry(x, e);
        assert(r == extend_entries(es, more));
        assert forall|k: nat| has_key(init, k) implies has_key(more, k) by {
            let i = choose|i: int| 0 <= i < init.len() && #[trigger] init[i].0 == k;
            assert(more[i] == init[i]);
        }
        assert forall|y: nat| in_values(init, y) implies in_values(more, y) by {
            let i = choose|i: int| 0 <= i < init.len() && occurs_ty(y, #[trigger] init[i].1);
            assert(more[i] == init[i]);
        }
        if has_key(x, e.0) {
            let i = choose|i: int| 0 <= i < x.len() && #[trigger] x[i].0 == e.0;
            assert(r == x.update(i, e));
            assert forall|a: int, b: int| 0 <= a < r.len() && 0 <= b < r.len() && a != b implies #[trigger] r[a].0 != #[trigger] r[b].0 by {
                assert(r[a].0 == x[a].0 && r[b].0 == x[b].0);
            }
            assert forall|k: nat| has_key(r, k) implies has_key(es, k) || has_key(more, k) by {
                let j = choose|j: int| 0 <= j < r.len() && #[trigger] r[j].0 == k;
                assert(x[j].0 == k);
            }
            assert forall|y: nat| in_values(r, y) implies in_values(es, y) || in_values(more, y) by {
                let j = choose|j: int| 0 <= j < r.len() && occurs_ty(y, #[trigger] r[j].1);
                if j == i {
                    assert(occurs_ty(y, more[n].1));
                } else {
                    assert(r[j] == x[j]);
                    assert(in_values(x, y));
                }
            }
        } else {
            assert(r == x.push(e));
            assert forall|a: int, b: int| 0 <= a < r.len() && 0 <= b < r.len() && a != b implies #[trigger] r[a].0 != #[trigger] r[b].0 by {
                if a == x.len() {
                    assert(r[b] == x[b]);
                } else if b == x.len() {
                    assert(r[a] == x[a]);
                } else {
                    assert(r[a] == x[a] && r[b] == x[b]);
                }
            }
            assert forall|k: nat| has_key(r, k) implies has_key(es, k) || has_key(more, k) by {
                let j = choose|j: int| 0 <= j < r.len() && #[trigger] r[j].0 == k;
                if j == x.len() {
                    assert(more[n].0 == k);
                } else {
                    assert(x[j].0 == k);
                }
            }
            assert forall|y: nat| in_values(r, y) implies in_values(es, y) || in_values(more, y) by {
                let j = choose|j: int| 0 <= j < r.len() && occurs_ty(y, #[trigger] r[j].1);
                if j == x.len() {
                    assert(occurs_ty(y, more[n].1));
                } else {
                    assert(r[j] == x[j]);
                    assert(in_values(x, y));
                }
            }
        }
    }
}

/// Composing well-formed substitutions gives a well-formed one, provided no variable
/// bound by the first occurs in a value of the second.
pub proof fn lemma_compose_keeps_wf(a: Seq<(nat, Ty)>, b: Seq<(nat, Ty)>)
    requires
        subst_wf(a),
        subst_wf(b),
        forall|i: int| 0 <= i < a.len() ==> !in_values(b, #[trigger] a[i].0),
    ensures
        subst_wf(compose_entries(a, b)),
{
    let m = map_values_through(a, b);
    let c = compose_entries(a, b);
    assert(keys_unique(m)) by {
        assert forall|x: int, y: int| 0 <= x < m.len() && 0 <= y < m.len() && x != y implies #[trigger] m[x].0 != #[trigger] m[y].0 by {
            assert(m[x].0 == a[x].0 && m[y].0 == a[y].0);
        }
    }
    lemma_extend_props(m, b);
    assert forall|i: int, j: int| 0 <= i < c.len() && 0 <= j < c.len() implies !occurs_ty(#[trigger] c[i].0, #[trigger] c[j].1) by {
        let k = c[i].0;
        if occurs_ty(k, c[j].1) {
            assert(has_key(c, k));
            assert(in_values(c, k));
            let from_a = has_key(m, k);
            if from_a {
                let p = choose|p: int| 0 <= p < m.len() && #[trigger] m[p].0 == k;
                assert(a[p].0 == k);
            }
            if in_values(b, k) {
                let q = choose|q: int| 0 <= q < b.len() && occurs_ty(k, #[trigger] b[q].1);
                if has_key(b, k) {
                    let p = choose|p: int| 0 <= p < b.len() && #[trigger] b[p].0 == k;
                    assert(!occurs_ty(b[p].0, b[q].1));
                } else {
                    let p = choose|p: int| 0 <= p < m.len() && #[trigger] m[p].0 == k;
                    assert(!in_values(b, a[p].0));
                }
            } else {
                assert(in_values(m, k));
                let q = choose|q: int| 0 <= q < m.len() && occurs_ty(k, #[trigger] m[q].1);
                assert(m[q].1 == apply_entries(b, a[q].1));
                lemma_occurs_apply(b, a[q].1, k);
                let p = choose|p: int| 0 <= p < m.len() && #[trigger] m[p].0 == k;
                assert(a[p].0 == k);
                assert(!occurs_ty(a[p].0, a[q].1));
            }
        }
    }
}

// ----- replacing a variable, spans included -----

/// `t` with every `Var(x, s)` and `Dim(x, s)` replaced by `r` carrying the span `s`;
/// every other node keeps its span.
pub open spec fn subst_full(t: SpannedTy, x: nat, r: SpannedTy) -> SpannedTy
    decreases t,
{
    match t {
        SpannedTy::Var(y, s) => if y == x { set_span(r, s) } else { t },
        SpannedTy::Dim(y, s) => if y == x { set_span(r, s) } else { t },
        SpannedTy::Tuple(ts, s) => SpannedTy::Tuple(subst_fulls(ts, x, r), s),
        SpannedTy::Tsr(ts, s) => SpannedTy::Tsr(subst_fulls(ts, x, r), s),
        SpannedTy::FnArgs(ts, s) => SpannedTy::FnArgs(subst_fulls(ts, x, r), s),
        SpannedTy::FnArg(n, b, s) => SpannedTy::FnArg(n, Box::new(subst_full(*b, x, r)), s),
        SpannedTy::Fun(m, n, p, q, s) => SpannedTy::Fun(
            m,
            n,
            Box::new(subst_full(*p, x, r)),
            Box::new(subst_full(*q, x, r)),
            s,
        ),
        SpannedTy::Module(n, Some(b), s) => SpannedTy::Module(n, Some(Box::new(subst_full(*b, x, r))), s),
        _ => t,
    }
}

pub open spec fn subst_fulls(ts: Seq<SpannedTy>, x: nat, r: SpannedTy) -> Seq<SpannedTy>
    decreases ts,
{
    if ts.len() == 0 {
        Seq::empty()
    } else {
        subst_fulls(ts.subrange(0, ts.len() - 1), x, r).push(subst_full(ts[ts.len() - 1], x, r))
    }
}

pub proof fn lemma_subst_fulls(ts: Seq<SpannedTy>, x: nat, r: SpannedTy)
    ensures
        subst_fulls(ts, x, r).len() == ts.len(),
        forall|i: int| 0 <= i < ts.len() ==> #[trigger] subst_fulls(ts, x, r)[i] == subst_full(ts[i], x, r),
    decreases ts.len(),
{
    if ts.len() > 0 {
        lemma_subst_fulls(ts.subrange(0, ts.len() - 1), x, r);
    }
}

/// Applies the bindings one after another, first to last, spans included.
pub open spec fn apply_full(es: Seq<(nat, SpannedTy)>, t: SpannedTy) -> SpannedTy
    decreases es.len(),
{
    if es.len() == 0 {
        t
    } else {
        subst_full(apply_full(es.drop_last(), t), es.last().0, es.last().1)
    }
}

/// A type in which the variable does not occur comes back unchanged, spans included.
pub proof fn lemma_subst_full_absent(t: Type, x: nat, r: SpannedTy)
    requires
        !occurs_ty(x, t@),
    ensures
        subst_full(full(t), x, r) == full(t),
    decreases t,
{
    match t {
        Type::Tuple(ts, _) => lemma_subst_fulls_absent(ts, x, r),
        Type::Tsr(ts, _) => lemma_subst_fulls_absent(ts, x, r),
        Type::FnArgs(ts, _) => lemma_subst_fulls_absent(ts, x, r),
        Type::FnArg(_, b, _) => lemma_subst_full_absent(*b, x, r),
        Type::Fun(_, _, p, q, _) => {
            lemma_subst_full_absent(*p, x, r);
            lemma_subst_full_absent(*q, x, r);
        },
        Type::Module(_, Some(b), _) => lemma_subst_full_absent(*b, x, r),
        _ => {},
    }
}

proof fn lemma_subst_fulls_absent(ts: Vec<Type>, x: nat, r: SpannedTy)
    requires
        !occurs_tys(x, tys_view(ts@)),
    ensures
        subst_fulls(fulls(ts@), x, r) == fulls(ts@),
    decreases ts,
{
    lemma_tys_view(ts@);
    lemma_fulls(ts@);
    lemma_occurs_tys(x, tys_view(ts@));
    lemma_subst_fulls(fulls(ts@), x, r);
    assert forall|i: int| 0 <= i < ts@.len() implies #[trigger] subst_fulls(fulls(ts@), x, r)[i] == fulls(ts@)[i] by {
        assert(!occurs_ty(x, tys_view(ts@)[i]));
        lemma_subst_full_absent(ts@[i], x, r);
    }
    assert(subst_fulls(fulls(ts@), x, r) =~= fulls(ts@));
}

/// A type that holds no bound variable comes back unchanged from a substitution, spans
/// included.
pub proof fn lemma_apply_full_absent(es: Seq<(nat, SpannedTy)>, t: Type)
    requires
        forall|i: int| 0 <= i < es.len() ==> !occurs_ty(#[trigger] es[i].0, t@),
    ensures
        apply_full(es, full(t)) == full(t),
    decreases es.len(),
{
    if es.len() > 0 {
        lemma_apply_full_absent(es.drop_last(), t);
        assert(!occurs_ty(es[es.len() - 1].0, t@));
        lemma_subst_full_absent(t, es.last().0, es.last().1);
    }
}

// ----- executable side -----

/// Whether `tvar` occurs in `ty`, as a type variable or a dimension variable.
pub fn occurs(tvar: TypeId, ty: &Type) -> (r: bool)
    ensures
        r == occurs_ty(tvar as nat, ty@),
    decreases ty,
{
    match ty {
        Type::Var(y, _) => tvar == *y,
        Type::Dim(y, _) => tvar == *y,
        Type::Tuple(ts, _) => occurs_vec(tvar, ts),
        Type::Tsr(ts, _) => occurs_vec(tvar, ts),
        Type::FnArgs(ts, _) => occurs_vec(tvar, ts),
        Type::FnArg(_, b, _) => occurs(tvar, b),
        Type::Fun(_, _, p, r, _) => occurs(tvar, p) || occurs(tvar, r),
        Type::Module(_, Some(b), _) => occurs(tvar, b),
        _ => false,
    }
}

fn occurs_vec(tvar: TypeId, ts: &Vec<Type>) -> (r: bool)
    ensures
        r == occurs_tys(tvar as nat, tys_view(ts@)),
    decreases ts,
{
    proof {
        lemma_tys_view(ts@);
        lemma_occurs_tys(tvar as nat, tys_view(ts@));
    }
    let mut i: usize = 0;
    while i < ts.len()
        invariant
            i <= ts@.len(),
            tys_view(ts@).len() == ts@.len(),
            forall|j: int| 0 <= j < ts@.len() ==> #[trigger] tys_view(ts@)[j] == ts@[j]@,
            forall|j: int| 0 <= j < i ==> !occurs_ty(tvar as nat, #[trigger] ts@[j]@),
        decreases ts@.len() - i,
    {
        if occurs(tvar, &ts[i]) {
            proof {
                lemma_occurs_tys(tvar as nat, tys_view(ts@));
                assert(occurs_ty(tvar as nat, tys_view(ts@)[i as int]));
            }
            return true;
        }
        i += 1;
    }
    assert forall|j: int| 0 <= j < ts@.len() implies !occurs_ty(tvar as nat, #[trigger] tys_view(ts@)[j]) by {
        assert(!occurs_ty(tvar as nat, ts@[j]@));
    }
    false
}

/// `ty` with every `Var(tvar)` and `Dim(tvar)` replaced by `replacement`, which takes
/// over the span of what it replaces.
pub fn substitute(ty: &Type, tvar: TypeId, replacement: &Type) -> (r: Type)
    ensures
        r@ == subst_ty(ty@, tvar as nat, replacement@),
        full(r) == subst_full(full(*ty), tvar as nat, full(*replacement)),
    decreases ty,
{
    match ty {
        Type::Var(y, s) => {
            if *y == tvar {
                replacement.with_span(s)
            } else {
                Type::Var(*y, *s)
            }
        },
        Type::Dim(y, s) => {
            if *y == tvar {
                replacement.with_span(s)
            } else {
                Type::Dim(*y, *s)
            }
        },
        Type::Tuple(ts, s) => Type::Tuple(substitute_vec(ts, tvar, replacement), *s),
        Type::Tsr(ts, s) => Type::Tsr(substitute_vec(ts, tvar, replacement), *s),
        Type::FnArgs(ts, s) => Type::FnArgs(substitute_vec(ts, tvar, replacement), *s),
        Type::FnArg(n, b, s) => Type::FnArg(n.clone(), Box::new(substitute(b, tvar, replacement)), *s),
        Type::Fun(m, n, p, r, s) => Type::Fun(
            m.clone(),
            n.clone(),
            Box::new(substitute(p, tvar, replacement)),
            Box::new(substitute(r, tvar, replacement)),
            *s,
        ),
        Type::Module(n, Some(b), s) => Type::Module(n.clone(), Some(Box::new(substitute(b, tvar, replacement))), *s),
        _ => clone_ty(ty),
    }
}

fn substitute_vec(ts: &Vec<Type>, tvar: TypeId, replacement: &Type) -> (r: Vec<Type>)
    ensures
        tys_view(r@) == subst_tys(tys_view(ts@), tvar as nat, replacement@),
        fulls(r@) == subst_fulls(fulls(ts@), tvar as nat, full(*replacement)),
    decreases ts,
{
    let mut out: Vec<Type> = Vec::new();
    let mut i: usize = 0;
    while i < ts.len()
        invariant
            i <= ts@.len(),
            out@.len() == i,
            forall|j: int| 0 <= j < i ==> #[trigger] out@[j]@ == subst_ty(ts@[j]@, tvar as nat, replacement@),
            forall|j: int| 0 <= j < i ==> #[trigger] full(out@[j]) == subst_full(full(ts@[j]), tvar as nat, full(*replacement)),
        decreases ts@.len() - i,
    {
        out.push(substitute(&ts[i], tvar, replacement));
        i += 1;
    }
    proof {
        lemma_fulls(out@);
        lemma_fulls(ts@);
        lemma_subst_fulls(fulls(ts@), tvar as nat, full(*replacement));
        assert(fulls(out@) =~= subst_fulls(fulls(ts@), tvar as nat, full(*replacement)));
        lemma_tys_view(out@);
        lemma_tys_view(ts@);
        lemma_subst_tys(tys_view(ts@), tvar as nat, replacement@);
        assert(tys_view(out@) =~= subst_tys(tys_view(ts@), tvar as nat, replacement@));
    }
    out
}

/// Both sides of every equation with the substitution applied.
pub open spec fn apply_cs(es: Seq<(nat, Ty)>, cs: Seq<(Ty, Ty)>) -> Seq<(Ty, Ty)> {
    cs.map_values(|e: (Ty, Ty)| (apply_entries(es, e.0), apply_entries(es, e.1)))
}

/// A mapping from variables to types, kept as a list of bindings in order.
pub struct Substitution(pub Vec<(TypeId, Type)>);

pub open spec fn entries_view(es: Seq<(TypeId, Type)>) -> Seq<(nat, Ty)> {
    es.map_values(|e: (TypeId, Type)| (e.0 as nat, e.1@))
}

/// The bindings with their values' spans.
pub open spec fn entries_full(es: Seq<(TypeId, Type)>) -> Seq<(nat, SpannedTy)> {
    es.map_values(|e: (TypeId, Type)| (e.0 as nat, full(e.1)))
}

impl View for Substitution {
    type V = Seq<(nat, Ty)>;

    open spec fn view(&self) -> Seq<(nat, Ty)> {
        entries_view(self.0@)
    }
}

impl Substitution {
    /// The identity substitution.
    pub fn empty() -> (r: Substitution)
        ensures
            r@ == Seq::<(nat, Ty)>::empty(),
    {
        let r = Substitution(Vec::new());
        assert(r@ =~= Seq::<(nat, Ty)>::empty());
        r
    }

    /// Applies each binding in turn to `ty`.
    pub fn apply_ty(&self, ty: &Type) -> (r: Type)
        ensures
            r@ == apply_entries(self@, ty@),
            full(r) == apply_full(entries_full(self.0@), full(*ty)),
    {
        let ghost ef = entries_full(self.0@);
        let mut result = clone_ty(ty);
        let mut i: usize = 0;
        while i < self.0.len()
            invariant
                i <= self.0@.len(),
                ef == entries_full(self.0@),
                result@ == apply_entries(self@.subrange(0, i as int), ty@),
                full(result) == apply_full(ef.subrange(0, i as int), full(*ty)),
            decreases self.0@.len() - i,
        {
            let (tvar, rhs) = &self.0[i];
            proof {
                assert(self@.subrange(0, i + 1).drop_last() =~= self@.subrange(0, i as int));
                assert(ef.subrange(0, i + 1).drop_last() =~= ef.subrange(0, i as int));
                assert(ef[i as int] == (*tvar as nat, full(*rhs)));
            }
            result = substitute(&result, *tvar, rhs);
            i += 1;
        }
        proof {
            assert(self@.subrange(0, self@.len() as int) =~= self@);
            assert(ef.subrange(0, ef.len() as int) =~= ef);
        }
        result
    }

    /// The substitution that applies `self` and then `other`: every value of `self`
    /// rewritten through `other`, then `other`'s bindings, which win on a shared variable.
    pub fn compose(&self, other: Substitution) -> (r: Substitution)
        requires
            keys_unique(self@),
        ensures
            r@ == compose_entries(self@, other@),
            keys_unique(r@),
            subst_wf(self@) && subst_wf(other@) && (forall|i: int| 0 <= i < self@.len() ==> !in_values(other@, #[trigger] self@[i].0))
                ==> subst_wf(r@),
    {
        let mut out: Vec<(TypeId, Type)> = Vec::new();
        let mut i: usize = 0;
        while i < self.0.len()
            invariant
                i <= self.0@.len(),
                entries_view(out@) == map_values_through(self@.subrange(0, i as int), other@),
            decreases self.0@.len() - i,
        {
            let (k, v) = &self.0[i];
            let nv = other.apply_ty(v);
            let ghost prev = out@;
            out.push((*k, nv));
            proof {
                assert(self@[i as int] == (*k as nat, v@));
                assert(entries_view(out@) =~= entries_view(prev).push((*k as nat, nv@)));
            }
            i += 1;
            assert(entries_view(out@) =~= map_values_through(self@.subrange(0, i as int), other@));
        }
        assert(self@.subrange(0, self@.len() as int) =~= self@);
        let ghost base = map_values_through(self@, other@);
        assert(keys_unique(base)) by {
            assert forall|a: int, b: int| 0 <= a < base.len() && 0 <= b < base.len() && a != b
                implies #[trigger] base[a].0 != #[trigger] base[b].0 by {
                assert(base[a].0 == self@[a].0 && base[b].0 == self@[b].0);
            }
        }
        let mut j: usize = 0;
        while j < other.0.len()
            invariant
                j <= other.0@.len(),
                entries_view(out@) == extend_entries(base, other@.subrange(0, j as int)),
                keys_unique(entries_view(out@)),
            decreases other.0@.len() - j,
        {
            let ghost before = entries_view(out@);
            let k = other.0[j].0;
            let v = clone_ty(&other.0[j].1);
            let ghost e = (k as nat, v@);
            assert(e == other@[j as int]);
            assert(other@.subrange(0, j + 1).drop_last() =~= other@.subrange(0, j as int));
            let mut idx: usize = 0;
            let mut found = false;
            while idx < out.len() && !found
                invariant
                    idx <= out@.len(),
                    entries_view(out@) == before,
                    found ==> idx < out@.len() && out@[idx as int].0 == k,
                    !found ==> forall|m: int| 0 <= m < idx ==> #[trigger] out@[m].0 != k,
                decreases 2 * (out@.len() - idx) + (if found { 0int } else { 1int }),
            {
                if out[idx].0 == k {
                    found = true;
                } else {
                    idx += 1;
                }
            }
            if found {
                assert(before[idx as int].0 == k as nat);
                assert(has_key(before, k as nat));
                out.set(idx, (k, v));
                proof {
                    let c = choose|c: int| 0 <= c < before.len() && #[trigger] before[c].0 == e.0;
                    assert(c == idx);
                    assert(entries_view(out@) =~= before.update(idx as int, e));
                }
            } else {
                assert(!has_key(before, k as nat)) by {
                    if has_key(before, k as nat) {
                        let c = choose|c: int| 0 <= c < before.len() && #[trigger] before[c].0 == k as nat;
                        assert(out@[c].0 != k);
                    }
                }
                out.push((k, v));
                assert(entries_view(out@) =~= before.push(e));
            }
            j += 1;
        }
        assert(other@.subrange(0, other@.len() as int) =~= other@);
        proof {
            if subst_wf(self@) && subst_wf(other@) && (forall|i: int| 0 <= i < self@.len() ==> !in_values(other@, #[trigger] self@[i].0)) {
                lemma_compose_keeps_wf(self@, other@);
            }
        }
        Substitution(out)
    }

    /// Applies the substitution to both sides of every equation.
    pub fn apply(&self, cs: &Constraints) -> (r: Constraints)
        ensures
            r@ == apply_cs(self@, cs@),
            r.0@.len() == cs.0@.len(),
            forall|j: int| 0 <= j < cs.0@.len() ==> full(#[trigger] r.0@[j].0) == apply_full(entries_full(self.0@), full(cs.0@[j].0))
                && full(r.0@[j].1) == apply_full(entries_full(self.0@), full(cs.0@[j].1)),
    {
        let mut out: Vec<Equals> = Vec::new();
        let mut i: usize = 0;
        while i < cs.0.len()
            invariant
                i <= cs.0@.len(),
                out@.len() == i,
                forall|j: int| 0 <= j < i ==> #[trigger] out@[j].0@ == apply_entries(self@, cs.0@[j].0@)
                    && out@[j].1@ == apply_entries(self@, cs.0@[j].1@),
                forall|j: int| 0 <= j < i ==> full(#[trigger] out@[j].0) == apply_full(entries_full(self.0@), full(cs.0@[j].0))
                    && full(out@[j].1) == apply_full(entries_full(self.0@), full(cs.0@[j].1)),
            decreases cs.0@.len() - i,
        {
            let Equals(a, b) = &cs.0[i];
            out.push(Equals(self.apply_ty(a), self.apply_ty(b)));
            i += 1;
        }
        let r = Constraints(out);
        assert(r@ =~= apply_cs(self@, cs@));
        r
    }
}

} // verus!
