use vstd::prelude::*;
use vstd::string::StringExecFns;
use crate::type_env::ModName;

verus! {

/// Identifier of a type or dimension variable.
pub type TypeId = usize;

/// A byte range in the source text, carried along for diagnostics only.
#[derive(Clone, Copy, Debug)]
pub struct Span {
    pub start: u32,
    pub end: u32,
}

/// Spans never take part in the identity of a type: hashing one adds nothing.
impl core::hash::Hash for Span {
    fn hash<H: core::hash::Hasher>(&self, _state: &mut H) {
    }
}

impl Span {
    pub fn new(start: u32, end: u32) -> (r: Span)
        ensures
            r.start == start,
            r.end == end,
    {
        Span { start, end }
    }
}

/// The span-free mathematical model of a type.
pub enum Ty {
    Unit,
    Int,
    Float,
    Bool,
    UnresolvedModuleFun(Seq<char>, Seq<char>, Seq<char>),
    Var(nat),
    Dim(nat),
    Tuple(Seq<Ty>),
    Module(Seq<char>, Option<Box<Ty>>),
    FnArgs(Seq<Ty>),
    FnArg(Option<Seq<char>>, Box<Ty>),
    ResolvedDim(i64),
    Fun(Seq<char>, Seq<char>, Box<Ty>, Box<Ty>),
    Tsr(Seq<Ty>),
}

/// A type of the language; every variant carries the span it came from.
#[derive(Debug, Hash)]
pub enum Type {
    Unit(Span),
    Int(Span),
    Float(Span),
    Bool(Span),
    UnresolvedModuleFun(String, String, String, Span),
    Var(TypeId, Span),
    Dim(TypeId, Span),
    Tuple(Vec<Type>, Span),
    Module(String, Option<Box<Type>>, Span),
    FnArgs(Vec<Type>, Span),
    FnArg(Option<String>, Box<Type>, Span),
    ResolvedDim(i64, Span),
    Fun(String, String, Box<Type>, Box<Type>, Span),
    Tsr(Vec<Type>, Span),
}

pub open spec fn opt_str_view(o: Option<String>) -> Option<Seq<char>> {
    match o {
        Some(s) => Some(s@),
        None => None,
    }
}

/// Model of a type: the same tree with every span erased.
pub open spec fn ty_view(t: Type) -> Ty
    decreases t,
{
    match t {
        Type::Unit(_) => Ty::Unit,
        Type::Int(_) => Ty::Int,
        Type::Float(_) => Ty::Float,
        Type::Bool(_) => Ty::Bool,
        Type::UnresolvedModuleFun(a, b, c, _) => Ty::UnresolvedModuleFun(a@, b@, c@),
        Type::Var(x, _) => Ty::Var(x as nat),
        Type::Dim(x, _) => Ty::Dim(x as nat),
        Type::Tuple(ts, _) => Ty::Tuple(tys_view(ts@)),
        Type::Module(n, None, _) => Ty::Module(n@, None),
        Type::Module(n, Some(b), _) => Ty::Module(n@, Some(Box::new(ty_view(*b)))),
        Type::FnArgs(ts, _) => Ty::FnArgs(tys_view(ts@)),
        Type::FnArg(n, b, _) => Ty::FnArg(opt_str_view(n), Box::new(ty_view(*b))),
        Type::ResolvedDim(i, _) => Ty::ResolvedDim(i),
        Type::Fun(m, n, p, r, _) => Ty::Fun(m@, n@, Box::new(ty_view(*p)), Box::new(ty_view(*r))),
        Type::Tsr(ts, _) => Ty::Tsr(tys_view(ts@)),
    }
}

/// Model of a sequence of types, element by element.
pub open spec fn tys_view(ts: Seq<Type>) -> Seq<Ty>
    decreases ts,
{
    if ts.len() == 0 {
        Seq::empty()
    } else {
        tys_view(ts.subrange(0, ts.len() - 1)).push(ty_view(ts[ts.len() - 1]))
    }
}

/// The models of two sequences agree when their elements' models agree.
pub proof fn lemma_tys_view(ts: Seq<Type>)
    ensures
        tys_view(ts).len() == ts.len(),
        forall|i: int| 0 <= i < ts.len() ==> #[trigger] tys_view(ts)[i] == ts[i]@,
    decreases ts.len(),
{
    if ts.len() > 0 {
        lemma_tys_view(ts.subrange(0, ts.len() - 1));
    }
}

pub proof fn lemma_tys_view_ext(a: Seq<Type>, b: Seq<Type>)
    requires
        a.len() == b.len(),
        forall|i: int| 0 <= i < a.len() ==> #[trigger] a[i]@ == b[i]@,
    ensures
        tys_view(a) == tys_view(b),
{
    lemma_tys_view(a);
    lemma_tys_view(b);
    assert(tys_view(a) =~= tys_view(b));
}

/// A type with the span of every node: the exact content of a `Type`.
pub enum SpannedTy {
    Unit(Span),
    Int(Span),
    Float(Span),
    Bool(Span),
    UnresolvedModuleFun(Seq<char>, Seq<char>, Seq<char>, Span),
    Var(nat, Span),
    Dim(nat, Span),
    Tuple(Seq<SpannedTy>, Span),
    Module(Seq<char>, Option<Box<SpannedTy>>, Span),
    FnArgs(Seq<SpannedTy>, Span),
    FnArg(Option<Seq<char>>, Box<SpannedTy>, Span),
    ResolvedDim(i64, Span),
    Fun(Seq<char>, Seq<char>, Box<SpannedTy>, Box<SpannedTy>, Span),
    Tsr(Seq<SpannedTy>, Span),
}

/// The exact content of a type, spans included.
pub open spec fn full(t: Type) -> SpannedTy
    decreases t,
{
    match t {
        Type::Unit(s) => SpannedTy::Unit(s),
        Type::Int(s) => SpannedTy::Int(s),
        Type::Float(s) => SpannedTy::Float(s),
        Type::Bool(s) => SpannedTy::Bool(s),
        Type::UnresolvedModuleFun(a, b, c, s) => SpannedTy::UnresolvedModuleFun(a@, b@, c@, s),
        Type::Var(x, s) => SpannedTy::Var(x as nat, s),
        Type::Dim(x, s) => SpannedTy::Dim(x as nat, s),
        Type::Tuple(ts, s) => SpannedTy::Tuple(fulls(ts@), s),
        Type::Module(n, None, s) => SpannedTy::Module(n@, None, s),
        Type::Module(n, Some(b), s) => SpannedTy::Module(n@, Some(Box::new(full(*b))), s),
        Type::FnArgs(ts, s) => SpannedTy::FnArgs(fulls(ts@), s),
        Type::FnArg(n, b, s) => SpannedTy::FnArg(opt_str_view(n), Box::new(full(*b)), s),
        Type::ResolvedDim(i, s) => SpannedTy::ResolvedDim(i, s),
        Type::Fun(m, n, p, r, s) => SpannedTy::Fun(m@, n@, Box::new(full(*p)), Box::new(full(*r)), s),
        Type::Tsr(ts, s) => SpannedTy::Tsr(fulls(ts@), s),
    }
}

pub open spec fn fulls(ts: Seq<Type>) -> Seq<SpannedTy>
    decreases ts,
{
    if ts.len() == 0 {
        Seq::empty()
    } else {
        fulls(ts.subrange(0, ts.len() - 1)).push(full(ts[ts.len() - 1]))
    }
}

pub proof fn lemma_fulls(ts: Seq<Type>)
    ensures
        fulls(ts).len() == ts.len(),
        forall|i: int| 0 <= i < ts.len() ==> #[trigger] fulls(ts)[i] == full(ts[i]),
    decreases ts.len(),
{
    if ts.len() > 0 {
        lemma_fulls(ts.subrange(0, ts.len() - 1));
    }
}

pub proof fn lemma_fulls_ext(a: Seq<Type>, b: Seq<Type>)
    requires
        a.len() == b.len(),
        forall|i: int| 0 <= i < a.len() ==> #[trigger] full(a[i]) == full(b[i]),
    ensures
        fulls(a) == fulls(b),
{
    lemma_fulls(a);
    lemma_fulls(b);
    assert(fulls(a) =~= fulls(b));
}

/// The same type with its top span replaced by `sp`; every part keeps its own span.
pub open spec fn set_span(t: SpannedTy, sp: Span) -> SpannedTy {
    match t {
        SpannedTy::Unit(_) => SpannedTy::Unit(sp),
        SpannedTy::Int(_) => SpannedTy::Int(sp),
        SpannedTy::Float(_) => SpannedTy::Float(sp),
        SpannedTy::Bool(_) => SpannedTy::Bool(sp),
        SpannedTy::UnresolvedModuleFun(a, b, c, _) => SpannedTy::UnresolvedModuleFun(a, b, c, sp),
        SpannedTy::Var(x, _) => SpannedTy::Var(x, sp),
        SpannedTy::Dim(x, _) => SpannedTy::Dim(x, sp),
        SpannedTy::Tuple(ts, _) => SpannedTy::Tuple(ts, sp),
        SpannedTy::Module(n, b, _) => SpannedTy::Module(n, b, sp),
        SpannedTy::FnArgs(ts, _) => SpannedTy::FnArgs(ts, sp),
        SpannedTy::FnArg(n, b, _) => SpannedTy::FnArg(n, b, sp),
        SpannedTy::ResolvedDim(i, _) => SpannedTy::ResolvedDim(i, sp),
        SpannedTy::Fun(m, n, p, r, _) => SpannedTy::Fun(m, n, p, r, sp),
        SpannedTy::Tsr(ts, _) => SpannedTy::Tsr(ts, sp),
    }
}

impl View for Type {
    type V = Ty;

    open spec fn view(&self) -> Ty {
        ty_view(*self)
    }
}

pub open spec fn span_of(t: Type) -> Span {
    match t {
        Type::Unit(s) => s,
        Type::Int(s) => s,
        Type::Float(s) => s,
        Type::Bool(s) => s,
        Type::UnresolvedModuleFun(_, _, _, s) => s,
        Type::Var(_, s) => s,
        Type::Dim(_, s) => s,
        Type::Tuple(_, s) => s,
        Type::Module(_, _, s) => s,
        Type::FnArgs(_, s) => s,
        Type::FnArg(_, _, s) => s,
        Type::ResolvedDim(_, s) => s,
        Type::Fun(_, _, _, _, s) => s,
        Type::Tsr(_, s) => s,
    }
}

pub fn clone_opt_str(o: &Option<String>) -> (r: Option<String>)
    ensures
        opt_str_view(r) == opt_str_view(*o),
        r == *o,
{
    match o {
        Some(s) => Some(s.clone()),
        None => None,
    }
}

fn eq_opt_str(a: &Option<String>, b: &Option<String>) -> (r: bool)
    ensures
        r == (opt_str_view(*a) == opt_str_view(*b)),
{
    match (a, b) {
        (Some(x), Some(y)) => *x == *y,
        (None, None) => true,
        _ => false,
    }
}

/// Copies a type, spans included.
pub fn clone_ty(t: &Type) -> (r: Type)
    ensures
        r@ == t@,
        full(r) == full(*t),
        span_of(r) == span_of(*t),
    decreases t,
{
    match t {
        Type::Unit(s) => Type::Unit(*s),
        Type::Int(s) => Type::Int(*s),
        Type::Float(s) => Type::Float(*s),
        Type::Bool(s) => Type::Bool(*s),
        Type::UnresolvedModuleFun(a, b, c, s) => Type::UnresolvedModuleFun(
            a.clone(),
            b.clone(),
            c.clone(),
            *s,
        ),
        Type::Var(x, s) => Type::Var(*x, *s),
        Type::Dim(x, s) => Type::Dim(*x, *s),
        Type::Tuple(ts, s) => Type::Tuple(clone_tys(ts), *s),
        Type::Module(n, None, s) => Type::Module(n.clone(), None, *s),
        Type::Module(n, Some(b), s) => Type::Module(n.clone(), Some(Box::new(clone_ty(b))), *s),
        Type::FnArgs(ts, s) => Type::FnArgs(clone_tys(ts), *s),
        Type::FnArg(n, b, s) => Type::FnArg(clone_opt_str(n), Box::new(clone_ty(b)), *s),
        Type::ResolvedDim(i, s) => Type::ResolvedDim(*i, *s),
        Type::Fun(m, n, p, r, s) => Type::Fun(
            m.clone(),
            n.clone(),
            Box::new(clone_ty(p)),
            Box::new(clone_ty(r)),
            *s,
        ),
        Type::Tsr(ts, s) => Type::Tsr(clone_tys(ts), *s),
    }
}

/// Copies a list of types element by element.
pub fn clone_tys(ts: &Vec<Type>) -> (r: Vec<Type>)
    ensures
        r@.len() == ts@.len(),
        forall|i: int| 0 <= i < ts@.len() ==> #[trigger] r@[i]@ == ts@[i]@,
        forall|i: int| 0 <= i < ts@.len() ==> #[trigger] full(r@[i]) == full(ts@[i]),
        tys_view(r@) == tys_view(ts@),
        fulls(r@) == fulls(ts@),
    decreases ts,
{
    let mut out: Vec<Type> = Vec::new();
    let mut i: usize = 0;
    while i < ts.len()
        invariant
            i <= ts@.len(),
            out@.len() == i,
            forall|j: int| 0 <= j < i ==> #[trigger] out@[j]@ == ts@[j]@,
            forall|j: int| 0 <= j < i ==> #[trigger] full(out@[j]) == full(ts@[j]),
        decreases ts@.len() - i,
    {
        out.push(clone_ty(&ts[i]));
        i += 1;
    }
    proof {
        lemma_tys_view_ext(out@, ts@);
        lemma_fulls_ext(out@, ts@);
    }
    out
}

/// Structural equality of two types, spans ignored.
pub fn ty_eq(a: &Type, b: &Type) -> (r: bool)
    ensures
        r == (a@ == b@),
    decreases a,
{
    match (a, b) {
        (Type::Unit(_), Type::Unit(_)) => true,
        (Type::Int(_), Type::Int(_)) => true,
        (Type::Float(_), Type::Float(_)) => true,
        (Type::Bool(_), Type::Bool(_)) => true,
        (Type::UnresolvedModuleFun(a1, b1, c1, _), Type::UnresolvedModuleFun(a2, b2, c2, _)) => {
            *a1 == *a2 && *b1 == *b2 && *c1 == *c2
        },
        (Type::Var(x, _), Type::Var(y, _)) => *x == *y,
        (Type::Dim(x, _), Type::Dim(y, _)) => *x == *y,
        (Type::Tuple(t1, _), Type::Tuple(t2, _)) => tys_eq(t1, t2),
        (Type::Module(n1, o1, _), Type::Module(n2, o2, _)) => {
            if !(*n1 == *n2) {
                false
            } else {
                match (o1, o2) {
                    (None, None) => true,
                    (Some(x), Some(y)) => ty_eq(x, y),
                    _ => false,
                }
            }
        },
        (Type::FnArgs(t1, _), Type::FnArgs(t2, _)) => tys_eq(t1, t2),
        (Type::FnArg(n1, x, _), Type::FnArg(n2, y, _)) => eq_opt_str(n1, n2) && ty_eq(x, y),
        (Type::ResolvedDim(i, _), Type::ResolvedDim(j, _)) => *i == *j,
        (Type::Fun(m1, n1, p1, r1, _), Type::Fun(m2, n2, p2, r2, _)) => {
            ty_eq(p1, p2) && ty_eq(r1, r2) && *m1 == *m2 && *n1 == *n2
        },
        (Type::Tsr(t1, _), Type::Tsr(t2, _)) => tys_eq(t1, t2),
        _ => false,
    }
}

/// Element-wise structural equality of two lists of types.
pub fn tys_eq(a: &Vec<Type>, b: &Vec<Type>) -> (r: bool)
    ensures
        r == (tys_view(a@) == tys_view(b@)),
    decreases a,
{
    proof {
        lemma_tys_view(a@);
        lemma_tys_view(b@);
    }
    if a.len() != b.len() {
        return false;
    }
    let mut i: usize = 0;
    while i < a.len()
        invariant
            i <= a@.len(),
            a@.len() == b@.len(),
            forall|j: int| 0 <= j < i ==> #[trigger] a@[j]@ == b@[j]@,
        decreases a@.len() - i,
    {
        if !ty_eq(&a[i], &b[i]) {
            proof {
                lemma_tys_view(a@);
                lemma_tys_view(b@);
                assert(tys_view(a@)[i as int] != tys_view(b@)[i as int]);
            }
            return false;
        }
        i += 1;
    }
    proof {
        lemma_tys_view_ext(a@, b@);
    }
    true
}

impl Type {
    /// The same type with its span replaced by `sp`.
    pub fn with_span(&self, sp: &Span) -> (r: Type)
        ensures
            r@ == self@,
            span_of(r) == *sp,
            full(r) == set_span(full(*self), *sp),
    {
        let sp = *sp;
        match self {
            Type::Unit(_) => Type::Unit(sp),
            Type::Int(_) => Type::Int(sp),
            Type::Float(_) => Type::Float(sp),
            Type::Bool(_) => Type::Bool(sp),
            Type::UnresolvedModuleFun(a, b, c, _) => Type::UnresolvedModuleFun(a.clone(), b.clone(), c.clone(), sp),
            Type::Var(x, _) => Type::Var(*x, sp),
            Type::Dim(x, _) => Type::Dim(*x, sp),
            Type::Tuple(ts, _) => Type::Tuple(clone_tys(ts), sp),
            Type::Module(n, None, _) => Type::Module(n.clone(), None, sp),
            Type::Module(n, Some(b), _) => Type::Module(n.clone(), Some(Box::new(clone_ty(b))), sp),
            Type::FnArgs(ts, _) => Type::FnArgs(clone_tys(ts), sp),
            Type::FnArg(n, b, _) => Type::FnArg(clone_opt_str(n), Box::new(clone_ty(b)), sp),
            Type::ResolvedDim(i, _) => Type::ResolvedDim(*i, sp),
            Type::Fun(m, n, p, r, _) => Type::Fun(m.clone(), n.clone(), Box::new(clone_ty(p)), Box::new(clone_ty(r)), sp),
            Type::Tsr(ts, _) => Type::Tsr(clone_tys(ts), sp),
        }
    }

    /// The span this type came from.
    pub fn span(&self) -> (r: Span)
        ensures
            r == span_of(*self),
    {
        match self {
            Type::Unit(s) => *s,
            Type::Int(s) => *s,
            Type::Float(s) => *s,
            Type::Bool(s) => *s,
            Type::UnresolvedModuleFun(_, _, _, s) => *s,
            Type::Var(_, s) => *s,
            Type::Dim(_, s) => *s,
            Type::Tuple(_, s) => *s,
            Type::Module(_, _, s) => *s,
            Type::FnArgs(_, s) => *s,
            Type::FnArg(_, _, s) => *s,
            Type::ResolvedDim(_, s) => *s,
            Type::Fun(_, _, _, _, s) => *s,
            Type::Tsr(_, s) => *s,
        }
    }
}

/// The type of the first argument, looking through the parameter side of functions.
pub open spec fn first_arg(t: Ty) -> Option<Ty>
    decreases t,
{
    match t {
        Ty::FnArgs(vs) => {
            if vs.len() > 0 && vs[0] is FnArg {
                Some(*vs[0]->FnArg_1)
            } else {
                None
            }
        },
        Ty::Fun(_, _, p, _) => first_arg(*p),
        _ => None,
    }
}

/// The type of the last argument named `n` in an argument list.
pub open spec fn last_named(vs: Seq<Ty>, n: Seq<char>) -> Option<Ty>
    decreases vs.len(),
{
    if vs.len() == 0 {
        None
    } else {
        match vs.last() {
            Ty::FnArg(Some(m), b) => if m == n { Some(*b) } else { last_named(vs.drop_last(), n) },
            _ => last_named(vs.drop_last(), n),
        }
    }
}

pub open spec fn pairs_view(ps: Seq<(String, Type)>) -> Seq<(Seq<char>, Ty)> {
    ps.map_values(|p: (String, Type)| (p.0@, p.1@))
}

/// `ps` is the map from each argument name of `vs` to the type of its last argument of
/// that name: one entry per name, and no other.
pub open spec fn is_args_map(ps: Seq<(Seq<char>, Ty)>, vs: Seq<Ty>) -> bool {
    &&& forall|a: int, b: int| 0 <= a < ps.len() && 0 <= b < ps.len() && a != b ==> #[trigger] ps[a].0 != #[trigger] ps[b].0
    &&& forall|a: int| 0 <= a < ps.len() ==> Some(#[trigger] ps[a].1) == last_named(vs, ps[a].0)
    &&& forall|n: Seq<char>| #[trigger] last_named(vs, n) is Some ==> exists|a: int| 0 <= a < ps.len() && #[trigger] ps[a].0 == n
}

/// No type variable, dimension variable or deferred function is reachable in `t`.
pub open spec fn resolved(t: Ty) -> bool
    decreases t,
{
    match t {
        Ty::Var(_) => false,
        Ty::Dim(_) => false,
        Ty::UnresolvedModuleFun(_, _, _) => false,
        Ty::Tuple(ts) => all_resolved(ts),
        Ty::Tsr(ts) => all_resolved(ts),
        Ty::FnArgs(ts) => all_resolved(ts),
        Ty::FnArg(_, b) => resolved(*b),
        Ty::Fun(_, _, p, r) => resolved(*p) && resolved(*r),
        Ty::Module(_, Some(b)) => resolved(*b),
        _ => true,
    }
}

pub open spec fn all_resolved(ts: Seq<Ty>) -> bool
    decreases ts,
{
    ts.len() == 0 || (all_resolved(ts.subrange(0, ts.len() - 1)) && resolved(ts[ts.len() - 1]))
}

pub proof fn lemma_all_resolved(ts: Seq<Ty>)
    ensures
        all_resolved(ts) <==> forall|i: int| 0 <= i < ts.len() ==> resolved(#[trigger] ts[i]),
    decreases ts.len(),
{
    if ts.len() > 0 {
        let init = ts.subrange(0, ts.len() - 1);
        lemma_all_resolved(init);
        if forall|i: int| 0 <= i < ts.len() ==> resolved(#[trigger] ts[i]) {
            assert forall|i: int| 0 <= i < init.len() implies resolved(#[trigger] init[i]) by {
                assert(init[i] == ts[i]);
            }
        }
        if all_resolved(ts) {
            assert forall|i: int| 0 <= i < ts.len() implies resolved(#[trigger] ts[i]) by {
                if i < ts.len() - 1 {
                    assert(init[i] == ts[i]);
                }
            }
        }
    }
}

pub open spec fn digit_chars() -> Seq<char> {
    seq!['0', '1', '2', '3', '4', '5', '6', '7', '8', '9']
}

/// The decimal digits of `n`, without leading zeros.
pub open spec fn nat_digits(n: nat) -> Seq<char>
    decreases n,
{
    if n < 10 {
        seq![digit_chars()[n as int]]
    } else {
        nat_digits(n / 10).push(digit_chars()[(n % 10) as int])
    }
}

/// An integer written in decimal, with a leading `-` when negative.
pub open spec fn decimal(i: int) -> Seq<char> {
    if i < 0 {
        seq!['-'] + nat_digits((-i) as nat)
    } else {
        nat_digits(i as nat)
    }
}

/// Relies on `i64::to_string` (std's `Display` for integers): the value in decimal, with a
/// leading `-` when negative and no leading zeros.
#[verifier::external_body]
fn i64_to_string(i: i64) -> (r: String)
    ensures
        r@ == decimal(i as int),
{
    i.to_string()
}

/// Types that `as_string` can render: modules, dimensions and tensors of those.
pub open spec fn printable(t: Ty) -> bool
    decreases t,
{
    match t {
        Ty::Module(_, _) => true,
        Ty::Dim(_) => true,
        Ty::ResolvedDim(_) => true,
        Ty::Tsr(ts) => all_printable(ts),
        _ => false,
    }
}

pub open spec fn all_printable(ts: Seq<Ty>) -> bool
    decreases ts,
{
    ts.len() == 0 || (all_printable(ts.subrange(0, ts.len() - 1)) && printable(ts[ts.len() - 1]))
}

/// The rendering of a printable type: a module's name, a resolved dimension's value, `-1`
/// for a dimension variable, and a tensor's dimensions joined by `, `.
pub open spec fn render(t: Ty) -> Seq<char>
    decreases t,
{
    match t {
        Ty::Module(n, _) => n,
        Ty::Dim(_) => seq!['-', '1'],
        Ty::ResolvedDim(i) => decimal(i as int),
        Ty::Tsr(ts) => render_all(ts),
        _ => Seq::empty(),
    }
}

pub open spec fn render_all(ts: Seq<Ty>) -> Seq<char>
    decreases ts,
{
    if ts.len() == 0 {
        Seq::empty()
    } else if ts.len() == 1 {
        render(ts[0])
    } else {
        render_all(ts.subrange(0, ts.len() - 1)) + seq![',', ' '] + render(ts[ts.len() - 1])
    }
}

impl Type {
    /// The dimensions of a tensor.
    pub fn as_vec(&self) -> (r: Option<Vec<Type>>)
        ensures
            self@ matches Ty::Tsr(ds) ==> r matches Some(v) && tys_view(v@) == ds,
            !(self@ is Tsr) ==> r is None,
    {
        match self {
            Type::Tsr(ts, _) => Some(clone_tys(ts)),
            _ => None,
        }
    }

    /// The value of a resolved dimension.
    pub fn as_num(&self) -> (r: Option<i64>)
        ensures
            self@ matches Ty::ResolvedDim(i) ==> r == Some(i),
            !(self@ is ResolvedDim) ==> r is None,
    {
        match self {
            Type::ResolvedDim(i, _) => Some(*i),
            _ => None,
        }
    }

    /// The rank of a tensor.
    pub fn as_rank(&self) -> (r: usize)
        requires
            self@ is Tsr,
        ensures
            self@ matches Ty::Tsr(ds) && r == ds.len(),
    {
        match self {
            Type::Tsr(ts, _) => {
                proof {
                    lemma_tys_view(ts@);
                }
                ts.len()
            },
            _ => 0,
        }
    }

    /// The module named by a module type.
    pub fn as_mod_name(&self) -> (r: ModName)
        requires
            self@ is Module,
        ensures
            self@ matches Ty::Module(n, _) && r@ == Some(n),
    {
        match self {
            Type::Module(s, _, _) => ModName::Named(s.clone()),
            _ => ModName::Global,
        }
    }

    /// The type of the first argument of an argument list, looking through the parameter
    /// side of functions.
    pub fn first_arg_ty(&self) -> (r: Option<Type>)
        ensures
            first_arg(self@) == match r {
                Some(t) => Some(t@),
                None => None::<Ty>,
            },
        decreases self,
    {
        match self {
            Type::FnArgs(vs, _) => {
                proof {
                    lemma_tys_view(vs@);
                }
                if vs.len() > 0 {
                    match &vs[0] {
                        Type::FnArg(_, ty, _) => Some(clone_ty(ty)),
                        _ => None,
                    }
                } else {
                    None
                }
            },
            Type::Fun(_, _, arg, _, _) => arg.first_arg_ty(),
            _ => None,
        }
    }

    /// The named arguments of an argument list as a map from name to type; a later
    /// argument of a name wins over an earlier one, and unnamed ones are left out.
    pub fn as_args_map(&self) -> (r: Option<Vec<(String, Type)>>)
        ensures
            self@ matches Ty::FnArgs(vs) ==> r matches Some(m) && is_args_map(pairs_view(m@), vs),
            !(self@ is FnArgs) ==> r is None,
    {
        match self {
            Type::FnArgs(vs, _) => {
                proof {
                    lemma_tys_view(vs@);
                }
                let ghost vv = tys_view(vs@);
                let mut out: Vec<(String, Type)> = Vec::new();
                let mut i: usize = 0;
                assert(pairs_view(out@) =~= Seq::<(Seq<char>, Ty)>::empty());
                while i < vs.len()
                    invariant
                        i <= vs@.len(),
                        vv == tys_view(vs@),
                        vv.len() == vs@.len(),
                        forall|j: int| 0 <= j < vs@.len() ==> #[trigger] vv[j] == vs@[j]@,
                        is_args_map(pairs_view(out@), vv.subrange(0, i as int)),
                    decreases vs@.len() - i,
                {
                    let ghost pre = vv.subrange(0, i as int);
                    let ghost post = vv.subrange(0, i + 1);
                    let ghost p0 = pairs_view(out@);
                    assert(post.drop_last() =~= pre);
                    assert(post.last() == vs@[i as int]@);
                    match &vs[i] {
                        Type::FnArg(Some(n), ty, _) => {
                            let ghost nv = n@;
                            let ghost tv = ty@;
                            assert(forall|k: Seq<char>| k != nv ==> #[trigger] last_named(post, k) == last_named(pre, k));
                            assert(last_named(post, nv) == Some(tv));
                            let mut j: usize = 0;
                            let mut found = false;
                            while j < out.len() && !found
                                invariant
                                    j <= out@.len(),
                                    nv == n@,
                                    pairs_view(out@) == p0,
                                    found ==> j < out@.len() && p0[j as int].0 == nv,
                                    !found ==> forall|q: int| 0 <= q < j ==> #[trigger] p0[q].0 != nv,
                                decreases 2 * (out@.len() - j) + (if found { 0int } else { 1int }),
                            {
                                assert(p0[j as int] == (out@[j as int].0@, out@[j as int].1@));
                                if out[j].0 == *n {
                                    found = true;
                                } else {
                                    j += 1;
                                }
                            }
                            if found {
                                out.set(j, (n.clone(), clone_ty(ty)));
                                proof {
                                    let p1 = pairs_view(out@);
                                    assert(p1 =~= p0.update(j as int, (nv, tv)));
                                    assert forall|n2: Seq<char>| #[trigger] last_named(post, n2) is Some implies exists|a: int| 0 <= a < p1.len() && #[trigger] p1[a].0 == n2 by {
                                        if n2 == nv {
                                            assert(p1[j as int].0 == nv);
                                        } else {
                                            assert(last_named(pre, n2) is Some);
                                            let a = choose|a: int| 0 <= a < p0.len() && #[trigger] p0[a].0 == n2;
                                            assert(p1[a].0 == n2);
                                        }
                                    }
                                    assert forall|a: int| 0 <= a < p1.len() implies Some(#[trigger] p1[a].1) == last_named(post, p1[a].0) by {
                                        if a != j {
                                            assert(p0[a].0 != p0[j as int].0);
                                        }
                                    }
                                }
                            } else {
                                out.push((n.clone(), clone_ty(ty)));
                                proof {
                                    let p1 = pairs_view(out@);
                                    assert(p1 =~= p0.push((nv, tv)));
                                    assert(last_named(pre, nv) is None) by {
                                        if last_named(pre, nv) is Some {
                                            let a = choose|a: int| 0 <= a < p0.len() && #[trigger] p0[a].0 == nv;
                                        }
                                    }
                                    assert forall|n2: Seq<char>| #[trigger] last_named(post, n2) is Some implies exists|a: int| 0 <= a < p1.len() && #[trigger] p1[a].0 == n2 by {
                                        if n2 == nv {
                                            assert(p1[p0.len() as int].0 == nv);
                                        } else {
                                            assert(last_named(pre, n2) is Some);
                                            let a = choose|a: int| 0 <= a < p0.len() && #[trigger] p0[a].0 == n2;
                                            assert(p1[a].0 == n2);
                                        }
                                    }
                                    assert forall|a: int| 0 <= a < p1.len() implies Some(#[trigger] p1[a].1) == last_named(post, p1[a].0) by {
                                        if a < p0.len() {
                                            assert(p1[a] == p0[a]);
                                            assert(p0[a].0 != nv);
                                            assert(Some(p0[a].1) == last_named(pre, p0[a].0));
                                        }
                                    }
                                    assert forall|a: int, b: int| 0 <= a < p1.len() && 0 <= b < p1.len() && a != b implies #[trigger] p1[a].0 != #[trigger] p1[b].0 by {
                                        if a == p0.len() {
                                            assert(p1[b] == p0[b]);
                                        } else if b == p0.len() {
                                            assert(p1[a] == p0[a]);
                                        } else {
                                            assert(p1[a] == p0[a] && p1[b] == p0[b]);
                                        }
                                    }
                                }
                            }
                        },
                        _ => {
                            proof {
                                assert forall|k: Seq<char>| #[trigger] last_named(post, k) == last_named(pre, k) by {
                                }
                            }
                        },
                    }
                    i += 1;
                }
                assert(vv.subrange(0, vs@.len() as int) =~= vv);
                Some(out)
            },
            _ => None,
        }
    }

    /// Whether no type variable, dimension variable or deferred function is reachable.
    pub fn is_resolved(&self) -> (r: bool)
        ensures
            r == resolved(self@),
        decreases self,
    {
        match self {
            Type::Var(..) => false,
            Type::Dim(..) => false,
            Type::UnresolvedModuleFun(..) => false,
            Type::Tuple(ts, _) => all_resolved_vec(ts),
            Type::Tsr(ts, _) => all_resolved_vec(ts),
            Type::FnArgs(ts, _) => all_resolved_vec(ts),
            Type::FnArg(_, t, _) => t.is_resolved(),
            Type::Fun(_, _, p, r, _) => p.is_resolved() && r.is_resolved(),
            Type::Module(_, Some(t), _) => t.is_resolved(),
            _ => true,
        }
    }

    /// Renders a module, a dimension or a tensor of those.
    pub fn as_string(&self) -> (r: String)
        requires
            printable(self@),
        ensures
            r@ == render(self@),
        decreases self,
    {
        match self {
            Type::Module(n, _, _) => n.clone(),
            Type::Tsr(tys, _) => render_vec(tys),
            Type::Dim(_, _) => {
                proof {
                    reveal_strlit("-1");
                }
                let r = "-1".to_owned();
                assert(r@ =~= seq!['-', '1']);
                r
            },
            Type::ResolvedDim(i, _) => i64_to_string(*i),
            _ => String::new(),
        }
    }
}

fn all_resolved_vec(ts: &Vec<Type>) -> (r: bool)
    ensures
        r == all_resolved(tys_view(ts@)),
    decreases ts,
{
    proof {
        lemma_tys_view(ts@);
        lemma_all_resolved(tys_view(ts@));
    }
    let mut i: usize = 0;
    while i < ts.len()
        invariant
            i <= ts@.len(),
            tys_view(ts@).len() == ts@.len(),
            forall|j: int| 0 <= j < ts@.len() ==> #[trigger] tys_view(ts@)[j] == ts@[j]@,
            forall|j: int| 0 <= j < i ==> resolved(#[trigger] tys_view(ts@)[j]),
            all_resolved(tys_view(ts@)) <==> forall|j: int| 0 <= j < ts@.len() ==> resolved(#[trigger] tys_view(ts@)[j]),
        decreases ts@.len() - i,
    {
        if !ts[i].is_resolved() {
            assert(!resolved(tys_view(ts@)[i as int]));
            return false;
        }
        i += 1;
    }
    true
}

fn render_vec(ts: &Vec<Type>) -> (r: String)
    requires
        all_printable(tys_view(ts@)),
    ensures
        r@ == render_all(tys_view(ts@)),
    decreases ts,
{
    let ghost v = tys_view(ts@);
    proof {
        lemma_tys_view(ts@);
    }
    let mut out = String::new();
    let mut i: usize = 0;
    while i < ts.len()
        invariant
            i <= ts@.len(),
            v == tys_view(ts@),
            v.len() == ts@.len(),
            forall|j: int| 0 <= j < ts@.len() ==> #[trigger] v[j] == ts@[j]@,
            all_printable(v),
            out@ == render_all(v.subrange(0, i as int)),
        decreases ts@.len() - i,
    {
        let ghost sub = v.subrange(0, i + 1);
        assert(sub.subrange(0, i as int) =~= v.subrange(0, i as int));
        assert(sub[i as int] == ts@[i as int]@);
        proof {
            lemma_all_printable_at(v, i as int);
        }
        let piece = ts[i].as_string();
        if i > 0 {
            out.append(", ");
            proof {
                reveal_strlit(", ");
            }
        } else {
            assert(sub =~= seq![v[0]]);
        }
        out.append(piece.as_str());
        i += 1;
    }
    assert(v.subrange(0, ts@.len() as int) =~= v);
    out
}

proof fn lemma_all_printable_at(ts: Seq<Ty>, i: int)
    requires
        all_printable(ts),
        0 <= i < ts.len(),
    ensures
        printable(ts[i]),
    decreases ts.len(),
{
    if i < ts.len() - 1 {
        let init = ts.subrange(0, ts.len() - 1);
        lemma_all_printable_at(init, i);
        assert(init[i] == ts[i]);
    }
}

impl Clone for Type {
    fn clone(&self) -> Type {
        clone_ty(self)
    }
}

impl PartialEq for Type {
    fn eq(&self, other: &Type) -> (r: bool) {
        ty_eq(self, other)
    }
}

impl vstd::std_specs::cmp::PartialEqSpecImpl for Type {
    open spec fn obeys_eq_spec() -> bool {
        true
    }

    open spec fn eq_spec(&self, other: &Type) -> bool {
        self@ == other@
    }
}

impl Eq for Type {
}

} // verus!
