use std::collections::VecDeque;
use vstd::prelude::*;
use crate::types::{clone_opt_str, clone_ty, lemma_tys_view, tys_view, opt_str_view, span_of, ty_eq, Span, Ty, Type, TypeId};

verus! {

/// The module a binding belongs to.
#[derive(Clone, Debug)]
pub enum ModName {
    Global,
    Named(String),
}

impl View for ModName {
    /// `None` stands for the global module.
    type V = Option<Seq<char>>;

    open spec fn view(&self) -> Option<Seq<char>> {
        match self {
            ModName::Global => None,
            ModName::Named(s) => Some(s@),
        }
    }
}

impl ModName {
    /// The name of a named module.
    pub fn as_str(&self) -> (r: &str)
        requires
            self is Named,
        ensures
            Some(r@) == self@,
    {
        match self {
            ModName::Named(s) => s.as_str(),
            ModName::Global => "",
        }
    }

    pub fn duplicate(&self) -> (r: ModName)
        ensures
            r@ == self@,
    {
        match self {
            ModName::Global => ModName::Global,
            ModName::Named(s) => ModName::Named(s.clone()),
        }
    }

    pub fn same(&self, other: &ModName) -> (r: bool)
        ensures
            r == (self@ == other@),
    {
        match (self, other) {
            (ModName::Global, ModName::Global) => true,
            (ModName::Named(a), ModName::Named(b)) => *a == *b,
            _ => false,
        }
    }
}

/// A name bound in a scope: a variable or a function.
#[derive(Clone, Debug)]
pub enum Alias {
    Variable(String),
    Function(String),
}

/// The model of an alias.
pub enum AliasKey {
    Variable(Seq<char>),
    Function(Seq<char>),
}

impl View for Alias {
    type V = AliasKey;

    open spec fn view(&self) -> AliasKey {
        match self {
            Alias::Variable(s) => AliasKey::Variable(s@),
            Alias::Function(s) => AliasKey::Function(s@),
        }
    }
}

pub open spec fn alias_name(a: AliasKey) -> Seq<char> {
    match a {
        AliasKey::Variable(s) => s,
        AliasKey::Function(s) => s,
    }
}

impl Alias {
    /// The name, whatever the kind.
    pub fn as_str(&self) -> (r: &str)
        ensures
            r@ == alias_name(self@),
    {
        match self {
            Alias::Function(s) => s.as_str(),
            Alias::Variable(s) => s.as_str(),
        }
    }

    pub fn duplicate(&self) -> (r: Alias)
        ensures
            r@ == self@,
    {
        match self {
            Alias::Variable(s) => Alias::Variable(s.clone()),
            Alias::Function(s) => Alias::Function(s.clone()),
        }
    }

    pub fn same(&self, other: &Alias) -> (r: bool)
        ensures
            r == (self@ == other@),
    {
        match (self, other) {
            (Alias::Variable(a), Alias::Variable(b)) => *a == *b,
            (Alias::Function(a), Alias::Function(b)) => *a == *b,
            _ => false,
        }
    }
}

/// An argument of a function application, saved with a stateful initialisation.
#[derive(Debug)]
pub struct TyFnAppArg {
    pub name: Option<String>,
    pub arg: Type,
}

pub open spec fn arg_view(a: TyFnAppArg) -> (Option<Seq<char>>, Ty) {
    (opt_str_view(a.name), a.arg@)
}

pub open spec fn args_view(v: Seq<TyFnAppArg>) -> Seq<(Option<Seq<char>>, Ty)> {
    v.map_values(|a: TyFnAppArg| arg_view(a))
}

fn clone_args(v: &Vec<TyFnAppArg>) -> (r: Vec<TyFnAppArg>)
    ensures
        args_view(r@) == args_view(v@),
{
    let mut out: Vec<TyFnAppArg> = Vec::new();
    let mut i: usize = 0;
    while i < v.len()
        invariant
            i <= v@.len(),
            args_view(out@) == args_view(v@.subrange(0, i as int)),
        decreases v@.len() - i,
    {
        let a = &v[i];
        let c = TyFnAppArg { name: clone_opt_str(&a.name), arg: clone_ty(&a.arg) };
        assert(arg_view(c) == arg_view(v@[i as int]));
        let ghost prev = out@;
        out.push(c);
        assert(args_view(out@) =~= args_view(prev).push(arg_view(c)));
        i += 1;
        assert(args_view(out@) =~= args_view(v@.subrange(0, i as int)));
    }
    assert(v@.subrange(0, v@.len() as int) =~= v@);
    out
}

/// Diagnostics raised while the environment is populated or consulted.
#[derive(Debug)]
pub enum TensorScriptDiagnostic {
    /// The alias is already bound in the innermost scope: its name, the type it is bound
    /// to and the type that was to be bound.
    DuplicateVarInScope(String, Type, Type),
    /// The catalog knows no module of this name.
    SymbolNotFound(String, Span),
}

/// One level of lexical scope.
#[derive(Debug)]
pub struct Scope {
    types: Vec<(Alias, Type)>,
}

impl Scope {
    pub fn new() -> (r: Scope)
        ensures
            r@ == Seq::<(AliasKey, Ty)>::empty(),
    {
        let r = Scope { types: Vec::new() };
        assert(r@ =~= Seq::<(AliasKey, Ty)>::empty());
        r
    }
}

impl View for Scope {
    type V = Seq<(AliasKey, Ty)>;

    closed spec fn view(&self) -> Seq<(AliasKey, Ty)> {
        self.types@.map_values(|p: (Alias, Type)| (p.0@, p.1@))
    }
}

/// The scopes of one module: the active stack (innermost last), the scopes parked after
/// they were left, and the saved initialisations.
#[derive(Debug)]
pub struct ModuleScopes {
    active: VecDeque<Scope>,
    parked: VecDeque<Scope>,
    inits: Vec<(String, Vec<TyFnAppArg>)>,
}

pub open spec fn scopes_view(v: Seq<Scope>) -> Seq<Seq<(AliasKey, Ty)>> {
    v.map_values(|s: Scope| s@)
}

pub struct ModModel {
    pub active: Seq<Seq<(AliasKey, Ty)>>,
    pub parked: Seq<Seq<(AliasKey, Ty)>>,
    pub inits: Seq<(Seq<char>, Seq<(Option<Seq<char>>, Ty)>)>,
}

impl View for ModuleScopes {
    type V = ModModel;

    closed spec fn view(&self) -> ModModel {
        ModModel {
            active: scopes_view(self.active@),
            parked: scopes_view(self.parked@),
            inits: self.inits@.map_values(|p: (String, Vec<TyFnAppArg>)| (p.0@, args_view(p.1@))),
        }
    }
}

pub open spec fn modules_view(v: Seq<(ModName, ModuleScopes)>) -> Seq<(Option<Seq<char>>, ModModel)> {
    v.map_values(|p: (ModName, ModuleScopes)| (p.0@, p.1@))
}

proof fn lemma_modules_replace(v: Seq<(ModName, ModuleScopes)>, i: int, x: (ModName, ModuleScopes))
    requires
        0 <= i < v.len(),
    ensures
        modules_view(v.remove(i).insert(i, x)) == modules_view(v).update(i, (x.0@, x.1@)),
{
    assert(modules_view(v.remove(i).insert(i, x)) =~= modules_view(v).update(i, (x.0@, x.1@)));
}

proof fn lemma_scopes_replace_last(v: Seq<Scope>, x: Scope)
    requires
        v.len() > 0,
    ensures
        scopes_view(v.drop_last().push(x)) == scopes_view(v).update(v.len() - 1, x@),
{
    assert(scopes_view(v.drop_last().push(x)) =~= scopes_view(v).update(v.len() - 1, x@));
}

/// The model of the environment.
pub struct EnvModel {
    pub counter: nat,
    pub current: Option<Seq<char>>,
    pub modules: Seq<(Option<Seq<char>>, ModModel)>,
    pub to_verify: Seq<Ty>,
}

/// The environment of names and scopes used while types are reconstructed.
#[derive(Debug)]
pub struct TypeEnv {
    counter: TypeId,
    current_mod: ModName,
    modules: Vec<(ModName, ModuleScopes)>,
    to_verify: Vec<Type>,
}

impl View for TypeEnv {
    type V = EnvModel;

    closed spec fn view(&self) -> EnvModel {
        EnvModel {
            counter: self.counter as nat,
            current: self.current_mod@,
            modules: modules_view(self.modules@),
            to_verify: self.to_verify@.map_values(|t: Type| t@),
        }
    }
}

// ----- the model's operations -----

pub open spec fn keys_distinct(sc: Seq<(AliasKey, Ty)>) -> bool {
    forall|i: int, j: int| 0 <= i < sc.len() && 0 <= j < sc.len() && i != j ==> #[trigger] sc[i].0 != #[trigger] sc[j].0
}

pub open spec fn scopes_distinct(st: Seq<Seq<(AliasKey, Ty)>>) -> bool {
    forall|i: int| 0 <= i < st.len() ==> keys_distinct(#[trigger] st[i])
}

pub open spec fn mod_wf(md: ModModel) -> bool {
    &&& scopes_distinct(md.active)
    &&& scopes_distinct(md.parked)
    &&& forall|i: int, j: int| 0 <= i < md.inits.len() && 0 <= j < md.inits.len() && i != j
        ==> #[trigger] md.inits[i].0 != #[trigger] md.inits[j].0
}

pub open spec fn init_get(md: ModModel, name: Seq<char>) -> Option<Seq<(Option<Seq<char>>, Ty)>> {
    if exists|i: int| 0 <= i < md.inits.len() && #[trigger] md.inits[i].0 == name {
        let i = choose|i: int| 0 <= i < md.inits.len() && #[trigger] md.inits[i].0 == name;
        Some(md.inits[i].1)
    } else {
        None
    }
}

/// Module names are distinct and no scope binds an alias twice.
pub open spec fn env_wf(e: EnvModel) -> bool {
    &&& forall|i: int, j: int| 0 <= i < e.modules.len() && 0 <= j < e.modules.len() && i != j
        ==> #[trigger] e.modules[i].0 != #[trigger] e.modules[j].0
    &&& forall|i: int| 0 <= i < e.modules.len() ==> mod_wf(#[trigger] e.modules[i].1)
}

pub open spec fn scope_get(sc: Seq<(AliasKey, Ty)>, a: AliasKey) -> Option<Ty> {
    if exists|i: int| 0 <= i < sc.len() && #[trigger] sc[i].0 == a {
        let i = choose|i: int| 0 <= i < sc.len() && #[trigger] sc[i].0 == a;
        Some(sc[i].1)
    } else {
        None
    }
}

/// The binding of `a` in the outermost scope of `st` that binds it.
pub open spec fn stack_get(st: Seq<Seq<(AliasKey, Ty)>>, a: AliasKey) -> Option<Ty>
    decreases st.len(),
{
    if st.len() == 0 {
        None
    } else {
        match scope_get(st[0], a) {
            Some(t) => Some(t),
            None => stack_get(st.subrange(1, st.len() as int), a),
        }
    }
}

pub open spec fn has_module(e: EnvModel, m: Option<Seq<char>>) -> bool {
    exists|i: int| 0 <= i < e.modules.len() && #[trigger] e.modules[i].0 == m
}

pub open spec fn mod_index(e: EnvModel, m: Option<Seq<char>>) -> int {
    choose|i: int| 0 <= i < e.modules.len() && #[trigger] e.modules[i].0 == m
}

pub open spec fn module_of(e: EnvModel, m: Option<Seq<char>>) -> ModModel {
    e.modules[mod_index(e, m)].1
}

/// The binding of `a` in module `m`, none if the module is unknown.
pub open spec fn lookup_in(e: EnvModel, m: Option<Seq<char>>, a: AliasKey) -> Option<Ty> {
    if has_module(e, m) {
        stack_get(module_of(e, m).active, a)
    } else {
        None
    }
}

/// The binding of `a` seen from module `m`: in `m`, else in the global module.
pub open spec fn resolve_model(e: EnvModel, m: Option<Seq<char>>, a: AliasKey) -> Option<Ty> {
    match lookup_in(e, m, a) {
        Some(t) => Some(t),
        None => lookup_in(e, None, a),
    }
}

pub open spec fn push_scope_model(e: EnvModel, m: Option<Seq<char>>) -> EnvModel {
    let md = module_of(e, m);
    with_module(e, m, ModModel { active: md.active.push(Seq::empty()), ..md })
}

pub open spec fn pop_scope_model(e: EnvModel, m: Option<Seq<char>>) -> EnvModel {
    let md = module_of(e, m);
    with_module(e, m, ModModel { active: md.active.drop_last(), parked: md.parked.push(md.active.last()), ..md })
}

pub open spec fn push_scope_collection_model(e: EnvModel, m: Option<Seq<char>>) -> EnvModel {
    let md = module_of(e, m);
    with_module(
        e,
        m,
        ModModel { active: md.active.push(md.parked[0]), parked: md.parked.subrange(1, md.parked.len() as int), ..md },
    )
}

/// Binds `a ↦ t` in the innermost scope of `m` (created if needed), replacing a binding
/// of `a` that this scope holds.
pub open spec fn add_type_allow_dup_model(e: EnvModel, m: Option<Seq<char>>, a: AliasKey, t: Ty) -> EnvModel {
    let e1 = upsert_model(e, m);
    let md = module_of(e1, m);
    let top = md.active.last();
    let new_top = if exists|i: int| 0 <= i < top.len() && #[trigger] top[i].0 == a {
        top.update(choose|i: int| 0 <= i < top.len() && #[trigger] top[i].0 == a, (a, t))
    } else {
        top.push((a, t))
    };
    with_module(e1, m, ModModel { active: md.active.update(md.active.len() - 1, new_top), ..md })
}

pub open spec fn add_init_model(e: EnvModel, m: Option<Seq<char>>, name: Seq<char>, args: Seq<(Option<Seq<char>>, Ty)>) -> EnvModel {
    let md = module_of(e, m);
    with_module(e, m, ModModel { inits: md.inits.push((name, args)), ..md })
}

pub open spec fn with_module(e: EnvModel, m: Option<Seq<char>>, md: ModModel) -> EnvModel {
    EnvModel { modules: e.modules.update(mod_index(e, m), (m, md)), ..e }
}

pub open spec fn fresh_module() -> ModModel {
    ModModel { active: seq![Seq::empty()], parked: Seq::empty(), inits: Seq::empty() }
}

/// The environment with module `m` present, added with one empty scope if it was not.
pub open spec fn upsert_model(e: EnvModel, m: Option<Seq<char>>) -> EnvModel {
    if has_module(e, m) {
        e
    } else {
        EnvModel { modules: e.modules.push((m, fresh_module())), ..e }
    }
}

/// Adding `a ↦ t` to the innermost scope of `m` (created if needed); `None` when that
/// scope already binds `a`, with the environment in which the module exists.
pub open spec fn add_type_model(e: EnvModel, m: Option<Seq<char>>, a: AliasKey, t: Ty) -> (EnvModel, bool) {
    let e1 = upsert_model(e, m);
    let md = module_of(e1, m);
    let top = md.active.last();
    if scope_get(top, a) is Some {
        (e1, false)
    } else {
        (with_module(e1, m, ModModel { active: md.active.update(md.active.len() - 1, top.push((a, t))), ..md }), true)
    }
}

pub proof fn lemma_upsert(e: EnvModel, m: Option<Seq<char>>)
    requires
        can_add(e, m),
    ensures
        has_module(upsert_model(e, m), m),
        module_of(upsert_model(e, m), m).active.len() > 0,
        !has_module(e, m) ==> module_of(upsert_model(e, m), m) == fresh_module(),
{
    let u = upsert_model(e, m);
    if !has_module(e, m) {
        let n = e.modules.len() as int;
        assert(u.modules[n].0 == m);
        let c = mod_index(u, m);
        if c < n {
            assert(e.modules[c].0 == m);
        }
        assert(c == n);
    }
}

/// An environment in which `add_type` does not fail for want of a scope.
pub open spec fn can_add(e: EnvModel, m: Option<Seq<char>>) -> bool {
    has_module(e, m) ==> module_of(e, m).active.len() > 0
}

pub open spec fn ty_opt_view(o: Option<Type>) -> Option<Ty> {
    match o {
        Some(t) => Some(t@),
        None => None,
    }
}

fn scope_find(sc: &Scope, a: &Alias) -> (r: Option<usize>)
    ensures
        r is None <==> scope_get(sc@, a@) is None,
        r matches Some(j) ==> j < sc@.len() && sc@[j as int].0 == a@ && sc.types@[j as int].0@ == a@,
{
    let mut j: usize = 0;
    while j < sc.types.len()
        invariant
            j <= sc.types@.len(),
            sc@.len() == sc.types@.len(),
            forall|k: int| 0 <= k < j ==> #[trigger] sc@[k].0 != a@,
        decreases sc.types@.len() - j,
    {
        if sc.types[j].0.same(a) {
            assert(sc@[j as int].0 == a@);
            return Some(j);
        }
        j += 1;
    }
    None
}

/// The binding of `a` in the outermost scope of `st` that binds it.
fn stack_find(st: &VecDeque<Scope>, a: &Alias) -> (r: Option<Type>)
    requires
        scopes_distinct(scopes_view(st@)),
    ensures
        ty_opt_view(r) == stack_get(scopes_view(st@), a@),
{
    let ghost full = scopes_view(st@);
    assert(full.subrange(0, full.len() as int) =~= full);
    let mut i: usize = 0;
    while i < st.len()
        invariant
            i <= st@.len(),
            full == scopes_view(st@),
            scopes_distinct(full),
            stack_get(full, a@) == stack_get(full.subrange(i as int, full.len() as int), a@),
        decreases st@.len() - i,
    {
        let ghost sub = full.subrange(i as int, full.len() as int);
        assert(sub[0] == st@[i as int]@);
        assert(sub.subrange(1, sub.len() as int) =~= full.subrange(i + 1, full.len() as int));
        match scope_find(&st[i], a) {
            Some(j) => {
                proof {
                    let sc = st@[i as int]@;
                    let c = choose|c: int| 0 <= c < sc.len() && #[trigger] sc[c].0 == a@;
                    assert(sc[c].0 == sc[j as int].0);
                    assert(full.len() == st@.len());
                    assert(full[i as int] == sc);
                    assert(keys_distinct(full[i as int]));
                    assert(c == j);
                }
                return Some(clone_ty(&st[i].types[j].1));
            },
            None => {},
        }
        i += 1;
    }
    None
}

impl TypeEnv {
    pub fn new() -> (r: TypeEnv)
        ensures
            r@.counter == 0,
            r@.current == None::<Seq<char>>,
            r@.modules.len() == 0,
            r@.to_verify.len() == 0,
            env_wf(r@),
    {
        TypeEnv { counter: 0, current_mod: ModName::Global, modules: Vec::new(), to_verify: Vec::new() }
    }

    /// A new dimension variable.
    pub fn fresh_dim(&mut self, span: &Span) -> (r: Type)
        requires
            old(self)@.counter < usize::MAX,
        ensures
            final(self)@ == (EnvModel { counter: old(self)@.counter + 1, ..old(self)@ }),
            r@ == Ty::Dim(old(self)@.counter + 1),
            span_of(r) == *span,
    {
        self.counter = self.counter + 1;
        Type::Dim(self.counter, *span)
    }

    /// A new type variable.
    pub fn fresh_var(&mut self, span: &Span) -> (r: Type)
        requires
            old(self)@.counter < usize::MAX,
        ensures
            final(self)@ == (EnvModel { counter: old(self)@.counter + 1, ..old(self)@ }),
            r@ == Ty::Var(old(self)@.counter + 1),
            span_of(r) == *span,
    {
        self.counter = self.counter + 1;
        Type::Var(self.counter, *span)
    }

    /// The module being traversed.
    pub fn module(&self) -> (r: ModName)
        ensures
            r@ == self@.current,
    {
        self.current_mod.duplicate()
    }

    pub fn set_module(&mut self, scp: ModName)
        ensures
            final(self)@ == (EnvModel { current: scp@, ..old(self)@ }),
    {
        self.current_mod = scp;
    }

    fn find_module(&self, m: &ModName) -> (r: Option<usize>)
        requires
            env_wf(self@),
        ensures
            r is Some <==> has_module(self@, m@),
            r matches Some(i) ==> i == mod_index(self@, m@) && i < self@.modules.len(),
    {
        let mut i: usize = 0;
        while i < self.modules.len()
            invariant
                env_wf(self@),
                i <= self.modules@.len(),
                self@.modules.len() == self.modules@.len(),
                forall|k: int| 0 <= k < i ==> #[trigger] self@.modules[k].0 != m@,
            decreases self.modules@.len() - i,
        {
            if self.modules[i].0.same(m) {
                proof {
                    assert(self@.modules[i as int].0 == m@);
                    let c = mod_index(self@, m@);
                    assert(has_module(self@, m@));
                    assert(self@.modules[c].0 == m@);
                    assert(c == i);
                }
                return Some(i);
            }
            i += 1;
        }
        None
    }

    /// Puts module `i` back after it was taken out with `remove`.
    fn put_back(&mut self, i: usize, name: ModName, md: ModuleScopes, Ghost(e): Ghost<EnvModel>, Ghost(v): Ghost<Seq<(ModName, ModuleScopes)>>)
        requires
            i < v.len(),
            e.modules == modules_view(v),
            old(self).modules@ == v.remove(i as int),
            old(self)@ == (EnvModel { modules: old(self)@.modules, ..e }),
        ensures
            final(self)@ == (EnvModel { modules: e.modules.update(i as int, (name@, md@)), ..e }),
    {
        proof {
            lemma_modules_replace(v, i as int, (name, md));
        }
        self.modules.insert(i, (name, md));
    }

    /// Whether a binding can be added to module `m`: it is absent (and would be created
    /// with a scope) or it has an active scope.
    pub fn can_add_to(&self, m: &ModName) -> (r: bool)
        requires
            env_wf(self@),
        ensures
            r == can_add(self@, m@),
    {
        match self.find_module(m) {
            Some(i) => {
                assert(self@.modules[i as int].1 == self.modules@[i as int].1@);
                self.modules[i].1.active.len() > 0
            },
            None => true,
        }
    }

    /// Adds module `m`, with one empty scope, unless it is there.
    pub fn upsert_module(&mut self, m: &ModName)
        requires
            env_wf(old(self)@),
        ensures
            final(self)@ == upsert_model(old(self)@, m@),
            env_wf(final(self)@),
    {
        if self.find_module(m).is_none() {
            let mut active: VecDeque<Scope> = VecDeque::new();
            active.push_back(Scope::new());
            let md = ModuleScopes { active, parked: VecDeque::new(), inits: Vec::new() };
            assert(md@.active =~= seq![Seq::<(AliasKey, Ty)>::empty()]);
            assert(md@.parked =~= Seq::<Seq<(AliasKey, Ty)>>::empty());
            assert(md@.inits =~= Seq::<(Seq<char>, Seq<(Option<Seq<char>>, Ty)>)>::empty());
            let ghost prev = self@;
            self.modules.push((m.duplicate(), md));
            assert(self@.modules =~= prev.modules.push((m@, fresh_module())));
            assert(self@ == upsert_model(prev, m@));
        }
    }
}

impl TypeEnv {
    /// Enters a block: a new empty scope on top of module `m`'s active stack.
    pub fn push_scope(&mut self, mod_name: &ModName)
        requires
            env_wf(old(self)@),
            has_module(old(self)@, mod_name@),
        ensures
            final(self)@ == push_scope_model(old(self)@, mod_name@),
            env_wf(final(self)@),
    {
        let ghost e = self@;
        let ghost v = self.modules@;
        let i = self.find_module(mod_name).unwrap();
        let (name, mut md) = self.modules.remove(i);
        proof {
            assert(name@ == mod_name@);
            assert(md@ == module_of(e, mod_name@));
        }
        let ghost md0 = md@;
        md.active.push_back(Scope::new());
        assert(md@.active =~= md0.active.push(Seq::empty()));
        assert(md@ == (ModModel { active: md0.active.push(Seq::empty()), ..md0 }));
        self.put_back(i, name, md, Ghost(e), Ghost(v));
        proof {
            let f = self@;
            assert forall|k: int| 0 <= k < f.modules.len() implies mod_wf(#[trigger] f.modules[k].1) by {
                if k == i {
                    assert(e.modules[k].1 == md0);
                    assert(mod_wf(md0));
                }
            }
        }
    }

    /// Leaves a block: the top of module `m`'s active stack moves to its parked scopes.
    pub fn pop_scope(&mut self, mod_name: &ModName)
        requires
            env_wf(old(self)@),
            has_module(old(self)@, mod_name@),
            module_of(old(self)@, mod_name@).active.len() > 0,
        ensures
            final(self)@ == pop_scope_model(old(self)@, mod_name@),
            env_wf(final(self)@),
    {
        let ghost e = self@;
        let ghost v = self.modules@;
        let i = self.find_module(mod_name).unwrap();
        let (name, mut md) = self.modules.remove(i);
        proof {
            assert(name@ == mod_name@);
            assert(md@ == module_of(e, mod_name@));
        }
        let ghost md0 = md@;
        let popped = md.active.pop_back().unwrap();
        md.parked.push_back(popped);
        assert(md@.active =~= md0.active.drop_last());
        assert(md@.parked =~= md0.parked.push(md0.active.last()));
        assert(md@ == (ModModel { active: md0.active.drop_last(), parked: md0.parked.push(md0.active.last()), ..md0 }));
        self.put_back(i, name, md, Ghost(e), Ghost(v));
        proof {
            let f = self@;
            assert forall|k: int| 0 <= k < f.modules.len() implies mod_wf(#[trigger] f.modules[k].1) by {
                if k == i {
                    assert(e.modules[k].1 == md0);
                    assert(mod_wf(md0));
                    assert(scopes_distinct(md0.active));
                    assert(keys_distinct(md0.active[md0.active.len() - 1]));
                }
            }
        }
    }

    /// Re-enters a block while constraints are collected: the first parked scope of
    /// module `m` goes back on top of its active stack.
    pub fn push_scope_collection(&mut self, mod_name: &ModName)
        requires
            env_wf(old(self)@),
            has_module(old(self)@, mod_name@),
            module_of(old(self)@, mod_name@).parked.len() > 0,
        ensures
            final(self)@ == push_scope_collection_model(old(self)@, mod_name@),
            env_wf(final(self)@),
    {
        let ghost e = self@;
        let ghost v = self.modules@;
        let i = self.find_module(mod_name).unwrap();
        let (name, mut md) = self.modules.remove(i);
        proof {
            assert(name@ == mod_name@);
            assert(md@ == module_of(e, mod_name@));
        }
        let ghost md0 = md@;
        let scp = md.parked.pop_front().unwrap();
        md.active.push_back(scp);
        assert(md@.active =~= md0.active.push(md0.parked[0]));
        assert(md@.parked =~= md0.parked.subrange(1, md0.parked.len() as int));
        self.put_back(i, name, md, Ghost(e), Ghost(v));
        proof {
            let f = self@;
            assert forall|k: int| 0 <= k < f.modules.len() implies mod_wf(#[trigger] f.modules[k].1) by {
                if k == i {
                    assert(e.modules[k].1 == md0);
                    assert(mod_wf(md0));
                    assert(keys_distinct(md0.parked[0]));
                    assert forall|q: int| 0 <= q < md0.parked.len() - 1 implies keys_distinct(#[trigger] md0.parked.subrange(1, md0.parked.len() as int)[q]) by {
                        assert(md0.parked.subrange(1, md0.parked.len() as int)[q] == md0.parked[q + 1]);
                    }
                }
            }
        }
    }
}

/// What a failed `add_type` reports: the alias's name, its binding and the refused type.
pub open spec fn duplicate_view(d: TensorScriptDiagnostic) -> Option<(Seq<char>, Ty, Ty)> {
    match d {
        TensorScriptDiagnostic::DuplicateVarInScope(n, a, b) => Some((n@, a@, b@)),
        _ => None,
    }
}

impl TypeEnv {
    /// Binds `alias ↦ ty` in the innermost scope of `mod_name`, adding the module if it is
    /// absent; refuses an alias that this scope binds already.
    pub fn add_type(&mut self, mod_name: &ModName, alias: &Alias, ty: Type) -> (r: Result<(), TensorScriptDiagnostic>)
        requires
            env_wf(old(self)@),
            can_add(old(self)@, mod_name@),
        ensures
            final(self)@ == add_type_model(old(self)@, mod_name@, alias@, ty@).0,
            r is Ok == add_type_model(old(self)@, mod_name@, alias@, ty@).1,
            r matches Err(d) ==> duplicate_view(d) == Some((
                alias_name(alias@),
                scope_get(module_of(upsert_model(old(self)@, mod_name@), mod_name@).active.last(), alias@).unwrap(),
                ty@,
            )),
            env_wf(final(self)@),
    {
        let ghost e0 = self@;
        let ghost tyv = ty@;
        self.upsert_module(mod_name);
        proof {
            lemma_upsert(old(self)@, mod_name@);
        }
        let ghost e = self@;
        let ghost v = self.modules@;
        let i = self.find_module(mod_name).unwrap();
        let (name, mut md) = self.modules.remove(i);
        proof {
            assert(name@ == mod_name@);
            assert(md@ == module_of(e, mod_name@));
            assert(mod_wf(md@));
        }
        let ghost md0 = md@;
        let ghost av = md.active@;
        let mut top = md.active.pop_back().unwrap();
        let ghost top0 = top@;
        assert(top0 == md0.active.last());
        match scope_find(&top, alias) {
            Some(j) => {
                proof {
                    assert(keys_distinct(top0));
                    let c = choose|c: int| 0 <= c < top0.len() && #[trigger] top0[c].0 == alias@;
                    assert(top0[c].0 == top0[j as int].0);
                }
                let orig = clone_ty(&top.types[j].1);
                assert(orig@ == top0[j as int].1);
                md.active.push_back(top);
                assert(md.active@ =~= av);
                assert(md@ == md0);
                self.put_back(i, name, md, Ghost(e), Ghost(v));
                assert(self@.modules =~= e.modules);
                Err(TensorScriptDiagnostic::DuplicateVarInScope(alias.as_str().to_owned(), orig, ty))
            },
            None => {
                let ghost prev = top.types@;
                top.types.push((alias.duplicate(), ty));
                assert(top@ =~= top0.push((alias@, tyv)));
                proof {
                    lemma_scopes_replace_last(av, top);
                }
                md.active.push_back(top);
                assert(md.active@ == av.drop_last().push(top));
                let ghost md1 = md@;
                assert(md1 == (ModModel { active: md0.active.update(md0.active.len() - 1, top0.push((alias@, tyv))), ..md0 }));
                self.put_back(i, name, md, Ghost(e), Ghost(v));
                proof {
                    let f = self@;
                    assert forall|k: int| 0 <= k < f.modules.len() implies mod_wf(#[trigger] f.modules[k].1) by {
                        if k == i {
                            assert forall|q: int| 0 <= q < md1.active.len() implies keys_distinct(#[trigger] md1.active[q]) by {
                                if q == md1.active.len() - 1 {
                                    let t1 = top0.push((alias@, tyv));
                                    assert(keys_distinct(top0));
                                    assert forall|x: int, y: int| 0 <= x < t1.len() && 0 <= y < t1.len() && x != y implies #[trigger] t1[x].0 != #[trigger] t1[y].0 by {
                                        if x == top0.len() {
                                            assert(t1[y] == top0[y]);
                                        } else if y == top0.len() {
                                            assert(t1[x] == top0[x]);
                                        }
                                    }
                                } else {
                                    assert(md1.active[q] == md0.active[q]);
                                }
                            }
                        }
                    }
                }
                Ok(())
            },
        }
    }

    /// Binds `alias ↦ ty` in the innermost scope of `mod_name`, replacing a binding of
    /// `alias` in that scope.
    pub fn add_type_allow_dup(&mut self, mod_name: &ModName, alias: &Alias, ty: Type)
        requires
            env_wf(old(self)@),
            can_add(old(self)@, mod_name@),
        ensures
            final(self)@ == add_type_allow_dup_model(old(self)@, mod_name@, alias@, ty@),
            env_wf(final(self)@),
    {
        let ghost tyv = ty@;
        self.upsert_module(mod_name);
        proof {
            lemma_upsert(old(self)@, mod_name@);
        }
        let ghost e = self@;
        let ghost v = self.modules@;
        let i = self.find_module(mod_name).unwrap();
        let (name, mut md) = self.modules.remove(i);
        proof {
            assert(name@ == mod_name@);
            assert(md@ == module_of(e, mod_name@));
            assert(mod_wf(md@));
        }
        let ghost md0 = md@;
        let ghost av = md.active@;
        let mut top = md.active.pop_back().unwrap();
        let ghost top0 = top@;
        assert(top0 == md0.active.last());
        assert(keys_distinct(top0));
        let ghost new_top;
        match scope_find(&top, alias) {
            Some(j) => {
                proof {
                    let c = choose|c: int| 0 <= c < top0.len() && #[trigger] top0[c].0 == alias@;
                    assert(top0[c].0 == top0[j as int].0);
                    new_top = top0.update(j as int, (alias@, tyv));
                }
                top.types.set(j, (alias.duplicate(), ty));
                assert(top@ =~= new_top);
            },
            None => {
                proof {
                    new_top = top0.push((alias@, tyv));
                }
                top.types.push((alias.duplicate(), ty));
                assert(top@ =~= new_top);
            },
        }
        proof {
            lemma_scopes_replace_last(av, top);
            assert forall|x: int, y: int| 0 <= x < new_top.len() && 0 <= y < new_top.len() && x != y implies #[trigger] new_top[x].0 != #[trigger] new_top[y].0 by {
                if x < top0.len() && y < top0.len() {
                    if new_top[x].0 == alias@ || new_top[y].0 == alias@ {
                        assert(top0[x].0 == new_top[x].0 || new_top[x] == (alias@, tyv));
                    } else {
                        assert(new_top[x] == top0[x] && new_top[y] == top0[y]);
                    }
                }
            }
        }
        md.active.push_back(top);
        assert(md.active@ == av.drop_last().push(top));
        let ghost md1 = md@;
        self.put_back(i, name, md, Ghost(e), Ghost(v));
        proof {
            let f = self@;
            assert forall|k: int| 0 <= k < f.modules.len() implies mod_wf(#[trigger] f.modules[k].1) by {
                if k == i {
                    assert forall|q: int| 0 <= q < md1.active.len() implies keys_distinct(#[trigger] md1.active[q]) by {
                        if q != md1.active.len() - 1 {
                            assert(md1.active[q] == md0.active[q]);
                        }
                    }
                }
            }
        }
    }
}

impl TypeEnv {
    /// The binding of `alias` in module `mod_name` (outermost scope first), if any.
    fn resolve_type_inner(&self, mod_name: &ModName, alias: &Alias) -> (r: Option<Type>)
        requires
            env_wf(self@),
        ensures
            ty_opt_view(r) == lookup_in(self@, mod_name@, alias@),
    {
        match self.find_module(mod_name) {
            Some(i) => {
                proof {
                    assert(self@.modules[i as int].1 == self.modules@[i as int].1@);
                    assert(mod_wf(self@.modules[i as int].1));
                }
                stack_find(&self.modules[i].1.active, alias)
            },
            None => None,
        }
    }

    /// The type bound to `alias` as seen from module `mod_name`: its binding there, else
    /// its binding in the global module.
    pub fn resolve_type(&self, mod_name: &ModName, alias: &Alias) -> (r: Option<Type>)
        requires
            env_wf(self@),
        ensures
            ty_opt_view(r) == resolve_model(self@, mod_name@, alias@),
    {
        match self.resolve_type_inner(mod_name, alias) {
            Some(t) => Some(t),
            None => self.resolve_type_inner(&ModName::Global, alias),
        }
    }

    /// Whether `alias` is bound in module `mod_name`.
    pub fn alias_exists(&self, mod_name: &ModName, alias: &Alias) -> (r: bool)
        requires
            env_wf(self@),
        ensures
            r == (lookup_in(self@, mod_name@, alias@) is Some),
    {
        self.resolve_type_inner(mod_name, alias).is_some()
    }

    /// Saves the initialisation arguments of `alias` in module `mod_name`.
    pub fn add_init(&mut self, mod_name: &ModName, alias: &str, ty: Vec<TyFnAppArg>)
        requires
            env_wf(old(self)@),
            has_module(old(self)@, mod_name@),
            init_get(module_of(old(self)@, mod_name@), alias@) is None,
        ensures
            final(self)@ == add_init_model(old(self)@, mod_name@, alias@, args_view(ty@)),
            env_wf(final(self)@),
    {
        let ghost e = self@;
        let ghost v = self.modules@;
        let ghost tv = args_view(ty@);
        let i = self.find_module(mod_name).unwrap();
        let (name, mut md) = self.modules.remove(i);
        proof {
            assert(name@ == mod_name@);
            assert(md@ == module_of(e, mod_name@));
        }
        let ghost md0 = md@;
        md.inits.push((alias.to_owned(), ty));
        assert(md@.inits =~= md0.inits.push((alias@, tv)));
        let ghost md1 = md@;
        self.put_back(i, name, md, Ghost(e), Ghost(v));
        proof {
            let f = self@;
            assert forall|k: int| 0 <= k < f.modules.len() implies mod_wf(#[trigger] f.modules[k].1) by {
                if k == i {
                    assert(mod_wf(md0));
                    let n = md0.inits.len() as int;
                    assert forall|x: int, y: int| 0 <= x < md1.inits.len() && 0 <= y < md1.inits.len() && x != y
                        implies #[trigger] md1.inits[x].0 != #[trigger] md1.inits[y].0 by {
                        if x == n {
                            assert(md1.inits[y] == md0.inits[y]);
                        } else if y == n {
                            assert(md1.inits[x] == md0.inits[x]);
                        } else {
                            assert(md1.inits[x] == md0.inits[x] && md1.inits[y] == md0.inits[y]);
                        }
                    }
                }
            }
        }
    }

    /// The initialisation arguments saved for `alias` in module `mod_name`.
    pub fn resolve_init(&self, mod_name: &ModName, alias: &str) -> (r: Option<Vec<TyFnAppArg>>)
        requires
            env_wf(self@),
            has_module(self@, mod_name@),
        ensures
            r is Some == init_get(module_of(self@, mod_name@), alias@) is Some,
            r matches Some(v) ==> Some(args_view(v@)) == init_get(module_of(self@, mod_name@), alias@),
    {
        let i = self.find_module(mod_name).unwrap();
        let md = &self.modules[i].1;
        let ghost mv = md@;
        assert(mv == module_of(self@, mod_name@));
        assert(mod_wf(mv));
        let key = alias.to_owned();
        let mut k: usize = 0;
        while k < md.inits.len()
            invariant
                k <= md.inits@.len(),
                mv == md@,
                mv == module_of(self@, mod_name@),
                mod_wf(mv),
                key@ == alias@,
                forall|q: int| 0 <= q < k ==> #[trigger] mv.inits[q].0 != alias@,
            decreases md.inits@.len() - k,
        {
            if md.inits[k].0 == key {
                proof {
                    assert(mv.inits[k as int].0 == alias@);
                    let c = choose|c: int| 0 <= c < mv.inits.len() && #[trigger] mv.inits[c].0 == alias@;
                    assert(c == k);
                }
                return Some(clone_args(&md.inits[k].1));
            }
            k += 1;
        }
        None
    }

    /// Binds `alias` to a new dimension variable in module `mod_name`.
    pub fn add_dim_alias(&mut self, mod_name: &ModName, alias: &Alias, span: &Span) -> (r: Result<(), TensorScriptDiagnostic>)
        requires
            env_wf(old(self)@),
            can_add(old(self)@, mod_name@),
            old(self)@.counter < usize::MAX,
        ensures
            final(self)@ == add_type_model(
                EnvModel { counter: old(self)@.counter + 1, ..old(self)@ },
                mod_name@,
                alias@,
                Ty::Dim(old(self)@.counter + 1),
            ).0,
            r is Ok == add_type_model(
                EnvModel { counter: old(self)@.counter + 1, ..old(self)@ },
                mod_name@,
                alias@,
                Ty::Dim(old(self)@.counter + 1),
            ).1,
            env_wf(final(self)@),
    {
        let tyvar = self.fresh_dim(span);
        self.add_type(mod_name, alias, tyvar)
    }

    /// Binds `alias` to the resolved dimension `num` in module `mod_name`.
    pub fn add_resolved_dim_alias(&mut self, mod_name: &ModName, alias: &Alias, num: i64, span: &Span) -> (r: Result<(), TensorScriptDiagnostic>)
        requires
            env_wf(old(self)@),
            can_add(old(self)@, mod_name@),
        ensures
            final(self)@ == add_type_model(old(self)@, mod_name@, alias@, Ty::ResolvedDim(num)).0,
            r is Ok == add_type_model(old(self)@, mod_name@, alias@, Ty::ResolvedDim(num)).1,
            env_wf(final(self)@),
    {
        let tyvar = Type::ResolvedDim(num, *span);
        self.add_type(mod_name, alias, tyvar)
    }

    /// Records a type for the structural check after unification; a type recorded already
    /// is not recorded twice.
    pub fn add_unverified(&mut self, v: Type)
        ensures
            old(self)@.to_verify.contains(v@) ==> final(self)@ == old(self)@,
            !old(self)@.to_verify.contains(v@) ==> final(self)@ == (EnvModel {
                to_verify: old(self)@.to_verify.push(v@),
                ..old(self)@
            }),
    {
        let mut i: usize = 0;
        while i < self.to_verify.len()
            invariant
                i <= self.to_verify@.len(),
                self@ == old(self)@,
                forall|q: int| 0 <= q < i ==> #[trigger] self@.to_verify[q] != v@,
            decreases self.to_verify@.len() - i,
        {
            if ty_eq(&self.to_verify[i], &v) {
                assert(self@.to_verify[i as int] == v@);
                return;
            }
            i += 1;
        }
        let ghost prev = self@;
        let ghost vv = v@;
        self.to_verify.push(v);
        assert(self@.to_verify =~= prev.to_verify.push(vv));
    }
}

// ----- tensors -----

pub open spec fn is_digit(c: char) -> bool {
    '0' <= c && c <= '9'
}

/// The value of a string of decimal digits.
pub open spec fn digits_value(s: Seq<char>) -> int
    decreases s.len(),
{
    if s.len() == 0 {
        0
    } else {
        digits_value(s.drop_last()) * 10 + ((s.last() as u32) - ('0' as u32))
    }
}

/// An `i64` written in decimal: an optional `+` or `-`, then at least one digit, with a
/// value in range.
pub open spec fn parse_i64_spec(s: Seq<char>) -> Option<i64> {
    let signed = s.len() > 0 && (s[0] == '-' || s[0] == '+');
    let body = if signed { s.subrange(1, s.len() as int) } else { s };
    let v = if signed && s[0] == '-' { -digits_value(body) } else { digits_value(body) };
    if body.len() > 0 && (forall|i: int| 0 <= i < body.len() ==> is_digit(#[trigger] body[i])) && i64::MIN <= v
        <= i64::MAX {
        Some(v as i64)
    } else {
        None
    }
}

/// Relies on `str::parse::<i64>` (std's `FromStr` for `i64`): it accepts an optional sign
/// followed by decimal digits whose value fits, and nothing else.
#[verifier::external_body]
fn parse_i64(s: &str) -> (r: Option<i64>)
    ensures
        r == parse_i64_spec(s@),
{
    s.parse::<i64>().ok()
}

pub open spec fn strs_view(v: Seq<String>) -> Seq<Seq<char>> {
    v.map_values(|s: String| s@)
}

/// The dimensions of a tensor written as `dims`, read left to right: a number is a resolved
/// dimension; a name is looked up, a tensor's dimensions are spliced in, and an unknown
/// name gets a new dimension variable. Returns the dimensions and the counter after.
pub open spec fn dim_types(e: EnvModel, m: Option<Seq<char>>, dims: Seq<Seq<char>>, counter: nat) -> (Seq<Ty>, nat)
    decreases dims.len(),
{
    if dims.len() == 0 {
        (Seq::empty(), counter)
    } else {
        let (head, c1) = match parse_i64_spec(dims[0]) {
            Some(i) => (seq![Ty::ResolvedDim(i)], counter),
            None => match resolve_model(e, m, AliasKey::Variable(dims[0])) {
                Some(Ty::Tsr(vs)) => (vs, counter),
                Some(t) => (seq![t], counter),
                None => (seq![Ty::Dim(counter + 1)], counter + 1),
            },
        };
        let rest = dim_types(e, m, dims.subrange(1, dims.len() as int), c1);
        (head + rest.0, rest.1)
    }
}

/// For each dimension of `dim_types`, whether `create_tensor` makes it (a number, or a new
/// dimension variable) rather than taking it from a binding.
pub open spec fn made_here(e: EnvModel, m: Option<Seq<char>>, dims: Seq<Seq<char>>, counter: nat) -> Seq<bool>
    decreases dims.len(),
{
    if dims.len() == 0 {
        Seq::empty()
    } else {
        let (head, c1) = match parse_i64_spec(dims[0]) {
            Some(i) => (seq![true], counter),
            None => match resolve_model(e, m, AliasKey::Variable(dims[0])) {
                Some(Ty::Tsr(vs)) => (Seq::new(vs.len(), |q: int| false), counter),
                Some(t) => (seq![false], counter),
                None => (seq![true], counter + 1),
            },
        };
        head + made_here(e, m, dims.subrange(1, dims.len() as int), c1)
    }
}

impl TypeEnv {
    /// The tensor type written as `dims` in module `mod_name`; names that are not bound get
    /// new dimension variables.
    pub fn create_tensor(&mut self, mod_name: &ModName, dims: &[String], span: &Span) -> (r: Type)
        requires
            env_wf(old(self)@),
            old(self)@.counter + dims@.len() <= usize::MAX,
        ensures
            r@ == Ty::Tsr(dim_types(old(self)@, mod_name@, strs_view(dims@), old(self)@.counter).0),
            final(self)@ == (EnvModel {
                counter: dim_types(old(self)@, mod_name@, strs_view(dims@), old(self)@.counter).1,
                ..old(self)@
            }),
            env_wf(final(self)@),
            span_of(r) == *span,
            r matches Type::Tsr(v, _) && v@.len() == made_here(old(self)@, mod_name@, strs_view(dims@), old(self)@.counter).len()
                && forall|k: int| 0 <= k < v@.len() && #[trigger] made_here(old(self)@, mod_name@, strs_view(dims@), old(self)@.counter)[k]
                    ==> span_of(v@[k]) == *span,
    {
        let ghost e = self@;
        let ghost ds = strs_view(dims@);
        let ghost whole = dim_types(e, mod_name@, ds, e.counter);
        let ghost mwhole = made_here(e, mod_name@, ds, e.counter);
        let ghost mut made: Seq<bool> = Seq::empty();
        let mut out: Vec<Type> = Vec::new();
        let mut i: usize = 0;
        assert(ds.subrange(0, ds.len() as int) =~= ds);
        while i < dims.len()
            invariant
                i <= dims@.len(),
                ds == strs_view(dims@),
                self@ == (EnvModel { counter: self@.counter, ..e }),
                env_wf(self@),
                e.counter <= self@.counter,
                self@.counter + (dims@.len() - i) <= usize::MAX,
                whole == dim_types(e, mod_name@, ds, e.counter),
                whole.0 == tys_view(out@) + dim_types(e, mod_name@, ds.subrange(i as int, ds.len() as int), self@.counter).0,
                whole.1 == dim_types(e, mod_name@, ds.subrange(i as int, ds.len() as int), self@.counter).1,
                mwhole == made_here(e, mod_name@, ds, e.counter),
                mwhole == made + made_here(e, mod_name@, ds.subrange(i as int, ds.len() as int), self@.counter),
                made.len() == out@.len(),
                forall|k: int| 0 <= k < made.len() && #[trigger] made[k] ==> span_of(out@[k]) == *span,
            decreases dims@.len() - i,
        {
            let ghost c0 = self@.counter;
            let ghost sub = ds.subrange(i as int, ds.len() as int);
            assert(sub[0] == dims@[i as int]@);
            assert(sub.subrange(1, sub.len() as int) =~= ds.subrange(i + 1, ds.len() as int));
            let ghost out0 = tys_view(out@);
            let t = &dims[i];
            let ghost head: Seq<Ty>;
            match parse_i64(t.as_str()) {
                Some(n) => {
                    let ghost prev = out@;
                    out.push(Type::ResolvedDim(n, *span));
                    proof {
                        head = seq![Ty::ResolvedDim(n)];
                        made = made.push(true);
                        assert(out@[prev.len() as int]@ == Ty::ResolvedDim(n));
                        assert(out@.subrange(0, prev.len() as int) =~= prev);
                        assert(tys_view(out@) =~= out0 + head);
                    }
                },
                None => {
                    let alias = Alias::Variable(t.clone());
                    assert(resolve_model(self@, mod_name@, alias@) == resolve_model(e, mod_name@, alias@));
                    let resolved = self.resolve_type(mod_name, &alias);
                    let fresh = resolved.is_none();
                    let ty = match resolved {
                        Some(ty) => ty,
                        None => self.fresh_dim(span),
                    };
                    match ty {
                        Type::Tsr(vs, _) => {
                            proof {
                                head = tys_view(vs@);
                                lemma_tys_view(vs@);
                            }
                            let mut k: usize = 0;
                            let ghost before = out@;
                            while k < vs.len()
                                invariant
                                    k <= vs@.len(),
                                    out@.len() == before.len() + k,
                                    forall|q: int| 0 <= q < before.len() ==> #[trigger] out@[q] == before[q],
                                    forall|q: int| 0 <= q < k ==> #[trigger] out@[before.len() + q]@ == vs@[q]@,
                                decreases vs@.len() - k,
                            {
                                out.push(clone_ty(&vs[k]));
                                k += 1;
                            }
                            proof {
                                lemma_tys_view(vs@);
                                lemma_tys_view(out@);
                                lemma_tys_view(before);
                                assert forall|q: int| 0 <= q < out@.len() implies #[trigger] tys_view(out@)[q] == (tys_view(before) + head)[q] by {
                                    if q >= before.len() {
                                        let q2 = q - before.len();
                                        assert(out@[before.len() + q2]@ == vs@[q2]@);
                                    }
                                }
                                assert(tys_view(out@) =~= tys_view(before) + head);
                                let made0 = made;
                                made = made + Seq::new(vs@.len(), |q: int| false);
                                assert forall|k: int| 0 <= k < made.len() && #[trigger] made[k] implies span_of(out@[k]) == *span by {
                                    assert(k < made0.len());
                                    assert(made0[k]);
                                    assert(out@[k] == before[k]);
                                }
                            }
                        },
                        other => {
                            let ghost prev = out@;
                            proof {
                                head = seq![other@];
                                made = made.push(fresh);
                            }
                            out.push(other);
                            proof {
                                assert(out@.subrange(0, prev.len() as int) =~= prev);
                                assert(tys_view(out@) =~= out0 + head);
                            }
                        },
                    }
                },
            }
            i += 1;
        }
        proof {
            assert(ds.subrange(dims@.len() as int, ds.len() as int) =~= Seq::<Seq<char>>::empty());
            assert(tys_view(out@) + Seq::<Ty>::empty() =~= tys_view(out@));
            assert(made + Seq::<bool>::empty() =~= made);
        }
        Type::Tsr(out, *span)
    }
}

/// Binds each name of `dims` that module `m` does not bind yet to a new dimension
/// variable, left to right; numbers are skipped when `skip_numbers` holds.
pub open spec fn declare_dims(e: EnvModel, m: Option<Seq<char>>, dims: Seq<Seq<char>>, skip_numbers: bool) -> EnvModel
    decreases dims.len(),
{
    if dims.len() == 0 {
        e
    } else {
        let a = AliasKey::Variable(dims[0]);
        let e1 = if (skip_numbers && parse_i64_spec(dims[0]) is Some) || lookup_in(e, m, a) is Some {
            e
        } else {
            add_type_model(EnvModel { counter: e.counter + 1, ..e }, m, a, Ty::Dim(e.counter + 1)).0
        };
        declare_dims(e1, m, dims.subrange(1, dims.len() as int), skip_numbers)
    }
}

/// Binding a tensor alias: its dimension names are declared, then `a` is bound to the tensor.
pub open spec fn tsr_alias_model(e: EnvModel, m: Option<Seq<char>>, a: AliasKey, dims: Seq<Seq<char>>) -> (EnvModel, bool) {
    let e1 = declare_dims(e, m, dims, false);
    let (ds, c) = dim_types(e1, m, dims, e1.counter);
    add_type_model(EnvModel { counter: c, ..e1 }, m, a, Ty::Tsr(ds))
}

proof fn lemma_stack_none(st: Seq<Seq<(AliasKey, Ty)>>, a: AliasKey)
    requires
        stack_get(st, a) is None,
    ensures
        forall|i: int| 0 <= i < st.len() ==> scope_get(#[trigger] st[i], a) is None,
    decreases st.len(),
{
    if st.len() > 0 {
        let rest = st.subrange(1, st.len() as int);
        lemma_stack_none(rest, a);
        assert forall|i: int| 0 <= i < st.len() implies scope_get(#[trigger] st[i], a) is None by {
            if i > 0 {
                assert(st[i] == rest[i - 1]);
            }
        }
    }
}

/// Adding an alias that a module does not bind succeeds, and leaves room for the next one.
proof fn lemma_add_unbound(e: EnvModel, m: Option<Seq<char>>, a: AliasKey, t: Ty)
    requires
        env_wf(e),
        can_add(e, m),
        lookup_in(e, m, a) is None,
    ensures
        add_type_model(e, m, a, t).1,
        can_add(add_type_model(e, m, a, t).0, m),
        add_type_model(e, m, a, t).0.counter == e.counter,
{
    lemma_upsert(e, m);
    let e1 = upsert_model(e, m);
    let md = module_of(e1, m);
    if has_module(e, m) {
        lemma_stack_none(md.active, a);
        assert(scope_get(md.active[md.active.len() - 1], a) is None);
    } else {
        assert(md.active.last() =~= Seq::<(AliasKey, Ty)>::empty());
    }
    let i = mod_index(e1, m);
    let f = add_type_model(e, m, a, t).0;
    assert(f.modules[i].0 == m);
    assert(has_module(f, m));
    let c = mod_index(f, m);
    assert(f.modules[c].0 == m);
    if c != i {
        assert(e1.modules[c].0 == m);
        assert(c == mod_index(e1, m));
    }
}

proof fn lemma_declare_bounds(e: EnvModel, m: Option<Seq<char>>, dims: Seq<Seq<char>>, skip: bool)
    ensures
        e.counter <= declare_dims(e, m, dims, skip).counter <= e.counter + dims.len(),
    decreases dims.len(),
{
    if dims.len() > 0 {
        let a = AliasKey::Variable(dims[0]);
        let e1 = if (skip && parse_i64_spec(dims[0]) is Some) || lookup_in(e, m, a) is Some {
            e
        } else {
            add_type_model(EnvModel { counter: e.counter + 1, ..e }, m, a, Ty::Dim(e.counter + 1)).0
        };
        assert(e1.counter <= e.counter + 1);
        lemma_declare_bounds(e1, m, dims.subrange(1, dims.len() as int), skip);
    }
}

impl TypeEnv {
    /// Declares the dimension names of `dims` that module `mod_name` does not bind.
    fn declare_dims(&mut self, mod_name: &ModName, dims: &[String], span: &Span, skip_numbers: bool)
        requires
            env_wf(old(self)@),
            can_add(old(self)@, mod_name@),
            old(self)@.counter + dims@.len() <= usize::MAX,
        ensures
            final(self)@ == declare_dims(old(self)@, mod_name@, strs_view(dims@), skip_numbers),
            env_wf(final(self)@),
            can_add(final(self)@, mod_name@),
    {
        let ghost ds = strs_view(dims@);
        let ghost whole = declare_dims(self@, mod_name@, ds, skip_numbers);
        let ghost c0 = self@.counter;
        assert(ds.subrange(0, ds.len() as int) =~= ds);
        let mut i: usize = 0;
        while i < dims.len()
            invariant
                i <= dims@.len(),
                ds == strs_view(dims@),
                env_wf(self@),
                can_add(self@, mod_name@),
                self@.counter + (dims@.len() - i) <= usize::MAX,
                whole == declare_dims(self@, mod_name@, ds.subrange(i as int, ds.len() as int), skip_numbers),
            decreases dims@.len() - i,
        {
            let ghost sub = ds.subrange(i as int, ds.len() as int);
            assert(sub[0] == dims@[i as int]@);
            assert(sub.subrange(1, sub.len() as int) =~= ds.subrange(i + 1, ds.len() as int));
            let t = &dims[i];
            let skip = skip_numbers && parse_i64(t.as_str()).is_some();
            let alias = Alias::Variable(t.clone());
            if !skip && !self.alias_exists(mod_name, &alias) {
                proof {
                    lemma_add_unbound(
                        EnvModel { counter: self@.counter + 1, ..self@ },
                        mod_name@,
                        alias@,
                        Ty::Dim(self@.counter + 1),
                    );
                }
                let _ = self.add_dim_alias(mod_name, &alias, span);
            }
            i += 1;
        }
        assert(ds.subrange(dims@.len() as int, ds.len() as int) =~= Seq::<Seq<char>>::empty());
    }

    /// Binds `alias` to the tensor written as `tsr`, after binding each of its dimension
    /// names that the module does not bind to a new dimension variable.
    pub fn add_tsr_alias(&mut self, mod_name: &ModName, alias: &Alias, tsr: &[String], span: &Span) -> (r: Result<(), TensorScriptDiagnostic>)
        requires
            env_wf(old(self)@),
            can_add(old(self)@, mod_name@),
            old(self)@.counter + 2 * tsr@.len() <= usize::MAX,
        ensures
            final(self)@ == tsr_alias_model(old(self)@, mod_name@, alias@, strs_view(tsr@)).0,
            r is Ok == tsr_alias_model(old(self)@, mod_name@, alias@, strs_view(tsr@)).1,
            env_wf(final(self)@),
    {
        proof {
            lemma_declare_bounds(self@, mod_name@, strs_view(tsr@), false);
        }
        self.declare_dims(mod_name, tsr, span, false);
        let ghost e1 = self@;
        let t = self.create_tensor(mod_name, tsr, span);
        assert(self@ == (EnvModel { counter: self@.counter, ..e1 }));
        self.add_type(mod_name, alias, t)
    }

    /// Declares the dimension names of a top-level tensor signature; numbers are skipped.
    pub fn import_top_level_ty_sig(&mut self, mod_name: &ModName, ty_sig: &TensorTy) -> (r: Result<(), TensorScriptDiagnostic>)
        requires
            env_wf(old(self)@),
            can_add(old(self)@, mod_name@),
            ty_sig matches TensorTy::Generic(dims, _) ==> old(self)@.counter + dims@.len() <= usize::MAX,
        ensures
            r is Ok,
            ty_sig matches TensorTy::Generic(dims, _) ==> final(self)@ == declare_dims(old(self)@, mod_name@, strs_view(dims@), true),
            ty_sig is Tensor ==> final(self)@ == old(self)@,
            env_wf(final(self)@),
    {
        if let TensorTy::Generic(dims, span) = ty_sig {
            self.declare_dims(mod_name, dims.as_slice(), span, true);
        }
        Ok(())
    }

    /// The tensor type a signature denotes: a list of dimensions, or an alias that must be bound.
    pub fn resolve_tensor(&mut self, mod_name: &ModName, t: &TensorTy, span: &Span) -> (r: Type)
        requires
            env_wf(old(self)@),
            t matches TensorTy::Generic(dims, _) ==> old(self)@.counter + dims@.len() <= usize::MAX,
            t matches TensorTy::Tensor(a, _) ==> resolve_model(old(self)@, mod_name@, AliasKey::Variable(a@)) is Some,
        ensures
            t matches TensorTy::Generic(dims, _) ==> r@ == Ty::Tsr(dim_types(old(self)@, mod_name@, strs_view(dims@), old(self)@.counter).0)
                && final(self)@ == (EnvModel { counter: dim_types(old(self)@, mod_name@, strs_view(dims@), old(self)@.counter).1, ..old(self)@ }),
            t matches TensorTy::Tensor(a, sp) ==> Some(r@) == resolve_model(old(self)@, mod_name@, AliasKey::Variable(a@))
                && span_of(r) == sp && final(self)@ == old(self)@,
            env_wf(final(self)@),
    {
        match t {
            TensorTy::Generic(dims, sp) => self.create_tensor(mod_name, dims.as_slice(), sp),
            TensorTy::Tensor(alias, sp) => {
                let found = self.resolve_type(mod_name, &Alias::Variable(alias.clone()));
                found.unwrap().with_span(sp)
            },
        }
    }

    /// Binds the alias that a tensor or dimension declaration introduces.
    pub fn import_node_assign(&mut self, mod_name: &ModName, a: &NodeAssign) -> (r: Result<(), TensorScriptDiagnostic>)
        requires
            env_wf(old(self)@),
            can_add(old(self)@, mod_name@),
            a matches NodeAssign::Tensor { rhs, .. } ==> rhs is Generic,
            a matches NodeAssign::Tensor { rhs: TensorTy::Generic(dims, _), .. } ==> old(self)@.counter + 2 * dims@.len() <= usize::MAX,
        ensures
            a matches NodeAssign::Tensor { ident, rhs: TensorTy::Generic(dims, _), .. } ==> final(self)@ == tsr_alias_model(old(self)@, mod_name@, AliasKey::Variable(ident@), strs_view(dims@)).0
                && r is Ok == tsr_alias_model(old(self)@, mod_name@, AliasKey::Variable(ident@), strs_view(dims@)).1,
            a matches NodeAssign::Dimension { ident, rhs: Term::Integer(num, _), .. } ==> final(self)@ == add_type_model(old(self)@, mod_name@, AliasKey::Variable(ident@), Ty::ResolvedDim(*num)).0
                && r is Ok == add_type_model(old(self)@, mod_name@, AliasKey::Variable(ident@), Ty::ResolvedDim(*num)).1,
            env_wf(final(self)@),
    {
        match a {
            NodeAssign::Tensor { ident, rhs: TensorTy::Generic(tys, sp), .. } => {
                self.add_tsr_alias(mod_name, &Alias::Variable(ident.clone()), tys.as_slice(), sp)
            },
            NodeAssign::Dimension { ident, rhs: Term::Integer(num, _), span } => {
                self.add_resolved_dim_alias(mod_name, &Alias::Variable(ident.clone()), *num, span)
            },
            NodeAssign::Tensor { .. } => Ok(()),
        }
    }
}

/// Registers methods as function aliases of a module, one after another; a method that is
/// bound already keeps its first binding.
pub open spec fn register_model(e: EnvModel, m: Option<Seq<char>>, ms: Seq<(Seq<char>, Ty)>) -> EnvModel
    decreases ms.len(),
{
    if ms.len() == 0 {
        e
    } else {
        register_model(
            add_type_model(e, m, AliasKey::Function(ms[0].0), ms[0].1).0,
            m,
            ms.subrange(1, ms.len() as int),
        )
    }
}

pub open spec fn methods_view(v: Seq<(String, Type)>) -> Seq<(Seq<char>, Ty)> {
    v.map_values(|p: (String, Type)| (p.0@, p.1@))
}

/// After an `add_type` a module has a scope to add to.
proof fn lemma_add_keeps_room(e: EnvModel, m: Option<Seq<char>>, a: AliasKey, t: Ty)
    requires
        env_wf(e),
        can_add(e, m),
    ensures
        can_add(add_type_model(e, m, a, t).0, m),
{
    lemma_upsert(e, m);
    let e1 = upsert_model(e, m);
    let i = mod_index(e1, m);
    let f = add_type_model(e, m, a, t).0;
    assert(f.modules[i].0 == m);
    let c = mod_index(f, m);
    assert(f.modules[c].0 == m);
    if c != i {
        assert(e1.modules[c].0 == m);
        assert(c == mod_index(e1, m));
    }
}

pub open spec fn view_name() -> Seq<char> {
    seq!['v', 'i', 'e', 'w']
}

/// The prelude: the global variable `view` bound to the module `view`, then that module's
/// methods registered.
pub open spec fn prelude_model(e: EnvModel, methods: Option<Seq<(Seq<char>, Ty)>>) -> (EnvModel, bool) {
    let (e1, ok) = add_type_model(e, None, AliasKey::Variable(view_name()), Ty::Module(view_name(), None));
    if !ok {
        (e1, false)
    } else {
        match methods {
            Some(ms) => (register_model(e1, Some(view_name()), ms), true),
            None => (e1, true),
        }
    }
}

impl TypeEnv {
    /// Registers the methods that the catalog gave for module `mod_name` as its function
    /// aliases; `None` when the catalog knows no such module.
    pub fn import_module(&mut self, mod_name: &str, methods: Option<Vec<(String, Type)>>) -> (r: Option<Result<(), TensorScriptDiagnostic>>)
        requires
            env_wf(old(self)@),
            can_add(old(self)@, Some(mod_name@)),
        ensures
            methods is None ==> r is None && final(self)@ == old(self)@,
            methods matches Some(ms) ==> r matches Some(Ok(())) && final(self)@ == register_model(old(self)@, Some(mod_name@), methods_view(ms@)),
            env_wf(final(self)@),
            can_add(final(self)@, Some(mod_name@)),
    {
        match methods {
            None => None,
            Some(ms) => {
                let m = ModName::Named(mod_name.to_owned());
                let ghost mv = methods_view(ms@);
                let ghost whole = register_model(self@, Some(mod_name@), mv);
                assert(mv.subrange(0, mv.len() as int) =~= mv);
                let mut i: usize = 0;
                while i < ms.len()
                    invariant
                        i <= ms@.len(),
                        m@ == Some(mod_name@),
                        mv == methods_view(ms@),
                        env_wf(self@),
                        can_add(self@, m@),
                        whole == register_model(self@, m@, mv.subrange(i as int, mv.len() as int)),
                    decreases ms@.len() - i,
                {
                    let ghost sub = mv.subrange(i as int, mv.len() as int);
                    assert(sub[0] == (ms@[i as int].0@, ms@[i as int].1@));
                    assert(sub.subrange(1, sub.len() as int) =~= mv.subrange(i + 1, mv.len() as int));
                    let (name, ty) = &ms[i];
                    proof {
                        lemma_add_keeps_room(self@, m@, AliasKey::Function(name@), ty@);
                    }
                    let _ = self.add_type(&m, &Alias::Function(name.clone()), clone_ty(ty));
                    i += 1;
                }
                assert(mv.subrange(ms@.len() as int, mv.len() as int) =~= Seq::<(Seq<char>, Ty)>::empty());
                Some(Ok(()))
            },
        }
    }

    /// Binds the prelude's modules: the global variable `view` to the module `view`, whose
    /// methods, as the catalog gave them, are then registered.
    pub fn import_prelude(&mut self, view_methods: Option<Vec<(String, Type)>>) -> (r: Result<(), TensorScriptDiagnostic>)
        requires
            env_wf(old(self)@),
            can_add(old(self)@, None),
            can_add(old(self)@, Some(view_name())),
        ensures
            final(self)@ == prelude_model(old(self)@, match view_methods {
                Some(ms) => Some(methods_view(ms@)),
                None => None,
            }).0,
            r is Ok == prelude_model(old(self)@, match view_methods {
                Some(ms) => Some(methods_view(ms@)),
                None => None,
            }).1,
            env_wf(final(self)@),
    {
        let name = "view";
        proof {
            reveal_strlit("view");
            assert(name@ =~= view_name());
        }
        let ghost e0 = self@;
        let res = self.add_type(&ModName::Global, &Alias::Variable(name.to_owned()), Type::Module(name.to_owned(), None, Span::new(0, 0)));
        if res.is_err() {
            return res;
        }
        proof {
            // The new global binding leaves the module `view` as it was.
            let e1 = self@;
            lemma_upsert(e0, None);
            if has_module(e0, Some(view_name())) {
                let k = mod_index(e0, Some(view_name()));
                let g = mod_index(upsert_model(e0, None), None);
                assert(upsert_model(e0, None).modules[k].0 == Some(view_name()));
                assert(e1.modules[k] == e0.modules[k]);
                let c = mod_index(e1, Some(view_name()));
                assert(e1.modules[c].0 == Some(view_name()));
                if c != k {
                    assert(e0.modules[k].0 == e1.modules[c].0);
                }
            } else {
                if has_module(e1, Some(view_name())) {
                    let c = mod_index(e1, Some(view_name()));
                    let g = mod_index(upsert_model(e0, None), None);
                    assert(e1.modules[c].0 == Some(view_name()));
                    if c != g {
                        assert(upsert_model(e0, None).modules[c].0 == Some(view_name()));
                        if c < e0.modules.len() {
                            assert(e0.modules[c].0 == Some(view_name()));
                        }
                    }
                }
            }
        }
        let _ = self.import_module(name, view_methods);
        Ok(())
    }

    /// Ends the resolution of a deferred module function `ty`, given what the catalog gave:
    /// `None` when it knows no module of that name, else what resolving the method gave.
    pub fn resolve_unresolved(&self, ty: &Type, fn_name: &str, resolved: Option<Option<Type>>) -> (r: Result<Option<Type>, TensorScriptDiagnostic>)
        requires
            ty matches Type::UnresolvedModuleFun(_, _, method, _) && fn_name@ == method@,
        ensures
            resolved is None ==> (r matches Err(TensorScriptDiagnostic::SymbolNotFound(m, sp)) && ty matches Type::UnresolvedModuleFun(_, module, _, s) && m@ == module@ && sp == s),
            resolved matches Some(x) ==> (r matches Ok(y) && ty_opt_view(y) == ty_opt_view(x)),
    {
        match resolved {
            Some(x) => Ok(x),
            None => match ty {
                Type::UnresolvedModuleFun(_, module, _, span) => Err(TensorScriptDiagnostic::SymbolNotFound(module.clone(), *span)),
                _ => Ok(None),
            },
        }
    }
}

/// A tensor signature: a list of dimensions, or the name of a tensor alias.
#[derive(Debug)]
pub enum TensorTy {
    Generic(Vec<String>, Span),
    Tensor(String, Span),
}

/// The value side of a dimension declaration.
#[derive(Debug)]
pub enum Term {
    Integer(i64, Span),
}

/// A declaration of a tensor alias or a dimension alias.
#[derive(Debug)]
pub enum NodeAssign {
    Tensor { ident: String, rhs: TensorTy, span: Span },
    Dimension { ident: String, rhs: Term, span: Span },
}

} // verus!
