use vstd::prelude::*;
use crate::types::{ty_eq, Ty, Type};

verus! {

/// An equation between two types.
pub struct Equals(pub Type, pub Type);

/// A collection of equations, kept in the order they were first inserted so that
/// unification visits them in a reproducible order.
pub struct Constraints(pub Vec<Equals>);

pub open spec fn cs_view(cs: Seq<Equals>) -> Seq<(Ty, Ty)> {
    cs.map_values(|e: Equals| (e.0@, e.1@))
}

impl View for Constraints {
    type V = Seq<(Ty, Ty)>;

    open spec fn view(&self) -> Seq<(Ty, Ty)> {
        cs_view(self.0@)
    }
}

impl Constraints {
    pub fn new() -> (r: Constraints)
        ensures
            r@ == Seq::<(Ty, Ty)>::empty(),
    {
        let r = Constraints(Vec::new());
        assert(r@ =~= Seq::<(Ty, Ty)>::empty());
        r
    }

    pub fn is_empty(&self) -> (r: bool)
        ensures
            r == (self@.len() == 0),
    {
        self.0.len() == 0
    }

    pub fn len(&self) -> (r: usize)
        ensures
            r == self@.len(),
    {
        self.0.len()
    }

    /// Adds `a = b` unless the same equation is already present.
    pub fn insert(&mut self, a: Type, b: Type)
        ensures
            old(self)@.contains((a@, b@)) ==> final(self)@ == old(self)@,
            !old(self)@.contains((a@, b@)) ==> final(self)@ == old(self)@.push((a@, b@)),
    {
        let mut i: usize = 0;
        while i < self.0.len()
            invariant
                i <= self.0@.len(),
                forall|j: int| 0 <= j < i ==> #[trigger] self@[j] != (a@, b@),
            decreases self.0@.len() - i,
        {
            if ty_eq(&self.0[i].0, &a) && ty_eq(&self.0[i].1, &b) {
                assert(self@[i as int] == (a@, b@));
                return;
            }
            i += 1;
        }
        self.0.push(Equals(a, b));
        assert(self@ =~= old(self)@.push((a@, b@)));
    }
}

} // verus!
