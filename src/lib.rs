//! Type reconstruction kernel for a small tensor language: the type algebra,
//! substitutions, the unifier and the type environment.
pub mod types;
pub mod constraint;
pub mod subst;
pub mod unification;
pub mod unifier;
pub mod type_env;
