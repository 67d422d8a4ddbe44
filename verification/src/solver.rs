//! The door to the outside optimizing solver.
//!
//! Nothing in this file is proved. The solver's values are opaque to the
//! verifier: they are made, handed on and read through the functions below,
//! and no contract says what the solver will find.

use vstd::prelude::*;
use z3::ast::{Bool, Int};
use z3::{Model, Optimize, SatResult};

verus! {

/// The solver's optimization context, `z3::Optimize`.
#[verifier::external_type_specification]
#[verifier::external_body]
pub struct ExOptimize(z3::Optimize);

/// An integer term of the solver, a `z3::ast::Int`: an unknown, a numeral,
/// or a sum built from them. Its content is opaque; a term is made, handed
/// on and read only through the functions of this file.
#[verifier::external_body]
pub struct Term {
    inner: Int,
}

/// A truth-valued term of the solver, a `z3::ast::Bool`: a comparison of
/// integer terms, to be added to a context as a constraint. Its content is
/// opaque, as that of a `Term`.
#[verifier::external_body]
pub struct Claim {
    inner: Bool,
}

/// A model that the solver has found, `z3::Model`.
#[verifier::external_type_specification]
#[verifier::external_body]
pub struct ExModel(z3::Model);

/// What the solver says of the constraints it was given.
#[derive(Debug, PartialEq, Eq, Clone, Copy, Structural)]
pub enum Verdict {
    /// They can be met.
    Sat,
    /// They cannot be met.
    Unsat,
    /// The solver gave up.
    Unknown,
}

/// Calls `z3::Optimize::new`: a fresh optimization context without
/// constraints. Nothing is claimed of it.
#[verifier::external_body]
pub(crate) fn new_optimizer() -> Optimize {
    Optimize::new()
}

/// Calls `z3::ast::Int::fresh_const` with the prefix `button_` and the
/// given number: a fresh integer unknown. Nothing is claimed of it.
#[verifier::external_body]
pub(crate) fn fresh_button(index: usize) -> Term {
    Term { inner: Int::fresh_const(&format!("button_{index}")) }
}

/// Calls `z3::ast::Int::ge` with a number: the term that says `value` is
/// no less than `bound`. Nothing is claimed of it.
#[verifier::external_body]
pub(crate) fn at_least(value: &Term, bound: i32) -> Claim {
    Claim { inner: value.inner.ge(bound) }
}

/// Calls `z3::ast::Int::eq` with a number: the term that says `value`
/// equals `number`. Nothing is claimed of it.
#[verifier::external_body]
pub(crate) fn equals_number(value: &Term, number: u32) -> Claim {
    Claim { inner: value.inner.eq(number) }
}

/// Calls the `Sum` of `z3::ast::Int` on the terms of `values` at the
/// positions `picks`, in that order: the term of their sum, zero for none.
/// Nothing is claimed of it. Every position must be one of `values`.
#[verifier::external_body]
pub(crate) fn sum_of_picked(values: &Vec<Term>, picks: &Vec<usize>) -> Term
    requires
        forall|k: int| 0 <= k < picks@.len() ==> (#[trigger] picks@[k]) < values@.len(),
{
    Term { inner: picks.iter().map(|&i| &values[i].inner).sum::<Int>() }
}

/// Calls `z3::Optimize::assert`: adds a hard constraint to the context.
#[verifier::external_body]
pub(crate) fn add_constraint(optimizer: &Optimize, constraint: &Claim) {
    optimizer.assert(&constraint.inner)
}

/// Calls `z3::Optimize::minimize`: asks for the least value of `objective`.
#[verifier::external_body]
pub(crate) fn minimize(optimizer: &Optimize, objective: &Term) {
    optimizer.minimize(&objective.inner)
}

/// Calls `z3::Optimize::check` without assumptions and says which of its
/// three results came back.
#[verifier::external_body]
pub(crate) fn check(optimizer: &Optimize) -> Verdict {
    match optimizer.check(&[]) {
        SatResult::Sat => Verdict::Sat,
        SatResult::Unsat => Verdict::Unsat,
        SatResult::Unknown => Verdict::Unknown,
    }
}

/// Calls `z3::Optimize::get_model`: the model of the last check, if there
/// is one.
#[verifier::external_body]
pub(crate) fn model_of(optimizer: &Optimize) -> Option<Model> {
    optimizer.get_model()
}

/// Calls `z3::Model::eval` with model completion: the value of a term in
/// the model, if the solver can give it.
#[verifier::external_body]
pub(crate) fn evaluate(model: &Model, value: &Term) -> Option<Term> {
    model.eval(&value.inner, true).map(|inner| Term { inner })
}

/// Calls `z3::ast::Int::as_u64`: the number that a term is, if it is a
/// numeral that fits 64 bits without sign.
#[verifier::external_body]
pub(crate) fn as_number(value: &Term) -> Option<u64> {
    value.inner.as_u64()
}

} // verus!
