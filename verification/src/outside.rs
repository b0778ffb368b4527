//! What the executor takes on trust from outside itself.
//!
//! Nothing here is proved: each contract restates what the outside function
//! is documented to do.
use std::rc::Rc;
use boolinator::Boolinator;
use vstd::prelude::*;

verus! {

/// `sqlparser::ast::Expr`, an SQL expression. The executor never looks
/// inside one: it hands it to the evaluator as it came.
#[verifier::external_type_specification]
#[verifier::external_body]
pub struct ExExpr(sqlparser::ast::Expr);

/// `sqlparser::ast::Function`, an SQL function call. An aggregate result is
/// found under the call that computed it.
#[verifier::external_type_specification]
#[verifier::external_body]
pub struct ExFunction(sqlparser::ast::Function);

/// `im_rc::HashMap`, the persistent hash map that carries the aggregate
/// results of one row. The executor hands it on and reads nothing in it.
#[verifier::external_type_specification]
#[verifier::external_body]
#[verifier::reject_recursive_types(K)]
#[verifier::reject_recursive_types(V)]
#[verifier::reject_recursive_types(S)]
pub struct ExHashMap<K, V, S>(im_rc::HashMap<K, V, S>);

/// `Rc::clone`: a second pointer to the same allocation, so that both read
/// the same value.
#[verifier::external_body]
pub(crate) fn share<T>(shared: &Rc<T>) -> (again: Rc<T>)
    ensures
        again == *shared,
{
    Rc::clone(shared)
}

/// `==` on `str`: true exactly when both hold the same characters.
#[verifier::external_body]
pub(crate) fn same_text(left: &str, right: &str) -> (same: bool)
    ensures
        same == (left@ == right@),
{
    left == right
}

/// `Boolinator::as_some` on `bool`: `Some(some)` where `pass` is true, `None`
/// where it is false.
#[verifier::external_body]
pub(crate) fn as_some<T>(pass: bool, some: T) -> (kept: Option<T>)
    ensures
        kept == (if pass {
            Some(some)
        } else {
            None
        }),
{
    pass.as_some(some)
}

} // verus!
