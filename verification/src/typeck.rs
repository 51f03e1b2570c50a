//! Data of the type checker: its errors, the types of the names in scope,
//! and function signatures.

use vstd::prelude::*;
use crate::ast::Ty;
use crate::scopes::{define_in, lookup_in, Scopes};

verus! {

#[derive(Debug, PartialEq)]
pub struct TypeError {
    pub msg: String,
}

impl TypeError {
    pub fn new(msg: String) -> (e: Self)
        ensures
            e.msg == msg,
    {
        Self { msg }
    }
}

pub type TyResult<T> = Result<T, TypeError>;

/// The types of the names in scope, innermost scope last.
pub struct Env {
    scopes: Scopes<Ty>,
}

impl View for Env {
    type V = Seq<Map<Seq<char>, Ty>>;

    closed spec fn view(&self) -> Seq<Map<Seq<char>, Ty>> {
        self.scopes@
    }
}

impl Env {
    /// No scope open.
    pub fn new() -> (e: Self)
        ensures
            e@ == Seq::<Map<Seq<char>, Ty>>::empty(),
    {
        Env { scopes: Scopes::new() }
    }

    /// Open an empty innermost scope.
    pub fn push(&mut self)
        ensures
            final(self)@ == old(self)@.push(Map::empty()),
    {
        self.scopes.push();
    }

    /// Close the innermost scope, if any.
    pub fn pop(&mut self)
        ensures
            final(self)@ == (if old(self)@.len() == 0 {
                old(self)@
            } else {
                old(self)@.drop_last()
            }),
    {
        self.scopes.pop();
    }

    /// Give `name` the type `ty` in the innermost scope; with no scope open
    /// nothing changes.
    pub fn define(&mut self, name: &str, ty: Ty)
        ensures
            final(self)@ == (if old(self)@.len() == 0 {
                old(self)@
            } else {
                define_in(old(self)@, name@, ty)
            }),
    {
        if self.scopes.depth() > 0 {
            self.scopes.define(name, ty);
        }
    }

    /// The type of the innermost binding of `name`.
    pub fn lookup(&self, name: &str) -> (r: Option<&Ty>)
        ensures
            match lookup_in(self@, name@) {
                Some(t) => r matches Some(x) && *x == t,
                None => r is None,
            },
    {
        self.scopes.lookup(name)
    }
}

/// A function's parameter types and return type.
#[derive(Debug, Clone)]
pub struct FnSig {
    pub params: Vec<Ty>,
    pub ret: Ty,
}

} // verus!
