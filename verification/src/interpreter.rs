//! Data of the tree-walking interpreter: its errors, the values of the
//! names in scope, and its initial state.

use vstd::prelude::*;
use crate::ast::{Stmt, Ty};
use crate::compiler::{copy_value, Value};
use crate::scopes::{assign_in, binding_scope, define_in, lookup_in, Scopes};
use crate::strings::concat3;

verus! {

#[derive(Debug, PartialEq)]
pub struct InterpError(pub String);

pub type InterpResult<T> = Result<T, InterpError>;

/// The message for reading a name that is not bound.
pub open spec fn undefined_read_message(name: Seq<char>) -> Seq<char> {
    "undefined variable '"@ + name + "'"@
}

/// The message for assigning to a name that is not bound.
pub open spec fn undefined_assign_message(name: Seq<char>) -> Seq<char> {
    "assignment to undefined variable '"@ + name + "'"@
}

/// The values of the names in scope, innermost scope last.
pub struct Env {
    scopes: Scopes<Value>,
}

impl View for Env {
    type V = Seq<Map<Seq<char>, Value>>;

    closed spec fn view(&self) -> Seq<Map<Seq<char>, Value>> {
        self.scopes@
    }
}

impl Env {
    /// No scope open.
    pub fn new() -> (e: Self)
        ensures
            e@ == Seq::<Map<Seq<char>, Value>>::empty(),
    {
        Env { scopes: Scopes::new() }
    }

    /// Open an empty innermost scope.
    pub fn push(&mut self)
        ensures
            final(self)@ == old(self)@.push(Map::empty()),
    {
        self.scopes.push();
    }

    /// Close the innermost scope, if any.
    pub fn pop(&mut self)
        ensures
            final(self)@ == (if old(self)@.len() == 0 {
                old(self)@
            } else {
                old(self)@.drop_last()
            }),
    {
        self.scopes.pop();
    }

    /// Bind `name` to `val` in the innermost scope, which must exist.
    pub fn define(&mut self, name: &str, val: Value)
        requires
            old(self)@.len() > 0,
        ensures
            final(self)@ == define_in(old(self)@, name@, val),
    {
        self.scopes.define(name, val);
    }

    /// The value of the innermost binding of `name`.
    pub fn get(&self, name: &str) -> (r: InterpResult<Value>)
        ensures
            match lookup_in(self@, name@) {
                Some(v) => r == Ok::<Value, InterpError>(v),
                None => r matches Err(e) && e.0@ == undefined_read_message(name@),
            },
    {
        match self.scopes.lookup(name) {
            Some(v) => Ok(copy_value(v)),
            None => Err(InterpError(concat3("undefined variable '", name, "'"))),
        }
    }

    /// Rebind `name` to `val` in the innermost scope that binds it.
    pub fn set(&mut self, name: &str, val: Value) -> (r: InterpResult<()>)
        ensures
            final(self)@ == assign_in(old(self)@, name@, val),
            match binding_scope(old(self)@, name@) {
                Some(_) => r is Ok,
                None => r matches Err(e) && e.0@ == undefined_assign_message(name@),
            },
    {
        if self.scopes.assign(name, val) {
            Ok(())
        } else {
            Err(InterpError(concat3("assignment to undefined variable '", name, "'")))
        }
    }
}

/// A declared function: its parameters and body.
pub struct FnDef {
    pub params: Vec<(String, Ty)>,
    pub body: Vec<Stmt>,
}

/// The interpreter's state: the values in scope, the declared functions,
/// and the value of the last expression statement.
pub struct Interpreter {
    env: Env,
    fns: Vec<(String, FnDef)>,
    last_val: Value,
}

impl Interpreter {
    pub closed spec fn scopes(&self) -> Seq<Map<Seq<char>, Value>> {
        self.env@
    }

    pub closed spec fn function_count(&self) -> nat {
        self.fns@.len()
    }

    pub closed spec fn last_value(&self) -> Value {
        self.last_val
    }

    /// One empty global scope, no functions, and nil as the last value.
    pub fn new() -> (i: Self)
        ensures
            i.scopes() == seq![Map::<Seq<char>, Value>::empty()],
            i.function_count() == 0,
            i.last_value() == Value::Nil,
    {
        let mut env = Env::new();
        env.push();
        let i = Self { env, fns: Vec::new(), last_val: Value::Nil };
        assert(i.scopes() =~= seq![Map::<Seq<char>, Value>::empty()]);
        i
    }
}

} // verus!
