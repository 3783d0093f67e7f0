use vstd::prelude::*;

use crate::entity::{Dep, DepPart, Entity, Value};
use crate::typeof_result::TypeofResult;
use crate::value::{EnumeratedProperties, IteratedElements};
use crate::literal::LiteralValue;

verus! {

/// The value of an expression that never completes.
#[derive(Debug, Clone, Copy)]
pub struct NeverEntity;

impl NeverEntity {
    /// Reading a property of it never completes.
    pub fn get_property(&self) -> (r: Entity)
        ensures
            r.values@.len() == 0,
            r.dep@.len() == 0,
    {
        Entity::never()
    }

    /// It has no properties to enumerate.
    pub fn enumerate_properties(&self) -> (r: EnumeratedProperties)
        ensures
            r.known@.len() == 0,
            r.unknown is None,
            r.dep@.len() == 0,
    {
        EnumeratedProperties { known: Vec::new(), unknown: None, dep: Dep::none() }
    }

    /// Calling it never completes.
    pub fn call(&self) -> (r: Entity)
        ensures
            r.values@.len() == 0,
            r.dep@.len() == 0,
    {
        Entity::never()
    }

    /// Iterating it gives nothing.
    pub fn iterate(&self) -> (r: IteratedElements)
        ensures
            r.elements@.len() == 0,
            r.rest is None,
            r.dep@.len() == 0,
    {
        IteratedElements { elements: Vec::new(), rest: None, dep: Dep::none() }
    }

    /// Every conversion of it never completes.
    pub fn get_to_string(&self) -> (r: Entity)
        ensures
            r.values@.len() == 0,
            r.dep@.len() == 0,
    {
        Entity::never()
    }

    /// The literals it may be: none.
    pub fn get_to_literals(&self) -> (r: Option<Vec<LiteralValue>>)
        ensures
            r matches Some(v) && v@.len() == 0,
    {
        Some(Vec::new())
    }

    /// It is no single literal.
    pub fn get_literal(&self) -> (r: Option<LiteralValue>)
        ensures
            r is None,
    {
        None
    }

    /// Its own keys: none.
    pub fn get_own_keys(&self) -> (r: Option<Vec<(bool, Entity)>>)
        ensures
            r matches Some(v) && v@.len() == 0,
    {
        Some(Vec::new())
    }

    /// It has no `typeof` result.
    pub fn test_typeof(&self) -> (r: TypeofResult)
        ensures
            r.bits == 0,
    {
        TypeofResult::from_bits(0)
    }

    /// It counts as falsy.
    pub fn test_truthy(&self) -> (r: Option<bool>)
        ensures
            r == Some(false),
    {
        Some(false)
    }

    /// It counts as not nullish.
    pub fn test_nullish(&self) -> (r: Option<bool>)
        ensures
            r == Some(false),
    {
        Some(false)
    }
}

} // verus!
