use vstd::prelude::*;

use crate::entity::{entity_dep_parts, values_nullish, values_truthy, Entity, Value};
use crate::literal::LiteralValue;
use crate::typeof_result::TypeofResult;

verus! {

/// The value of a logical expression (`&&`, `||`, `??`) whose outcome is
/// known: the value it gives, whether it is `??`, and the known test
/// result (truthiness for `&&` and `||`, nullishness for `??`).
#[derive(Debug)]
pub struct LogicalResultValue {
    pub value: Entity,
    pub is_coalesce: bool,
    pub result: bool,
}

impl LogicalResultValue {
    /// Truthiness: the known result for `&&` and `||`, the value's own for
    /// `??`.
    pub fn test_truthy(&self) -> (r: Option<bool>)
        ensures
            r == (if self.is_coalesce { values_truthy(self.value.values@) } else { Some(self.result) }),
    {
        if self.is_coalesce {
            self.value.test_truthy()
        } else {
            Some(self.result)
        }
    }

    /// Nullishness: the known result for `??`, the value's own otherwise.
    pub fn test_nullish(&self) -> (r: Option<bool>)
        ensures
            r == (if self.is_coalesce { Some(self.result) } else { values_nullish(self.value.values@) }),
    {
        if self.is_coalesce {
            Some(self.result)
        } else {
            self.value.test_nullish()
        }
    }

    /// `typeof` of the value.
    pub fn test_typeof(&self) -> (r: TypeofResult)
        ensures
            r.bits == crate::entity::values_typeof(self.value.values@),
    {
        self.value.test_typeof()
    }

    /// `ToBoolean`: the value's own for `??`; the known result for `&&` and
    /// `||`, depending on the value's conversion.
    pub fn get_to_boolean(&self) -> (r: Entity)
        ensures
            self.is_coalesce ==> r.values@ == match values_truthy(self.value.values@) {
                Some(b) => seq![Value::Literal(LiteralValue::Boolean(b))],
                None => seq![Value::Primitive(crate::primitive::PrimitiveValue::Boolean)],
            } && r.dep@ == entity_dep_parts(self.value@),
            !self.is_coalesce ==> r.values@ == seq![Value::Literal(LiteralValue::Boolean(self.result))],
            !self.is_coalesce ==> r.dep@ == entity_dep_parts(
                crate::entity::EntityView {
                    values: match values_truthy(self.value.values@) {
                        Some(b) => seq![Value::Literal(LiteralValue::Boolean(b))],
                        None => seq![Value::Primitive(crate::primitive::PrimitiveValue::Boolean)],
                    },
                    dep: entity_dep_parts(self.value@),
                },
            ),
    {
        let value = self.value.get_to_boolean();
        if self.is_coalesce {
            value
        } else {
            let r = Entity::boolean(self.result).computed(&value.as_dep());
            proof {
                assert(r.dep@ =~= entity_dep_parts(value@));
            }
            r
        }
    }
}

} // verus!
