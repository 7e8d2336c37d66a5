//! Conditions: total boolean predicates over a single event.
//!
//! A live condition is built at compile time from a structured description.
//! The registry knows one kind, `field_equals`: true of an event whose named
//! field holds exactly the given bytes.

use vstd::prelude::*;
use vstd::string::*;
use vstd::utf8::encode_utf8;
use crate::event::Event;
use crate::text::cat3;

verus! {

/// A live condition.
#[derive(Debug)]
pub enum Condition {
    FieldEquals { field: String, value: Vec<u8> },
}

/// The abstract value of a live condition.
#[verifier::ext_equal]
pub struct ConditionV {
    pub field: Seq<char>,
    pub value: Seq<u8>,
}

/// The abstract value of a live condition.
pub open spec fn condition_view(c: Condition) -> ConditionV {
    match c {
        Condition::FieldEquals { field, value } => ConditionV { field: field@, value: value@ },
    }
}

impl Condition {
    /// What the condition means of an event with the given abstract value:
    /// conditions are total predicates over the event's fields alone.
    pub open spec fn holds_on(self, m: Map<Seq<char>, Seq<u8>>) -> bool {
        match self {
            Condition::FieldEquals { field, value } => m.contains_key(field@) && m[field@]
                == value@,
        }
    }

    /// What the condition means of an event.
    pub open spec fn spec_check(self, e: Event) -> bool {
        self.holds_on(e.field_map())
    }

    /// Evaluates the condition; total, never fails.
    pub fn check(&self, e: &Event) -> (r: bool)
        requires
            e.wf(),
        ensures
            r == self.spec_check(*e),
    {
        match self {
            Condition::FieldEquals { field, value } => {
                match e.get_field(field) {
                    Some(v) => eq_bytes(v, value),
                    None => false,
                }
            },
        }
    }
}

/// Byte-wise equality of two buffers.
fn eq_bytes(a: &Vec<u8>, b: &Vec<u8>) -> (r: bool)
    ensures
        r == (a@ == b@),
{
    if a.len() != b.len() {
        return false;
    }
    let mut i: usize = 0;
    while i < a.len()
        invariant
            a@.len() == b@.len(),
            i <= a@.len(),
            forall|k: int| 0 <= k < i ==> a@[k] == b@[k],
        decreases a@.len() - i,
    {
        if a[i] != b[i] {
            return false;
        }
        i += 1;
    }
    proof {
        assert(a@ =~= b@);
    }
    true
}

/// The structured description of an embedded condition.
pub struct EmbeddedConditionDef {
    pub condition_type: String,
    pub field: String,
    pub value: String,
}

/// What building a description yields: the live condition's abstract value,
/// or the error for a condition type the registry does not know.
pub open spec fn spec_build_condition(d: EmbeddedConditionDef) -> Result<ConditionV, Seq<char>> {
    if d.condition_type@ == "field_equals"@ {
        Ok(ConditionV { field: d.field@, value: encode_utf8(d.value@) })
    } else {
        Err("unrecognized condition type '"@ + d.condition_type@ + "'"@)
    }
}

impl EmbeddedConditionDef {
    /// Builds the live condition.
    pub fn build(&self) -> (r: Result<Condition, String>)
        ensures
            match r {
                Ok(c) => spec_build_condition(*self) == Ok::<_, Seq<char>>(condition_view(c)),
                Err(e) => spec_build_condition(*self) == Err::<ConditionV, _>(e@),
            },
    {
        if self.condition_type == String::from_str("field_equals") {
            Ok(
                Condition::FieldEquals {
                    field: self.field.clone(),
                    value: self.value.as_str().as_bytes_vec(),
                },
            )
        } else {
            Err(cat3("unrecognized condition type '", self.condition_type.as_str(), "'"))
        }
    }
}

} // verus!
