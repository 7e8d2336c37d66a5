//! The transform interface: a unit that consumes one event and appends zero
//! or more derived events to a caller-supplied buffer.
//!
//! The live variants are closed by the builder registry; it knows one,
//! `concat`.

use vstd::prelude::*;
use crate::concat::{Concat, concat_value};
use crate::event::Event;

verus! {

/// A live transform.
#[derive(Debug)]
pub enum Transform {
    Concat(Concat),
}

impl Transform {
    /// The abstract values of the events an input event with the given
    /// abstract value turns into: the transform's behaviour is a function of
    /// the input's fields alone.
    pub open spec fn spec_outputs_of_map(self, m: Map<Seq<char>, Seq<u8>>) -> Seq<
        Map<Seq<char>, Seq<u8>>,
    > {
        match self {
            Transform::Concat(c) => seq![m.insert(c.target@, concat_value(c, m))],
        }
    }

    /// The abstract values of the events one input event turns into.
    pub open spec fn spec_output_maps(self, e: Event) -> Seq<Map<Seq<char>, Seq<u8>>> {
        self.spec_outputs_of_map(e.field_map())
    }

    /// An event's fields other than the transform's target pass through a
    /// `concat` unchanged: the payload a downstream check watches survives
    /// every hop whose target is a different field.
    pub proof fn lemma_concat_passes_other_fields(
        c: Concat,
        m: Map<Seq<char>, Seq<u8>>,
        k: Seq<char>,
    )
        requires
            k != c.target@,
        ensures
            Transform::Concat(c).spec_outputs_of_map(m).len() == 1,
            Transform::Concat(c).spec_outputs_of_map(m)[0].contains_key(k) == m.contains_key(k),
            m.contains_key(k) ==> Transform::Concat(c).spec_outputs_of_map(m)[0][k] == m[k],
    {
    }

    /// Consumes one event and appends its derived events to `out`.
    pub fn transform_into(&self, out: &mut Vec<Event>, event: Event)
        requires
            event.wf(),
        ensures
            final(out)@.len() == old(out)@.len() + self.spec_output_maps(event).len(),
            forall|k: int| 0 <= k < old(out)@.len() ==> final(out)@[k] == old(out)@[k],
            forall|k: int|
                0 <= k < self.spec_output_maps(event).len() ==> (#[trigger] final(out)@[old(
                    out,
                )@.len() + k]).wf() && final(out)@[old(out)@.len() + k].field_map()
                    == self.spec_output_maps(event)[k],
    {
        match self {
            Transform::Concat(c) => {
                match c.transform(event) {
                    Some(ev) => out.push(ev),
                    None => {},
                }
            },
        }
    }
}

} // verus!
