//! Configuration records: the transform graph and the test definitions, and
//! the builder registry that turns configuration records into live
//! transforms.

use vstd::prelude::*;
use crate::concat::{ConcatConfig, spec_parse_items_from, substrings_view};
use crate::condition::EmbeddedConditionDef;
use crate::transform::Transform;

verus! {

/// The builder registry: every transform kind a configuration can name.
pub enum TransformBuilder {
    Concat(ConcatConfig),
}

impl TransformBuilder {
    /// The build error this record produces, if any: building is a
    /// deterministic function of the record.
    pub open spec fn spec_build_err(self) -> Option<Seq<char>> {
        match self {
            TransformBuilder::Concat(cfg) => match spec_parse_items_from(cfg.items@, 0) {
                Ok(_) => None,
                Err(e) => Some(e),
            },
        }
    }

    /// The live transform corresponds to its record.
    pub open spec fn builds_to(self, t: Transform) -> bool {
        match (self, t) {
            (TransformBuilder::Concat(cfg), Transform::Concat(c)) => c.target@ == cfg.target@
                && c.joiner@ == cfg.joiner@ && spec_parse_items_from(cfg.items@, 0) == Ok::<
                _,
                Seq<char>,
            >(substrings_view(c.items@)),
        }
    }

    /// Builds the live transform.
    pub fn build(&self) -> (r: Result<Transform, String>)
        ensures
            match r {
                Ok(t) => self.spec_build_err() is None && self.builds_to(t),
                Err(e) => self.spec_build_err() == Some(e@),
            },
    {
        match self {
            TransformBuilder::Concat(cfg) => {
                match cfg.build() {
                    Ok(c) => Ok(Transform::Concat(c)),
                    Err(e) => Err(e),
                }
            },
        }
    }
}

/// One configured node: its upstream input names and its builder.
pub struct TransformConfig {
    pub inputs: Vec<String>,
    pub inner: TransformBuilder,
}

/// The input record of a test: where to inject, the input type, and the
/// payload.
pub struct TestInput {
    pub insert_at: String,
    pub type_str: String,
    pub value: Option<String>,
}

/// A condition as it appears in a test definition: a structured description,
/// or a bare string (reserved, rejected at compile time).
pub enum TestCondition {
    Embedded(EmbeddedConditionDef),
    Bare(String),
}

/// One output record of a test: an extraction point and named conditions.
pub struct TestOutput {
    pub extract_from: String,
    pub conditions: Vec<(String, TestCondition)>,
}

/// One unit-test definition.
pub struct TestDefinition {
    pub name: String,
    pub input: TestInput,
    pub outputs: Vec<TestOutput>,
}

/// The whole configuration: an ordered mapping of transforms and a list of
/// tests.
pub struct Config {
    pub transforms: Vec<(String, TransformConfig)>,
    pub tests: Vec<TestDefinition>,
}

impl Config {
    /// Transform names are pairwise distinct, as in a mapping.
    pub open spec fn wf(self) -> bool {
        forall|i: int, j: int|
            0 <= i < j < self.transforms@.len() ==> self.transforms@[i].0@
                != self.transforms@[j].0@
    }

    /// Decides well-formedness, so that a caller can establish the
    /// compiler's precondition before compiling.
    pub fn check_wf(&self) -> (b: bool)
        ensures
            b == self.wf(),
    {
        let mut i: usize = 0;
        while i < self.transforms.len()
            invariant
                i <= self.transforms@.len(),
                forall|a: int, b2: int|
                    0 <= a < i && a < b2 < self.transforms@.len() ==> self.transforms@[a].0@
                        != self.transforms@[b2].0@,
            decreases self.transforms@.len() - i,
        {
            let mut j: usize = i + 1;
            while j < self.transforms.len()
                invariant
                    i < j <= self.transforms@.len(),
                    i < self.transforms@.len(),
                    forall|a: int, b2: int|
                        0 <= a < i && a < b2 < self.transforms@.len() ==> self.transforms@[a].0@
                            != self.transforms@[b2].0@,
                    forall|b2: int|
                        i < b2 < j ==> self.transforms@[i as int].0@ != self.transforms@[b2].0@,
                decreases self.transforms@.len() - j,
            {
                if self.transforms[i].0 == self.transforms[j].0 {
                    return false;
                }
                j += 1;
            }
            i += 1;
        }
        true
    }
}

} // verus!
