//! The event moving through the transform graph.
//!
//! An event is a record of named byte-string fields. A raw event is built
//! from a single string payload, stored under the field `message`. The
//! harness itself treats events as opaque values; only the `concat`
//! transform and the conditions look inside.

use vstd::prelude::*;
use vstd::string::*;

verus! {

/// In a well-formed event, the field at index `i` is what `field_map` maps
/// its name to.
pub proof fn lemma_field_map_index(e: Event, i: int)
    requires
        e.wf(),
        0 <= i < e.fields@.len(),
    ensures
        e.field_map().contains_key(e.fields@[i].name@),
        e.field_map()[e.fields@[i].name@] == e.fields@[i].value@,
{
    let k = e.fields@[i].name@;
    assert(e.field_map().contains_key(k));
    let j = choose|j: int| 0 <= j < e.fields@.len() && e.fields@[j].name@ == k;
    assert(j == i);
}

/// Replacing the field at an index by one with the same name updates the
/// field map at exactly that name.
proof fn lemma_set_field_map(a: Event, b: Event, i: int, name: Seq<char>, v: Seq<u8>)
    requires
        a.wf(),
        b.wf(),
        0 <= i < a.fields@.len(),
        b.fields@.len() == a.fields@.len(),
        a.fields@[i].name@ == name,
        b.fields@[i].name@ == name,
        b.fields@[i].value@ == v,
        forall|j: int| 0 <= j < a.fields@.len() && j != i ==> b.fields@[j] == a.fields@[j],
    ensures
        b.field_map() == a.field_map().insert(name, v),
{
    assert forall|k: Seq<char>| #[trigger] b.field_map().contains_key(k) implies a.field_map()
        .insert(name, v).contains_key(k) by {
        let j = choose|j: int| 0 <= j < b.fields@.len() && b.fields@[j].name@ == k;
        if j != i {
            assert(a.fields@[j].name@ == k);
        }
    }
    assert forall|k: Seq<char>| #[trigger]
        a.field_map().insert(name, v).contains_key(k) implies b.field_map().contains_key(k)
        && b.field_map()[k] == a.field_map().insert(name, v)[k] by {
        if k == name {
            lemma_field_map_index(b, i);
        } else {
            let j = choose|j: int| 0 <= j < a.fields@.len() && a.fields@[j].name@ == k;
            assert(j != i);
            lemma_field_map_index(a, j);
            assert(b.fields@[j] == a.fields@[j]);
            lemma_field_map_index(b, j);
        }
    }
    assert(b.field_map() =~= a.field_map().insert(name, v));
}

/// Appending a field with a fresh name extends the field map at exactly that
/// name.
proof fn lemma_push_field_map(a: Event, b: Event, name: Seq<char>, v: Seq<u8>)
    requires
        a.wf(),
        forall|j: int| 0 <= j < a.fields@.len() ==> a.fields@[j].name@ != name,
        b.fields@.len() == a.fields@.len() + 1,
        forall|j: int| 0 <= j < a.fields@.len() ==> b.fields@[j] == a.fields@[j],
        b.fields@[a.fields@.len() as int].name@ == name,
        b.fields@[a.fields@.len() as int].value@ == v,
    ensures
        b.wf(),
        b.field_map() == a.field_map().insert(name, v),
{
    assert(b.wf());
    let n = a.fields@.len() as int;
    assert forall|k: Seq<char>| #[trigger] b.field_map().contains_key(k) implies a.field_map()
        .insert(name, v).contains_key(k) by {
        let j = choose|j: int| 0 <= j < b.fields@.len() && b.fields@[j].name@ == k;
        if j != n {
            assert(a.fields@[j].name@ == k);
        }
    }
    assert forall|k: Seq<char>| #[trigger]
        a.field_map().insert(name, v).contains_key(k) implies b.field_map().contains_key(k)
        && b.field_map()[k] == a.field_map().insert(name, v)[k] by {
        if k == name {
            lemma_field_map_index(b, n);
        } else {
            let j = choose|j: int| 0 <= j < a.fields@.len() && a.fields@[j].name@ == k;
            lemma_field_map_index(a, j);
            assert(b.fields@[j] == a.fields@[j]);
            lemma_field_map_index(b, j);
        }
    }
    assert(b.field_map() =~= a.field_map().insert(name, v));
}

/// One named field of an event.
#[derive(Debug)]
pub struct EventField {
    pub name: String,
    pub value: Vec<u8>,
}

/// An event: a record of named byte-string fields with pairwise distinct
/// field names.
#[derive(Debug)]
pub struct Event {
    pub fields: Vec<EventField>,
}

impl Event {
    /// Field names are pairwise distinct.
    pub open spec fn wf(self) -> bool {
        forall|i: int, j: int|
            0 <= i < j < self.fields@.len() ==> self.fields@[i].name@ != self.fields@[j].name@
    }

    /// The abstract value of an event: a map from field name to field bytes.
    pub open spec fn field_map(self) -> Map<Seq<char>, Seq<u8>> {
        Map::new(
            |k: Seq<char>|
                exists|i: int| 0 <= i < self.fields@.len() && self.fields@[i].name@ == k,
            |k: Seq<char>|
                {
                    let i = choose|i: int|
                        0 <= i < self.fields@.len() && self.fields@[i].name@ == k;
                    self.fields@[i].value@
                },
        )
    }

    /// Builds a raw event from a string payload: a single `message` field
    /// holding the payload bytes.
    pub fn from_raw(value: &str) -> (e: Event)
        ensures
            e.wf(),
            e.field_map() == Map::<Seq<char>, Seq<u8>>::empty().insert(
                "message"@,
                value.spec_bytes(),
            ),
    {
        let mut fields: Vec<EventField> = Vec::new();
        fields.push(EventField { name: String::from_str("message"), value: value.as_bytes_vec() });
        let e = Event { fields };
        proof {
            assert(e.fields@.len() == 1);
            assert(e.fields@[0].name@ == "message"@);
            assert forall|k: Seq<char>| #[trigger] e.field_map().contains_key(k) implies k
                == "message"@ by {
                let i = choose|i: int| 0 <= i < e.fields@.len() && e.fields@[i].name@ == k;
                assert(i == 0);
            }
            assert(e.field_map() =~= Map::<Seq<char>, Seq<u8>>::empty().insert(
                "message"@,
                value.spec_bytes(),
            ));
        }
        e
    }

    /// Looks a field up by name.
    pub fn get_field<'a>(&'a self, name: &String) -> (r: Option<&'a Vec<u8>>)
        requires
            self.wf(),
        ensures
            match r {
                Some(v) => self.field_map().contains_key(name@) && v@ == self.field_map()[name@],
                None => !self.field_map().contains_key(name@),
            },
    {
        let mut i: usize = 0;
        while i < self.fields.len()
            invariant
                i <= self.fields@.len(),
                self.wf(),
                forall|k: int| 0 <= k < i ==> self.fields@[k].name@ != name@,
            decreases self.fields@.len() - i,
        {
            if self.fields[i].name == *name {
                return Some(&self.fields[i].value);
            }
            i += 1;
        }
        None
    }

    /// Sets a field, replacing any previous value under the same name.
    pub fn set_field(&mut self, name: &String, value: Vec<u8>)
        requires
            old(self).wf(),
        ensures
            final(self).wf(),
            final(self).field_map() == old(self).field_map().insert(name@, value@),
    {
        let mut i: usize = 0;
        while i < self.fields.len()
            invariant
                i <= self.fields@.len(),
                old(self).wf(),
                *self == *old(self),
                forall|k: int| 0 <= k < i ==> self.fields@[k].name@ != name@,
            decreases self.fields@.len() - i,
        {
            if self.fields[i].name == *name {
                self.fields[i] = EventField { name: name.clone(), value };
                proof {
                    assert forall|j: int| 0 <= j < self.fields@.len() implies #[trigger] self
                        .fields@[j].name@ == old(self).fields@[j].name@ by {}
                    assert(self.wf());
                    lemma_set_field_map(*old(self), *self, i as int, name@, value@);
                }
                return;
            }
            i += 1;
        }
        self.fields.push(EventField { name: name.clone(), value });
        proof {
            lemma_push_field_map(*old(self), *self, name@, value@);
        }
    }
}

impl Event {
    /// Decides well-formedness: whether the field names are pairwise
    /// distinct.
    pub fn check_wf(&self) -> (b: bool)
        ensures
            b == self.wf(),
    {
        let mut i: usize = 0;
        while i < self.fields.len()
            invariant
                i <= self.fields@.len(),
                forall|a: int, b2: int|
                    0 <= a < i && a < b2 < self.fields@.len() ==> self.fields@[a].name@
                        != self.fields@[b2].name@,
            decreases self.fields@.len() - i,
        {
            let mut j: usize = i + 1;
            while j < self.fields.len()
                invariant
                    i < j <= self.fields@.len(),
                    i < self.fields@.len(),
                    forall|a: int, b2: int|
                        0 <= a < i && a < b2 < self.fields@.len() ==> self.fields@[a].name@
                            != self.fields@[b2].name@,
                    forall|b2: int|
                        i < b2 < j ==> self.fields@[i as int].name@ != self.fields@[b2].name@,
                decreases self.fields@.len() - j,
            {
                if self.fields[i].name == self.fields[j].name {
                    return false;
                }
                j += 1;
            }
            i += 1;
        }
        true
    }
}

impl Clone for Event {
    /// A clone of a well-formed event is well-formed and has the same
    /// abstract value as the original.
    fn clone(&self) -> (r: Self)
        ensures
            self.wf() ==> r.wf() && r.field_map() == self.field_map(),
    {
        let mut fields: Vec<EventField> = Vec::new();
        let mut i: usize = 0;
        while i < self.fields.len()
            invariant
                i <= self.fields@.len(),
                fields@.len() == i,
                forall|k: int|
                    0 <= k < i ==> fields@[k].name@ == self.fields@[k].name@
                        && fields@[k].value@ == self.fields@[k].value@,
            decreases self.fields@.len() - i,
        {
            let mut bytes: Vec<u8> = Vec::new();
            let mut j: usize = 0;
            while j < self.fields[i].value.len()
                invariant
                    i < self.fields@.len(),
                    j <= self.fields@[i as int].value@.len(),
                    bytes@ == self.fields@[i as int].value@.take(j as int),
                decreases self.fields@[i as int].value@.len() - j,
            {
                bytes.push(self.fields[i].value[j]);
                proof {
                    assert(bytes@ =~= self.fields@[i as int].value@.take(j + 1 as int));
                }
                j += 1;
            }
            proof {
                assert(bytes@ =~= self.fields@[i as int].value@);
            }
            fields.push(EventField { name: self.fields[i].name.clone(), value: bytes });
            i += 1;
        }
        let r = Event { fields };
        proof {
            if self.wf() {
                assert(r.wf());
                assert forall|k: Seq<char>| #[trigger] r.field_map().contains_key(k) implies self
                    .field_map().contains_key(k) && r.field_map()[k] == self.field_map()[k] by {
                    let j = choose|j: int| 0 <= j < r.fields@.len() && r.fields@[j].name@ == k;
                    assert(self.fields@[j].name@ == k);
                    lemma_field_map_index(r, j);
                    lemma_field_map_index(*self, j);
                }
                assert forall|k: Seq<char>| #[trigger]
                    self.field_map().contains_key(k) implies r.field_map().contains_key(k) by {
                    let j = choose|j: int|
                        0 <= j < self.fields@.len() && self.fields@[j].name@ == k;
                    assert(r.fields@[j].name@ == k);
                }
                assert(r.field_map() =~= self.field_map());
            }
        }
        r
    }
}

} // verus!
