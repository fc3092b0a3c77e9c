//! The object store: payloads kept under their fingerprints. Storing a
//! payload that is already there changes nothing.

use crate::bytes::{copy, same_bytes};
use crate::digest::{fingerprint, hashable, is_hash, fingerprint_of};
use crate::error::Error;
use vstd::prelude::*;

verus! {

/// A payload and the fingerprint it is kept under.
#[derive(Clone, PartialEq, Eq, Debug)]
pub struct StoredObject {
    pub key: Vec<u8>,
    pub payload: Vec<u8>,
}

/// A stored object as a mathematical value.
pub struct ObjectView {
    pub key: Seq<u8>,
    pub payload: Seq<u8>,
}

impl View for StoredObject {
    type V = ObjectView;

    open spec fn view(&self) -> ObjectView {
        ObjectView { key: self.key@, payload: self.payload@ }
    }
}

/// Whether the objects `s` hold one under `key`.
pub open spec fn holds(s: Seq<ObjectView>, key: Seq<u8>) -> bool {
    exists|i: int| 0 <= i < s.len() && #[trigger] s[i].key == key
}

/// The payload that the objects `s` hold under `key`, if any.
pub open spec fn payload_of(s: Seq<ObjectView>, key: Seq<u8>) -> Option<Seq<u8>> {
    if holds(s, key) {
        Some(s[choose|i: int| 0 <= i < s.len() && #[trigger] s[i].key == key].payload)
    } else {
        None
    }
}

/// Every object is kept under the fingerprint of its payload, and no
/// fingerprint is used twice.
pub open spec fn content_addressed(s: Seq<ObjectView>) -> bool {
    &&& forall|i: int| 0 <= i < s.len() ==> (#[trigger] s[i]).key == fingerprint_of(s[i].payload)
    &&& forall|i: int, j: int|
        0 <= i < j < s.len() ==> (#[trigger] s[i]).key != (#[trigger] s[j]).key
}

/// The objects after `payload` was stored: as before if its fingerprint is
/// in use, else with the payload added under its fingerprint.
pub open spec fn stored(s: Seq<ObjectView>, payload: Seq<u8>) -> Seq<ObjectView> {
    if holds(s, fingerprint_of(payload)) {
        s
    } else {
        s.push(ObjectView { key: fingerprint_of(payload), payload })
    }
}

/// Storing a payload a second time changes nothing, and the store holds
/// exactly one object under its fingerprint.
pub proof fn lemma_store_idempotent(s: Seq<ObjectView>, payload: Seq<u8>)
    requires
        content_addressed(s),
    ensures
        stored(stored(s, payload), payload) == stored(s, payload),
        holds(stored(s, payload), fingerprint_of(payload)),
        forall|i: int, j: int|
            #![trigger stored(s, payload)[i], stored(s, payload)[j]]
            0 <= i < stored(s, payload).len() && 0 <= j < stored(s, payload).len() && stored(
                s,
                payload,
            )[i].key == fingerprint_of(payload) && stored(s, payload)[j].key == fingerprint_of(
                payload,
            ) ==> i == j,
{
    let t = stored(s, payload);
    let key = fingerprint_of(payload);
    if !holds(s, key) {
        assert(t[s.len() as int].key == key);
    }
    assert(holds(t, key));
    assert forall|i: int, j: int|
        0 <= i < t.len() && 0 <= j < t.len() && t[i].key == key && t[j].key == key implies i
        == j by {
        if holds(s, key) {
            if i < j {
                assert(s[i].key != s[j].key);
            } else if j < i {
                assert(s[j].key != s[i].key);
            }
        } else {
            if i < s.len() {
                assert(s[i].key == key);
            }
            if j < s.len() {
                assert(s[j].key == key);
            }
        }
    }
}

/// What is stored can be read back: after `payload` was stored, the store
/// holds it under its fingerprint, unless it held another payload with the
/// same fingerprint before. What it holds under other fingerprints is as
/// before.
pub proof fn lemma_store_keeps_content(s: Seq<ObjectView>, payload: Seq<u8>, other: Seq<u8>)
    requires
        content_addressed(s),
        payload_of(s, fingerprint_of(payload)) is None || payload_of(s, fingerprint_of(payload))
            == Some(payload),
        other != fingerprint_of(payload),
    ensures
        payload_of(stored(s, payload), fingerprint_of(payload)) == Some(payload),
        payload_of(stored(s, payload), other) == payload_of(s, other),
{
    let t = stored(s, payload);
    let key = fingerprint_of(payload);
    lemma_store_idempotent(s, payload);
    if !holds(s, key) {
        let k = choose|i: int| 0 <= i < t.len() && #[trigger] t[i].key == key;
        if k < s.len() {
            assert(s[k].key == key);
        }
        if holds(s, other) {
            let a = choose|i: int| 0 <= i < s.len() && #[trigger] s[i].key == other;
            assert(t[a].key == other);
            let b = choose|i: int| 0 <= i < t.len() && #[trigger] t[i].key == other;
            assert(b < s.len());
            if a < b {
                assert(s[a].key != s[b].key);
            } else if b < a {
                assert(s[b].key != s[a].key);
            }
        } else if holds(t, other) {
            let b = choose|i: int| 0 <= i < t.len() && #[trigger] t[i].key == other;
            assert(s[b].key == other);
        }
    }
}

/// Two payloads with different fingerprints, stored one after the other,
/// are both read back exactly, unless the store held another payload under
/// one of the two fingerprints before.
pub proof fn lemma_store_two(s: Seq<ObjectView>, first: Seq<u8>, second: Seq<u8>)
    requires
        content_addressed(s),
        fingerprint_of(first) != fingerprint_of(second),
        payload_of(s, fingerprint_of(first)) is None || payload_of(s, fingerprint_of(first))
            == Some(first),
        payload_of(s, fingerprint_of(second)) is None || payload_of(s, fingerprint_of(second))
            == Some(second),
    ensures
        payload_of(stored(stored(s, first), second), fingerprint_of(first)) == Some(first),
        payload_of(stored(stored(s, first), second), fingerprint_of(second)) == Some(second),
{
    lemma_store_keeps_content(s, first, fingerprint_of(second));
    lemma_stored_content_addressed(s, first);
    lemma_store_keeps_content(stored(s, first), second, fingerprint_of(first));
}

/// Storing keeps every object under the fingerprint of its payload.
pub proof fn lemma_stored_content_addressed(s: Seq<ObjectView>, payload: Seq<u8>)
    requires
        content_addressed(s),
    ensures
        content_addressed(stored(s, payload)),
{
    let t = stored(s, payload);
    if !holds(s, fingerprint_of(payload)) {
        assert forall|i: int, j: int| 0 <= i < j < t.len() implies (#[trigger] t[i]).key != (
        #[trigger] t[j]).key by {
            if j < s.len() {
                assert(s[i].key != s[j].key);
            } else {
                assert(s[i].key != fingerprint_of(payload));
            }
        }
    }
}

/// The object store.
pub struct ObjectStore {
    objects: Vec<StoredObject>,
}

impl View for ObjectStore {
    type V = Seq<ObjectView>;

    closed spec fn view(&self) -> Seq<ObjectView> {
        self.objects@.map_values(|o: StoredObject| o@)
    }
}

impl ObjectStore {
    /// The invariant of the store: it is content-addressed.
    pub open spec fn wf(&self) -> bool {
        content_addressed(self@)
    }

    /// A store without objects.
    pub fn new() -> (store: ObjectStore)
        ensures
            store@ == Seq::<ObjectView>::empty(),
            store.wf(),
    {
        let store = ObjectStore { objects: Vec::new() };
        assert(store@ =~= Seq::<ObjectView>::empty());
        store
    }

    /// The number of objects.
    pub fn len(&self) -> (n: usize)
        ensures
            n == self@.len(),
    {
        self.objects.len()
    }

    /// The object at position `i`, in the order in which they were stored.
    pub fn get(&self, i: usize) -> (object: &StoredObject)
        requires
            i < self@.len(),
        ensures
            object@ == self@[i as int],
    {
        &self.objects[i]
    }

    /// The position of the object kept under `key`, if there is one.
    pub fn position(&self, key: &[u8]) -> (at: Option<usize>)
        ensures
            at is Some <==> holds(self@, key@),
            at matches Some(i) ==> i < self@.len() && self@[i as int].key == key@,
    {
        let mut i: usize = 0;
        while i < self.objects.len()
            invariant
                i <= self.objects@.len(),
                self@.len() == self.objects@.len(),
                forall|j: int| 0 <= j < i ==> (#[trigger] self@[j]).key != key@,
            decreases self.objects.len() - i,
        {
            if same_bytes(self.objects[i].key.as_slice(), key) {
                assert(self@[i as int].key == key@);
                return Some(i);
            }
            i += 1;
        }
        None
    }

    /// The payload kept under `key`, if there is one.
    pub fn payload(&self, key: &[u8]) -> (payload: Option<&Vec<u8>>)
        requires
            self.wf(),
        ensures
            match payload {
                Some(p) => payload_of(self@, key@) == Some(p@),
                None => payload_of(self@, key@) is None,
            },
    {
        match self.position(key) {
            Some(i) => {
                proof {
                    let s = self@;
                    let k = choose|k: int| 0 <= k < s.len() && #[trigger] s[k].key == key@;
                    if k < i {
                        assert(s[k].key != s[i as int].key);
                    } else if i < k {
                        assert(s[i as int].key != s[k].key);
                    }
                }
                Some(&self.objects[i].payload)
            },
            None => None,
        }
    }

    /// Stores `payload` and returns its fingerprint. Nothing is added if the
    /// store holds an object under that fingerprint already. A payload that
    /// is too long to be hashed is refused with `ObjectTooLarge`.
    pub fn store(&mut self, payload: Vec<u8>) -> (key: Result<Vec<u8>, Error>)
        requires
            old(self).wf(),
        ensures
            final(self).wf(),
            hashable(payload@) ==> {
                &&& key is Ok
                &&& key->Ok_0@ == fingerprint_of(payload@)
                &&& is_hash(key->Ok_0@)
                &&& final(self)@ == stored(old(self)@, payload@)
            },
            !hashable(payload@) ==> {
                &&& key == Err::<Vec<u8>, Error>(Error::ObjectTooLarge)
                &&& final(self)@ == old(self)@
            },
    {
        let key = match fingerprint(payload.as_slice()) {
            Ok(k) => k,
            Err(e) => {
                return Err(e);
            },
        };
        proof {
            lemma_stored_content_addressed(self@, payload@);
        }
        if self.position(key.as_slice()).is_none() {
            let ghost before = self@;
            let ghost added = ObjectView { key: key@, payload: payload@ };
            self.objects.push(StoredObject { key: copy(key.as_slice()), payload });
            assert(self@ =~= before.push(added));
        }
        Ok(key)
    }
}

} // verus!
