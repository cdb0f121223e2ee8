//! An in-memory key/value collection that assigns monotonically increasing
//! integer keys and performs create/read/update/delete against an unordered
//! mapping.
use vstd::prelude::*;
use std::collections::HashMap;

verus! {

broadcast use vstd::std_specs::hash::group_hash_axioms;

/// Why a collection operation failed.
#[derive(Debug)]
pub enum OperationError {
    /// The key is not in the collection.
    KeyMissing,
}

/// The collection: documents by key, and the key the next write gets.
#[derive(Debug)]
pub struct Collection {
    documents: HashMap<u64, String>,
    next_id: u64,
}

impl Collection {
    /// The mapping from keys to documents.
    pub closed spec fn docs(&self) -> Map<u64, String> {
        self.documents@
    }

    /// The key the next write will be stored under.
    pub closed spec fn next(&self) -> u64 {
        self.next_id
    }

    /// The collection's invariant: the key set is finite and the next key is
    /// above every stored key, so keys are never reused and the next key is
    /// always fresh.
    pub open spec fn wf(&self) -> bool {
        self.docs().dom().finite()
            && forall|k: u64| self.docs().contains_key(k) ==> k < self.next()
    }

    /// An empty collection; the first write gets key 1.
    pub fn new() -> (r: Collection)
        ensures
            r.wf(),
            r.docs() == Map::<u64, String>::empty(),
            r.next() == 1,
    {
        Collection { documents: HashMap::new(), next_id: 1 }
    }

    /// Store `value` under the next key and return that key. The key is
    /// fresh, so the collection grows by one document.
    pub fn write(&mut self, value: String) -> (r: Result<u64, OperationError>)
        requires
            old(self).wf(),
            old(self).next() < u64::MAX,
        ensures
            final(self).wf(),
            r == Ok::<u64, OperationError>(old(self).next()),
            !old(self).docs().contains_key(old(self).next()),
            final(self).docs() == old(self).docs().insert(old(self).next(), value),
            final(self).docs().len() == old(self).docs().len() + 1,
            final(self).next() == old(self).next() + 1,
    {
        let ret_val = self.next_id;
        self.documents.insert(self.next_id, value);
        self.next_id = self.next_id + 1;
        proof {
            assert(self.docs().dom() =~= old(self).docs().dom().insert(ret_val));
        }
        Ok(ret_val)
    }

    /// Look a key up; a missing key is not an error, just `None`.
    pub fn read(&self, key: u64) -> (r: Result<Option<&String>, OperationError>)
        ensures
            r is Ok,
            r->Ok_0 is Some <==> self.docs().contains_key(key),
            r->Ok_0 matches Some(v) ==> *v == self.docs()[key],
    {
        Ok(self.documents.get(&key))
    }

    /// Replace the document under `key`; fails when the key is missing.
    pub fn update(&mut self, key: u64, new_value: &String) -> (r: Result<u64, OperationError>)
        requires
            old(self).wf(),
        ensures
            final(self).wf(),
            final(self).docs().len() == old(self).docs().len(),
            final(self).next() == old(self).next(),
            r is Ok <==> old(self).docs().contains_key(key),
            r is Ok ==> r == Ok::<u64, OperationError>(key)
                && final(self).docs().dom() == old(self).docs().dom()
                && final(self).docs()[key]@ == new_value@
                && (forall|k2: u64| k2 != key && old(self).docs().contains_key(k2)
                    ==> final(self).docs()[k2] == old(self).docs()[k2]),
            r is Err ==> r == Err::<u64, OperationError>(OperationError::KeyMissing)
                && final(self).docs() == old(self).docs(),
    {
        if self.documents.contains_key(&key) {
            self.documents.insert(key, new_value.clone());
            proof {
                assert(self.docs().dom() =~= old(self).docs().dom());
            }
            Ok(key)
        } else {
            Err(OperationError::KeyMissing)
        }
    }

    /// Remove and return the document under `key`; fails when the key is
    /// missing.
    pub fn delete(&mut self, key: u64) -> (r: Result<String, OperationError>)
        requires
            old(self).wf(),
        ensures
            final(self).wf(),
            final(self).next() == old(self).next(),
            r is Ok <==> old(self).docs().contains_key(key),
            r matches Ok(v) ==> v == old(self).docs()[key]
                && final(self).docs() == old(self).docs().remove(key)
                && final(self).docs().len() == old(self).docs().len() - 1,
            r is Err ==> r == Err::<String, OperationError>(OperationError::KeyMissing)
                && final(self).docs() == old(self).docs(),
    {
        let value_wrapped = self.documents.remove(&key);
        match value_wrapped {
            Some(value) => {
                proof {
                    assert(self.docs().dom() =~= old(self).docs().dom().remove(key));
                }
                Ok(value)
            },
            None => {
                proof {
                    assert(old(self).docs().remove(key) =~= old(self).docs());
                }
                Err(OperationError::KeyMissing)
            },
        }
    }

    /// How many documents the collection holds.
    pub fn len(&self) -> (r: usize)
        ensures
            r == self.docs().len(),
    {
        self.documents.len()
    }

    /// The key the next write will be stored under.
    pub fn get_next_id(&self) -> (r: u64)
        ensures
            r == self.next(),
    {
        self.next_id
    }
}

} // verus!
