//! The engine interface: what any key/value backend must offer.
//!
//! An engine's abstract state is a map from UTF-8 encoded keys to
//! UTF-8 encoded values.  `set` binds, `get` answers from the map,
//! `remove` unbinds and fails on an absent key; every operation
//! preserves the engine's own invariant.

use vstd::prelude::*;

use crate::error::KvsError;
use crate::store::KvStore;
use vstd::utf8::encode_utf8;

verus! {

/// Trait for a key/value storage engine.
pub trait KvsEngine: Sized {
    /// The engine's internal invariant.
    spec fn inv(&self) -> bool;

    /// The engine's abstract state: its live key/value map, over
    /// UTF-8 encoded keys and values.
    spec fn kv(&self) -> Map<Seq<u8>, Seq<u8>>;

    /// Sets the value of a string key to a string.
    ///
    /// If the key already exists, the previous value will be
    /// overwritten.
    fn set(&mut self, key: String, value: String) -> (r: Result<(), KvsError>)
        requires
            old(self).inv(),
        ensures
            final(self).inv(),
            r is Ok ==> final(self).kv() == old(self).kv().insert(
                encode_utf8(key@),
                encode_utf8(value@),
            ),
            r is Err ==> final(self).kv() == old(self).kv(),
    ;

    /// Gets the string value of a given string key.
    ///
    /// Returns `None` if the given key does not exist.
    fn get(&mut self, key: String) -> (r: Result<Option<String>, KvsError>)
        requires
            old(self).inv(),
        ensures
            final(self).inv(),
            final(self).kv() == old(self).kv(),
            r matches Ok(Some(v)) ==> old(self).kv().contains_key(encode_utf8(key@))
                && encode_utf8(v@) == old(self).kv()[encode_utf8(key@)],
            r matches Ok(None) ==> !old(self).kv().contains_key(encode_utf8(key@)),
    ;

    /// Removes a given key; fails with `KeyNotFound` when the key is
    /// not present.
    fn remove(&mut self, key: String) -> (r: Result<(), KvsError>)
        requires
            old(self).inv(),
        ensures
            final(self).inv(),
            r is Ok ==> old(self).kv().contains_key(encode_utf8(key@)) && final(self).kv() == old(
                self,
            ).kv().remove(encode_utf8(key@)),
            r is Err ==> final(self).kv() == old(self).kv(),
            !old(self).kv().contains_key(encode_utf8(key@)) <==> r matches Err(
                KvsError::KeyNotFound,
            ),
    ;
}

impl KvsEngine for KvStore {
    open spec fn inv(&self) -> bool {
        self.wf()
    }

    open spec fn kv(&self) -> Map<Seq<u8>, Seq<u8>> {
        self@
    }

    fn set(&mut self, key: String, value: String) -> (r: Result<(), KvsError>) {
        KvStore::set(self, key, value)
    }

    fn get(&mut self, key: String) -> (r: Result<Option<String>, KvsError>) {
        KvStore::get(self, key)
    }

    fn remove(&mut self, key: String) -> (r: Result<(), KvsError>) {
        KvStore::remove(self, key)
    }
}

} // verus!
