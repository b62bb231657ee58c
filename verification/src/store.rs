//! The raw blob store capability and an in-memory backend.
//!
//! The store holds the actual value bytes; the authenticated index holds
//! only their hashes.  Backends are interchangeable, and nothing is
//! assumed of their behaviour here: the database façade recomputes and
//! checks hashes on every read, so a faulty or tampered backend is caught
//! there, not trusted away.

use vstd::pervasive::VecAdditionalExecFns;
use vstd::prelude::*;
use vstd::slice::slice_to_vec;

use crate::index::str_eq;

verus! {

/// Failure of the raw blob store.
#[derive(Debug)]
pub enum StoreError {
    /// An input/output failure, with its description.
    Io(String),
    /// No value is stored under the named key.
    NotFound(String),
    /// Any other storage-layer failure, with its description.
    Storage(String),
}

/// Result of a blob store operation.
pub type StoreResult<T> = Result<T, StoreError>;

/// Raw value storage: put, get, delete and existence checks on byte
/// blobs addressed by string keys.  Implementations may be backed by
/// anything; callers get no promises from this interface alone.
pub trait Store {
    /// Stores a value under a key, replacing any previous value.
    fn put(&mut self, key: &str, value: &[u8]) -> StoreResult<()>;

    /// Retrieves the value stored under a key.
    fn get(&self, key: &str) -> StoreResult<Vec<u8>>;

    /// Deletes the value stored under a key.
    fn delete(&mut self, key: &str) -> StoreResult<()>;

    /// Checks whether a key has a stored value.
    fn contains(&self, key: &str) -> StoreResult<bool>;
}

/// One stored blob.
struct MemEntry {
    key: String,
    value: Vec<u8>,
}

/// An in-memory blob store: a plain list of key/value pairs.  Useful for
/// exercising the database façade without any I/O.
pub struct MemStore {
    entries: Vec<MemEntry>,
}

impl MemStore {
    /// An empty store.
    pub fn new() -> MemStore {
        MemStore { entries: Vec::new() }
    }

    /// Position of the entry holding `key`, if any.
    fn position(&self, key: &str) -> (r: Option<usize>)
        ensures
            r matches Some(i) ==> i < self.entries@.len(),
    {
        let n = self.entries.len();
        let mut i: usize = 0;
        while i < n
            invariant
                n == self.entries@.len(),
                0 <= i <= n,
            decreases n - i,
        {
            if str_eq(self.entries[i].key.as_str(), key) {
                return Some(i);
            }
            i = i + 1;
        }
        None
    }
}

impl Store for MemStore {
    fn put(&mut self, key: &str, value: &[u8]) -> StoreResult<()> {
        let owned = MemEntry { key: key.to_owned(), value: slice_to_vec(value) };
        match self.position(key) {
            Some(i) => {
                self.entries.set(i, owned);
            },
            None => {
                self.entries.push(owned);
            },
        }
        Ok(())
    }

    fn get(&self, key: &str) -> StoreResult<Vec<u8>> {
        match self.position(key) {
            Some(i) => Ok(slice_to_vec(self.entries[i].value.as_slice())),
            None => Err(StoreError::NotFound(key.to_owned())),
        }
    }

    fn delete(&mut self, key: &str) -> StoreResult<()> {
        match self.position(key) {
            Some(i) => {
                self.entries.remove(i);
                Ok(())
            },
            None => Err(StoreError::NotFound(key.to_owned())),
        }
    }

    fn contains(&self, key: &str) -> StoreResult<bool> {
        Ok(self.position(key).is_some())
    }
}

/// The path layout of a file-backed blob store: one file per key under a
/// base directory.  Only the path computation lives here; the reads and
/// writes themselves are input/output and belong to the embedding
/// application.
pub struct FileStore {
    base_path: String,
}

impl View for FileStore {
    type V = Seq<char>;

    closed spec fn view(&self) -> Seq<char> {
        self.base_path@
    }
}

impl FileStore {
    /// A layout rooted at the given base directory.
    pub fn new(base_path: String) -> (r: FileStore)
        ensures
            r@ == base_path@,
    {
        FileStore { base_path }
    }

    /// The file path holding `key`'s value: the base directory, a path
    /// separator, and the key.
    pub fn key_to_path(&self, key: &str) -> (r: String)
        ensures
            r@ == self@ + "/"@ + key@,
    {
        let mut path = self.base_path.clone();
        path.append("/");
        path.append(key);
        assert(path@ =~= self@ + "/"@ + key@);
        path
    }
}

} // verus!
