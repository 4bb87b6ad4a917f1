//! A key-value store on disk: each value is one file whose name is the
//! SHA-256 hash of its key in hexadecimal.
use crate::primitives::{sha256, sha256_digest};
use crate::text::{hex_string, join, join_path, to_hex};
use vstd::prelude::*;
use vstd::string::StringSliceAdditionalSpecFns;

verus! {

/// Longest key accepted, in bytes.
pub const MAX_KEY_LEN: usize = 255;

/// Longest value accepted, in bytes.
pub const MAX_VALUE_LEN: usize = 65535;

/// A store of values by key that survives crashes.
pub trait StableStorage {
    /// Stores `value` under `key`.
    fn put(&mut self, key: &str, value: &[u8]) -> Result<(), String>;

    /// Retrieves value stored under `key`.
    fn get(&self, key: &str) -> Option<Vec<u8>>;

    /// Removes `key` and the value stored under it.
    fn remove(&mut self, key: &str) -> bool;
}

/// The directory of a stable storage.
pub struct StableStorageData {
    root_dir: String,
}

impl StableStorageData {
    pub fn new(root_dir: String) -> (s: Self)
        ensures
            s.root() == root_dir@,
    {
        StableStorageData { root_dir }
    }

    /// The directory of the value files.
    pub closed spec fn root(&self) -> Seq<char> {
        self.root_dir@
    }

    /// Accepts a key of at most 255 bytes.
    pub fn validate_key(key: &str) -> (r: Result<(), String>)
        ensures
            r is Ok <==> key.len() <= 255,
            r matches Err(msg) ==> msg@ == "Key length exceeds 255 bytes"@,
    {
        if key.len() > MAX_KEY_LEN {
            return Err(String::from_str("Key length exceeds 255 bytes"));
        }
        Ok(())
    }

    /// Accepts a value of at most 65535 bytes.
    pub fn validate_value(value: &[u8]) -> (r: Result<(), String>)
        ensures
            r is Ok <==> value@.len() <= 65535,
            r matches Err(msg) ==> msg@ == "Value length exceeds 65535 bytes"@,
    {
        if value.len() > MAX_VALUE_LEN {
            return Err(String::from_str("Value length exceeds 65535 bytes"));
        }
        Ok(())
    }

    /// The SHA-256 hash of the key's bytes in lowercase hexadecimal.
    pub fn hash_key(key: &str) -> (h: String)
        ensures
            h@ == hex_string(sha256(key.spec_bytes())),
            h@.len() == 64,
    {
        let digest = sha256_digest(key.as_bytes());
        to_hex(digest.as_slice())
    }

    /// The file that holds the value of a key.
    pub fn key_path(&self, key: &str) -> (p: String)
        ensures
            p@ == join_path(self.root(), hex_string(sha256(key.spec_bytes()))),
            hex_string(sha256(key.spec_bytes())).len() == 64,
    {
        let hashed_key = Self::hash_key(key);
        join(&self.root_dir, &hashed_key)
    }

    /// The file that a new value of a key is written to before it is
    /// renamed to the key's file.
    pub fn temp_path(&self, key: &str) -> (p: String)
        ensures
            p@ == join_path(self.root(), hex_string(sha256(key.spec_bytes()))) + ".tmp"@,
    {
        let mut p = self.key_path(key);
        p.append(".tmp");
        p
    }
}

} // verus!
