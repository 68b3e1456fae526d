//! Chunks addressed by the BLAKE3 hash of their bytes.
//!
//! The store holds the chunks in memory; what it decides is what the chunk
//! directory has to hold afterwards.

use vstd::prelude::*;
use vstd::slice::slice_to_vec;
use vstd::string::StringSliceAdditionalSpecFns;
use crate::chunk_store::error::{ChunkErrorModel, ChunkStoreError};
use crate::strmap::StrMap;
use crate::text::{chars_to_string, decimal, push_decimal, str_chars, str_eq};

verus! {

/// The BLAKE3 hash of `data`, in lowercase hexadecimal.
pub uninterp spec fn blake3_hex(data: Seq<u8>) -> Seq<char>;

/// One of `0` to `9` or `a` to `f`.
pub open spec fn lower_hex(c: char) -> bool {
    ('0' <= c && c <= '9') || ('a' <= c && c <= 'f')
}

/// Calls `blake3::hash` on `data` and writes the hash with `Hash::to_hex`:
/// 64 characters, each a lowercase hexadecimal digit. The contract names
/// the text and states its shape.
#[verifier::external_body]
fn hash_hex(data: &[u8]) -> (h: String)
    ensures
        h@ == blake3_hex(data@),
        h@.len() == 64,
        forall|i: int| 0 <= i < h@.len() ==> lower_hex(#[trigger] h@[i]),
{
    blake3::hash(data).to_hex().to_string()
}

/// The number of characters of a chunk hash.
pub const EXPECTED_HASH_LEN: usize = 64;

/// A hash is 64 bytes long and made of lowercase hexadecimal digits.
pub open spec fn valid_hash(hash: Seq<char>) -> bool {
    vstd::utf8::encode_utf8(hash).len() == 64 && forall|i: int| 0 <= i < hash.len() ==> lower_hex(#[trigger] hash[i])
}

/// The message for a text that is not a hash.
pub open spec fn invalid_hash_text(hash: Seq<char>) -> Seq<char> {
    if vstd::utf8::encode_utf8(hash).len() != 64 {
        "expected 64 characters, got "@ + decimal(vstd::utf8::encode_utf8(hash).len())
    } else {
        "hash must contain only lowercase hexadecimal characters"@
    }
}

/// The chunks of a store, over plain values.
pub open spec fn chunks_view(m: Map<Seq<char>, Vec<u8>>) -> Map<Seq<char>, Seq<u8>> {
    Map::new(|h: Seq<char>| m.contains_key(h), |h: Seq<char>| m[h]@)
}

/// The content-addressed chunk store.
#[derive(Debug)]
pub struct ChunkStore {
    chunks: StrMap<Vec<u8>>,
}

impl View for ChunkStore {
    type V = Map<Seq<char>, Seq<u8>>;

    closed spec fn view(&self) -> Map<Seq<char>, Seq<u8>> {
        chunks_view(self.chunks@)
    }
}

impl ChunkStore {
    /// Every chunk is stored under the hash of its bytes.
    pub open spec fn intact(&self) -> bool {
        forall|h: Seq<char>| self@.contains_key(h) ==> blake3_hex(#[trigger] self@[h]) == h
    }

    /// The empty store.
    pub fn new() -> (s: Self)
        ensures
            s@ == Map::<Seq<char>, Seq<u8>>::empty(),
            s.intact(),
    {
        let s = ChunkStore { chunks: StrMap::new() };
        assert(s@ =~= Map::<Seq<char>, Seq<u8>>::empty());
        s
    }

    /// Checks that `hash` has the form of a hash: 64 characters, each a
    /// lowercase hexadecimal digit.
    pub fn validate_hash(hash: &str) -> (r: Result<(), ChunkStoreError>)
        ensures
            r is Ok <==> valid_hash(hash@),
            r matches Err(e) ==> e@ == ChunkErrorModel::InvalidHash(invalid_hash_text(hash@)),
    {
        let n = hash.as_bytes().len();
        assert(hash.spec_bytes() == vstd::utf8::encode_utf8(hash@));
        if n != 64 {
            let mut msg = "expected 64 characters, got ".to_owned();
            push_decimal(&mut msg, n as u64);
            assert(msg@ == invalid_hash_text(hash@));
            return Err(ChunkStoreError::InvalidHash(msg));
        }
        let chars = str_chars(hash);
        let mut i: usize = 0;
        while i < chars.len()
            invariant
                i <= chars.len(),
                chars@ == hash@,
                vstd::utf8::encode_utf8(hash@).len() == 64,
                forall|j: int| 0 <= j < i ==> lower_hex(#[trigger] chars@[j]),
            decreases chars.len() - i,
        {
            let c = chars[i];
            if !((c >= '0' && c <= '9') || (c >= 'a' && c <= 'f')) {
                assert(!lower_hex(hash@[i as int]));
                return Err(
                    ChunkStoreError::InvalidHash(
                        "hash must contain only lowercase hexadecimal characters".to_owned(),
                    ),
                );
            }
            i += 1;
        }
        Ok(())
    }

    /// The two directory names under which the chunk `hash` is sharded: its
    /// first two and its next two characters.
    pub fn hash_to_path(hash: &str) -> (r: Result<(String, String), ChunkStoreError>)
        ensures
            r is Ok <==> hash@.len() >= 4,
            r matches Ok(p) ==> p.0@ == hash@.subrange(0, 2) && p.1@ == hash@.subrange(2, 4),
            r matches Err(e) ==> e@ == ChunkErrorModel::InvalidHash(
                "hash too short: "@ + decimal(hash@.len()) + " characters"@,
            ),
    {
        let chars = str_chars(hash);
        if chars.len() < 4 {
            let mut msg = "hash too short: ".to_owned();
            push_decimal(&mut msg, chars.len() as u64);
            msg.append(" characters");
            return Err(ChunkStoreError::InvalidHash(msg));
        }
        let mut a: Vec<char> = Vec::new();
        a.push(chars[0]);
        a.push(chars[1]);
        let mut b: Vec<char> = Vec::new();
        b.push(chars[2]);
        b.push(chars[3]);
        assert(a@ =~= hash@.subrange(0, 2));
        assert(b@ =~= hash@.subrange(2, 4));
        Ok((chars_to_string(&a), chars_to_string(&b)))
    }

    /// Stores `data` under its hash, unless it is stored, and returns the
    /// hash.
    pub fn put(&mut self, data: &[u8]) -> (r: Result<String, ChunkStoreError>)
        ensures
            r is Ok,
            r->Ok_0@ == blake3_hex(data@),
            final(self)@ == (if old(self)@.contains_key(blake3_hex(data@)) {
                old(self)@
            } else {
                old(self)@.insert(blake3_hex(data@), data@)
            }),
            old(self).intact() ==> final(self).intact(),
    {
        let hash = hash_hex(data);
        if !self.chunks.contains_key(hash.as_str()) {
            self.chunks.insert(hash.clone(), slice_to_vec(data));
            assert(self@ =~= old(self)@.insert(blake3_hex(data@), data@));
        } else {
            assert(self@ =~= old(self)@);
        }
        Ok(hash)
    }

    /// The bytes stored under `hash`.
    pub fn get(&self, hash: &str) -> (r: Result<Vec<u8>, ChunkStoreError>)
        ensures
            r is Ok <==> valid_hash(hash@) && self@.contains_key(hash@),
            r matches Ok(d) ==> d@ == self@[hash@],
            r matches Err(e) ==> e@ == (if valid_hash(hash@) {
                ChunkErrorModel::NotFound(hash@)
            } else {
                ChunkErrorModel::InvalidHash(invalid_hash_text(hash@))
            }),
    {
        match Self::validate_hash(hash) {
            Ok(_) => {},
            Err(e) => {
                return Err(e);
            },
        }
        match self.chunks.get(hash) {
            Some(d) => Ok(slice_to_vec(d.as_slice())),
            None => Err(ChunkStoreError::NotFound(hash.to_owned())),
        }
    }

    /// The bytes stored under `hash`, after checking that they hash to it.
    pub fn get_verified(&self, hash: &str) -> (r: Result<Vec<u8>, ChunkStoreError>)
        ensures
            r is Ok <==> valid_hash(hash@) && self@.contains_key(hash@) && blake3_hex(self@[hash@]) == hash@,
            r matches Ok(d) ==> d@ == self@[hash@],
            r matches Err(e) ==> e@ == (if !valid_hash(hash@) {
                ChunkErrorModel::InvalidHash(invalid_hash_text(hash@))
            } else if !self@.contains_key(hash@) {
                ChunkErrorModel::NotFound(hash@)
            } else {
                ChunkErrorModel::HashMismatch { expected: hash@, actual: blake3_hex(self@[hash@]) }
            }),
    {
        let data = match self.get(hash) {
            Ok(d) => d,
            Err(e) => {
                return Err(e);
            },
        };
        let actual = hash_hex(data.as_slice());
        if !str_eq(actual.as_str(), hash) {
            return Err(ChunkStoreError::HashMismatch { expected: hash.to_owned(), actual });
        }
        Ok(data)
    }

    /// Whether a chunk is stored under `hash`.
    pub fn contains(&self, hash: &str) -> (r: Result<bool, ChunkStoreError>)
        ensures
            r is Ok <==> valid_hash(hash@),
            r matches Ok(b) ==> b == self@.contains_key(hash@),
            r matches Err(e) ==> e@ == ChunkErrorModel::InvalidHash(invalid_hash_text(hash@)),
    {
        match Self::validate_hash(hash) {
            Ok(_) => {},
            Err(e) => {
                return Err(e);
            },
        }
        Ok(self.chunks.contains_key(hash))
    }

    /// Removes the chunk stored under `hash`, if there is one.
    pub fn delete(&mut self, hash: &str) -> (r: Result<(), ChunkStoreError>)
        ensures
            r is Ok <==> valid_hash(hash@),
            r is Ok ==> final(self)@ == old(self)@.remove(hash@),
            r matches Err(e) ==> final(self)@ == old(self)@ && e@ == ChunkErrorModel::InvalidHash(invalid_hash_text(hash@)),
            old(self).intact() ==> final(self).intact(),
    {
        match Self::validate_hash(hash) {
            Ok(_) => {},
            Err(e) => {
                return Err(e);
            },
        }
        let _ = self.chunks.remove(hash);
        assert(self@ =~= old(self)@.remove(hash@));
        Ok(())
    }

    /// Adds a chunk as it was found on disk, whatever it hashes to.
    pub fn restore_chunk(&mut self, hash: &str, data: Vec<u8>)
        ensures
            final(self)@ == old(self)@.insert(hash@, data@),
    {
        self.chunks.insert(hash.to_owned(), data);
        assert(self@ =~= old(self)@.insert(hash@, data@));
    }
}

/// Chunk integrity. In a store that is intact, a verified read of a stored
/// chunk succeeds, and what it returns hashes to the hash asked for.
pub proof fn law_stored_chunk_verifies(chunks: Map<Seq<char>, Seq<u8>>, hash: Seq<char>)
    requires
        forall|h: Seq<char>| chunks.contains_key(h) ==> blake3_hex(#[trigger] chunks[h]) == h,
        chunks.contains_key(hash),
    ensures
        blake3_hex(chunks[hash]) == hash,
{
}

} // verus!
