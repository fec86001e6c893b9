//! Game data sets: directories of TOML files, each file loaded as one
//! entry and filed under the hash of its text. Reading the files is done
//! outside the library; which files count, the hashing, and the filing are
//! here.

use std::hash::BuildHasher;
use vstd::prelude::*;
use crate::text::str_eq;

verus! {

/// The seed of the hasher that files entries.
pub const HASH_SEED: u64 = 0xdeadbeef;

/// The secrets of the hasher that files entries.
pub const HASH_SECRETS: [u64; 7] = [
    0x2998b89d5cf7ebcf,
    0x5739954b350f0cb6,
    0x309f341055e40ff3,
    0x6e4f7e68f44e32e0,
    0x5f69b89319603cc2,
    0xc9671393592db796,
    0x9dd7847eb38817ba,
];

/// `rapidhash::quality::SeedableState::custom(seed, secrets).hash_one(s)`:
/// rapidhash of the text `s` under the given seed and secrets. The crate
/// does not promise the same value across platforms or versions, so
/// nothing is claimed of the result.
#[verifier::external_body]
fn rapid_hash_str(seed: u64, secrets: &[u64; 7], s: &str) -> u64 {
    rapidhash::quality::SeedableState::custom(seed, secrets).hash_one(s)
}

/// The key a file with text `text` is filed under.
pub fn content_hash(text: &str) -> u64 {
    rapid_hash_str(HASH_SEED, &HASH_SECRETS, text)
}

/// Whether a path found in a data directory is loaded: directories are
/// not, nor files with an extension other than `toml`; files without an
/// extension are.
pub fn keep_path(is_dir: bool, extension: Option<&str>) -> (b: bool)
    ensures
        b == (!is_dir && match extension {
            Some(e) => e@ == "toml"@,
            None => true,
        }),
{
    if is_dir {
        return false;
    }
    match extension {
        Some(e) => str_eq(e, "toml"),
        None => true,
    }
}

/// The keys of a list of entries.
pub open spec fn entry_keys<T>(entries: Seq<(u64, T)>) -> Seq<u64> {
    entries.map_values(|e: (u64, T)| e.0)
}

/// Two entries never share a key.
pub open spec fn keys_unique<T>(entries: Seq<(u64, T)>) -> bool {
    forall|i: int, j: int| 0 <= i < j < entries.len() ==> entries[i].0 != entries[j].0
}

/// Two files whose texts hash alike.
#[derive(Debug)]
pub struct HashCollision {
    pub key: u64,
}

/// Files `content` under `key`: where the key is taken the entries stay as
/// they were and the collision is returned.
pub fn insert_entry<T>(entries: &mut Vec<(u64, T)>, key: u64, content: T) -> (r: Result<(), HashCollision>)
    requires
        keys_unique(old(entries)@),
    ensures
        keys_unique(final(entries)@),
        match r {
            Ok(()) => !entry_keys(old(entries)@).contains(key) && final(entries)@ == old(entries)@.push((key, content)),
            Err(c) => entry_keys(old(entries)@).contains(key) && c.key == key && final(entries)@ == old(entries)@,
        },
{
    let mut i: usize = 0;
    while i < entries.len()
        invariant
            i <= entries@.len(),
            entries@ == old(entries)@,
            keys_unique(old(entries)@),
            forall|k: int| 0 <= k < i ==> entries@[k].0 != key,
        decreases entries@.len() - i,
    {
        if entries[i].0 == key {
            proof {
                assert(entry_keys(entries@)[i as int] == key);
            }
            return Err(HashCollision { key });
        }
        i = i + 1;
    }
    proof {
        if entry_keys(old(entries)@).contains(key) {
            let k = choose|k: int| 0 <= k < entry_keys(old(entries)@).len() && entry_keys(old(entries)@)[k] == key;
            assert(old(entries)@[k].0 == key);
        }
    }
    entries.push((key, content));
    Ok(())
}

/// Loads one file of a data directory: its parsed `content` is filed under
/// the hash of its `text`; a file whose hash is taken is refused.
pub fn load_entry<T>(entries: &mut Vec<(u64, T)>, text: &str, content: T) -> (r: Result<u64, HashCollision>)
    requires
        keys_unique(old(entries)@),
    ensures
        keys_unique(final(entries)@),
        match r {
            Ok(key) => !entry_keys(old(entries)@).contains(key) && final(entries)@ == old(entries)@.push((key, content)),
            Err(c) => entry_keys(old(entries)@).contains(c.key) && final(entries)@ == old(entries)@,
        },
{
    let key = content_hash(text);
    match insert_entry(entries, key, content) {
        Ok(()) => Ok(key),
        Err(c) => Err(c),
    }
}

/// The kinds of cards.
#[derive(Debug, Clone, Copy, PartialEq, Eq, Structural)]
pub enum CardType {
    Projectile,
}

/// How a card attacks.
#[derive(Debug, Clone, Copy, PartialEq, Eq, Structural)]
pub enum AttackType {
    Projectile,
}

/// How a card moves its user.
#[derive(Debug, Clone, Copy, PartialEq, Eq, Structural)]
pub enum MovementType {
    Walk,
    Fly,
    Jump,
}

/// The movement a card gives: its kind, and whether it goes to the target.
#[derive(Debug, Clone, Copy, PartialEq, Eq, Structural)]
pub struct MovementData {
    pub move_to_target: bool,
    pub kind: MovementType,
}

/// Marks a data set whose directories have been read.
pub struct Loaded;

/// Marks a data set as described, its directories not read yet.
pub struct NotLoaded;

} // verus!
