//! Socket names: each indexed root, and each client's reply channel, is
//! reached under the decimal hash of its path.

use std::hash::Hasher;
use rand::Rng;
use vstd::prelude::*;
use crate::bytes::append_bytes;
use crate::filter::{normalize_separators, normalized, SLASH};
use crate::index::is_alnum;
use crate::text::{decimal, decimal_of};

verus! {

/// Length of the random part of a reply channel's path.
pub const CHANNEL_SUFFIX_LEN: usize = 30;

/// The hash that std's `DefaultHasher` gives for `b`.
pub uninterp spec fn default_hash_of(b: Seq<u8>) -> u64;

/// Relies on std's `DefaultHasher` (new, write, finish): the hash of `b`,
/// the same for every hasher that `new` makes.
#[verifier::external_body]
fn default_hash(b: &[u8]) -> (r: u64)
    ensures
        r == default_hash_of(b@),
{
    let mut hasher = std::collections::hash_map::DefaultHasher::new();
    hasher.write(b);
    hasher.finish()
}

/// Relies on rand's `thread_rng` sampled through `Alphanumeric`: `n` bytes,
/// each an ASCII letter or digit.
#[verifier::external_body]
fn random_alphanumeric(n: usize) -> (r: Vec<u8>)
    ensures
        r@.len() == n,
        forall|i: int| 0 <= i < r@.len() ==> is_alnum(#[trigger] r@[i]),
{
    rand::thread_rng().sample_iter(&rand::distributions::Alphanumeric).take(n).collect()
}

/// The socket name of a path: the decimal hash of the path with `/` as separator.
pub open spec fn socket_name(path: Seq<u8>) -> Seq<u8> {
    decimal(default_hash_of(normalize_separators(path)) as nat)
}

/// `name` below `dir`, as a path join of a relative name does it.
pub open spec fn joined(dir: Seq<u8>, name: Seq<u8>) -> Seq<u8> {
    if dir.len() == 0 {
        name
    } else if dir.last() == SLASH {
        dir + name
    } else {
        dir + seq![SLASH] + name
    }
}

/// The socket name that the server of the tree at `path` listens on.
pub fn convert_path(path: &[u8]) -> (r: Vec<u8>)
    ensures
        r@ == socket_name(path@),
{
    let n = normalized(path);
    decimal_of(default_hash(n.as_slice()))
}

/// The socket name of the reply channel `suffix` below `dir`.
pub fn channel_name(dir: &[u8], suffix: &[u8]) -> (r: Vec<u8>)
    ensures
        r@ == socket_name(joined(dir@, suffix@)),
{
    let mut p: Vec<u8> = Vec::new();
    append_bytes(&mut p, dir);
    if dir.len() > 0 && dir[dir.len() - 1] != SLASH {
        p.push(SLASH);
    }
    append_bytes(&mut p, suffix);
    assert(p@ =~= joined(dir@, suffix@));
    convert_path(p.as_slice())
}

/// A fresh reply channel name below `dir`: that of a random alphanumeric
/// suffix of `CHANNEL_SUFFIX_LEN` bytes.
pub fn fresh_channel_name(dir: &[u8]) -> (r: Vec<u8>)
    ensures
        exists|s: Seq<u8>|
            s.len() == CHANNEL_SUFFIX_LEN && (forall|i: int| 0 <= i < s.len() ==> is_alnum(#[trigger] s[i]))
                && r@ == socket_name(joined(dir@, s)),
{
    let suffix = random_alphanumeric(CHANNEL_SUFFIX_LEN);
    channel_name(dir, suffix.as_slice())
}

} // verus!
