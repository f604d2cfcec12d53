//! Content hashing of glob query results: the xxh3 digest of the matched
//! entries' paths and hashes, fed in match order.
use vstd::prelude::*;
use crate::files::{views, FileData, FileView};
use crate::strkit::{hex_str, u64_to_hex};

verus! {

/// The 64-bit xxh3 digest of a string's UTF-8 bytes. The digest depends
/// on the characters alone, so it carries one name here; nothing else is
/// assumed of it.
pub uninterp spec fn xxh3_of(s: Seq<char>) -> u64;

/// Relies on xxhash-rust's `xxh3::xxh3_64`: the 64-bit xxh3 digest of the
/// given bytes, here the UTF-8 bytes of `s`.
#[verifier::external_body]
fn xxh3_digest(s: &str) -> (r: u64)
    ensures
        r == xxh3_of(s@),
{
    xxhash_rust::xxh3::xxh3_64(s.as_bytes())
}

/// What a sequence of entries feeds the hasher: each path followed by its
/// hash, in order.
pub open spec fn feed_of(entries: Seq<FileView>) -> Seq<char>
    decreases entries.len(),
{
    if entries.len() == 0 {
        Seq::empty()
    } else {
        feed_of(entries.drop_last()) + entries.last().file + entries.last().hash
    }
}

/// Concatenates each entry's path and hash, in order.
fn build_feed(files: &Vec<FileData>) -> (r: String)
    ensures
        r@ == feed_of(views(files@)),
{
    let ghost m = views(files@);
    let mut acc = String::new();
    let mut i: usize = 0;
    while i < files.len()
        invariant
            i <= files@.len(),
            m == views(files@),
            acc@ == feed_of(m.take(i as int)),
        decreases files@.len() - i,
    {
        proof {
            assert(m[i as int] == files@[i as int]@);
            assert(m.take(i + 1).drop_last() =~= m.take(i as int));
            assert(m.take(i + 1).last() == m[i as int]);
        }
        acc.append(files[i].file.as_str());
        acc.append(files[i].hash.as_str());
        i = i + 1;
    }
    proof {
        assert(m.take(m.len() as int) =~= m);
    }
    acc
}

/// The lowercase hex form of the xxh3 digest of the entries' feed: what
/// one glob-hash query answers.
pub open spec fn entries_digest(entries: Seq<FileView>) -> Seq<char> {
    hex_str(xxh3_of(feed_of(entries)) as nat)
}

/// Hashes a list of entries: digest of the concatenated paths and hashes,
/// formatted in lowercase hex.
pub fn hash_file_entries(files: &Vec<FileData>) -> (r: String)
    ensures
        r@ == entries_digest(views(files@)),
{
    let feed = build_feed(files);
    u64_to_hex(xxh3_digest(feed.as_str()))
}

} // verus!
