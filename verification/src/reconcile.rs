//! Reconciliation decisions for consolidating new memory against existing
//! entries.
//!
//! Each incoming item is compared against what is already stored and
//! resolved to one of a small set of operations: add it as new, update an
//! existing entry, delete a now-stale entry, or do nothing. This module
//! provides the neutral decision type ([`ReconcileOp`]), a trait seam
//! ([`DuplicateResolver`]) for that comparison, and an exact-content-hash
//! resolver ([`ExactHashResolver`]) that needs no embedder or model.

use vstd::prelude::*;
use vstd::string::StringSliceAdditionalSpecFns;
use vstd::utf8::encode_utf8;

use crate::dedup::{blake3_digest, blake3_hash, DedupSet};

verus! {

/// The operation a backend should apply when consolidating an incoming memory
/// item against existing storage.
#[derive(Debug, Clone, PartialEq, Eq)]
pub enum ReconcileOp {
    /// The item is novel; store it as a new entry.
    Add,
    /// The item refines an existing entry identified by `target`.
    Update {
        /// Identifier of the existing entry to update.
        target: String,
    },
    /// The item indicates an existing entry identified by `target` is now
    /// stale and should be removed or invalidated.
    Delete {
        /// Identifier of the existing entry to delete.
        target: String,
    },
    /// The item is a duplicate of existing memory; take no action.
    Noop,
}

/// A backend-neutral seam for deciding how an incoming item reconciles against
/// existing memory. Implementors may use any similarity signal.
pub trait DuplicateResolver {
    /// Decide the reconciliation operation for `incoming`.
    fn reconcile(&self, incoming: &str) -> ReconcileOp;
}

/// The exact-match key of a text: the BLAKE3 hash of its UTF-8 bytes.
pub open spec fn content_key(text: Seq<char>) -> Seq<u8> {
    blake3_digest(encode_utf8(text))
}

/// Content keys are exact: two texts share a content key only when they
/// have the same characters, or when BLAKE3 maps two different byte strings
/// (their UTF-8 bytes) to the same digest. Texts that differ in any way,
/// case included, never share a key otherwise.
pub proof fn lemma_content_key_exact(a: Seq<char>, b: Seq<char>)
    ensures
        content_key(a) == content_key(b) ==> a == b || (encode_utf8(a) != encode_utf8(b) && blake3_digest(
            encode_utf8(a),
        ) == blake3_digest(encode_utf8(b))),
        a == b ==> content_key(a) == content_key(b),
{
    if content_key(a) == content_key(b) && a != b {
        vstd::utf8::encode_utf8_decode_utf8(a);
        vstd::utf8::encode_utf8_decode_utf8(b);
    }
}

/// An item reconciles to `Noop` against a resolver seeded with `existing`
/// only when some seeded text has exactly its characters, barring a BLAKE3
/// collision between different byte strings.
pub proof fn lemma_seeded_noop_is_exact(existing: Seq<Seq<char>>, incoming: Seq<char>)
    requires
        Set::new(|k: Seq<u8>| exists|i: int| 0 <= i < existing.len() && k == content_key(existing[i])).contains(
            content_key(incoming),
        ),
    ensures
        exists|i: int|
            0 <= i < existing.len() && (existing[i] == incoming || (encode_utf8(existing[i]) != encode_utf8(
                incoming,
            ) && blake3_digest(encode_utf8(existing[i])) == blake3_digest(encode_utf8(incoming)))),
{
    let i = choose|i: int| 0 <= i < existing.len() && content_key(incoming) == content_key(existing[i]);
    lemma_content_key_exact(existing[i], incoming);
}

/// A [`DuplicateResolver`] that treats an item as a duplicate only when its
/// content hash exactly matches a previously seen item.
#[derive(Debug, Clone)]
pub struct ExactHashResolver {
    seen: DedupSet,
}

impl View for ExactHashResolver {
    type V = Set<Seq<u8>>;

    closed spec fn view(&self) -> Set<Seq<u8>> {
        self.seen@
    }
}

fn content_hash(text: &str) -> (key: [u8; 32])
    ensures
        key@ == content_key(text@),
{
    blake3_hash(text.as_bytes())
}

impl Default for ExactHashResolver {
    fn default() -> (r: Self)
        ensures
            r@ == Set::<Seq<u8>>::empty(),
            r@.finite(),
    {
        ExactHashResolver { seen: DedupSet::new() }
    }
}

impl ExactHashResolver {
    /// Construct a resolver seeded with the content hashes of `existing`.
    pub fn new(existing: &[&str]) -> (r: Self)
        ensures
            r@ == Set::new(
                |k: Seq<u8>| exists|i: int| 0 <= i < existing@.len() && k == content_key(existing@[i]@),
            ),
            r@.finite(),
    {
        let mut seen = DedupSet::new();
        let mut i: usize = 0;
        while i < existing.len()
            invariant
                i <= existing@.len(),
                seen@ == Set::new(|k: Seq<u8>| exists|j: int| 0 <= j < i && k == content_key(existing@[j]@)),
            decreases existing@.len() - i,
        {
            let key = content_hash(existing[i]);
            let ghost before = seen@;
            let _ = seen.insert(key);
            assert(seen@ =~= Set::new(
                |k: Seq<u8>| exists|j: int| 0 <= j < i + 1 && k == content_key(existing@[j]@),
            )) by {
                assert forall|k: Seq<u8>| seen@.contains(k) <==> exists|j: int|
                    0 <= j < i + 1 && k == content_key(existing@[j]@) by {
                    if seen@.contains(k) && k != key@ {
                        assert(before.contains(k));
                    }
                    if k == key@ {
                        assert(k == content_key(existing@[i as int]@));
                    }
                }
            }
            i = i + 1;
        }
        proof {
            seen.lemma_keys_are_32_bytes();
        }
        ExactHashResolver { seen }
    }

    /// Record `text` as seen so future identical items reconcile to
    /// [`ReconcileOp::Noop`].
    pub fn observe(&mut self, text: &str)
        ensures
            final(self)@ == old(self)@.insert(content_key(text@)),
            final(self)@.contains(content_key(text@)),
            final(self)@.finite(),
            final(self)@.len() == old(self)@.len() + if old(self)@.contains(content_key(text@)) {
                0int
            } else {
                1int
            },
    {
        proof {
            self.seen.lemma_keys_are_32_bytes();
        }
        let key = content_hash(text);
        let _ = self.seen.insert(key);
        proof {
            self.seen.lemma_keys_are_32_bytes();
        }
    }

    /// The set of tracked content hashes is finite.
    pub proof fn lemma_tracked_finite(&self)
        ensures
            self@.finite(),
    {
        self.seen.lemma_keys_are_32_bytes();
    }

    /// Number of distinct content hashes currently tracked.
    pub fn len(&self) -> (n: usize)
        ensures
            n == self@.len(),
            self@.finite(),
    {
        proof {
            self.seen.lemma_keys_are_32_bytes();
        }
        match self.seen.len() {
            Ok(n) => n,
            Err(_) => 0,
        }
    }

    /// Whether the resolver has observed any content yet.
    pub fn is_empty(&self) -> (b: bool)
        ensures
            b == (self@.len() == 0),
            self@.finite(),
    {
        self.len() == 0
    }
}

impl DuplicateResolver for ExactHashResolver {
    /// `Noop` for an item whose content hash was seen, else `Add`.
    fn reconcile(&self, incoming: &str) -> (op: ReconcileOp)
        ensures
            op == (if self@.contains(content_key(incoming@)) {
                ReconcileOp::Noop
            } else {
                ReconcileOp::Add
            }),
    {
        let key = content_hash(incoming);
        match self.seen.contains(&key) {
            Ok(true) => ReconcileOp::Noop,
            _ => ReconcileOp::Add,
        }
    }
}

} // verus!
