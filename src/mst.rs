//! The merkle-search-tree and BLAKE3 primitives the vault index is built on.

use merkle_search_tree::MerkleSearchTree;
use vstd::prelude::*;

verus! {

/// The tree type of the `merkle-search-tree` crate.
#[verifier::external_type_specification]
#[verifier::external_body]
#[verifier::reject_recursive_types(K)]
#[verifier::reject_recursive_types(V)]
#[verifier::reject_recursive_types(H)]
pub struct ExMerkleSearchTree<K, V, H, const N: usize>(MerkleSearchTree<K, V, H, N>);

/// The default key/value hasher of the `merkle-search-tree` crate.
#[verifier::external_type_specification]
#[verifier::external_body]
pub struct ExSipHasher(merkle_search_tree::digest::siphash::SipHasher);

/// The tree that indexes paths by content hash.
pub type PathTree = MerkleSearchTree<String, [u8; 32]>;

/// The key/value pairs (path to content hash) that a tree holds.
pub uninterp spec fn mst_entries(t: PathTree) -> Map<Seq<char>, Seq<u8>>;

/// The 16-byte root hash of a tree holding exactly the given pairs.
pub uninterp spec fn mst_root_of(entries: Map<Seq<char>, Seq<u8>>) -> Seq<u8>;

/// The BLAKE3 digest of a byte sequence.
pub uninterp spec fn blake3_of(data: Seq<u8>) -> Seq<u8>;

/// The empty path -> hash mapping.
pub open spec fn no_entries() -> Map<Seq<char>, Seq<u8>> {
    Map::empty()
}

/// Relies on `MerkleSearchTree::default`: a new tree holds no pairs.
#[verifier::external_body]
pub(crate) fn mst_new() -> (r: PathTree)
    ensures
        mst_entries(r) == no_entries(),
{
    MerkleSearchTree::default()
}

/// Relies on `MerkleSearchTree::upsert`: the key is bound to the value, replacing
/// any earlier value of the key; every other pair is kept.
#[verifier::external_body]
pub(crate) fn mst_upsert(t: &mut PathTree, key: String, value: &[u8; 32])
    ensures
        mst_entries(*final(t)) == mst_entries(*old(t)).insert(key@, value@),
{
    t.upsert(key, value)
}

/// Relies on `MerkleSearchTree::root_hash`: the tree's representation, and so its
/// root hash, is determined by the pairs it holds irrespective of insertion
/// order; computing it only refreshes cached page hashes.
#[verifier::external_body]
pub(crate) fn mst_root_hash(t: &mut PathTree) -> (r: [u8; 16])
    ensures
        mst_entries(*final(t)) == mst_entries(*old(t)),
        r@ == mst_root_of(mst_entries(*old(t))),
{
    *t.root_hash().as_bytes()
}

/// Relies on `blake3::hash`: the 32-byte BLAKE3 digest of the input.
#[verifier::external_body]
pub(crate) fn blake3_hash(data: &[u8]) -> (r: [u8; 32])
    ensures
        r@ == blake3_of(data@),
{
    *blake3::hash(data).as_bytes()
}

} // verus!
