//! Multiproofs: the trie nodes on the paths to a set of accounts and storage slots.

use vstd::prelude::*;

use crate::maps::{map_extend, BytesMap};
use crate::merge::{merge_map, merged_maps, views, Mergeable};
use crate::primitives::B256;

verus! {

/// The path of a trie node, of at most 64 nibbles: their number, then the nibbles, then zeros.
pub type NodePath = [u8; 65];

/// `path` stands for the nibbles `nibbles`.
pub open spec fn path_is(path: NodePath, nibbles: Seq<u8>) -> bool {
    &&& nibbles.len() <= 64
    &&& path[0] as int == nibbles.len()
    &&& forall|i: int|
        1 <= i < 65 ==> #[trigger] path[i] == (if i <= nibbles.len() {
            nibbles[i - 1]
        } else {
            0
        })
}

/// A path and the nibbles it stands for determine each other.
pub proof fn paths_identify_nibbles(p: NodePath, q: NodePath, a: Seq<u8>, b: Seq<u8>)
    requires
        path_is(p, a),
        path_is(q, b),
    ensures
        p == q <==> a == b,
{
    if p == q {
        assert forall|i: int| 0 <= i < a.len() implies a[i] == b[i] by {
            assert(p[i + 1] == a[i] && q[i + 1] == b[i]);
        }
        assert(a =~= b);
    }
    if a == b {
        assert forall|i: int| 0 <= i < 65 implies p[i] == q[i] by {}
        assert(p =~= q);
    }
}

/// The path of the given nibbles; `None` if there are more than 64.
pub fn node_path(nibbles: &Vec<u8>) -> (path: Option<NodePath>)
    ensures
        match path {
            Some(p) => {
                &&& path_is(p, nibbles@)
                &&& p[0] as int == nibbles@.len()
                &&& p@.subrange(1, 1 + nibbles@.len() as int) == nibbles@
                &&& forall|i: int| nibbles@.len() < i < 65 ==> #[trigger] p[i] == 0
            },
            None => nibbles@.len() > 64,
        },
{
    if nibbles.len() > 64 {
        return None;
    }
    let mut path: NodePath = [0u8; 65];
    path[0] = nibbles.len() as u8;
    let mut i: usize = 0;
    while i < nibbles.len()
        invariant
            i <= nibbles@.len() <= 64,
            path[0] as int == nibbles@.len(),
            forall|j: int|
                1 <= j < 65 ==> #[trigger] path[j] == (if j <= i {
                    nibbles@[j - 1]
                } else {
                    0
                }),
        decreases nibbles@.len() - i,
    {
        path[i + 1] = nibbles[i];
        i = i + 1;
    }
    Some(path)
}

/// The nibbles that a path stands for.
pub fn path_nibbles(path: &NodePath) -> (nibbles: Vec<u8>)
    ensures
        nibbles@ == path@.subrange(
            1,
            1 + (if path[0] > 64 {
                64
            } else {
                path[0] as int
            }),
        ),
        forall|s: Seq<u8>| path_is(*path, s) ==> nibbles@ == s,
{
    let mut nibbles: Vec<u8> = Vec::new();
    let len: usize = if path[0] > 64 {
        64
    } else {
        path[0] as usize
    };
    let mut i: usize = 0;
    while i < len
        invariant
            i <= len <= 64,
            len == (if path[0] > 64 {
                64
            } else {
                path[0] as int
            }),
            nibbles@.len() == i,
            forall|j: int| 0 <= j < i ==> nibbles@[j] == path[j + 1],
        decreases len - i,
    {
        nibbles.push(path[i + 1]);
        i = i + 1;
    }
    assert forall|s: Seq<u8>| path_is(*path, s) implies nibbles@ == s by {
        assert forall|j: int| 0 <= j < s.len() implies nibbles@[j] == s[j] by {
            assert(path[j + 1] == s[j]);
        }
        assert(nibbles@ =~= s);
    }
    nibbles
}

/// The proof of the targets of one storage.
#[derive(Debug, Clone, PartialEq)]
pub struct StorageMultiProof {
    /// Storage root.
    pub root: B256,
    /// The nodes of the storage trie, by path.
    pub subtree: BytesMap<65, Vec<u8>>,
    /// The hash masks of the branch nodes among them.
    pub branch_node_hash_masks: BytesMap<65, u16>,
    /// The tree masks of the branch nodes among them.
    pub branch_node_tree_masks: BytesMap<65, u16>,
}

/// What a [`StorageMultiProof`] holds.
#[verifier::ext_equal]
pub ghost struct StorageMultiProofView {
    pub root: B256,
    pub subtree: Map<NodePath, Vec<u8>>,
    pub branch_node_hash_masks: Map<NodePath, u16>,
    pub branch_node_tree_masks: Map<NodePath, u16>,
}

impl View for StorageMultiProof {
    type V = StorageMultiProofView;

    open spec fn view(&self) -> StorageMultiProofView {
        StorageMultiProofView {
            root: self.root,
            subtree: self.subtree@,
            branch_node_hash_masks: self.branch_node_hash_masks@,
            branch_node_tree_masks: self.branch_node_tree_masks@,
        }
    }
}

impl StorageMultiProofView {
    /// The nodes of both proofs, under the root of the first.
    pub open spec fn joined_with(self, other: StorageMultiProofView) -> StorageMultiProofView {
        StorageMultiProofView {
            root: self.root,
            subtree: self.subtree.union_prefer_right(other.subtree),
            branch_node_hash_masks: self.branch_node_hash_masks.union_prefer_right(
                other.branch_node_hash_masks,
            ),
            branch_node_tree_masks: self.branch_node_tree_masks.union_prefer_right(
                other.branch_node_tree_masks,
            ),
        }
    }
}

impl Mergeable for StorageMultiProof {
    open spec fn merged(
        first: StorageMultiProofView,
        second: StorageMultiProofView,
    ) -> StorageMultiProofView {
        first.joined_with(second)
    }

    fn merge(&mut self, other: Self) {
        map_extend(&mut self.subtree, other.subtree);
        map_extend(&mut self.branch_node_hash_masks, other.branch_node_hash_masks);
        map_extend(&mut self.branch_node_tree_masks, other.branch_node_tree_masks);
    }
}

/// The proof of a set of accounts and of storage slots of theirs.
#[derive(Debug, Clone, PartialEq)]
pub struct MultiProof {
    /// The nodes of the account trie, by path.
    pub account_subtree: BytesMap<65, Vec<u8>>,
    /// The hash masks of the branch nodes among them.
    pub branch_node_hash_masks: BytesMap<65, u16>,
    /// The tree masks of the branch nodes among them.
    pub branch_node_tree_masks: BytesMap<65, u16>,
    /// The storage proofs, by hashed address.
    pub storages: BytesMap<32, StorageMultiProof>,
}

/// What a [`MultiProof`] holds.
#[verifier::ext_equal]
pub ghost struct MultiProofView {
    pub account_subtree: Map<NodePath, Vec<u8>>,
    pub branch_node_hash_masks: Map<NodePath, u16>,
    pub branch_node_tree_masks: Map<NodePath, u16>,
    pub storages: Map<B256, StorageMultiProofView>,
}

impl View for MultiProof {
    type V = MultiProofView;

    open spec fn view(&self) -> MultiProofView {
        MultiProofView {
            account_subtree: self.account_subtree@,
            branch_node_hash_masks: self.branch_node_hash_masks@,
            branch_node_tree_masks: self.branch_node_tree_masks@,
            storages: views(self.storages@),
        }
    }
}

impl MultiProofView {
    /// The proof of nothing.
    pub open spec fn empty() -> MultiProofView {
        MultiProofView {
            account_subtree: Map::empty(),
            branch_node_hash_masks: Map::empty(),
            branch_node_tree_masks: Map::empty(),
            storages: Map::empty(),
        }
    }

    /// Whether there is nothing in the proof.
    pub open spec fn is_empty(self) -> bool {
        &&& self.account_subtree.dom() == Set::<NodePath>::empty()
        &&& self.branch_node_hash_masks.dom() == Set::<NodePath>::empty()
        &&& self.branch_node_tree_masks.dom() == Set::<NodePath>::empty()
        &&& self.storages.dom() == Set::<B256>::empty()
    }

    /// The nodes of both proofs.
    pub open spec fn joined_with(self, other: MultiProofView) -> MultiProofView {
        MultiProofView {
            account_subtree: self.account_subtree.union_prefer_right(other.account_subtree),
            branch_node_hash_masks: self.branch_node_hash_masks.union_prefer_right(
                other.branch_node_hash_masks,
            ),
            branch_node_tree_masks: self.branch_node_tree_masks.union_prefer_right(
                other.branch_node_tree_masks,
            ),
            storages: merged_maps::<B256, StorageMultiProof>(self.storages, other.storages),
        }
    }
}

impl Default for MultiProof {
    fn default() -> (proof_of_nothing: MultiProof)
        ensures
            proof_of_nothing@ == MultiProofView::empty(),
    {
        let nothing = MultiProof {
            account_subtree: Default::default(),
            branch_node_hash_masks: Default::default(),
            branch_node_tree_masks: Default::default(),
            storages: Default::default(),
        };
        assert(nothing@ =~= MultiProofView::empty());
        nothing
    }
}

impl MultiProof {
    /// Returns true if there is nothing in the proof.
    pub fn is_empty(&self) -> (empty: bool)
        ensures
            empty == self@.is_empty(),
    {
        let empty = self.account_subtree.is_empty() && self.branch_node_hash_masks.is_empty()
            && self.branch_node_tree_masks.is_empty() && self.storages.is_empty();
        proof {
            assert(self@.storages.dom() =~= self.storages@.dom());
            assert(self.account_subtree@.is_empty() == (self.account_subtree@.dom() =~= Set::<
                NodePath,
            >::empty()));
            assert(self.branch_node_hash_masks@.is_empty() == (self.branch_node_hash_masks@.dom()
                =~= Set::<NodePath>::empty()));
            assert(self.branch_node_tree_masks@.is_empty() == (self.branch_node_tree_masks@.dom()
                =~= Set::<NodePath>::empty()));
            assert(self.storages@.is_empty() == (self.storages@.dom() =~= Set::<B256>::empty()));
        }
        empty
    }

    /// Takes in the nodes of another proof.
    pub fn extend(&mut self, other: MultiProof)
        ensures
            final(self)@ == old(self)@.joined_with(other@),
    {
        map_extend(&mut self.account_subtree, other.account_subtree);
        map_extend(&mut self.branch_node_hash_masks, other.branch_node_hash_masks);
        map_extend(&mut self.branch_node_tree_masks, other.branch_node_tree_masks);
        merge_map(&mut self.storages, other.storages);
    }
}

} // verus!
