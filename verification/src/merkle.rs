//! Merkle commitments over SHA3-256 with domain separated leaves and nodes.
use vstd::prelude::*;
pub use crate::crypto::Digest;
use crate::crypto::{copy_slice, sha3_256, spec_sha3_256, le_bytes, push_u64_le, push_bytes, digest_eq};
use crate::field::Felt;

verus! {

/// The domain byte that prefixes a leaf preimage.
pub const LEAF_DOMAIN: u8 = 0x00;

/// The domain byte that prefixes an internal node preimage.
pub const NODE_DOMAIN: u8 = 0x01;

/// The longest authentication path the plain verifier accepts.
pub const MAX_MERKLE_DEPTH: usize = 64;

/// The digest of one committed field element.
pub open spec fn spec_leaf(value: Felt) -> Seq<u8> {
    spec_sha3_256(seq![LEAF_DOMAIN] + le_bytes(value.val() as u64))
}

/// The little endian encoding of a row of field elements.
pub open spec fn row_bytes(values: Seq<Felt>) -> Seq<u8>
    decreases values.len(),
{
    if values.len() == 0 {
        seq![]
    } else {
        row_bytes(values.drop_last()) + le_bytes(values.last().val() as u64)
    }
}

/// The digest of a committed row of field elements.
pub open spec fn spec_row_leaf(values: Seq<Felt>) -> Seq<u8> {
    spec_sha3_256(seq![LEAF_DOMAIN] + row_bytes(values))
}

/// The digest of an internal node over its two children.
pub open spec fn spec_node(left: Seq<u8>, right: Seq<u8>) -> Seq<u8> {
    spec_sha3_256(seq![NODE_DOMAIN] + left + right)
}

/// The layer above a layer of nodes; an odd last node pairs with itself.
pub open spec fn next_layer(layer: Seq<Seq<u8>>) -> Seq<Seq<u8>> {
    Seq::new(
        ((layer.len() + 1) / 2) as nat,
        |i: int|
            spec_node(
                layer[2 * i],
                if 2 * i + 1 < layer.len() { layer[2 * i + 1] } else { layer[2 * i] },
            ),
    )
}

/// Every layer of the tree over the given leaves, leaves first, up to the layer
/// of at most one node.
pub open spec fn tree_layers(leaves: Seq<Seq<u8>>) -> Seq<Seq<Seq<u8>>>
    decreases leaves.len(),
{
    if leaves.len() <= 1 {
        seq![leaves]
    } else {
        seq![leaves] + tree_layers(next_layer(leaves))
    }
}

/// The root of the tree over the given leaves, all zeros for an empty tree.
pub open spec fn tree_root(leaves: Seq<Seq<u8>>) -> Seq<u8> {
    let layers = tree_layers(leaves);
    if layers.last().len() == 0 {
        Seq::new(32, |i: int| 0u8)
    } else {
        layers.last()[0]
    }
}

/// The siblings on the path from a leaf to the root.
pub open spec fn tree_path(leaves: Seq<Seq<u8>>, index: nat) -> Seq<Seq<u8>>
    decreases leaves.len(),
{
    if leaves.len() <= 1 {
        seq![]
    } else {
        let sibling = if index % 2 == 0 {
            if index + 1 < leaves.len() { leaves[(index + 1) as int] } else { leaves[index as int] }
        } else {
            leaves[index - 1]
        };
        seq![sibling] + tree_path(next_layer(leaves), index / 2)
    }
}

/// The value a path folds a leaf to.
pub open spec fn fold_path(leaf: Seq<u8>, index: nat, siblings: Seq<Seq<u8>>) -> Seq<u8>
    decreases siblings.len(),
{
    if siblings.len() == 0 {
        leaf
    } else {
        let acc = if index % 2 == 0 {
            spec_node(leaf, siblings[0])
        } else {
            spec_node(siblings[0], leaf)
        };
        fold_path(acc, index / 2, siblings.drop_first())
    }
}

/// The depth at which a commitment over the given leaf count is built.
pub open spec fn spec_depth(leaves: nat) -> nat
    decreases leaves,
{
    if leaves <= 1 {
        0
    } else {
        1 + spec_depth(((leaves + 1) / 2) as nat)
    }
}

/// The digest of one field element.
pub fn hash_leaf(value: Felt) -> (r: Digest)
    ensures
        r@ == spec_leaf(value),
{
    let mut preimage: Vec<u8> = Vec::new();
    preimage.push(LEAF_DOMAIN);
    push_u64_le(&mut preimage, value.to_u64());
    assert(preimage@ =~= seq![LEAF_DOMAIN] + le_bytes(value.val() as u64));
    sha3_256(preimage.as_slice())
}

/// The digest of a row of field elements.
pub fn hash_row(values: &[Felt]) -> (r: Digest)
    ensures
        r@ == spec_row_leaf(values@),
{
    let mut preimage: Vec<u8> = Vec::new();
    preimage.push(LEAF_DOMAIN);
    let mut i: usize = 0;
    while i < values.len()
        invariant
            i <= values@.len(),
            preimage@ == seq![LEAF_DOMAIN] + row_bytes(values@.take(i as int)),
        decreases values.len() - i,
    {
        push_u64_le(&mut preimage, values[i].to_u64());
        i = i + 1;
        assert(values@.take(i as int).drop_last() =~= values@.take(i - 1));
        assert(preimage@ =~= seq![LEAF_DOMAIN] + row_bytes(values@.take(i as int)));
    }
    assert(values@.take(i as int) =~= values@);
    sha3_256(preimage.as_slice())
}

/// The digest of an internal node.
fn hash_pair(left: &Digest, right: &Digest) -> (r: Digest)
    ensures
        r@ == spec_node(left@, right@),
{
    let mut preimage: Vec<u8> = Vec::new();
    preimage.push(NODE_DOMAIN);
    push_bytes(&mut preimage, left);
    push_bytes(&mut preimage, right);
    assert(preimage@ =~= seq![NODE_DOMAIN] + left@ + right@);
    sha3_256(preimage.as_slice())
}

/// The digests of a layer as byte strings.
pub open spec fn digests(layer: Seq<Digest>) -> Seq<Seq<u8>> {
    layer.map_values(|d: Digest| d@)
}

/// A committed tree, every layer from the leaves up to the root.
pub struct MerkleTree {
    layers: Vec<Vec<Digest>>,
}

/// An authentication path for one leaf.
pub struct MerkleProof {
    pub leaf_index: usize,
    pub siblings: Vec<Digest>,
}

impl MerkleProof {
    /// The siblings as byte strings.
    pub open spec fn path(&self) -> Seq<Seq<u8>> {
        digests(self.siblings@)
    }
}

impl MerkleTree {
    /// The leaves the tree commits to.
    pub closed spec fn leaves(&self) -> Seq<Seq<u8>> {
        digests(self.layers@[0]@)
    }

    /// The tree's layers agree with the layers of its leaves.
    pub closed spec fn wf(&self) -> bool {
        &&& self.layers@.len() == tree_layers(self.leaves()).len()
        &&& forall|k: int| 0 <= k < self.layers@.len() ==> digests(#[trigger] self.layers@[k]@) == tree_layers(self.leaves())[k]
    }

    fn next(current: &Vec<Digest>) -> (next: Vec<Digest>)
        ensures
            digests(next@) == next_layer(digests(current@)),
    {
        let mut next: Vec<Digest> = Vec::new();
        let len = current.len();
        let half = len / 2 + len % 2;
        let mut j: usize = 0;
        let ghost cur = digests(current@);
        while j < half
            invariant
                half == len / 2 + len % 2,
                len == current@.len(),
                j <= half,
                next@.len() == j,
                cur == digests(current@),
                forall|k: int| 0 <= k < next@.len() ==> #[trigger] next@[k]@ == next_layer(cur)[k],
            decreases half - j,
        {
            assert(2 * j < len);
            let i = 2 * j;
            let left = current[i];
            let right = if i + 1 < current.len() { current[i + 1] } else { current[i] };
            let h = hash_pair(&left, &right);
            next.push(h);
            j = j + 1;
        }
        assert(digests(next@) =~= next_layer(cur));
        next
    }

    /// Builds every layer of the tree over the leaf digests.
    pub fn commit(leaves: &[Digest]) -> (tree: MerkleTree)
        ensures
            tree.wf(),
            tree.leaves() == digests(leaves@),
    {
        let first = copy_slice(leaves);
        let ghost lv = digests(leaves@);
        assert(digests(first@) == lv);
        let mut layers: Vec<Vec<Digest>> = Vec::new();
        let mut current = first;
        let ghost mut k: nat = 0;
        proof {
            lemma_layers_suffix(lv, 0);
        }
        while current.len() > 1
            invariant
                layers@.len() == k,
                k < tree_layers(lv).len(),
                digests(current@) == tree_layers(lv)[k as int],
                forall|j: int| 0 <= j < k ==> digests(#[trigger] layers@[j]@) == tree_layers(lv)[j],
                k == 0 ==> lv == digests(current@),
                k > 0 ==> digests(layers@[0]@) == lv,
                tree_layers(digests(current@)) == tree_layers(lv).skip(k as int),
            decreases current.len(),
        {
            let next = Self::next(&current);
            proof {
                let c = digests(current@);
                assert(tree_layers(c) == seq![c] + tree_layers(next_layer(c)));
                assert(tree_layers(lv).skip((k + 1) as int) =~= tree_layers(c).skip(1));
                assert(tree_layers(c).skip(1) =~= tree_layers(next_layer(c)));
            }
            proof {
                let c = digests(current@);
                assert(tree_layers(lv)[(k + 1) as int] == tree_layers(lv).skip(k as int)[1]);
                assert(tree_layers(c)[1] == tree_layers(next_layer(c))[0]);
                lemma_layers_nonempty(next_layer(c));
            }
            layers.push(current);
            current = next;
            proof {
                k = k + 1;
            }
        }
        proof {
            let c = digests(current@);
            assert(tree_layers(c) == seq![c]);
            assert(tree_layers(lv).len() == k + 1);
        }
        layers.push(current);
        let tree = MerkleTree { layers };
        assert(tree.leaves() == lv);
        tree
    }

    /// The root digest, all zeros for an empty tree.
    pub fn root(&self) -> (r: Digest)
        requires
            self.wf(),
        ensures
            r@ == tree_root(self.leaves()),
    {
        proof {
            lemma_layers_nonempty(self.leaves());
        }
        let last = self.layers.len() - 1;
        if self.layers[last].len() == 0 {
            let z = [0u8; 32];
            assert(z@ =~= Seq::new(32, |i: int| 0u8));
            z
        } else {
            self.layers[last][0]
        }
    }

    /// The authentication path of one leaf.
    pub fn open(&self, leaf_index: usize) -> (proof: MerkleProof)
        requires
            self.wf(),
            leaf_index < self.leaves().len(),
        ensures
            proof.leaf_index == leaf_index,
            proof.path() == tree_path(self.leaves(), leaf_index as nat),
    {
        let mut siblings: Vec<Digest> = Vec::new();
        let mut index = leaf_index;
        let mut k: usize = 0;
        let ghost lv = self.leaves();
        proof {
            lemma_layers_nonempty(lv);
            lemma_layers_suffix(lv, 0);
            assert(digests(siblings@) + tree_path(lv, leaf_index as nat) =~= tree_path(lv, leaf_index as nat));
        }
        while k < self.layers.len() && self.layers[k].len() > 1
            invariant
                self.wf(),
                lv == self.leaves(),
                k < self.layers@.len(),
                index < self.layers@[k as int]@.len(),
                tree_path(lv, leaf_index as nat) == digests(siblings@) + tree_path(tree_layers(lv)[k as int], index as nat),
                tree_layers(tree_layers(lv)[k as int]) == tree_layers(lv).skip(k as int),
            decreases self.layers.len() - k,
        {
            let layer = &self.layers[k];
            let ghost cur = tree_layers(lv)[k as int];
            assert(digests(layer@) == cur);
            let sibling = if index % 2 == 0 {
                if index + 1 < layer.len() { layer[index + 1] } else { layer[index] }
            } else {
                layer[index - 1]
            };
            let ghost before = siblings@;
            siblings.push(sibling);
            proof {
                assert(digests(siblings@) =~= digests(before) + seq![sibling@]);
                assert(tree_layers(cur) == seq![cur] + tree_layers(next_layer(cur)));
                assert(tree_layers(lv).skip((k + 1) as int) =~= tree_layers(cur).skip(1));
                assert(tree_layers(cur).skip(1) =~= tree_layers(next_layer(cur)));
                assert(tree_layers(cur).len() >= 2);
                assert(tree_layers(lv)[k + 1] == tree_layers(lv).skip(k as int)[1]);
                assert(tree_layers(lv)[k + 1] == next_layer(cur));
                assert(digests(before) + tree_path(cur, index as nat) =~= digests(siblings@) + tree_path(next_layer(cur), (index / 2) as nat));
            }
            index = index / 2;
            k = k + 1;
        }
        proof {
            let cur = tree_layers(lv)[k as int];
            assert(digests(self.layers@[k as int]@) == cur);
            assert(tree_path(cur, index as nat) == Seq::<Seq<u8>>::empty());
            assert(digests(siblings@) + Seq::<Seq<u8>>::empty() =~= digests(siblings@));
        }
        MerkleProof { leaf_index, siblings }
    }
}

/// The layers of the tree are never empty.
proof fn lemma_layers_nonempty(leaves: Seq<Seq<u8>>)
    ensures
        tree_layers(leaves).len() >= 1,
        tree_layers(leaves)[0] == leaves,
    decreases leaves.len(),
{
}

/// The layers below a level are the layers of that level.
proof fn lemma_layers_suffix(leaves: Seq<Seq<u8>>, k: nat)
    requires
        k == 0,
    ensures
        tree_layers(leaves).skip(k as int) == tree_layers(leaves),
{
    assert(tree_layers(leaves).skip(0) =~= tree_layers(leaves));
}

/// The depth at which a commitment over the given leaf count is built, the
/// number of halvings, rounding up, that bring the count down to one.
pub fn depth_for(leaves: usize) -> (d: usize)
    ensures
        d == spec_depth(leaves as nat),
{
    let mut depth: usize = 0;
    let mut remaining = leaves;
    proof {
        assert(usize::MAX < two_pow(64)) by {
            reveal_with_fuel(two_pow, 65);
        }
        lemma_depth_bound(leaves as nat, 64);
    }
    while remaining > 1
        invariant
            depth + spec_depth(remaining as nat) == spec_depth(leaves as nat),
            spec_depth(leaves as nat) <= 64,
        decreases remaining,
    {
        remaining = remaining / 2 + remaining % 2;
        depth = depth + 1;
    }
    depth
}

/// Checks an authentication path against a root.
pub fn verify(root: &Digest, leaf: &Digest, proof: &MerkleProof) -> (r: bool)
    ensures
        r == (proof.siblings@.len() <= MAX_MERKLE_DEPTH
            && fold_path(leaf@, proof.leaf_index as nat, proof.path()) == root@),
{
    if proof.siblings.len() > MAX_MERKLE_DEPTH {
        return false;
    }
    let mut acc = *leaf;
    let mut index = proof.leaf_index;
    let mut k: usize = 0;
    assert(proof.path().skip(0) =~= proof.path());
    while k < proof.siblings.len()
        invariant
            k <= proof.siblings@.len(),
            fold_path(leaf@, proof.leaf_index as nat, proof.path()) == fold_path(acc@, index as nat, proof.path().skip(k as int)),
        decreases proof.siblings.len() - k,
    {
        let sibling = proof.siblings[k];
        proof {
            assert(proof.path().skip(k as int).drop_first() =~= proof.path().skip(k + 1));
        }
        acc = if index % 2 == 0 { hash_pair(&acc, &sibling) } else { hash_pair(&sibling, &acc) };
        index = index / 2;
        k = k + 1;
    }
    digest_eq(&acc, root)
}

/// Checks an authentication path against a root for a commitment over a known
/// number of leaves: the path must have exactly the depth that count fixes and
/// the index must fall among the leaves.
pub fn verify_with_leaves(root: &Digest, leaf: &Digest, proof: &MerkleProof, leaves: usize) -> (r: bool)
    ensures
        r == (proof.siblings@.len() == spec_depth(leaves as nat)
            && proof.leaf_index < (if leaves > 1 { leaves } else { 1 })
            && proof.siblings@.len() <= MAX_MERKLE_DEPTH
            && fold_path(leaf@, proof.leaf_index as nat, proof.path()) == root@),
{
    let depth = depth_for(leaves);
    let bound = if leaves > 1 { leaves } else { 1 };
    if proof.siblings.len() != depth || proof.leaf_index >= bound {
        return false;
    }
    verify(root, leaf, proof)
}

/// Two to a power.
pub open spec fn two_pow(k: nat) -> nat
    decreases k,
{
    if k == 0 { 1 } else { 2 * two_pow((k - 1) as nat) }
}

/// A count of at most two to the k leaves builds a tree of depth at most k.
pub proof fn lemma_depth_bound(n: nat, k: nat)
    requires
        n <= two_pow(k),
    ensures
        spec_depth(n) <= k,
    decreases k,
{
    if n > 1 {
        assert(k > 0);
        lemma_depth_bound(((n + 1) / 2) as nat, (k - 1) as nat);
    }
}

/// The root of a tree is the first node of its last layer.
proof fn lemma_root_step(leaves: Seq<Seq<u8>>)
    requires
        leaves.len() > 1,
    ensures
        tree_root(leaves) == tree_root(next_layer(leaves)),
{
    assert(tree_layers(leaves).last() == tree_layers(next_layer(leaves)).last());
}

/// Every leaf of a committed tree opens to its root: its path has the depth the
/// leaf count fixes, that depth is within the verifier's bound, and folding the
/// leaf along the path gives the root.
pub proof fn law_inclusion_complete(leaves: Seq<Seq<u8>>, i: nat)
    requires
        i < leaves.len(),
        leaves.len() <= usize::MAX,
    ensures
        fold_path(leaves[i as int], i, tree_path(leaves, i)) == tree_root(leaves),
        tree_path(leaves, i).len() == spec_depth(leaves.len()),
        spec_depth(leaves.len()) <= MAX_MERKLE_DEPTH,
    decreases leaves.len(),
{
    assert(usize::MAX < two_pow(64)) by {
        reveal_with_fuel(two_pow, 65);
    }
    lemma_depth_bound(leaves.len(), 64);
    if leaves.len() <= 1 {
        assert(tree_layers(leaves) == seq![leaves]);
    } else {
        let next = next_layer(leaves);
        let path = tree_path(leaves, i);
        let node = if i % 2 == 0 { spec_node(leaves[i as int], path[0]) } else { spec_node(path[0], leaves[i as int]) };
        if i % 2 == 0 {
            assert(2 * (i / 2) == i);
        } else {
            assert(2 * (i / 2) + 1 == i);
        }
        assert(node == next[(i / 2) as int]);
        assert(path.drop_first() =~= tree_path(next, i / 2));
        law_inclusion_complete(next, i / 2);
        lemma_root_step(leaves);
    }
}

proof fn lemma_row_bytes(values: Seq<Felt>)
    ensures
        row_bytes(values).len() == 8 * values.len(),
        forall|k: int, t: int| 0 <= k < values.len() && 0 <= t < 8
            ==> #[trigger] row_bytes(values)[8 * k + t] == le_bytes(values[k].val() as u64)[t],
    decreases values.len(),
{
    if values.len() > 0 {
        let init = values.drop_last();
        lemma_row_bytes(init);
        assert forall|k: int, t: int| 0 <= k < values.len() && 0 <= t < 8
            implies #[trigger] row_bytes(values)[8 * k + t] == le_bytes(values[k].val() as u64)[t] by {
            if k < init.len() {
                assert(row_bytes(init)[8 * k + t] == le_bytes(init[k].val() as u64)[t]);
            } else {
                assert(8 * k + t == 8 * init.len() + t);
            }
        }
    }
}

/// The leaf digest of a row is the hash of its preimage: the leaf domain
/// byte, then every value of the row, in order, as eight little endian
/// bytes each.
pub proof fn law_row_leaf_preimage(values: Seq<Felt>, pre: Seq<u8>)
    requires
        pre.len() == 1 + 8 * values.len(),
        pre[0] == 0u8,
        forall|k: int| 0 <= k < values.len()
            ==> #[trigger] pre.subrange(1 + 8 * k, 9 + 8 * k) == le_bytes(values[k].val() as u64),
    ensures
        spec_row_leaf(values) == spec_sha3_256(pre),
{
    lemma_row_bytes(values);
    let q = seq![LEAF_DOMAIN] + row_bytes(values);
    assert forall|j: int| 0 <= j < pre.len() implies #[trigger] pre[j] == q[j] by {
        if j > 0 {
            let k = (j - 1) / 8;
            let t = (j - 1) % 8;
            assert(j == 1 + 8 * k + t);
            assert(pre.subrange(1 + 8 * k, 9 + 8 * k) == le_bytes(values[k].val() as u64));
            assert(pre.subrange(1 + 8 * k, 9 + 8 * k)[t] == pre[j]);
            assert(row_bytes(values)[8 * k + t] == le_bytes(values[k].val() as u64)[t]);
        }
    }
    assert(pre =~= q);
}

/// The leaf digest of one value is the hash of the leaf domain byte then
/// the value's eight little endian bytes.
pub proof fn law_leaf_preimage(value: Felt, pre: Seq<u8>)
    requires
        pre.len() == 9,
        pre[0] == 0u8,
        pre.subrange(1, 9) == le_bytes(value.val() as u64),
    ensures
        spec_leaf(value) == spec_sha3_256(pre),
{
    assert forall|j: int| 1 <= j < 9 implies #[trigger] pre[j] == pre.subrange(1, 9)[j - 1] by {}
    assert(pre =~= seq![LEAF_DOMAIN] + le_bytes(value.val() as u64));
}

/// The digest of an internal node is the hash of the node domain byte, then
/// the left child's bytes, then the right child's.
pub proof fn law_node_preimage(left: Seq<u8>, right: Seq<u8>, pre: Seq<u8>)
    requires
        pre.len() == 1 + left.len() + right.len(),
        pre[0] == 1u8,
        pre.subrange(1, 1 + left.len() as int) == left,
        pre.subrange(1 + left.len() as int, pre.len() as int) == right,
    ensures
        spec_node(left, right) == spec_sha3_256(pre),
{
    let q = seq![NODE_DOMAIN] + left + right;
    assert forall|j: int| 0 <= j < pre.len() implies #[trigger] pre[j] == q[j] by {
        if 1 <= j < 1 + left.len() {
            assert(pre.subrange(1, 1 + left.len() as int)[j - 1] == pre[j]);
        } else if j >= 1 + left.len() {
            assert(pre.subrange(1 + left.len() as int, pre.len() as int)[j - 1 - left.len()] == pre[j]);
        }
    }
    assert(pre =~= q);
}

/// A path step with an even index makes the current digest the left child,
/// with an odd index the right child; an empty path leaves the leaf.
pub proof fn law_fold_path_step(leaf: Seq<u8>, index: nat, siblings: Seq<Seq<u8>>)
    ensures
        siblings.len() == 0 ==> fold_path(leaf, index, siblings) == leaf,
        siblings.len() > 0 && index % 2 == 0 ==> fold_path(leaf, index, siblings)
            == fold_path(spec_sha3_256(seq![1u8] + leaf + siblings[0]), index / 2, siblings.subrange(1, siblings.len() as int)),
        siblings.len() > 0 && index % 2 == 1 ==> fold_path(leaf, index, siblings)
            == fold_path(spec_sha3_256(seq![1u8] + siblings[0] + leaf), index / 2, siblings.subrange(1, siblings.len() as int)),
{
    if siblings.len() > 0 {
        assert(siblings.drop_first() =~= siblings.subrange(1, siblings.len() as int));
    }
}

/// The root of no leaves is thirty two zero bytes and of one leaf the leaf
/// itself; over two or more leaves the root is the root over the layer above
/// them, whose node k hashes the node domain byte, leaf 2k and leaf 2k + 1,
/// or leaf 2k again when it is the last.
pub proof fn law_tree_root(leaves: Seq<Seq<u8>>, above: Seq<Seq<u8>>)
    requires
        above.len() == (leaves.len() + 1) / 2,
        forall|k: int| 0 <= k < above.len() ==> #[trigger] above[k] == spec_sha3_256(seq![1u8] + leaves[2 * k]
            + (if 2 * k + 1 < leaves.len() { leaves[2 * k + 1] } else { leaves[2 * k] })),
    ensures
        leaves.len() == 0 ==> tree_root(leaves) == Seq::new(32, |i: int| 0u8),
        leaves.len() == 1 ==> tree_root(leaves) == leaves[0],
        leaves.len() >= 2 ==> tree_root(leaves) == tree_root(above),
{
    if leaves.len() >= 2 {
        assert(above =~= next_layer(leaves));
        let rest = tree_layers(next_layer(leaves));
        assert(rest.len() >= 1) by {
            if next_layer(leaves).len() <= 1 {
            } else {
            }
        }
        assert((seq![leaves] + rest).last() == rest.last());
    }
}

} // verus!
