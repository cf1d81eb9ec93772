//! The tree store and the layer builder.
//!
//! A built tree is a sequence of layers of digests.  Layer 0 holds one leaf
//! digest per record, in input order; each following layer pairs the
//! digests of the one below (duplicating the last digest of an odd-length
//! layer so it pairs with itself) and holds their parent digests; the top
//! layer holds the single root digest.  A tree is built once and read-only
//! afterwards.

use vstd::prelude::*;

use crate::digest::combine;
use crate::digest::combine_spec;
use crate::digest::hash_leaf;
use crate::digest::hash_leaf_spec;
use crate::MerkleError;
use crate::transaction::Transactions;

verus! {

/// An odd-length layer extended by a duplicate of its last digest, so that
/// every digest has a partner; an even-length layer is left as it is.
pub open spec fn pad_layer(l: Seq<Seq<u8>>) -> Seq<Seq<u8>> {
    if l.len() % 2 == 1 {
        l.push(l.last())
    } else {
        l
    }
}

/// The layer above `l`: the parent digest of each consecutive pair of the
/// padded layer, left child first.
pub open spec fn next_layer(l: Seq<Seq<u8>>) -> Seq<Seq<u8>> {
    Seq::new(pad_layer(l).len() / 2, |i: int| combine_spec(pad_layer(l)[2 * i], pad_layer(l)[2 * i + 1]))
}

/// What it means for a sequence of layers to be a well-built tree: at
/// least one layer, a single digest on top, and every layer below the top
/// is at least a pair and produces exactly the layer above it.
pub open spec fn tree_shape_ok(layers: Seq<Seq<Seq<u8>>>) -> bool {
    &&& layers.len() >= 1
    &&& layers.last().len() == 1
    &&& forall|j: int| 0 <= j < layers.len() - 1 ==> (#[trigger] layers[j]).len() >= 2
    &&& forall|j: int| 0 <= j < layers.len() - 1 ==> layers[j + 1] == #[trigger] next_layer(layers[j])
}

/// The root digest of a well-built tree: the sole digest of the top layer.
pub open spec fn root_of(layers: Seq<Seq<Seq<u8>>>) -> Seq<u8> {
    layers.last()[0]
}

/// The number of layers a tree built over `n` leaves has: 1 for a single
/// leaf, and one more than the tree over the `(n + 1) / 2` parents
/// otherwise.
pub open spec fn spec_height(n: nat) -> nat
    decreases n,
{
    if n <= 1 {
        1
    } else {
        (1 + spec_height(((n + 1) / 2) as nat)) as nat
    }
}

/// A layer of `n` digests produces `ceil(n / 2)` parents, so layers
/// shrink strictly until a single digest remains.
pub proof fn lemma_next_layer_len(l: Seq<Seq<u8>>)
    requires
        l.len() >= 1,
    ensures
        next_layer(l).len() == (l.len() + 1) / 2,
        next_layer(l).len() < l.len() || l.len() == 1,
        next_layer(l).len() >= 1,
{
}

/// Dropping the leaf layer of a well-built tree of two or more layers
/// leaves a well-built tree whose leaf layer is the old second layer.
pub proof fn lemma_shape_tail(layers: Seq<Seq<Seq<u8>>>)
    requires
        tree_shape_ok(layers),
        layers.len() > 1,
    ensures
        tree_shape_ok(layers.drop_first()),
        layers.drop_first()[0] == next_layer(layers[0]),
        layers[0].len() >= 2,
        layers.drop_first()[0].len() == (layers[0].len() + 1) / 2,
{
    let t = layers.drop_first();
    assert(t.last() == layers.last());
    assert forall|j: int| 0 <= j < t.len() - 1 implies (#[trigger] t[j]).len() >= 2 by {
        assert(t[j] == layers[j + 1]);
    }
    assert forall|j: int| 0 <= j < t.len() - 1 implies t[j + 1] == #[trigger] next_layer(t[j]) by {
        assert(t[j] == layers[j + 1]);
        assert(t[j + 1] == layers[j + 2]);
        assert(layers[(j + 1) + 1] == next_layer(layers[j + 1]));
    }
    assert(layers[0int + 1] == next_layer(layers[0]));
    lemma_next_layer_len(layers[0]);
}

/// A well-built tree over `n` leaves has exactly `spec_height(n)` layers.
pub proof fn lemma_chain_height(layers: Seq<Seq<Seq<u8>>>)
    requires
        tree_shape_ok(layers),
    ensures
        layers.len() == spec_height(layers[0].len()),
    decreases layers.len(),
{
    if layers.len() == 1 {
        assert(layers.last() == layers[0]);
    } else {
        lemma_shape_tail(layers);
        lemma_chain_height(layers.drop_first());
    }
}

/// Building is deterministic: two well-built trees over the same leaf
/// layer are the same tree, so in particular their root digests agree.
pub proof fn lemma_build_deterministic(a: Seq<Seq<Seq<u8>>>, b: Seq<Seq<Seq<u8>>>)
    requires
        tree_shape_ok(a),
        tree_shape_ok(b),
        a[0] == b[0],
    ensures
        a == b,
        root_of(a) == root_of(b),
    decreases a.len(),
{
    lemma_chain_height(a);
    lemma_chain_height(b);
    if a.len() == 1 {
        assert(a =~= b);
    } else {
        lemma_shape_tail(a);
        lemma_shape_tail(b);
        assert(a[0int + 1] == next_layer(a[0]));
        assert(b[0int + 1] == next_layer(b[0]));
        lemma_build_deterministic(a.drop_first(), b.drop_first());
        assert forall|i: int| 0 <= i < a.len() implies a[i] == b[i] by {
            if i > 0 {
                assert(a.drop_first()[i - 1] == a[i]);
                assert(b.drop_first()[i - 1] == b[i]);
            }
        }
        assert(a =~= b);
    }
}

/// A tree built over a single leaf has exactly one layer, and its root is
/// that leaf digest itself: no combination is performed.
pub proof fn lemma_single_leaf(layers: Seq<Seq<Seq<u8>>>)
    requires
        tree_shape_ok(layers),
        layers[0].len() == 1,
    ensures
        layers.len() == 1,
        root_of(layers) == layers[0][0],
{
    if layers.len() > 1 {
        assert(layers[0].len() >= 2);
    }
    assert(layers.last() == layers[0]);
}

/// The immutable tree store: every layer of digests, leaves first.
pub struct MerkleTree {
    layers: Vec<Vec<Vec<u8>>>,
}

/// One node of a built tree: its digest, and the index its parent holds
/// in the layer above, or `None` for the root.  Nodes carry indices, not
/// references: the tree owns all layers and is traversed by position.
pub struct MerkleNode {
    pub digest: Vec<u8>,
    pub parent: Option<usize>,
}

impl View for MerkleTree {
    type V = Seq<Seq<Seq<u8>>>;

    closed spec fn view(&self) -> Seq<Seq<Seq<u8>>> {
        self.layers.deep_view()
    }
}

impl MerkleTree {
    /// The tree is well-built.  Every constructor establishes this and no
    /// method changes the tree, so it holds of every tree a caller owns.
    pub open spec fn wf(&self) -> bool {
        tree_shape_ok(self@)
    }

    pub open spec fn root_spec(&self) -> Seq<u8> {
        root_of(self@)
    }

    pub open spec fn leaf_count_spec(&self) -> nat {
        self@[0].len()
    }

    /// Build a tree over the given leaf digests, folding layers bottom-up
    /// until a single root digest remains.  An empty input has no defined
    /// root and is rejected.
    pub fn build_tree(leaf_digests: Vec<Vec<u8>>) -> (r: Result<MerkleTree, MerkleError>)
        ensures
            leaf_digests@.len() == 0 <==> r is Err,
            r is Err ==> r == Err::<MerkleTree, MerkleError>(MerkleError::EmptyInputError),
            r is Ok ==> (r->Ok_0).wf() && (r->Ok_0)@[0] == leaf_digests.deep_view(),
    {
        if leaf_digests.len() == 0 {
            return Err(MerkleError::EmptyInputError);
        }
        let ghost leaves = leaf_digests.deep_view();
        let mut layers: Vec<Vec<Vec<u8>>> = Vec::new();
        layers.push(leaf_digests);
        proof {
            assert(layers.deep_view() =~= seq![leaves]);
        }
        while layers[layers.len() - 1].len() > 1
            invariant
                layers@.len() >= 1,
                layers.deep_view().len() == layers@.len(),
                layers.deep_view()[0] == leaves,
                leaves.len() >= 1,
                forall|j: int|
                    0 <= j < layers@.len() - 1 ==> (#[trigger] layers.deep_view()[j]).len() >= 2,
                forall|j: int|
                    0 <= j < layers@.len() - 1 ==> layers.deep_view()[j + 1] == #[trigger] next_layer(
                        layers.deep_view()[j],
                    ),
                layers.deep_view().last().len() >= 1,
            decreases layers.deep_view().last().len(),
        {
            let li = layers.len() - 1;
            let ghost cur = layers.deep_view()[li as int];
            let n = layers[li].len();
            let pairs = n / 2 + n % 2;
            let mut next: Vec<Vec<u8>> = Vec::new();
            let mut k: usize = 0;
            proof {
                lemma_next_layer_len(cur);
            }
            while k < pairs
                invariant
                    layers@.len() == li + 1,
                    li < layers@.len(),
                    cur == layers.deep_view()[li as int],
                    n == cur.len(),
                    n >= 2,
                    pairs == n / 2 + n % 2,
                    pairs == next_layer(cur).len(),
                    k <= pairs,
                    next.deep_view() == next_layer(cur).subrange(0, k as int),
                decreases pairs - k,
            {
                proof {
                    assert(2 * k + 1 <= n);
                }
                let left_idx = 2 * k;
                let right_idx = if 2 * k + 1 < n {
                    2 * k + 1
                } else {
                    2 * k
                };
                let parent = combine(&layers[li][left_idx], &layers[li][right_idx]);
                proof {
                    let p = pad_layer(cur);
                    assert(layers.deep_view()[li as int] == layers@[li as int].deep_view());
                    assert(layers@[li as int].deep_view()[left_idx as int]
                        == layers@[li as int]@[left_idx as int].deep_view());
                    assert(layers@[li as int]@[left_idx as int].deep_view() =~= layers@[li as int]@[left_idx as int]@);
                    assert(layers@[li as int].deep_view()[right_idx as int]
                        == layers@[li as int]@[right_idx as int].deep_view());
                    assert(layers@[li as int]@[right_idx as int].deep_view() =~= layers@[li as int]@[right_idx as int]@);
                    if 2 * k + 1 < n {
                        assert(p[2 * k] == cur[2 * k as int]);
                        assert(p[2 * k + 1] == cur[2 * k + 1]);
                    } else {
                        assert(n % 2 == 1);
                        assert(p[2 * k] == cur[2 * k as int]);
                        assert(p[2 * k + 1] == cur.last());
                        assert(cur.last() == cur[2 * k as int]);
                    }
                    assert(next_layer(cur)[k as int] == combine_spec(p[2 * k], p[2 * k + 1]));
                }
                let ghost next_before = next.deep_view();
                next.push(parent);
                proof {
                    assert(next.deep_view() =~~= next_before.push(parent@));
                    assert(next_layer(cur).subrange(0, k + 1) =~= next_layer(cur).subrange(
                        0,
                        k as int,
                    ).push(next_layer(cur)[k as int]));
                }
                k = k + 1;
            }
            proof {
                assert(next_layer(cur).subrange(0, pairs as int) =~= next_layer(cur));
            }
            let ghost layers_before = layers.deep_view();
            layers.push(next);
            proof {
                assert(layers.deep_view() =~= layers_before.push(next_layer(cur)));
                assert forall|j: int|
                    0 <= j < layers@.len() - 1 implies layers.deep_view()[j + 1]
                    == #[trigger] next_layer(layers.deep_view()[j]) by {
                    if j < layers@.len() - 2 {
                        assert(layers_before[j + 1] == next_layer(layers_before[j]));
                    }
                }
                lemma_next_layer_len(cur);
            }
        }
        proof {
            assert(layers.deep_view().last().len() == 1);
        }
        let tree = MerkleTree { layers };
        proof {
            assert(tree.wf());
            assert(tree@[0] == leaves);
        }
        Ok(tree)
    }

    /// Build a tree over one leaf digest per record: the record sequence
    /// is hashed leaf by leaf and the layers are folded on top.
    pub fn new(leaves: Transactions) -> (r: Result<MerkleTree, MerkleError>)
        ensures
            leaves@.len() == 0 <==> r is Err,
            r is Err ==> r == Err::<MerkleTree, MerkleError>(MerkleError::EmptyInputError),
            r is Ok ==> (r->Ok_0).wf() && (r->Ok_0)@[0] == leaves@.map_values(
                |rec: Seq<u8>| hash_leaf_spec(rec),
            ),
    {
        let records = leaves.records();
        let mut digests: Vec<Vec<u8>> = Vec::new();
        let mut i: usize = 0;
        while i < records.len()
            invariant
                i <= records@.len(),
                records.deep_view() == leaves@,
                digests.deep_view() == leaves@.map_values(|rec: Seq<u8>| hash_leaf_spec(rec)).subrange(
                    0,
                    i as int,
                ),
            decreases records@.len() - i,
        {
            let ghost digests_before = digests.deep_view();
            let d = hash_leaf(records[i].as_slice());
            proof {
                assert(records.deep_view()[i as int] == records@[i as int].deep_view());
                assert(records@[i as int].deep_view() =~= records@[i as int]@);
            }
            digests.push(d);
            proof {
                let m = leaves@.map_values(|rec: Seq<u8>| hash_leaf_spec(rec));
                assert(digests.deep_view() =~~= digests_before.push(d@));
                assert(m.subrange(0, i + 1) =~= m.subrange(0, i as int).push(m[i as int]));
            }
            i = i + 1;
        }
        proof {
            let m = leaves@.map_values(|rec: Seq<u8>| hash_leaf_spec(rec));
            assert(m.subrange(0, m.len() as int) =~= m);
        }
        MerkleTree::build_tree(digests)
    }

    /// The root digest summarizing the whole tree.
    pub fn merkle_root(&self) -> (r: &Vec<u8>)
        requires
            self.wf(),
        ensures
            r@ == self.root_spec(),
    {
        let h = self.layers.len();
        proof {
            assert(self@[h - 1] == self.layers@[h - 1].deep_view());
            assert(self.layers@[h - 1].deep_view()[0] =~= self.layers@[h - 1]@[0]@);
        }
        &self.layers[h - 1][0]
    }

    /// The number of layers, leaves included.
    pub fn height(&self) -> (r: usize)
        requires
            self.wf(),
        ensures
            r == self@.len(),
            r as nat == spec_height(self.leaf_count_spec()),
    {
        proof {
            lemma_chain_height(self@);
        }
        self.layers.len()
    }

    /// The number of leaves, one per record.
    pub fn leaf_count(&self) -> (r: usize)
        requires
            self.wf(),
        ensures
            r as nat == self.leaf_count_spec(),
    {
        proof {
            assert(self@[0] == self.layers@[0].deep_view());
        }
        self.layers[0].len()
    }

    /// The digest of the leaf at `index`, or `IndexOutOfRange` for an
    /// index at or past the leaf count.
    pub fn leaf_digest(&self, index: usize) -> (r: Result<&Vec<u8>, MerkleError>)
        requires
            self.wf(),
        ensures
            index < self.leaf_count_spec() <==> r is Ok,
            r is Err ==> r == Err::<&Vec<u8>, MerkleError>(MerkleError::IndexOutOfRange),
            r is Ok ==> (r->Ok_0)@ == self@[0][index as int],
    {
        proof {
            assert(self@[0] == self.layers@[0].deep_view());
        }
        if index >= self.layers[0].len() {
            return Err(MerkleError::IndexOutOfRange);
        }
        proof {
            assert(self.layers@[0].deep_view()[index as int] =~= self.layers@[0]@[index as int]@);
        }
        Ok(&self.layers[0][index])
    }

    /// The ordered digests of the layer at height `n`, or
    /// `IndexOutOfRange` for `n` at or past the height.
    pub fn layer(&self, n: usize) -> (r: Result<&Vec<Vec<u8>>, MerkleError>)
        requires
            self.wf(),
        ensures
            n < self@.len() <==> r is Ok,
            r is Err ==> r == Err::<&Vec<Vec<u8>>, MerkleError>(MerkleError::IndexOutOfRange),
            r is Ok ==> (r->Ok_0).deep_view() == self@[n as int],
    {
        if n >= self.layers.len() {
            return Err(MerkleError::IndexOutOfRange);
        }
        Ok(&self.layers[n])
    }

    /// Every layer of the tree, leaves first.
    pub fn nodes(&self) -> (r: &Vec<Vec<Vec<u8>>>)
        ensures
            r.deep_view() == self@,
    {
        &self.layers
    }

    /// The node at `(layer, index)`, or `IndexOutOfRange` if either
    /// coordinate falls outside the tree.  A non-root node's parent
    /// stands at index `index / 2` of the layer above; the root has no
    /// parent.
    pub fn node(&self, layer: usize, index: usize) -> (r: Result<MerkleNode, MerkleError>)
        requires
            self.wf(),
        ensures
            (layer < self@.len() && index < self@[layer as int].len()) <==> r is Ok,
            r is Err ==> r == Err::<MerkleNode, MerkleError>(MerkleError::IndexOutOfRange),
            r is Ok ==> ({
                let nd = r->Ok_0;
                &&& nd.digest@ == self@[layer as int][index as int]
                &&& layer as int + 1 < self@.len() ==> nd.parent == Some(index / 2)
                    && index as int / 2 < self@[layer as int + 1].len()
                &&& layer as int + 1 == self@.len() ==> nd.parent is None
            }),
    {
        if layer >= self.layers.len() {
            return Err(MerkleError::IndexOutOfRange);
        }
        proof {
            assert(self@[layer as int] == self.layers@[layer as int].deep_view());
        }
        if index >= self.layers[layer].len() {
            return Err(MerkleError::IndexOutOfRange);
        }
        proof {
            assert(self.layers@[layer as int].deep_view()[index as int] =~= self.layers@[
                layer as int
            ]@[index as int]@);
            if layer as int + 1 < self@.len() {
                assert(self@[layer as int + 1] == next_layer(self@[layer as int]));
                lemma_next_layer_len(self@[layer as int]);
            }
        }
        let parent = if layer + 1 < self.layers.len() {
            Some(index / 2)
        } else {
            None
        };
        Ok(MerkleNode { digest: crate::digest::copy_digest(&self.layers[layer][index]), parent })
    }

    /// The height a tree over `num_leaves` leaves has, computed without
    /// building one.
    pub fn compute_tree_height(num_leaves: usize) -> (r: usize)
        requires
            num_leaves >= 1,
        ensures
            r as nat == spec_height(num_leaves as nat),
    {
        proof {
            lemma_spec_height_le(num_leaves as nat);
        }
        let mut h: usize = 1;
        let mut m: usize = num_leaves;
        while m > 1
            invariant
                m >= 1,
                h >= 1,
                h - 1 + spec_height(m as nat) == spec_height(num_leaves as nat),
                spec_height(num_leaves as nat) <= usize::MAX,
            decreases m,
        {
            proof {
                lemma_spec_height_le(m as nat);
                assert(spec_height(m as nat) == 1 + spec_height(((m + 1) / 2) as nat));
                assert(m / 2 + m % 2 == (m + 1) / 2);
                assert(spec_height(m as nat) >= 2);
            }
            m = m / 2 + m % 2;
            h = h + 1;
        }
        h
    }
}

/// A tree over `n` leaves is never taller than `n` layers.
pub proof fn lemma_spec_height_le(n: nat)
    requires
        n >= 1,
    ensures
        1 <= spec_height(n) <= n,
    decreases n,
{
    if n > 1 {
        lemma_spec_height_le(((n + 1) / 2) as nat);
    }
}

} // verus!
