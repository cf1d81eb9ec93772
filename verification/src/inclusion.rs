//! The proof engine: derive an inclusion proof for a leaf from a built
//! tree, and independently check a proof against a claimed root digest.
//!
//! A proof carries the leaf's digest, one sibling digest per layer from
//! the leaf up to (but not including) the root with a flag saying on which
//! side the sibling stands, and the root digest the proof was issued for.
//! Checking a proof needs nothing but the proof and a claimed root.

use vstd::prelude::*;

use crate::digest::combine;
use crate::digest::combine_spec;
use crate::digest::copy_digest;
use crate::digest::digest_eq;
use crate::MerkleError;
use crate::tree::MerkleTree;
use crate::tree::lemma_next_layer_len;
use crate::tree::lemma_shape_tail;
use crate::tree::next_layer;
use crate::tree::pad_layer;
use crate::tree::root_of;
use crate::tree::tree_shape_ok;

verus! {

/// One step of a proof: a sibling digest, and whether that sibling stands
/// to the left of the digest computed so far.
pub struct ProofEntry {
    pub sibling: Vec<u8>,
    pub sibling_on_left: bool,
}

impl View for ProofEntry {
    type V = (Seq<u8>, bool);

    open spec fn view(&self) -> (Seq<u8>, bool) {
        (self.sibling@, self.sibling_on_left)
    }
}

impl DeepView for ProofEntry {
    type V = (Seq<u8>, bool);

    open spec fn deep_view(&self) -> (Seq<u8>, bool) {
        (self.sibling@, self.sibling_on_left)
    }
}

/// An inclusion proof: an independent value with no reference back to the
/// tree it came from.
pub struct MerkleProof {
    pub leaf_digest: Vec<u8>,
    pub entries: Vec<ProofEntry>,
    pub claimed_root: Vec<u8>,
}

/// The digest that recomputing a proof's path yields: starting from
/// `current`, each entry in order combines the sibling on its stated side
/// with the digest so far.
pub open spec fn fold_chain(current: Seq<u8>, entries: Seq<(Seq<u8>, bool)>) -> Seq<u8>
    decreases entries.len(),
{
    if entries.len() == 0 {
        current
    } else {
        let e = entries[0];
        let next = if e.1 {
            combine_spec(e.0, current)
        } else {
            combine_spec(current, e.0)
        };
        fold_chain(next, entries.drop_first())
    }
}

impl MerkleProof {
    pub open spec fn entries_view(&self) -> Seq<(Seq<u8>, bool)> {
        self.entries.deep_view()
    }

    /// The proof checks out against `claimed_root`: recomputing the path
    /// from the leaf digest ends at `claimed_root`, and equally at the
    /// root the proof itself claims — both checks must agree.
    pub open spec fn accepts(&self, claimed_root: Seq<u8>) -> bool {
        &&& fold_chain(self.leaf_digest@, self.entries_view()) == claimed_root
        &&& fold_chain(self.leaf_digest@, self.entries_view()) == self.claimed_root@
    }
}

/// The entry one layer contributes to the proof of a path standing at
/// `idx`: an odd position's sibling is the digest on its left, an even
/// position's the digest on its right — the position's own digest when it
/// is the duplicated last digest of an odd-length layer.
pub open spec fn entry_at(l: Seq<Seq<u8>>, idx: int) -> (Seq<u8>, bool) {
    if idx % 2 == 1 {
        (l[idx - 1], true)
    } else {
        (pad_layer(l)[idx + 1], false)
    }
}

/// The full entry list of the proof for the leaf at `idx`: one sibling
/// per layer from the leaves up to, but not including, the root.
pub open spec fn spec_proof_entries(layers: Seq<Seq<Seq<u8>>>, idx: int) -> Seq<(Seq<u8>, bool)>
    decreases layers.len(),
{
    if layers.len() <= 1 {
        Seq::empty()
    } else {
        seq![entry_at(layers[0], idx)] + spec_proof_entries(layers.drop_first(), idx / 2)
    }
}

proof fn lemma_entries_skip(s: Seq<Seq<Seq<u8>>>, li: int, idx: int)
    requires
        0 <= li < s.len() - 1,
    ensures
        spec_proof_entries(s.skip(li), idx) == seq![entry_at(s[li], idx)] + spec_proof_entries(
            s.skip(li + 1),
            idx / 2,
        ),
{
    assert(s.skip(li).len() == s.len() - li);
    assert(s.skip(li)[0] == s[li]);
    assert(s.skip(li).drop_first() =~= s.skip(li + 1));
}

/// At one layer, combining a path digest with its recorded sibling on
/// the recorded side yields its parent digest in the layer above.
proof fn lemma_entry_step(l: Seq<Seq<u8>>, idx: int)
    requires
        l.len() >= 2,
        0 <= idx < l.len(),
    ensures
        ({
            let e = entry_at(l, idx);
            let stepped = if e.1 {
                combine_spec(e.0, l[idx])
            } else {
                combine_spec(l[idx], e.0)
            };
            &&& 0 <= idx / 2 < next_layer(l).len()
            &&& stepped == next_layer(l)[idx / 2]
        }),
{
    lemma_next_layer_len(l);
    let p = pad_layer(l);
    let k = idx / 2;
    assert(next_layer(l)[k] == combine_spec(p[2 * k], p[2 * k + 1]));
    if idx % 2 == 0 {
        assert(2 * k == idx);
        assert(p[2 * k] == l[idx]);
        if idx + 1 < l.len() {
            assert(p[2 * k + 1] == l[idx + 1]);
        } else {
            assert(l.len() % 2 == 1);
            assert(p[2 * k + 1] == l.last());
            assert(l.last() == l[idx]);
        }
    } else {
        assert(2 * k == idx - 1);
        assert(p[2 * k] == l[idx - 1]);
        assert(p[2 * k + 1] == l[idx]);
    }
}

/// Every inclusion proof a well-built tree prescribes verifies: for any
/// leaf, recomputing the path from the leaf digest through its recorded
/// siblings ends at the tree's root digest.
pub proof fn lemma_prescribed_proof_verifies(layers: Seq<Seq<Seq<u8>>>, idx: int)
    requires
        tree_shape_ok(layers),
        0 <= idx < layers[0].len(),
    ensures
        fold_chain(layers[0][idx], spec_proof_entries(layers, idx)) == root_of(layers),
    decreases layers.len(),
{
    if layers.len() == 1 {
        assert(layers.last() == layers[0]);
        assert(spec_proof_entries(layers, idx) =~= Seq::<(Seq<u8>, bool)>::empty());
    } else {
        lemma_shape_tail(layers);
        let tail = layers.drop_first();
        let e = entry_at(layers[0], idx);
        lemma_entry_step(layers[0], idx);
        lemma_prescribed_proof_verifies(tail, idx / 2);
        let es = spec_proof_entries(layers, idx);
        assert(es == seq![e] + spec_proof_entries(tail, idx / 2));
        assert(es[0] == e);
        assert(es.drop_first() =~= spec_proof_entries(tail, idx / 2));
        let stepped = if e.1 {
            combine_spec(e.0, layers[0][idx])
        } else {
            combine_spec(layers[0][idx], e.0)
        };
        assert(fold_chain(layers[0][idx], es) == fold_chain(stepped, es.drop_first()));
        assert(stepped == tail[0][idx / 2]);
        assert(root_of(tail) == root_of(layers));
    }
}

/// Recomputing a path with one more entry at the top combines that
/// entry's sibling with the digest the shorter path yields.
pub proof fn lemma_fold_push(c: Seq<u8>, es: Seq<(Seq<u8>, bool)>, e: (Seq<u8>, bool))
    ensures
        fold_chain(c, es.push(e)) == (if e.1 {
            combine_spec(e.0, fold_chain(c, es))
        } else {
            combine_spec(fold_chain(c, es), e.0)
        }),
    decreases es.len(),
{
    if es.len() == 0 {
        assert(es.push(e)[0] == e);
        assert(es.push(e).drop_first() =~= Seq::<(Seq<u8>, bool)>::empty());
        let stepped = if e.1 {
            combine_spec(e.0, c)
        } else {
            combine_spec(c, e.0)
        };
        assert(fold_chain(c, es.push(e)) == fold_chain(stepped, es.push(e).drop_first()));
        assert(fold_chain(stepped, es.push(e).drop_first()) == stepped);
        assert(fold_chain(c, es) == c);
    } else {
        assert(es.push(e)[0] == es[0]);
        assert(es.push(e).drop_first() =~= es.drop_first().push(e));
        let e0 = es[0];
        let next = if e0.1 {
            combine_spec(e0.0, c)
        } else {
            combine_spec(c, e0.0)
        };
        lemma_fold_push(next, es.drop_first(), e);
    }
}

/// Check an inclusion proof against a claimed root digest.  A mismatch is
/// an expected negative outcome, reported as `false`, never an error.
pub fn verify_proof(pf: &MerkleProof, claimed_root: &Vec<u8>) -> (r: bool)
    ensures
        r == pf.accepts(claimed_root@),
{
    let mut current = copy_digest(&pf.leaf_digest);
    let mut k: usize = 0;
    while k < pf.entries.len()
        invariant
            k <= pf.entries@.len(),
            current@ == fold_chain(pf.leaf_digest@, pf.entries_view().subrange(0, k as int)),
        decreases pf.entries@.len() - k,
    {
        let e = &pf.entries[k];
        let next = if e.sibling_on_left {
            combine(&e.sibling, &current)
        } else {
            combine(&current, &e.sibling)
        };
        proof {
            lemma_fold_push(
                pf.leaf_digest@,
                pf.entries_view().subrange(0, k as int),
                pf.entries_view()[k as int],
            );
            assert(pf.entries_view().subrange(0, k + 1) =~= pf.entries_view().subrange(
                0,
                k as int,
            ).push(pf.entries_view()[k as int]));
        }
        current = next;
        k = k + 1;
    }
    proof {
        assert(pf.entries_view().subrange(0, pf.entries@.len() as int) =~= pf.entries_view());
    }
    let at_claimed = digest_eq(&current, claimed_root);
    let at_stated = digest_eq(&current, &pf.claimed_root);
    at_claimed && at_stated
}

impl MerkleTree {
    /// Derive the inclusion proof for the leaf at `leaf_index`: one
    /// sibling per layer, walking from the leaf up to just below the
    /// root, pairing the last digest of an odd-length layer with itself
    /// exactly as construction did.  The proof it returns checks out
    /// against this tree's root.
    pub fn generate_proof(&self, leaf_index: usize) -> (r: Result<MerkleProof, MerkleError>)
        requires
            self.wf(),
        ensures
            leaf_index < self.leaf_count_spec() <==> r is Ok,
            r is Err ==> r == Err::<MerkleProof, MerkleError>(MerkleError::IndexOutOfRange),
            r is Ok ==> ({
                let p = r->Ok_0;
                &&& p.leaf_digest@ == self@[0][leaf_index as int]
                &&& p.claimed_root@ == self.root_spec()
                &&& p.entries_view() == spec_proof_entries(self@, leaf_index as int)
                &&& p.entries_view().len() == self@.len() - 1
                &&& p.accepts(self.root_spec())
            }),
    {
        let layers = self.nodes();
        proof {
            assert(layers.deep_view()[0] == layers@[0].deep_view());
        }
        if leaf_index >= layers[0].len() {
            return Err(MerkleError::IndexOutOfRange);
        }
        let height = layers.len();
        let ghost leaf = self@[0][leaf_index as int];
        let mut entries: Vec<ProofEntry> = Vec::new();
        let mut idx: usize = leaf_index;
        let mut li: usize = 0;
        proof {
            assert(self@[0][leaf_index as int] == layers@[0].deep_view()[leaf_index as int]);
            assert(layers@[0].deep_view()[leaf_index as int] =~= layers@[0]@[leaf_index as int]@);
            assert(self@.skip(0) =~= self@);
            assert(entries.deep_view() =~= Seq::<(Seq<u8>, bool)>::empty());
            assert(Seq::<(Seq<u8>, bool)>::empty() + spec_proof_entries(self@, leaf_index as int)
                =~= spec_proof_entries(self@, leaf_index as int));
        }
        while li + 1 < height
            invariant
                self.wf(),
                layers.deep_view() == self@,
                height == self@.len(),
                li < height,
                idx < self@[li as int].len(),
                leaf == self@[0][leaf_index as int],
                leaf_index < self@[0].len(),
                entries.deep_view().len() == li,
                fold_chain(leaf, entries.deep_view()) == self@[li as int][idx as int],
                spec_proof_entries(self@, leaf_index as int) == entries.deep_view()
                    + spec_proof_entries(self@.skip(li as int), idx as int),
            decreases height - li,
        {
            let ghost cur = self@[li as int];
            let cur_layer = &layers[li];
            let n = cur_layer.len();
            proof {
                assert(self@[li as int] == layers@[li as int].deep_view());
                assert(n == cur.len());
                assert(cur.len() >= 2);
            }
            let sib_idx = if idx % 2 == 0 {
                if idx + 1 < n {
                    idx + 1
                } else {
                    idx
                }
            } else {
                idx - 1
            };
            let on_left = idx % 2 == 1;
            let sib = copy_digest(&cur_layer[sib_idx]);
            proof {
                assert(layers@[li as int].deep_view()[sib_idx as int] =~= layers@[li as int]@[
                    sib_idx as int
                ]@);
                assert(sib@ == cur[sib_idx as int]);
            }
            let ghost entries_before = entries.deep_view();
            entries.push(ProofEntry { sibling: sib, sibling_on_left: on_left });
            proof {
                let e = (sib@, on_left);
                assert(entries.deep_view() =~~= entries_before.push(e));
                lemma_fold_push(leaf, entries_before, e);
                lemma_next_layer_len(cur);
                let p = pad_layer(cur);
                let k = idx as int / 2;
                assert(self@[li + 1] == next_layer(cur));
                assert(0 <= k < next_layer(cur).len());
                assert(next_layer(cur)[k] == combine_spec(p[2 * k], p[2 * k + 1]));
                if idx % 2 == 0 {
                    assert(2 * k == idx as int);
                    assert(p[2 * k] == cur[idx as int]);
                    if idx + 1 < n {
                        assert(p[2 * k + 1] == cur[idx + 1]);
                    } else {
                        assert(cur.len() % 2 == 1);
                        assert(p[2 * k + 1] == cur.last());
                        assert(cur.last() == cur[idx as int]);
                    }
                } else {
                    assert(2 * k == idx - 1);
                    assert(p[2 * k] == cur[idx - 1]);
                    assert(p[2 * k + 1] == cur[idx as int]);
                }
                assert(fold_chain(leaf, entries.deep_view()) == next_layer(cur)[k]);
                assert(e == entry_at(cur, idx as int));
                lemma_entries_skip(self@, li as int, idx as int);
                assert(entries.deep_view() =~= entries_before + seq![e]);
                assert(entries_before + (seq![e] + spec_proof_entries(
                    self@.skip(li + 1),
                    idx as int / 2,
                )) =~= (entries_before + seq![e]) + spec_proof_entries(
                    self@.skip(li + 1),
                    idx as int / 2,
                ));
            }
            idx = idx / 2;
            li = li + 1;
        }
        proof {
            assert(li == height - 1);
            assert(self@.last() == self@[li as int]);
            assert(self@.last().len() == 1);
            assert(idx == 0);
            assert(fold_chain(leaf, entries.deep_view()) == self.root_spec());
            assert(self@.skip(li as int).len() == 1);
            assert(spec_proof_entries(self@.skip(li as int), idx as int)
                =~= Seq::<(Seq<u8>, bool)>::empty());
            assert(entries.deep_view() + Seq::<(Seq<u8>, bool)>::empty() =~= entries.deep_view());
        }
        let root = self.merkle_root();
        let pf = MerkleProof {
            leaf_digest: copy_digest(&layers[0][leaf_index]),
            entries,
            claimed_root: copy_digest(root),
        };
        proof {
            assert(pf.leaf_digest@ == leaf);
        }
        Ok(pf)
    }
}

} // verus!
