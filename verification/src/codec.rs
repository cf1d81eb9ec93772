//! The wire form of an inclusion proof, so a proof can travel to a
//! verifier with no shared memory.
//!
//! Field order on the wire: leaf digest, ordered entry list, claimed
//! root.  Every byte string and the entry list stand behind an 8-byte
//! little-endian length; each entry is its side flag, then its sibling
//! digest behind its own length.  Decoding accepts exactly the strings
//! encoding produces, and recovers exactly what was encoded.

use vstd::prelude::*;

use vstd::arithmetic::div_mod::lemma_mod_breakdown;
use vstd::arithmetic::div_mod::lemma_small_mod;

use crate::inclusion::MerkleProof;
use crate::inclusion::ProofEntry;
use crate::transaction::le_bytes;
use crate::transaction::push_bytes;
use crate::transaction::push_le8;

verus! {

/// The wire form of one entry: side flag, sibling length, sibling.
pub open spec fn encode_entry(e: (Seq<u8>, bool)) -> Seq<u8> {
    seq![
        if e.1 {
            1u8
        } else {
            0u8
        },
    ] + le_bytes(e.0.len(), 8) + e.0
}

/// The wire form of an entry list: each entry in order.
pub open spec fn encode_entries(es: Seq<(Seq<u8>, bool)>) -> Seq<u8>
    decreases es.len(),
{
    if es.len() == 0 {
        Seq::empty()
    } else {
        encode_entry(es[0]) + encode_entries(es.drop_first())
    }
}

/// The wire form of a whole proof: leaf digest, entry count and entries,
/// claimed root, each byte string length-prefixed.
pub open spec fn encode_proof(leaf: Seq<u8>, es: Seq<(Seq<u8>, bool)>, root: Seq<u8>) -> Seq<u8> {
    le_bytes(leaf.len(), 8) + leaf + le_bytes(es.len(), 8) + encode_entries(es) + le_bytes(
        root.len(),
        8,
    ) + root
}

/// The proof's parts are small enough for this machine to hold; every
/// proof an executing program owns satisfies this.
pub open spec fn wire_sized(leaf: Seq<u8>, es: Seq<(Seq<u8>, bool)>, root: Seq<u8>) -> bool {
    &&& leaf.len() <= usize::MAX
    &&& root.len() <= usize::MAX
    &&& es.len() <= usize::MAX
    &&& forall|i: int| 0 <= i < es.len() ==> (#[trigger] es[i]).0.len() <= usize::MAX
}

/// `bytes` is the wire form of the proof with these three parts.
pub open spec fn is_encoding(
    bytes: Seq<u8>,
    leaf: Seq<u8>,
    es: Seq<(Seq<u8>, bool)>,
    root: Seq<u8>,
) -> bool {
    wire_sized(leaf, es, root) && bytes == encode_proof(leaf, es, root)
}

/// The value a little-endian byte string denotes.
pub open spec fn le_val(s: Seq<u8>) -> nat
    decreases s.len(),
{
    if s.len() == 0 {
        0
    } else {
        (s[0] + 256 * le_val(s.drop_first())) as nat
    }
}

spec fn pow256(w: nat) -> nat
    decreases w,
{
    if w == 0 {
        1
    } else {
        256 * pow256((w - 1) as nat)
    }
}

proof fn lemma_pow256_pos(w: nat)
    ensures
        pow256(w) >= 1,
    decreases w,
{
    if w > 0 {
        lemma_pow256_pos((w - 1) as nat);
        let p = pow256((w - 1) as nat);
        assert(256 * p >= 1) by (nonlinear_arith)
            requires
                p >= 1,
        ;
    }
}

proof fn lemma_le_val_bound(s: Seq<u8>)
    ensures
        le_val(s) < pow256(s.len()),
    decreases s.len(),
{
    if s.len() > 0 {
        lemma_le_val_bound(s.drop_first());
        let r = le_val(s.drop_first());
        let p = pow256((s.len() - 1) as nat);
        assert(256 * r <= 256 * (p - 1)) by (nonlinear_arith)
            requires
                r <= p - 1,
        ;
    }
}

proof fn lemma_le_bytes_val(n: nat, w: nat)
    ensures
        le_bytes(n, w).len() == w,
        le_val(le_bytes(n, w)) == n % pow256(w),
    decreases w,
{
    if w == 0 {
        assert(n % 1 == 0) by (nonlinear_arith);
    } else {
        lemma_le_bytes_val(n / 256, (w - 1) as nat);
        lemma_pow256_pos((w - 1) as nat);
        let s = le_bytes(n, w);
        assert(s.drop_first() =~= le_bytes(n / 256, (w - 1) as nat));
        lemma_mod_breakdown(n as int, 256, pow256((w - 1) as nat) as int);
        assert(pow256(w) == 256 * pow256((w - 1) as nat));
    }
}

proof fn lemma_le_val_bytes(s: Seq<u8>)
    ensures
        le_bytes(le_val(s), s.len()) == s,
    decreases s.len(),
{
    if s.len() == 0 {
        assert(le_bytes(0, 0) =~= s);
    } else {
        let v = le_val(s);
        let r = le_val(s.drop_first());
        assert(v == s[0] + 256 * r);
        assert(v % 256 == s[0] && v / 256 == r) by (nonlinear_arith)
            requires
                v == s[0] + 256 * r,
                0 <= s[0] < 256,
                0 <= r,
        ;
        lemma_le_val_bytes(s.drop_first());
        assert(le_bytes(v, s.len()) =~= s);
    }
}

proof fn lemma_pow256_8()
    ensures
        pow256(8) == 0x10000000000000000,
{
    reveal_with_fuel(pow256, 9);
}

/// An 8-byte length field holds any machine-sized length exactly.
proof fn lemma_le8_exact(n: nat)
    requires
        n <= usize::MAX,
    ensures
        le_bytes(n, 8).len() == 8,
        le_val(le_bytes(n, 8)) == n,
{
    lemma_le_bytes_val(n, 8);
    lemma_pow256_8();
    lemma_small_mod(n, pow256(8));
}

proof fn lemma_encode_entries_push(es: Seq<(Seq<u8>, bool)>, e: (Seq<u8>, bool))
    ensures
        encode_entries(es.push(e)) == encode_entries(es) + encode_entry(e),
    decreases es.len(),
{
    if es.len() == 0 {
        assert(es.push(e)[0] == e);
        assert(es.push(e).drop_first() =~= Seq::<(Seq<u8>, bool)>::empty());
        assert(encode_entries(es.push(e).drop_first()) =~= Seq::<u8>::empty());
        assert(encode_entry(e) + Seq::<u8>::empty() =~= encode_entry(e));
        assert(Seq::<u8>::empty() + encode_entry(e) =~= encode_entry(e));
    } else {
        assert(es.push(e)[0] == es[0]);
        assert(es.push(e).drop_first() =~= es.drop_first().push(e));
        lemma_encode_entries_push(es.drop_first(), e);
        assert(encode_entry(es[0]) + (encode_entries(es.drop_first()) + encode_entry(e)) =~= (
        encode_entry(es[0]) + encode_entries(es.drop_first())) + encode_entry(e));
    }
}

proof fn lemma_encode_entries_concat(a: Seq<(Seq<u8>, bool)>, b: Seq<(Seq<u8>, bool)>)
    ensures
        encode_entries(a + b) == encode_entries(a) + encode_entries(b),
    decreases a.len(),
{
    if a.len() == 0 {
        assert(a + b =~= b);
        assert(Seq::<u8>::empty() + encode_entries(b) =~= encode_entries(b));
    } else {
        assert((a + b)[0] == a[0]);
        assert((a + b).drop_first() =~= a.drop_first() + b);
        lemma_encode_entries_concat(a.drop_first(), b);
        assert(encode_entry(a[0]) + (encode_entries(a.drop_first()) + encode_entries(b)) =~= (
        encode_entry(a[0]) + encode_entries(a.drop_first())) + encode_entries(b));
    }
}

/// The wire form of an entry list splits at any entry.
proof fn lemma_encode_entries_peel(es: Seq<(Seq<u8>, bool)>, k: int)
    requires
        0 <= k < es.len(),
    ensures
        encode_entries(es) == encode_entries(es.take(k)) + encode_entry(es[k]) + encode_entries(
            es.skip(k + 1),
        ),
{
    let single = seq![es[k]];
    assert(es =~= es.take(k) + (single + es.skip(k + 1)));
    lemma_encode_entries_concat(es.take(k), single + es.skip(k + 1));
    lemma_encode_entries_concat(single, es.skip(k + 1));
    assert(single.drop_first() =~= Seq::<(Seq<u8>, bool)>::empty());
    assert(encode_entries(single.drop_first()) =~= Seq::<u8>::empty());
    assert(encode_entry(es[k]) + Seq::<u8>::empty() =~= encode_entry(es[k]));
    assert(encode_entries(es.take(k)) + (encode_entry(es[k]) + encode_entries(es.skip(k + 1))) =~= (
    encode_entries(es.take(k)) + encode_entry(es[k])) + encode_entries(es.skip(k + 1)));
}

/// Where each field of a well-formed wire string stands.
proof fn lemma_layout(bytes: Seq<u8>, l: Seq<u8>, es: Seq<(Seq<u8>, bool)>, rt: Seq<u8>)
    requires
        is_encoding(bytes, l, es, rt),
    ensures
        bytes.len() == 24 + l.len() + encode_entries(es).len() + rt.len(),
        bytes.subrange(0, 8) == le_bytes(l.len(), 8),
        le_val(bytes.subrange(0, 8)) == l.len(),
        bytes.subrange(8, 8 + l.len() as int) == l,
        bytes.subrange(8 + l.len() as int, 16 + l.len() as int) == le_bytes(es.len(), 8),
        le_val(bytes.subrange(8 + l.len() as int, 16 + l.len() as int)) == es.len(),
        bytes.subrange(16 + l.len() as int, 16 + l.len() + encode_entries(es).len() as int)
            == encode_entries(es),
        bytes.subrange(
            16 + l.len() + encode_entries(es).len() as int,
            24 + l.len() + encode_entries(es).len() as int,
        ) == le_bytes(rt.len(), 8),
        le_val(
            bytes.subrange(
                16 + l.len() + encode_entries(es).len() as int,
                24 + l.len() + encode_entries(es).len() as int,
            ),
        ) == rt.len(),
        bytes.subrange(24 + l.len() + encode_entries(es).len() as int, bytes.len() as int) == rt,
{
    lemma_le8_exact(l.len());
    lemma_le8_exact(es.len());
    lemma_le8_exact(rt.len());
    let el = encode_entries(es).len() as int;
    let ll = l.len() as int;
    assert(bytes.subrange(0, 8) =~= le_bytes(l.len(), 8));
    assert(bytes.subrange(8, 8 + ll) =~= l);
    assert(bytes.subrange(8 + ll, 16 + ll) =~= le_bytes(es.len(), 8));
    assert(bytes.subrange(16 + ll, 16 + ll + el) =~= encode_entries(es));
    assert(bytes.subrange(16 + ll + el, 24 + ll + el) =~= le_bytes(rt.len(), 8));
    assert(bytes.subrange(24 + ll + el, bytes.len() as int) =~= rt);
}

/// Where one entry of a well-formed wire string stands: at the offset
/// the entries before it leave off, with its side flag, its sibling's
/// length and its sibling in order.
proof fn lemma_entry_layout(
    bytes: Seq<u8>,
    l: Seq<u8>,
    es: Seq<(Seq<u8>, bool)>,
    rt: Seq<u8>,
    k: int,
)
    requires
        is_encoding(bytes, l, es, rt),
        0 <= k < es.len(),
    ensures
        ({
            let off = 16 + l.len() + encode_entries(es.take(k)).len() as int;
            &&& encode_entries(es).len() >= encode_entries(es.take(k)).len() + 9 + es[k].0.len()
            &&& off + 9 + es[k].0.len() <= bytes.len()
            &&& bytes[off] == (if es[k].1 {
                1u8
            } else {
                0u8
            })
            &&& bytes.subrange(off + 1, off + 9) == le_bytes(es[k].0.len(), 8)
            &&& le_val(bytes.subrange(off + 1, off + 9)) == es[k].0.len()
            &&& bytes.subrange(off + 9, off + 9 + es[k].0.len() as int) == es[k].0
            &&& encode_entries(es.take(k + 1)) == encode_entries(es.take(k)) + encode_entry(es[k])
            &&& encode_entries(es.take(k + 1)).len() == encode_entries(es.take(k)).len() + 9
                + es[k].0.len()
        }),
{
    lemma_layout(bytes, l, es, rt);
    lemma_encode_entries_peel(es, k);
    assert(es[k].0.len() <= usize::MAX);
    lemma_le8_exact(es[k].0.len());
    let ll = l.len() as int;
    let tl = encode_entries(es.take(k)).len() as int;
    let off = 16 + ll + tl;
    let e = encode_entry(es[k]);
    assert(e.len() == 9 + es[k].0.len());
    assert(bytes.subrange(off, off + e.len() as int) =~= e);
    assert(bytes[off] == e[0]);
    assert(bytes.subrange(off + 1, off + 9) =~= le_bytes(es[k].0.len(), 8));
    assert(bytes.subrange(off + 9, off + 9 + es[k].0.len() as int) =~= es[k].0);
    assert(es.take(k + 1) =~= es.take(k).push(es[k]));
    lemma_encode_entries_push(es.take(k), es[k]);
}

/// Read the value of the 8 little-endian bytes at `off`.
fn read_le8(bytes: &[u8], off: usize) -> (r: u64)
    requires
        off + 8 <= bytes@.len(),
    ensures
        r as nat == le_val(bytes@.subrange(off as int, off as int + 8)),
{
    let b0 = bytes[off] as u64;
    let b1 = bytes[off + 1] as u64;
    let b2 = bytes[off + 2] as u64;
    let b3 = bytes[off + 3] as u64;
    let b4 = bytes[off + 4] as u64;
    let b5 = bytes[off + 5] as u64;
    let b6 = bytes[off + 6] as u64;
    let b7 = bytes[off + 7] as u64;
    let v = b0 + b1 * 0x100 + b2 * 0x10000 + b3 * 0x1000000 + b4 * 0x100000000 + b5 * 0x10000000000
        + b6 * 0x1000000000000 + b7 * 0x100000000000000;
    proof {
        let s0 = bytes@.subrange(off as int, off as int + 8);
        let s1 = s0.drop_first();
        let s2 = s1.drop_first();
        let s3 = s2.drop_first();
        let s4 = s3.drop_first();
        let s5 = s4.drop_first();
        let s6 = s5.drop_first();
        let s7 = s6.drop_first();
        let s8 = s7.drop_first();
        assert(s8.len() == 0);
        assert(le_val(s8) == 0);
        assert(le_val(s7) == s7[0] + 256 * le_val(s8));
        assert(le_val(s6) == s6[0] + 256 * le_val(s7));
        assert(le_val(s5) == s5[0] + 256 * le_val(s6));
        assert(le_val(s4) == s4[0] + 256 * le_val(s5));
        assert(le_val(s3) == s3[0] + 256 * le_val(s4));
        assert(le_val(s2) == s2[0] + 256 * le_val(s3));
        assert(le_val(s1) == s1[0] + 256 * le_val(s2));
        assert(le_val(s0) == s0[0] + 256 * le_val(s1));
        assert(s0[0] == b0 && s1[0] == b1 && s2[0] == b2 && s3[0] == b3 && s4[0] == b4 && s5[0]
            == b5 && s6[0] == b6 && s7[0] == b7);
        assert(v as nat == le_val(s0));
    }
    v
}

/// Copy the `len` bytes at `off` out of `bytes`.
fn read_vec(bytes: &[u8], off: usize, len: usize) -> (r: Vec<u8>)
    requires
        off + len <= bytes@.len(),
    ensures
        r@ == bytes@.subrange(off as int, off as int + len as int),
{
    let total: usize = bytes.len();
    let mut out: Vec<u8> = Vec::new();
    let mut j: usize = 0;
    while j < len
        invariant
            off + len <= total,
            total == bytes@.len(),
            j <= len,
            out@ == bytes@.subrange(off as int, off as int + j as int),
        decreases len - j,
    {
        out.push(bytes[off + j]);
        proof {
            assert(bytes@.subrange(off as int, off + j + 1) =~= bytes@.subrange(
                off as int,
                off + j as int,
            ).push(bytes@[off + j]));
        }
        j = j + 1;
    }
    out
}

impl MerkleProof {
    /// Serialize this proof to bytes, preserving field order: leaf
    /// digest, entry list, claimed root.
    pub fn to_bytes(&self) -> (r: Vec<u8>)
        ensures
            r@ == encode_proof(self.leaf_digest@, self.entries_view(), self.claimed_root@),
            is_encoding(r@, self.leaf_digest@, self.entries_view(), self.claimed_root@),
    {
        proof {
            broadcast use vstd::std_specs::vec::axiom_spec_len;

            let dv = self.entries_view();
            assert(vstd::std_specs::vec::spec_vec_len(&self.leaf_digest) == self.leaf_digest@.len());
            assert(vstd::std_specs::vec::spec_vec_len(&self.claimed_root)
                == self.claimed_root@.len());
            assert(vstd::std_specs::vec::spec_vec_len(&self.entries) == self.entries@.len());
            assert forall|i: int| 0 <= i < dv.len() implies (#[trigger] dv[i]).0.len()
                <= usize::MAX by {
                assert(dv[i] == self.entries@[i].deep_view());
                assert(vstd::std_specs::vec::spec_vec_len(&self.entries@[i].sibling)
                    == self.entries@[i].sibling@.len());
            }
            assert(wire_sized(self.leaf_digest@, dv, self.claimed_root@));
        }
        let mut out: Vec<u8> = Vec::new();
        push_le8(&mut out, self.leaf_digest.len() as u64);
        push_bytes(&mut out, self.leaf_digest.as_slice());
        push_le8(&mut out, self.entries.len() as u64);
        let ghost head = out@;
        let mut k: usize = 0;
        while k < self.entries.len()
            invariant
                k <= self.entries@.len(),
                head == le_bytes(self.leaf_digest@.len(), 8) + self.leaf_digest@ + le_bytes(
                    self.entries_view().len(),
                    8,
                ),
                out@ == head + encode_entries(self.entries_view().take(k as int)),
            decreases self.entries@.len() - k,
        {
            let e = &self.entries[k];
            let ghost taken = self.entries_view().take(k as int);
            out.push(
                if e.sibling_on_left {
                    1u8
                } else {
                    0u8
                },
            );
            push_le8(&mut out, e.sibling.len() as u64);
            push_bytes(&mut out, e.sibling.as_slice());
            proof {
                let ev = self.entries_view()[k as int];
                assert(ev == (e.sibling@, e.sibling_on_left));
                lemma_encode_entries_push(taken, ev);
                assert(self.entries_view().take(k + 1) =~= taken.push(ev));
                assert(out@ =~= head + encode_entries(self.entries_view().take(k + 1)));
            }
            k = k + 1;
        }
        proof {
            assert(self.entries_view().take(self.entries@.len() as int) =~= self.entries_view());
        }
        push_le8(&mut out, self.claimed_root.len() as u64);
        push_bytes(&mut out, self.claimed_root.as_slice());
        proof {
            assert(out@ =~= encode_proof(
                self.leaf_digest@,
                self.entries_view(),
                self.claimed_root@,
            ));
        }
        out
    }

    /// Deserialize a proof.  Exactly the strings `to_bytes` produces are
    /// accepted, and decoding one recovers exactly the proof encoded in
    /// it; anything else — a truncated string, a stray side flag,
    /// trailing bytes — is refused.
    #[verifier::rlimit(100)]
    pub fn from_bytes(bytes: &[u8]) -> (r: Option<MerkleProof>)
        ensures
            r is Some ==> bytes@ == encode_proof(
                (r->Some_0).leaf_digest@,
                (r->Some_0).entries_view(),
                (r->Some_0).claimed_root@,
            ),
            forall|l: Seq<u8>, es: Seq<(Seq<u8>, bool)>, rt: Seq<u8>|
                #[trigger] is_encoding(bytes@, l, es, rt) ==> r is Some && (
                r->Some_0).leaf_digest@ == l && (r->Some_0).entries_view() == es && (
                r->Some_0).claimed_root@ == rt,
    {
        let n = bytes.len();
        if n < 8 {
            proof {
                assert forall|l: Seq<u8>, es: Seq<(Seq<u8>, bool)>, rt: Seq<u8>|
                    !(#[trigger] is_encoding(bytes@, l, es, rt)) by {
                    if is_encoding(bytes@, l, es, rt) {
                        lemma_layout(bytes@, l, es, rt);
                    }
                }
            }
            return None;
        }
        let leaf_len64 = read_le8(bytes, 0);
        if leaf_len64 > usize::MAX as u64 || n - 8 < leaf_len64 as usize {
            proof {
                assert forall|l: Seq<u8>, es: Seq<(Seq<u8>, bool)>, rt: Seq<u8>|
                    !(#[trigger] is_encoding(bytes@, l, es, rt)) by {
                    if is_encoding(bytes@, l, es, rt) {
                        lemma_layout(bytes@, l, es, rt);
                    }
                }
            }
            return None;
        }
        let leaf_len = leaf_len64 as usize;
        let leaf = read_vec(bytes, 8, leaf_len);
        let off1 = 8 + leaf_len;
        if n - off1 < 8 {
            proof {
                assert forall|l: Seq<u8>, es: Seq<(Seq<u8>, bool)>, rt: Seq<u8>|
                    !(#[trigger] is_encoding(bytes@, l, es, rt)) by {
                    if is_encoding(bytes@, l, es, rt) {
                        lemma_layout(bytes@, l, es, rt);
                    }
                }
            }
            return None;
        }
        let count64 = read_le8(bytes, off1);
        if count64 > usize::MAX as u64 {
            proof {
                assert forall|l: Seq<u8>, es: Seq<(Seq<u8>, bool)>, rt: Seq<u8>|
                    !(#[trigger] is_encoding(bytes@, l, es, rt)) by {
                    if is_encoding(bytes@, l, es, rt) {
                        lemma_layout(bytes@, l, es, rt);
                    }
                }
            }
            return None;
        }
        let count = count64 as usize;
        let mut off: usize = off1 + 8;
        let mut entries: Vec<ProofEntry> = Vec::new();
        let mut k: usize = 0;
        proof {
            lemma_le_val_bytes(bytes@.subrange(0, 8));
            lemma_le_val_bytes(bytes@.subrange(off1 as int, off1 + 8));
            assert(bytes@.subrange(0, off as int) =~= bytes@.subrange(0, 8) + bytes@.subrange(
                8,
                off1 as int,
            ) + bytes@.subrange(off1 as int, off1 + 8));
            assert(entries.deep_view() =~= Seq::<(Seq<u8>, bool)>::empty());
            assert(encode_entries(entries.deep_view()) =~= Seq::<u8>::empty());
            assert(bytes@.subrange(0, off as int) =~= le_bytes(leaf@.len(), 8) + leaf@ + le_bytes(
                count as nat,
                8,
            ) + encode_entries(entries.deep_view()));
            assert forall|l: Seq<u8>, es: Seq<(Seq<u8>, bool)>, rt: Seq<u8>|
                #[trigger] is_encoding(bytes@, l, es, rt) implies l == leaf@ && es.len() == count
                && k <= es.len() && entries.deep_view() == es.take(k as int) && off as int == 16
                + l.len() + encode_entries(es.take(k as int)).len() by {
                lemma_layout(bytes@, l, es, rt);
                assert(l =~= leaf@);
                assert(es.take(0) =~= Seq::<(Seq<u8>, bool)>::empty());
                assert(encode_entries(es.take(0)) =~= Seq::<u8>::empty());
            }
        }
        while k < count
            invariant
                n == bytes@.len(),
                off <= n,
                k <= count,
                entries.deep_view().len() == k,
                bytes@.subrange(0, off as int) == le_bytes(leaf@.len(), 8) + leaf@ + le_bytes(
                    count as nat,
                    8,
                ) + encode_entries(entries.deep_view()),
                forall|l: Seq<u8>, es: Seq<(Seq<u8>, bool)>, rt: Seq<u8>|
                    #[trigger] is_encoding(bytes@, l, es, rt) ==> l == leaf@ && es.len() == count
                        && k <= es.len() && entries.deep_view() == es.take(k as int) && off as int
                        == 16 + l.len() + encode_entries(es.take(k as int)).len(),
            decreases count - k,
        {
            if n - off < 9 {
                proof {
                    assert forall|l: Seq<u8>, es: Seq<(Seq<u8>, bool)>, rt: Seq<u8>|
                        !(#[trigger] is_encoding(bytes@, l, es, rt)) by {
                        if is_encoding(bytes@, l, es, rt) {
                            lemma_entry_layout(bytes@, l, es, rt, k as int);
                        }
                    }
                }
                return None;
            }
            let side = bytes[off];
            if side > 1 {
                proof {
                    assert forall|l: Seq<u8>, es: Seq<(Seq<u8>, bool)>, rt: Seq<u8>|
                        !(#[trigger] is_encoding(bytes@, l, es, rt)) by {
                        if is_encoding(bytes@, l, es, rt) {
                            lemma_entry_layout(bytes@, l, es, rt, k as int);
                        }
                    }
                }
                return None;
            }
            let sl64 = read_le8(bytes, off + 1);
            if sl64 > usize::MAX as u64 || n - (off + 9) < sl64 as usize {
                proof {
                    assert forall|l: Seq<u8>, es: Seq<(Seq<u8>, bool)>, rt: Seq<u8>|
                        !(#[trigger] is_encoding(bytes@, l, es, rt)) by {
                        if is_encoding(bytes@, l, es, rt) {
                            lemma_entry_layout(bytes@, l, es, rt, k as int);
                        }
                    }
                }
                return None;
            }
            let sl = sl64 as usize;
            let sib = read_vec(bytes, off + 9, sl);
            let on_left = side == 1;
            let ghost off_old = off;
            let ghost dv_old = entries.deep_view();
            let ghost e_new = (sib@, on_left);
            entries.push(ProofEntry { sibling: sib, sibling_on_left: on_left });
            off = off + 9 + sl;
            k = k + 1;
            proof {
                assert(entries.deep_view() =~~= dv_old.push(e_new));
                lemma_encode_entries_push(dv_old, e_new);
                lemma_le_val_bytes(bytes@.subrange(off_old + 1, off_old + 9));
                assert(bytes@.subrange(off_old as int, off_old + 1) =~= seq![side]);
                assert(encode_entry(e_new) =~= seq![side] + le_bytes(sl as nat, 8)
                    + bytes@.subrange(off_old + 9, off as int));
                assert(bytes@.subrange(0, off as int) =~= bytes@.subrange(0, off_old as int)
                    + bytes@.subrange(off_old as int, off_old + 1) + bytes@.subrange(
                    off_old + 1,
                    off_old + 9,
                ) + bytes@.subrange(off_old + 9, off as int));
                assert(bytes@.subrange(0, off as int) =~= le_bytes(leaf@.len(), 8) + leaf@
                    + le_bytes(count as nat, 8) + encode_entries(entries.deep_view()));
                assert forall|l: Seq<u8>, es: Seq<(Seq<u8>, bool)>, rt: Seq<u8>|
                    #[trigger] is_encoding(bytes@, l, es, rt) implies l == leaf@ && es.len()
                    == count && k <= es.len() && entries.deep_view() == es.take(k as int)
                    && off as int == 16 + l.len() + encode_entries(es.take(k as int)).len() by {
                    lemma_entry_layout(bytes@, l, es, rt, k - 1);
                    assert(dv_old == es.take(k - 1));
                    assert(e_new == es[k - 1]);
                    assert(entries.deep_view() =~= es.take(k as int));
                }
            }
        }
        if n - off < 8 {
            proof {
                assert forall|l: Seq<u8>, es: Seq<(Seq<u8>, bool)>, rt: Seq<u8>|
                    !(#[trigger] is_encoding(bytes@, l, es, rt)) by {
                    if is_encoding(bytes@, l, es, rt) {
                        lemma_layout(bytes@, l, es, rt);
                        assert(es.take(k as int) =~= es);
                    }
                }
            }
            return None;
        }
        let rl64 = read_le8(bytes, off);
        if rl64 > usize::MAX as u64 || n - (off + 8) != rl64 as usize {
            proof {
                assert forall|l: Seq<u8>, es: Seq<(Seq<u8>, bool)>, rt: Seq<u8>|
                    !(#[trigger] is_encoding(bytes@, l, es, rt)) by {
                    if is_encoding(bytes@, l, es, rt) {
                        lemma_layout(bytes@, l, es, rt);
                        assert(es.take(k as int) =~= es);
                    }
                }
            }
            return None;
        }
        let rl = rl64 as usize;
        let root = read_vec(bytes, off + 8, rl);
        proof {
            lemma_le_val_bytes(bytes@.subrange(off as int, off + 8));
            assert(bytes@ =~= bytes@.subrange(0, off as int) + bytes@.subrange(
                off as int,
                off + 8,
            ) + bytes@.subrange(off + 8, n as int));
            assert(bytes@ =~= le_bytes(leaf@.len(), 8) + leaf@ + le_bytes(count as nat, 8)
                + encode_entries(entries.deep_view()) + le_bytes(root@.len(), 8) + root@);
            assert forall|l: Seq<u8>, es: Seq<(Seq<u8>, bool)>, rt: Seq<u8>|
                #[trigger] is_encoding(bytes@, l, es, rt) implies leaf@ == l
                && entries.deep_view() == es && root@ == rt by {
                lemma_layout(bytes@, l, es, rt);
                assert(es.take(k as int) =~= es);
                assert(root@ =~= rt);
            }
        }
        Some(MerkleProof { leaf_digest: leaf, entries, claimed_root: root })
    }
}

} // verus!
