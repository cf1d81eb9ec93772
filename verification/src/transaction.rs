//! The record collection handed to the tree builder, and a small example
//! record type.
//!
//! A record is an opaque byte sequence; the tree never looks inside one.
//! `Transaction` is a ready-made record type with a fixed, deterministic
//! byte encoding, so that equal transactions always hash to equal leaf
//! digests; callers with their own record format supply raw bytes through
//! `Transactions::from_records`.

use vstd::prelude::*;

use vstd::utf8::encode_utf8;

verus! {

/// A transfer of an amount from one party to another: an example record.
pub struct Transaction {
    from: String,
    to: String,
    amount: i32,
}

impl View for Transaction {
    type V = (Seq<char>, Seq<char>, int);

    closed spec fn view(&self) -> (Seq<char>, Seq<char>, int) {
        (self.from@, self.to@, self.amount as int)
    }
}

/// The little-endian bytes of `n`, exactly `width` of them; the value is
/// taken modulo `256 ^ width`.
pub open spec fn le_bytes(n: nat, width: nat) -> Seq<u8>
    decreases width,
{
    if width == 0 {
        Seq::empty()
    } else {
        seq![(n % 256) as u8] + le_bytes(n / 256, (width - 1) as nat)
    }
}

/// The byte encoding of a transaction: each party's UTF-8 bytes behind an
/// 8-byte length, then a sign byte, then the amount's magnitude in 8
/// bytes.
pub open spec fn encode_record(from: Seq<char>, to: Seq<char>, amount: int) -> Seq<u8> {
    let fb = encode_utf8(from);
    let tb = encode_utf8(to);
    le_bytes(fb.len(), 8) + fb + le_bytes(tb.len(), 8) + tb + seq![
        if amount < 0 {
            1u8
        } else {
            0u8
        },
    ] + le_bytes(
        if amount < 0 {
            (-amount) as nat
        } else {
            amount as nat
        },
        8,
    )
}

impl Transaction {
    pub fn new(from: String, to: String, amount: i32) -> (r: Self)
        ensures
            r@ == (from@, to@, amount as int),
    {
        Transaction { from, to, amount }
    }

    /// The record bytes of this transaction.
    pub fn encode(&self) -> (r: Vec<u8>)
        ensures
            r@ == encode_record(self@.0, self@.1, self@.2),
    {
        let mut out: Vec<u8> = Vec::new();
        let fb = self.from.as_str().as_bytes();
        push_le8(&mut out, fb.len() as u64);
        push_bytes(&mut out, fb);
        let tb = self.to.as_str().as_bytes();
        push_le8(&mut out, tb.len() as u64);
        push_bytes(&mut out, tb);
        if self.amount < 0 {
            out.push(1u8);
            let mag: i64 = -(self.amount as i64);
            push_le8(&mut out, mag as u64);
        } else {
            out.push(0u8);
            push_le8(&mut out, self.amount as u64);
        }
        out
    }
}

/// Append the little-endian bytes of `n`, 8 of them, to `out`.
pub(crate) fn push_le8(out: &mut Vec<u8>, n: u64)
    ensures
        final(out)@ == old(out)@ + le_bytes(n as nat, 8),
{
    let ghost start = out@;
    let mut m: u64 = n;
    let mut w: usize = 0;
    while w < 8
        invariant
            w <= 8,
            out@ + le_bytes(m as nat, (8 - w) as nat) == start + le_bytes(n as nat, 8),
        decreases 8 - w,
    {
        let ghost out_before = out@;
        let ghost m_before = m as nat;
        out.push((m % 256) as u8);
        m = m / 256;
        proof {
            assert(le_bytes(m_before, (8 - w) as nat) == seq![(m_before % 256) as u8] + le_bytes(
                m_before / 256,
                (8 - w - 1) as nat,
            ));
            assert(out_before + le_bytes(m_before, (8 - w) as nat) =~= out@ + le_bytes(
                m as nat,
                (8 - w - 1) as nat,
            ));
        }
        w = w + 1;
    }
    proof {
        assert(le_bytes(m as nat, 0) =~= Seq::<u8>::empty());
        assert(out@ + le_bytes(m as nat, 0) =~= out@);
    }
}

/// Append a byte slice to `out`.
pub(crate) fn push_bytes(out: &mut Vec<u8>, bytes: &[u8])
    ensures
        final(out)@ == old(out)@ + bytes@,
{
    let ghost start = out@;
    let mut j: usize = 0;
    while j < bytes.len()
        invariant
            j <= bytes@.len(),
            out@ == start + bytes@.subrange(0, j as int),
        decreases bytes@.len() - j,
    {
        out.push(bytes[j]);
        proof {
            assert(bytes@.subrange(0, j + 1) == bytes@.subrange(0, j as int).push(bytes@[j as int]));
            assert(start + bytes@.subrange(0, j as int).push(bytes@[j as int]) =~= (start
                + bytes@.subrange(0, j as int)).push(bytes@[j as int]));
        }
        j = j + 1;
    }
    proof {
        assert(bytes@.subrange(0, bytes@.len() as int) =~= bytes@);
    }
}

/// An ordered collection of records, ready to be hashed into leaves.
pub struct Transactions(Vec<Vec<u8>>);

impl View for Transactions {
    type V = Seq<Seq<u8>>;

    closed spec fn view(&self) -> Seq<Seq<u8>> {
        self.0.deep_view()
    }
}

impl Transactions {
    /// Encode each transaction into its record bytes, in order.
    pub fn new(transactions: Vec<Transaction>) -> (r: Self)
        ensures
            r@ == transactions@.map_values(|t: Transaction| encode_record(t@.0, t@.1, t@.2)),
    {
        let m = transactions.len();
        let ghost target = transactions@.map_values(
            |t: Transaction| encode_record(t@.0, t@.1, t@.2),
        );
        let mut records: Vec<Vec<u8>> = Vec::new();
        let mut i: usize = 0;
        while i < m
            invariant
                i <= m,
                m == transactions@.len(),
                target == transactions@.map_values(
                    |t: Transaction| encode_record(t@.0, t@.1, t@.2),
                ),
                records.deep_view() == target.subrange(0, i as int),
            decreases m - i,
        {
            let ghost records_before = records.deep_view();
            let rec = transactions[i].encode();
            records.push(rec);
            proof {
                assert(records.deep_view() =~~= records_before.push(rec@));
                assert(target.subrange(0, i + 1) =~= target.subrange(0, i as int).push(
                    target[i as int],
                ));
            }
            i = i + 1;
        }
        proof {
            assert(target.subrange(0, target.len() as int) =~= target);
        }
        Transactions(records)
    }

    /// Wrap raw record bytes, for callers with their own record format.
    pub fn from_records(records: Vec<Vec<u8>>) -> (r: Self)
        ensures
            r@ == records.deep_view(),
    {
        Transactions(records)
    }

    /// The records, in order.
    pub fn records(&self) -> (r: &Vec<Vec<u8>>)
        ensures
            r.deep_view() == self@,
    {
        &self.0
    }

    /// The number of records.
    pub fn len(&self) -> (r: usize)
        ensures
            r == self@.len(),
    {
        proof {
            assert(self.0.deep_view().len() == self.0@.len());
        }
        self.0.len()
    }
}

} // verus!
