//! Wire form of rank sequences: each rank as four little-endian bytes,
//! concatenated in order.
use vstd::prelude::*;

verus! {

/// The four little-endian bytes of a rank.
pub open spec fn le4(x: u32) -> Seq<u8> {
    seq![
        (x % 256) as u8,
        (x / 256 % 256) as u8,
        (x / 65536 % 256) as u8,
        (x / 16777216 % 256) as u8,
    ]
}

/// The rank a four-byte little-endian group denotes.
pub open spec fn from_le4(b: Seq<u8>) -> u32 {
    (b[0] + b[1] * 256 + b[2] * 65536 + b[3] * 16777216) as u32
}

/// The wire bytes of a rank sequence.
pub open spec fn spec_ranks_to_bytes(rs: Seq<u32>) -> Seq<u8>
    decreases rs.len(),
{
    if rs.len() == 0 {
        Seq::empty()
    } else {
        le4(rs[0]) + spec_ranks_to_bytes(rs.drop_first())
    }
}

/// The rank sequence of a wire byte string whose length is a multiple of
/// four.
pub open spec fn spec_bytes_to_ranks(b: Seq<u8>) -> Seq<u32>
    decreases b.len(),
{
    if b.len() < 4 {
        Seq::empty()
    } else {
        seq![from_le4(b.subrange(0, 4))] + spec_bytes_to_ranks(b.skip(4))
    }
}

/// Reading back the four little-endian bytes of a rank yields the rank.
pub proof fn lemma_le4_round_trip(x: u32)
    ensures
        from_le4(le4(x)) == x,
{
    assert(from_le4(le4(x)) == x) by (bit_vector);
}

/// Serializes ranks to wire bytes, four little-endian bytes each.
pub fn ranks_to_bytes(rs: &[u32]) -> (r: Vec<u8>)
    ensures
        r@ == spec_ranks_to_bytes(rs@),
{
    let mut out: Vec<u8> = Vec::new();
    let mut i: usize = 0;
    proof {
        assert(rs@.skip(0) =~= rs@);
        assert(out@ + spec_ranks_to_bytes(rs@) =~= spec_ranks_to_bytes(rs@));
    }
    while i < rs.len()
        invariant
            0 <= i <= rs@.len(),
            spec_ranks_to_bytes(rs@) == out@ + spec_ranks_to_bytes(rs@.skip(i as int)),
        decreases rs@.len() - i,
    {
        let x = rs[i];
        let ghost pre = out@;
        out.push((x % 256) as u8);
        out.push((x / 256 % 256) as u8);
        out.push((x / 65536 % 256) as u8);
        out.push((x / 16777216 % 256) as u8);
        proof {
            assert(out@ =~= pre + le4(x));
            assert(rs@.skip(i as int)[0] == rs@[i as int]);
            assert(rs@.skip(i as int).drop_first() =~= rs@.skip(i + 1));
            assert(pre + (le4(x) + spec_ranks_to_bytes(rs@.skip(i + 1))) =~= (pre + le4(x))
                + spec_ranks_to_bytes(rs@.skip(i + 1)));
        }
        i = i + 1;
    }
    proof {
        assert(rs@.skip(rs@.len() as int) =~= Seq::<u32>::empty());
        assert(out@ + Seq::<u8>::empty() =~= out@);
    }
    out
}

/// Parses wire bytes back into ranks; the length must be a whole number of
/// four-byte groups.
pub fn bytes_to_ranks(b: &[u8]) -> (r: Vec<u32>)
    requires
        b@.len() % 4 == 0,
    ensures
        r@ == spec_bytes_to_ranks(b@),
{
    let n: usize = b.len();
    let mut out: Vec<u32> = Vec::new();
    let mut i: usize = 0;
    proof {
        assert(b@.skip(0) =~= b@);
        assert(out@ + spec_bytes_to_ranks(b@) =~= spec_bytes_to_ranks(b@));
    }
    while i < n
        invariant
            0 <= i <= b@.len(),
            n == b@.len(),
            i % 4 == 0,
            b@.len() % 4 == 0,
            spec_bytes_to_ranks(b@) == out@ + spec_bytes_to_ranks(b@.skip(i as int)),
        decreases b@.len() - i,
    {
        let b0: u32 = b[i] as u32;
        let b1: u32 = b[i + 1] as u32;
        let b2: u32 = b[i + 2] as u32;
        let b3: u32 = b[i + 3] as u32;
        let x: u32 = b0 + b1 * 256 + b2 * 65536 + b3 * 16777216;
        let ghost pre = out@;
        out.push(x);
        proof {
            let grp = b@.skip(i as int).subrange(0, 4);
            assert(grp[0] == b@[i as int] && grp[1] == b@[i + 1] && grp[2] == b@[i + 2] && grp[3]
                == b@[i + 3]);
            assert(x == from_le4(grp));
            assert(b@.skip(i as int).skip(4) =~= b@.skip(i + 4));
            assert(pre + (seq![x] + spec_bytes_to_ranks(b@.skip(i + 4))) =~= pre.push(x)
                + spec_bytes_to_ranks(b@.skip(i + 4)));
        }
        i = i + 4;
    }
    proof {
        assert(b@.skip(i as int).len() < 4);
        assert(out@ + Seq::<u32>::empty() =~= out@);
    }
    out
}

/// Serialization round trip: parsing the wire form of any rank sequence
/// yields the same ranks.
pub proof fn lemma_wire_round_trip(rs: Seq<u32>)
    ensures
        spec_bytes_to_ranks(spec_ranks_to_bytes(rs)) == rs,
    decreases rs.len(),
{
    if rs.len() == 0 {
        assert(spec_bytes_to_ranks(spec_ranks_to_bytes(rs)) =~= rs);
    } else {
        let bs = spec_ranks_to_bytes(rs);
        lemma_ranks_to_bytes_len(rs);
        assert(bs.subrange(0, 4) =~= le4(rs[0]));
        lemma_le4_round_trip(rs[0]);
        assert(bs.skip(4) =~= spec_ranks_to_bytes(rs.drop_first()));
        lemma_wire_round_trip(rs.drop_first());
        assert(spec_bytes_to_ranks(bs) =~= rs) by {
            assert(spec_bytes_to_ranks(bs) == seq![rs[0]] + rs.drop_first());
            assert(seq![rs[0]] + rs.drop_first() =~= rs);
        }
    }
}

/// The wire form holds four bytes per rank.
pub proof fn lemma_ranks_to_bytes_len(rs: Seq<u32>)
    ensures
        spec_ranks_to_bytes(rs).len() == 4 * rs.len(),
    decreases rs.len(),
{
    if rs.len() > 0 {
        lemma_ranks_to_bytes_len(rs.drop_first());
    }
}

} // verus!
