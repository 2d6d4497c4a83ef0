//! The merge engine: greedy byte-pair merging of a piece of bytes against a
//! rank table. A piece starts as one part per byte; while some adjacent pair
//! of parts spans a byte range that the table ranks, the pair with the
//! globally smallest rank (leftmost on ties) is merged, until no pair is
//! ranked. The surviving parts, looked up in the table, are the piece's
//! tokens.
use vstd::prelude::*;

use crate::vocab::{spec_get_opt, Vocab};

verus! {

/// One part boundary per byte, plus the end boundary.
pub open spec fn init_bounds(piece: Seq<u8>) -> Seq<int> {
    Seq::new(piece.len() + 1, |i: int| i)
}

/// Boundaries are strictly increasing from 0 to the piece's length.
pub open spec fn wf_bounds(piece: Seq<u8>, bs: Seq<int>) -> bool {
    &&& bs.len() >= 1
    &&& bs[0] == 0
    &&& bs.last() == piece.len()
    &&& forall|i: int, j: int| #![trigger bs[i], bs[j]] 0 <= i < j < bs.len() ==> bs[i] < bs[j]
}

/// The rank of merging parts `i` and `i + 1`: the rank of the byte range the
/// two parts span together, if the table holds that range.
pub open spec fn pair_rank(m: Map<Seq<u8>, u32>, piece: Seq<u8>, bs: Seq<int>, i: int) -> Option<
    u32,
> {
    if 0 <= i && i + 2 < bs.len() {
        spec_get_opt(m, piece.subrange(bs[i], bs[i + 2]))
    } else {
        None
    }
}

/// Scans pair indices from `i` upward, keeping the first strictly smallest
/// rank seen so far (so the leftmost pair wins ties).
pub open spec fn best_from(
    m: Map<Seq<u8>, u32>,
    piece: Seq<u8>,
    bs: Seq<int>,
    i: int,
    best: Option<(int, u32)>,
) -> Option<(int, u32)>
    decreases bs.len() - i,
{
    if i < 0 || i >= bs.len() - 2 {
        best
    } else {
        let next = match (best, pair_rank(m, piece, bs, i)) {
            (None, Some(r)) => Some((i, r)),
            (Some((bi, br)), Some(r)) => if r < br {
                Some((i, r))
            } else {
                best
            },
            _ => best,
        };
        best_from(m, piece, bs, i + 1, next)
    }
}

/// The pair merged next: the leftmost pair of globally smallest rank.
pub open spec fn best_pair(m: Map<Seq<u8>, u32>, piece: Seq<u8>, bs: Seq<int>) -> Option<
    (int, u32),
> {
    best_from(m, piece, bs, 0, None)
}

/// Runs the merge loop to completion, returning the final boundaries.
pub open spec fn merge_bounds(m: Map<Seq<u8>, u32>, piece: Seq<u8>, bs: Seq<int>) -> Seq<int>
    decreases bs.len(),
{
    match best_pair(m, piece, bs) {
        Some(iv) => {
            if 0 <= iv.0 && iv.0 + 2 < bs.len() {
                merge_bounds(m, piece, bs.remove(iv.0 + 1))
            } else {
                bs
            }
        },
        None => bs,
    }
}

/// The final boundaries of merging the whole piece.
pub open spec fn final_bounds(m: Map<Seq<u8>, u32>, piece: Seq<u8>) -> Seq<int> {
    merge_bounds(m, piece, init_bounds(piece))
}

/// The token sequence the merge produces: each surviving part's range looked
/// up in the table.
pub open spec fn spec_bpe_tokens(m: Map<Seq<u8>, u32>, piece: Seq<u8>) -> Seq<u32> {
    let fb = final_bounds(m, piece);
    Seq::new((fb.len() - 1) as nat, |k: int| m[piece.subrange(fb[k], fb[k + 1])])
}

/// Every surviving part of the finished merge is a key of the table: the
/// exact condition under which the parts can all be mapped to tokens.
pub open spec fn bpe_ok(m: Map<Seq<u8>, u32>, piece: Seq<u8>) -> bool {
    let fb = final_bounds(m, piece);
    forall|k: int|
        #![trigger piece.subrange(fb[k], fb[k + 1])]
        0 <= k < fb.len() - 1 ==> m.contains_key(piece.subrange(fb[k], fb[k + 1]))
}

/// The merge never removes the last boundary: at least one remains.
pub proof fn lemma_merge_bounds_len(m: Map<Seq<u8>, u32>, piece: Seq<u8>, bs: Seq<int>)
    requires
        bs.len() >= 1,
    ensures
        merge_bounds(m, piece, bs).len() >= 1,
    decreases bs.len(),
{
    match best_pair(m, piece, bs) {
        Some(iv) => {
            if 0 <= iv.0 && iv.0 + 2 < bs.len() {
                lemma_merge_bounds_len(m, piece, bs.remove(iv.0 + 1));
            }
        },
        None => {},
    }
}

/// Reads one entry of `bpe_ok` at a chosen part index.
pub proof fn lemma_bpe_ok_at(m: Map<Seq<u8>, u32>, piece: Seq<u8>, k: int)
    requires
        bpe_ok(m, piece),
        0 <= k < final_bounds(m, piece).len() - 1,
    ensures
        m.contains_key(piece.subrange(final_bounds(m, piece)[k], final_bounds(m, piece)[k + 1])),
{
    let fb = final_bounds(m, piece);
    assert(m.contains_key(piece.subrange(fb[k], fb[k + 1])));
}

/// Every part is a single byte or a key of the table.
pub open spec fn segs_known(m: Map<Seq<u8>, u32>, piece: Seq<u8>, bs: Seq<int>) -> bool {
    forall|k: int|
        #![trigger piece.subrange(bs[k], bs[k + 1])]
        0 <= k < bs.len() - 1 ==> bs[k + 1] - bs[k] == 1 || m.contains_key(
            piece.subrange(bs[k], bs[k + 1]),
        )
}

/// Reads one entry of `segs_known` at a chosen index.
pub proof fn lemma_segs_known_at(m: Map<Seq<u8>, u32>, piece: Seq<u8>, bs: Seq<int>, k: int)
    requires
        segs_known(m, piece, bs),
        0 <= k < bs.len() - 1,
    ensures
        bs[k + 1] - bs[k] == 1 || m.contains_key(piece.subrange(bs[k], bs[k + 1])),
{
    assert(bs[k + 1] - bs[k] == 1 || m.contains_key(piece.subrange(bs[k], bs[k + 1])));
}

/// A returned best pair is a valid pair index carrying its own rank.
pub proof fn lemma_best_valid(
    m: Map<Seq<u8>, u32>,
    piece: Seq<u8>,
    bs: Seq<int>,
    i: int,
    best: Option<(int, u32)>,
)
    requires
        best matches Some(b) ==> 0 <= b.0 && b.0 + 2 < bs.len() && pair_rank(m, piece, bs, b.0)
            == Some(b.1),
    ensures
        best_from(m, piece, bs, i, best) matches Some(b) ==> 0 <= b.0 && b.0 + 2 < bs.len()
            && pair_rank(m, piece, bs, b.0) == Some(b.1),
    decreases bs.len() - i,
{
    if !(i < 0 || i >= bs.len() - 2) {
        let next = match (best, pair_rank(m, piece, bs, i)) {
            (None, Some(r)) => Some((i, r)),
            (Some((bi, br)), Some(r)) => if r < br {
                Some((i, r))
            } else {
                best
            },
            _ => best,
        };
        lemma_best_valid(m, piece, bs, i + 1, next);
    }
}

/// Removing an internal boundary keeps the boundary list well formed.
pub proof fn lemma_wf_remove(piece: Seq<u8>, bs: Seq<int>, j: int)
    requires
        wf_bounds(piece, bs),
        1 <= j < bs.len() - 1,
    ensures
        wf_bounds(piece, bs.remove(j)),
{
    let t = bs.remove(j);
    assert(t[0] == bs[0]);
    assert(t.last() == bs.last());
    assert forall|a: int, b: int| #![trigger t[a], t[b]] 0 <= a < b < t.len() implies t[a]
        < t[b] by {
        let a0 = if a < j {
            a
        } else {
            a + 1
        };
        let b0 = if b < j {
            b
        } else {
            b + 1
        };
        assert(t[a] == bs[a0] && t[b] == bs[b0]);
        assert(bs[a0] < bs[b0]);
    }
}

/// Merging the best pair keeps every part a single byte or a table key.
pub proof fn lemma_segs_known_remove(
    m: Map<Seq<u8>, u32>,
    piece: Seq<u8>,
    bs: Seq<int>,
    i: int,
    r: u32,
)
    requires
        segs_known(m, piece, bs),
        0 <= i && i + 2 < bs.len(),
        pair_rank(m, piece, bs, i) == Some(r),
    ensures
        segs_known(m, piece, bs.remove(i + 1)),
{
    let t = bs.remove(i + 1);
    assert forall|k: int|
        #![trigger piece.subrange(t[k], t[k + 1])]
        0 <= k < t.len() - 1 implies t[k + 1] - t[k] == 1 || m.contains_key(
        piece.subrange(t[k], t[k + 1]),
    ) by {
        if k < i {
            assert(t[k] == bs[k] && t[k + 1] == bs[k + 1]);
            lemma_segs_known_at(m, piece, bs, k);
        } else if k == i {
            assert(t[k] == bs[k] && t[k + 1] == bs[k + 2]);
            assert(m.contains_key(piece.subrange(bs[i], bs[i + 2])));
        } else {
            assert(t[k] == bs[k + 1] && t[k + 1] == bs[k + 2]);
            lemma_segs_known_at(m, piece, bs, k + 1);
        }
    }
}

/// The finished merge of a well-formed, fully known boundary list stays well
/// formed and fully known, and does not grow.
pub proof fn lemma_merge_bounds_props(m: Map<Seq<u8>, u32>, piece: Seq<u8>, bs: Seq<int>)
    requires
        wf_bounds(piece, bs),
        segs_known(m, piece, bs),
    ensures
        wf_bounds(piece, merge_bounds(m, piece, bs)),
        segs_known(m, piece, merge_bounds(m, piece, bs)),
        merge_bounds(m, piece, bs).len() <= bs.len(),
    decreases bs.len(),
{
    lemma_best_valid(m, piece, bs, 0, None);
    match best_pair(m, piece, bs) {
        Some(iv) => {
            if 0 <= iv.0 && iv.0 + 2 < bs.len() {
                lemma_wf_remove(piece, bs, iv.0 + 1);
                lemma_segs_known_remove(m, piece, bs, iv.0, iv.1);
                lemma_merge_bounds_props(m, piece, bs.remove(iv.0 + 1));
            }
        },
        None => {},
    }
}

/// The initial one-byte-per-part boundaries are well formed and known.
pub proof fn lemma_init_bounds(m: Map<Seq<u8>, u32>, piece: Seq<u8>)
    ensures
        wf_bounds(piece, init_bounds(piece)),
        segs_known(m, piece, init_bounds(piece)),
{
}

/// If the table ranks every single byte of the piece, the finished merge can
/// map every surviving part to a token.
pub proof fn lemma_coverage_bpe_ok(m: Map<Seq<u8>, u32>, piece: Seq<u8>)
    requires
        forall|i: int| 0 <= i < piece.len() ==> m.contains_key(#[trigger] seq![piece[i]]),
    ensures
        bpe_ok(m, piece),
{
    lemma_init_bounds(m, piece);
    lemma_merge_bounds_props(m, piece, init_bounds(piece));
    let fb = final_bounds(m, piece);
    assert forall|k: int|
        #![trigger piece.subrange(fb[k], fb[k + 1])]
        0 <= k < fb.len() - 1 implies m.contains_key(piece.subrange(fb[k], fb[k + 1])) by {
        lemma_segs_known_at(m, piece, fb, k);
        if fb[k + 1] - fb[k] == 1 {
            assert(0 <= fb[k] < piece.len()) by {
                if k > 0 {
                    assert(fb[0] < fb[k]);
                }
                if k + 1 < fb.len() - 1 {
                    assert(fb[k + 1] < fb[fb.len() - 1]);
                }
            }
            assert(piece.subrange(fb[k], fb[k + 1]) =~= seq![piece[fb[k]]]);
        }
    }
}

/// A merge iteration removes exactly one boundary, so the part count strictly
/// decreases by one for each successful merge.
pub proof fn lemma_merge_step_decreases(
    m: Map<Seq<u8>, u32>,
    piece: Seq<u8>,
    bs: Seq<int>,
    i: int,
    r: u32,
)
    requires
        best_pair(m, piece, bs) == Some((i, r)),
    ensures
        0 <= i && i + 2 < bs.len(),
        bs.remove(i + 1).len() == bs.len() - 1,
        merge_bounds(m, piece, bs) == merge_bounds(m, piece, bs.remove(i + 1)),
{
    lemma_best_valid(m, piece, bs, 0, None);
}

/// The boundary offsets of a part list, as mathematical integers.
pub open spec fn bounds_of(parts: Seq<(usize, Option<u32>)>) -> Seq<int> {
    parts.map_values(|p: (usize, Option<u32>)| p.0 as int)
}

/// Every boundary lies within the piece.
proof fn lemma_bounds_le(piece: Seq<u8>, bs: Seq<int>, i: int)
    requires
        wf_bounds(piece, bs),
        0 <= i < bs.len(),
    ensures
        0 <= bs[i] <= piece.len(),
{
    if i > 0 {
        assert(bs[0] < bs[i]);
    }
    if i < bs.len() - 1 {
        assert(bs[i] < bs[bs.len() - 1]);
    }
}

/// Looks up the rank of the byte range spanning from boundary `i` to boundary
/// `i + 3`: the pair range at `i` once the boundary at index `i + 2` goes
/// away.
fn rank_skip(piece: &[u8], ranks: &Vocab, parts: &Vec<(usize, Option<u32>)>, i: usize) -> (r:
    Option<u32>)
    requires
        ranks.wf(),
        wf_bounds(piece@, bounds_of(parts@)),
        i + 2 < parts@.len(),
    ensures
        r == pair_rank(ranks.as_map(), piece@, bounds_of(parts@).remove(i + 2), i as int),
{
    let ghost bs = bounds_of(parts@);
    let ghost t = bs.remove(i + 2);
    let n: usize = parts.len();
    if i + 3 < n {
        let a: usize = parts[i].0;
        let b: usize = parts[i + 3].0;
        proof {
            assert(bs[i as int] == a as int && bs[i + 3] == b as int);
            assert(a < b) by {
                assert(bs[i as int] < bs[i + 3]);
            }
            lemma_bounds_le(piece@, bs, i + 3);
            assert(t[i as int] == bs[i as int]);
            assert(t[i + 2] == bs[i + 3]);
        }
        let r = ranks.get(vstd::slice::slice_subrange(piece, a, b));
        proof {
            assert(piece@.subrange(a as int, b as int) == piece@.subrange(t[i as int], t[i + 2]));
            assert(i + 2 < t.len());
        }
        r
    } else {
        proof {
            assert(t.len() == parts@.len() - 1);
            assert(!(i + 2 < t.len()));
        }
        None
    }
}

/// Computes the final part boundaries of the greedy pair merge of `piece`
/// against the rank table, in increasing order.
#[verifier::rlimit(60)]
pub fn _byte_pair_merge(piece: &[u8], ranks: &Vocab) -> (r: Vec<usize>)
    requires
        ranks.wf(),
    ensures
        r@.map_values(|x: usize| x as int) == final_bounds(ranks.as_map(), piece@),
{
    let ghost m = ranks.as_map();
    let n: usize = piece.len();
    let mut parts: Vec<(usize, Option<u32>)> = Vec::new();
    let mut i: usize = 0;
    while i < n
        invariant
            0 <= i <= n,
            n == piece@.len(),
            parts@.len() == i,
            forall|k: int| 0 <= k < i ==> parts@[k] == (k as usize, Option::<u32>::None),
        decreases n - i,
    {
        parts.push((i, None));
        i = i + 1;
    }
    parts.push((n, None));
    proof {
        assert(bounds_of(parts@) =~= init_bounds(piece@));
        lemma_init_bounds(m, piece@);
    }
    // Cache the rank of each adjacent pair once up front.
    let lim: usize = if parts.len() >= 2 {
        parts.len() - 2
    } else {
        0
    };
    let mut i: usize = 0;
    while i < lim
        invariant
            parts@.len() == n + 1,
            n == piece@.len(),
            lim as int == if n + 1 >= 2 { n - 1 } else { 0 },
            ranks.wf(),
            m == ranks.as_map(),
            bounds_of(parts@) == init_bounds(piece@),
            wf_bounds(piece@, bounds_of(parts@)),
            0 <= i <= lim,
            forall|k: int| 0 <= k < i ==> parts@[k].1 == pair_rank(m, piece@, bounds_of(parts@), k),
            forall|k: int| i <= k < parts@.len() ==> parts@[k].1 is None,
        decreases lim - i,
    {
        let ghost bs = bounds_of(parts@);
        let a: usize = parts[i].0;
        let b: usize = parts[i + 2].0;
        proof {
            assert(bs[i as int] == a as int);
            assert(bs[i + 2] == b as int);
            assert(a < b) by {
                assert(bs[i as int] < bs[i + 2]);
            }
            lemma_bounds_le(piece@, bs, i + 2);
        }
        let rank = ranks.get(vstd::slice::slice_subrange(piece, a, b));
        let start: usize = parts[i].0;
        parts[i] = (start, rank);
        proof {
            assert(bounds_of(parts@) =~= bs);
            assert forall|k: int|
                0 <= k < i + 1 implies parts@[k].1 == pair_rank(m, piece@, bounds_of(parts@), k) by {
                if k == i {
                    assert(rank == spec_get_opt(m, piece@.subrange(a as int, b as int)));
                } else {
                    assert(parts@[k].1 == pair_rank(m, piece@, bs, k));
                }
            }
        }
        i = i + 1;
    }
    proof {
        assert forall|k: int|
            0 <= k < parts@.len() implies parts@[k].1 == pair_rank(m, piece@, bounds_of(parts@), k) by {
            if k >= i {
                assert(pair_rank(m, piece@, bounds_of(parts@), k) is None);
            }
        }
    }
    // Repeatedly merge the lowest-ranked pair until none is ranked.
    loop
        invariant
            parts@.len() >= 1,
            n == piece@.len(),
            parts@.len() <= n + 1,
            ranks.wf(),
            m == ranks.as_map(),
            wf_bounds(piece@, bounds_of(parts@)),
            forall|k: int|
                0 <= k < parts@.len() ==> parts@[k].1 == pair_rank(
                    m,
                    piece@,
                    bounds_of(parts@),
                    k,
                ),
            merge_bounds(m, piece@, bounds_of(parts@)) == final_bounds(m, piece@),
        ensures
            bounds_of(parts@) == final_bounds(m, piece@),
        decreases parts@.len(),
    {
        if parts.len() == 1 {
            proof {
                assert(merge_bounds(m, piece@, bounds_of(parts@)) == bounds_of(parts@));
            }
            break ;
        }
        let ghost bs = bounds_of(parts@);
        // Scan all pairs for the smallest cached rank; the first strictly
        // smaller value wins, so the leftmost pair takes ties.
        let mut best: Option<(usize, u32)> = None;
        let mut j: usize = 0;
        while j < parts.len() - 1
            invariant
                parts@.len() >= 2,
                bs == bounds_of(parts@),
                0 <= j <= parts@.len() - 1,
                forall|k: int| 0 <= k < parts@.len() ==> parts@[k].1 == pair_rank(m, piece@, bs, k),
                (best matches Some(b) ==> 0 <= b.0 && b.0 + 2 < bs.len() && pair_rank(
                    m,
                    piece@,
                    bs,
                    b.0 as int,
                ) == Some(b.1)),
                best_pair(m, piece@, bs) == best_from(
                    m,
                    piece@,
                    bs,
                    j as int,
                    match best {
                        Some(b) => Some((b.0 as int, b.1)),
                        None => None,
                    },
                ),
            decreases parts@.len() - j,
        {
            match parts[j].1 {
                Some(r) => {
                    match best {
                        Some(b) => {
                            if r < b.1 {
                                best = Some((j, r));
                            }
                        },
                        None => {
                            best = Some((j, r));
                        },
                    }
                },
                None => {},
            }
            j = j + 1;
        }
        match best {
            Some(b) => {
                let i0: usize = b.0;
                proof {
                    lemma_merge_step_decreases(m, piece@, bs, i0 as int, b.1);
                }
                // Refresh the merged pair's cached rank and its left
                // neighbour's before removing the boundary between the two
                // merged parts.
                let nr = rank_skip(piece, ranks, &parts, i0);
                let s0: usize = parts[i0].0;
                parts[i0] = (s0, nr);
                proof {
                    assert(bounds_of(parts@) =~= bs);
                }
                let mut nl: Option<u32> = None;
                if i0 > 0 {
                    nl = rank_skip(piece, ranks, &parts, i0 - 1);
                    let sl: usize = parts[i0 - 1].0;
                    parts[i0 - 1] = (sl, nl);
                    proof {
                        assert(bounds_of(parts@) =~= bs);
                    }
                }
                let ghost mid = parts@;
                parts.remove(i0 + 1);
                proof {
                    let t = bounds_of(parts@);
                    assert(t =~= bs.remove(i0 + 1));
                    lemma_wf_remove(piece@, bs, i0 + 1);
                    assert forall|k: int|
                        0 <= k < parts@.len() implies parts@[k].1 == pair_rank(m, piece@, t, k) by {
                        if k < i0 - 1 {
                            assert(parts@[k] == mid[k]);
                            assert(mid[k].1 == pair_rank(m, piece@, bs, k));
                            assert(t[k] == bs[k] && t[k + 1] == bs[k + 1]);
                            if k + 2 < t.len() {
                                assert(t[k + 2] == bs[k + 2]);
                                assert(piece@.subrange(t[k], t[k + 2]) == piece@.subrange(
                                    bs[k],
                                    bs[k + 2],
                                ));
                            }
                        } else if k == i0 - 1 {
                            assert(parts@[k] == mid[k]);
                            assert(mid[k].1 == nl);
                            assert(nl == pair_rank(m, piece@, bs.remove(i0 + 1), i0 - 1));
                        } else if k == i0 {
                            assert(parts@[k] == mid[k]);
                            assert(mid[k].1 == nr);
                            assert(nr == pair_rank(m, piece@, bs.remove(i0 + 2), i0 as int));
                            let r2 = bs.remove(i0 + 2);
                            assert(r2.len() == t.len());
                            if i0 + 2 < t.len() {
                                assert(r2[i0 as int] == bs[i0 as int] && t[i0 as int]
                                    == bs[i0 as int]);
                                assert(r2[i0 + 2] == bs[i0 + 3] && t[i0 + 2] == bs[i0 + 3]);
                                assert(piece@.subrange(r2[i0 as int], r2[i0 + 2])
                                    == piece@.subrange(t[i0 as int], t[i0 + 2]));
                            }
                        } else {
                            assert(parts@[k] == mid[k + 1]);
                            assert(mid[k + 1].1 == pair_rank(m, piece@, bs, k + 1));
                            assert(t[k] == bs[k + 1]);
                            if k + 2 < t.len() {
                                assert(t[k + 1] == bs[k + 2] && t[k + 2] == bs[k + 3]);
                                assert(piece@.subrange(t[k], t[k + 2]) == piece@.subrange(
                                    bs[k + 1],
                                    bs[k + 3],
                                ));
                            }
                        }
                    }
                }
            },
            None => {
                proof {
                    assert(merge_bounds(m, piece@, bounds_of(parts@)) == bounds_of(parts@));
                }
                break ;
            },
        }
    }
    // Read off the surviving boundaries.
    let mut out: Vec<usize> = Vec::new();
    let mut i: usize = 0;
    while i < parts.len()
        invariant
            0 <= i <= parts@.len(),
            out@.len() == i,
            forall|k: int| 0 <= k < i ==> out@[k] == parts@[k].0,
        decreases parts@.len() - i,
    {
        out.push(parts[i].0);
        i = i + 1;
    }
    proof {
        assert(out@.map_values(|x: usize| x as int) =~= bounds_of(parts@));
    }
    out
}

/// Decomposes `piece` into tokens: a greedy pair merge of the piece, each
/// surviving part mapped to its rank in the table.
pub fn byte_pair_encode(piece: &[u8], ranks: &Vocab) -> (r: Vec<u32>)
    requires
        ranks.wf(),
        bpe_ok(ranks.as_map(), piece@),
    ensures
        r@ == spec_bpe_tokens(ranks.as_map(), piece@),
        r@.len() <= piece@.len(),
{
    let ghost m = ranks.as_map();
    proof {
        lemma_init_bounds(m, piece@);
        lemma_merge_bounds_props(m, piece@, init_bounds(piece@));
    }
    let bounds = _byte_pair_merge(piece, ranks);
    let mut out: Vec<u32> = Vec::new();
    let mut k: usize = 0;
    let ghost fb = final_bounds(m, piece@);
    while k + 1 < bounds.len()
        invariant
            ranks.wf(),
            m == ranks.as_map(),
            fb == final_bounds(m, piece@),
            bounds@.map_values(|x: usize| x as int) == fb,
            bounds@.len() == fb.len(),
            wf_bounds(piece@, fb),
            bpe_ok(m, piece@),
            fb.len() <= piece@.len() + 1,
            0 <= k <= fb.len() - 1,
            out@.len() == k,
            forall|j: int| 0 <= j < k ==> out@[j] == m[piece@.subrange(fb[j], fb[j + 1])],
        decreases fb.len() - k,
    {
        let a: usize = bounds[k];
        let b: usize = bounds[k + 1];
        proof {
            assert(fb[k as int] == a as int && fb[k + 1] == b as int);
            lemma_bounds_le(piece@, fb, k + 1);
            assert(a < b && b <= piece@.len()) by {
                assert(fb[k as int] < fb[k + 1]);
            }
        }
        let rank = ranks.get(vstd::slice::slice_subrange(piece, a, b));
        match rank {
            Some(t) => {
                out.push(t);
            },
            None => {
                proof {
                    assert(m.contains_key(piece@.subrange(fb[k as int], fb[k + 1])));
                    assert(false);
                }
            },
        }
        k = k + 1;
    }
    proof {
        assert(out@ =~= spec_bpe_tokens(m, piece@));
    }
    out
}

} // verus!
