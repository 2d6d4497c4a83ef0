//! The library's laws: properties that tie encoding, decoding and the merge
//! engine together, stated over the same specification functions the
//! functions' own contracts use.
use vstd::prelude::*;

use crate::codec::{dec_get, lemma_decoder_inverse, next_special, spec_encode_piece,
    spec_encode_pieces, spec_encode_span, CoreBPE};
use crate::merge::{bpe_ok, final_bounds, init_bounds, lemma_bpe_ok_at, lemma_coverage_bpe_ok,
    lemma_init_bounds, lemma_merge_bounds_len, lemma_merge_bounds_props, spec_bpe_tokens,
    wf_bounds};
use crate::segment::seg_pieces_of;
use crate::unstable::{lemma_decode_some, lemma_encode_tokens_decodable, spec_widened, widen_ll};

verus! {

/// Encoding is deterministic: any two token sequences that satisfy the
/// encoder's contract for the same codec and text are the same sequence.
pub proof fn lemma_encode_deterministic(c: CoreBPE, text: Seq<u8>, r1: Seq<u32>, r2: Seq<u32>)
    requires
        r1 == c.spec_encode(text),
        r2 == c.spec_encode(text),
    ensures
        r1 == r2,
{
}

/// The merge is monotonic: each successful merge step removes exactly one
/// part boundary, and the finished token sequence never outnumbers the
/// piece's bytes.
pub proof fn lemma_merge_monotonic(m: Map<Seq<u8>, u32>, piece: Seq<u8>)
    ensures
        forall|bs: Seq<int>|
            #[trigger] crate::merge::best_pair(m, piece, bs) matches Some(p) ==> bs.remove(
                p.0 + 1,
            ).len() == bs.len() - 1,
        spec_bpe_tokens(m, piece).len() <= piece.len(),
{
    assert forall|bs: Seq<int>|
        (#[trigger] crate::merge::best_pair(m, piece, bs) matches Some(p) ==> bs.remove(
            p.0 + 1,
        ).len() == bs.len() - 1) by {
        match crate::merge::best_pair(m, piece, bs) {
            Some(p) => {
                crate::merge::lemma_merge_step_decreases(m, piece, bs, p.0, p.1);
            },
            None => {},
        }
    }
    lemma_init_bounds(m, piece);
    lemma_merge_bounds_props(m, piece, init_bounds(piece));
    lemma_merge_bounds_len(m, piece, init_bounds(piece));
}

/// Decoding splits over concatenation when both halves decode.
pub proof fn lemma_decode_append(c: CoreBPE, t1: Seq<u32>, t2: Seq<u32>)
    requires
        c.spec_decode(t1) is Some,
        c.spec_decode(t2) is Some,
    ensures
        c.spec_decode(t1 + t2) == Some(c.spec_decode(t1)->0 + c.spec_decode(t2)->0),
    decreases t1.len(),
{
    if t1.len() == 0 {
        assert(t1 + t2 =~= t2);
        assert(c.spec_decode(t1)->0 + c.spec_decode(t2)->0 =~= c.spec_decode(t2)->0);
    } else {
        assert((t1 + t2)[0] == t1[0]);
        assert((t1 + t2).drop_first() =~= t1.drop_first() + t2);
        lemma_decode_append(c, t1.drop_first(), t2);
        let b = c.token_bytes(t1[0])->0;
        assert(b + (c.spec_decode(t1.drop_first())->0 + c.spec_decode(t2)->0) =~= (b
            + c.spec_decode(t1.drop_first())->0) + c.spec_decode(t2)->0);
    }
}

/// The finished merge decodes back to the piece, from part `j` on.
proof fn lemma_bpe_decode_from(c: CoreBPE, piece: Seq<u8>, j: int)
    requires
        c.wf(),
        bpe_ok(c.enc(), piece),
        0 <= j <= final_bounds(c.enc(), piece).len() - 1,
        wf_bounds(piece, final_bounds(c.enc(), piece)),
    ensures
        c.spec_decode(spec_bpe_tokens(c.enc(), piece).skip(j)) == Some(
            piece.subrange(
                final_bounds(c.enc(), piece)[j],
                final_bounds(c.enc(), piece).last(),
            ),
        ),
    decreases final_bounds(c.enc(), piece).len() - j,
{
    let m = c.enc();
    let fb = final_bounds(m, piece);
    let toks = spec_bpe_tokens(m, piece);
    if j == fb.len() - 1 {
        assert(toks.skip(j) =~= Seq::<u32>::empty());
        assert(piece.subrange(fb[j], fb.last()) =~= Seq::<u8>::empty());
    } else {
        lemma_bpe_ok_at(m, piece, j);
        let seg = piece.subrange(fb[j], fb[j + 1]);
        lemma_decoder_inverse(c, seg);
        assert(toks.skip(j)[0] == toks[j]);
        assert(toks[j] == m[seg]);
        assert(c.token_bytes(toks[j]) == Some(seg));
        assert(toks.skip(j).drop_first() =~= toks.skip(j + 1));
        lemma_bpe_decode_from(c, piece, j + 1);
        assert(seg + piece.subrange(fb[j + 1], fb.last()) =~= piece.subrange(fb[j], fb.last()))
            by {
            assert(fb[j] <= fb[j + 1] <= fb.last() <= piece.len());
        }
    }
}

/// The finished merge of any piece decodes back to the piece.
pub proof fn lemma_bpe_decode(c: CoreBPE, piece: Seq<u8>)
    requires
        c.wf(),
    ensures
        c.spec_decode(spec_bpe_tokens(c.enc(), piece)) == Some(piece),
{
    let m = c.enc();
    assert forall|i: int| 0 <= i < piece.len() implies m.contains_key(
        #[trigger] seq![piece[i]],
    ) by {}
    lemma_coverage_bpe_ok(m, piece);
    lemma_init_bounds(m, piece);
    lemma_merge_bounds_props(m, piece, init_bounds(piece));
    lemma_bpe_decode_from(c, piece, 0);
    let fb = final_bounds(m, piece);
    assert(spec_bpe_tokens(m, piece).skip(0) =~= spec_bpe_tokens(m, piece));
    assert(piece.subrange(fb[0], fb.last()) =~= piece);
}

/// One piece's tokens decode back to the piece.
pub proof fn lemma_piece_decode(c: CoreBPE, piece: Seq<u8>)
    requires
        c.wf(),
    ensures
        c.spec_decode(spec_encode_piece(c.enc(), piece)) == Some(piece),
{
    let m = c.enc();
    if m.contains_key(piece) {
        lemma_decoder_inverse(c, piece);
        let t = m[piece];
        assert(spec_encode_piece(m, piece) =~= seq![t]);
        assert(seq![t][0] == t);
        assert(c.token_bytes(t) == Some(piece));
        assert(seq![t].drop_first() =~= Seq::<u32>::empty());
        assert(c.spec_decode(Seq::<u32>::empty()) == Some(Seq::<u8>::empty()));
        assert(piece + Seq::<u8>::empty() =~= piece);
        assert(c.spec_decode(seq![t]) == Some(piece + Seq::<u8>::empty()));
    } else {
        lemma_bpe_decode(c, piece);
    }
}

/// A piece list's tokens decode back to the pieces' concatenation.
pub proof fn lemma_pieces_decode(c: CoreBPE, ps: Seq<Seq<u8>>)
    requires
        c.wf(),
    ensures
        c.spec_decode(spec_encode_pieces(c.enc(), ps)) == Some(ps.flatten()),
    decreases ps.len(),
{
    let m = c.enc();
    if ps.len() == 0 {
        assert(ps.flatten() =~= Seq::<u8>::empty());
    } else {
        lemma_piece_decode(c, ps[0]);
        lemma_pieces_decode(c, ps.drop_first());
        lemma_decode_append(
            c,
            spec_encode_piece(m, ps[0]),
            spec_encode_pieces(m, ps.drop_first()),
        );
        assert(ps.flatten() == ps[0] + ps.drop_first().flatten()) by {
            assert(ps.first() == ps[0]);
        }
    }
}

/// Round trip: when the text holds no special-token occurrence and the
/// segmentation pattern's pieces cover the text, decoding the encoding gives
/// back exactly the text bytes.
pub proof fn lemma_round_trip(c: CoreBPE, text: Seq<u8>)
    requires
        c.wf(),
        vstd::utf8::valid_utf8(text),
        next_special(c.sp(), text, 0) is None,
        seg_pieces_of(c.pattern@, text) is Some,
        (seg_pieces_of(c.pattern@, text)->0).flatten() == text,
    ensures
        c.spec_decode(c.spec_encode(text)) == Some(text),
{
    let m = c.enc();
    let span = text.subrange(0, text.len() as int);
    assert(span =~= text);
    assert(c.spec_encode(text) == spec_encode_span(m, c.pattern@, span).0);
    let ps = seg_pieces_of(c.pattern@, text)->0;
    assert(spec_encode_span(m, c.pattern@, span).0 == spec_encode_pieces(m, ps));
    lemma_pieces_decode(c, ps);
}

/// The last-piece token count never exceeds the piece list's token count.
proof fn lemma_pieces_ll(m: Map<Seq<u8>, u32>, ps: Seq<Seq<u8>>)
    requires
        ps.len() > 0,
    ensures
        spec_encode_piece(m, ps.last()).len() <= spec_encode_pieces(m, ps).len(),
    decreases ps.len(),
{
    if ps.len() == 1 {
        assert(ps[0] == ps.last());
        assert(spec_encode_pieces(m, ps.drop_first()) =~= Seq::<u32>::empty());
    } else {
        lemma_pieces_ll(m, ps.drop_first());
        assert(ps.drop_first().last() == ps.last());
    }
}

/// The last-piece token count of a span is within its token count.
proof fn lemma_span_ll(m: Map<Seq<u8>, u32>, pat: Seq<char>, span: Seq<u8>)
    ensures
        0 <= spec_encode_span(m, pat, span).1 <= spec_encode_span(m, pat, span).0.len(),
{
    if vstd::utf8::valid_utf8(span) && seg_pieces_of(pat, span) is Some {
        let ps = seg_pieces_of(pat, span)->0;
        if ps.len() > 0 {
            lemma_pieces_ll(m, ps);
        }
    }
}

/// The last-piece token count of an encoding is within its token count.
pub proof fn lemma_encode_ll(c: CoreBPE, text: Seq<u8>, pos: int)
    ensures
        0 <= c.spec_encode_from(text, pos).1 <= c.spec_encode_from(text, pos).0.len(),
    decreases text.len() - pos + 1,
{
    if !(0 <= pos <= text.len()) {
    } else {
        match next_special(c.sp(), text, pos) {
            None => {
                lemma_span_ll(c.enc(), c.pattern@, text.subrange(pos, text.len() as int));
            },
            Some(si) => {
                let step = si.0 + c.sp()[si.1].0.len();
                let nxt = if step <= pos {
                    pos + 1
                } else if step > text.len() {
                    text.len() as int + 1
                } else {
                    step
                };
                lemma_encode_ll(c, text, nxt);
            },
        }
    }
}

/// Widening keeps the trailing count within the token count.
pub proof fn lemma_widen_le(c: CoreBPE, toks: Seq<u32>, ll: int)
    requires
        0 <= ll <= toks.len(),
    ensures
        ll <= widen_ll(c, toks, ll) <= toks.len(),
    decreases toks.len() - ll,
{
    if 0 <= ll < toks.len() && crate::unstable::token_all_space(c, toks[toks.len() - ll - 1]) {
        lemma_widen_le(c, toks, ll + 1);
    }
}

/// Unstable-suffix consistency: the stable tokens and the unstable trailing
/// bytes together decode to exactly what the full encoding decodes to; in
/// particular the stable decode is a byte prefix of the full decode.
pub proof fn lemma_unstable_consistency(c: CoreBPE, text: Seq<u8>)
    requires
        c.wf(),
    ensures
        c.spec_decode(c.spec_encode_from(text, 0).0) is Some,
        c.spec_decode(c.spec_unstable(text).0) is Some,
        ({
            let full = c.spec_encode_from(text, 0).0;
            let stable = c.spec_unstable(text).0;
            let tail = full.subrange(stable.len() as int, full.len() as int);
            c.spec_decode(tail) is Some && c.spec_decode(full)->0 == c.spec_decode(stable)->0
                + c.spec_decode(tail)->0 && crate::bytes::is_prefix(
                c.spec_decode(stable)->0,
                c.spec_decode(full)->0,
            )
        }),
{
    let full = c.spec_encode_from(text, 0).0;
    let ll0 = c.spec_encode_from(text, 0).1;
    lemma_encode_ll(c, text, 0);
    let ll: int = if ll0 == 0 {
        0
    } else {
        spec_widened(c, full, ll0)
    };
    if ll0 != 0 {
        if 0 < ll0 <= full.len() && crate::unstable::token_all_space(c, full[full.len() - ll0]) {
            lemma_widen_le(c, full, ll0);
        }
    }
    assert(0 <= ll <= full.len());
    let stable = c.spec_unstable(text).0;
    assert(stable == full.subrange(0, full.len() - ll));
    let tail = full.subrange(full.len() - ll, full.len() as int);
    assert forall|q: int| 0 <= q < full.len() implies c.token_bytes(#[trigger] full[q]) is Some by {
        lemma_encode_tokens_decodable(c, text, 0, q);
    }
    assert forall|q: int| 0 <= q < stable.len() implies c.token_bytes(
        #[trigger] stable[q],
    ) is Some by {
        assert(stable[q] == full[q]);
    }
    assert forall|q: int| 0 <= q < tail.len() implies c.token_bytes(#[trigger] tail[q]) is Some by {
        assert(tail[q] == full[full.len() - ll + q]);
    }
    lemma_decode_some(c, full);
    lemma_decode_some(c, stable);
    lemma_decode_some(c, tail);
    lemma_decode_append(c, stable, tail);
    assert(stable + tail =~= full);
    assert(tail == full.subrange(stable.len() as int, full.len() as int));
    assert(crate::bytes::is_prefix(c.spec_decode(stable)->0, c.spec_decode(full)->0)) by {
        let sb = c.spec_decode(stable)->0;
        let fbb = c.spec_decode(full)->0;
        assert(fbb == sb + c.spec_decode(tail)->0);
        assert(fbb.subrange(0, sb.len() as int) =~= sb);
    }
}

/// Of two prefixes of one sequence, the shorter prefixes the longer.
proof fn lemma_prefix_of_prefix(a: Seq<u8>, b: Seq<u8>, s: Seq<u8>)
    requires
        crate::bytes::is_prefix(a, s),
        crate::bytes::is_prefix(b, s),
        a.len() <= b.len(),
    ensures
        crate::bytes::is_prefix(a, b),
{
    assert(b.subrange(0, a.len() as int) =~= a) by {
        assert forall|j: int| 0 <= j < a.len() implies b[j] == a[j] by {
            assert(s.subrange(0, a.len() as int)[j] == s[j]);
            assert(s.subrange(0, b.len() as int)[j] == s[j]);
        }
    }
}

/// Prepending the same bytes preserves the prefix relation.
proof fn lemma_prefix_prepend(p: Seq<u8>, a: Seq<u8>, b: Seq<u8>)
    requires
        crate::bytes::is_prefix(a, b),
    ensures
        crate::bytes::is_prefix(p + a, p + b),
{
    assert((p + b).subrange(0, p.len() + a.len() as int) =~= p + a) by {
        assert forall|j: int| 0 <= j < p.len() + a.len() implies (p + b)[j] == (p + a)[j] by {
            if j >= p.len() {
                assert(b.subrange(0, a.len() as int)[j - p.len()] == b[j - p.len()]);
            }
        }
    }
}

/// With a covering segmentation, a span's tokens decode back to the span.
pub proof fn lemma_span_decode(c: CoreBPE, span: Seq<u8>)
    requires
        c.wf(),
        crate::segment::seg_total(c.pattern@),
    ensures
        c.spec_decode(spec_encode_span(c.enc(), c.pattern@, span).0) == Some(span),
{
    if vstd::utf8::valid_utf8(span) && seg_pieces_of(c.pattern@, span) is Some {
        let ps = seg_pieces_of(c.pattern@, span)->0;
        lemma_pieces_decode(c, ps);
        assert(ps.flatten() == span);
    } else {
        lemma_bpe_decode(c, span);
    }
}

/// The kept front of a token run decodes to a byte prefix that reaches
/// `need` bytes, unless the run itself gives out first.
proof fn lemma_take_needed_props(c: CoreBPE, toks: Seq<u32>, need: int)
    requires
        c.wf(),
        forall|q: int| 0 <= q < toks.len() ==> dec_get(c.dec_kv(), #[trigger] toks[q]) is Some,
    ensures
        c.spec_decode(toks) is Some,
        c.spec_decode(crate::unstable::take_needed(c, toks, need)) is Some,
        crate::bytes::is_prefix(
            c.spec_decode(crate::unstable::take_needed(c, toks, need))->0,
            c.spec_decode(toks)->0,
        ),
        c.spec_decode(crate::unstable::take_needed(c, toks, need))->0.len() >= need
            || crate::unstable::take_needed(c, toks, need) == toks,
    decreases toks.len(),
{
    assert forall|q: int| 0 <= q < toks.len() implies c.token_bytes(#[trigger] toks[q]) is Some by {
        assert(dec_get(c.dec_kv(), toks[q]) is Some);
    }
    lemma_decode_some(c, toks);
    if toks.len() == 0 {
        assert(crate::unstable::take_needed(c, toks, need) =~= Seq::<u32>::empty());
        assert(c.spec_decode(toks)->0.subrange(0, 0) =~= Seq::<u8>::empty());
    } else {
        let t0 = toks[0];
        let b = dec_get(c.dec_kv(), t0)->0;
        assert(c.token_bytes(t0) == Some(b));
        let blen = b.len() as int;
        let one = seq![t0];
        assert(one[0] == t0);
        assert(one.drop_first() =~= Seq::<u32>::empty());
        assert(c.spec_decode(Seq::<u32>::empty()) == Some(Seq::<u8>::empty()));
        assert(c.spec_decode(one) == Some(b + Seq::<u8>::empty()));
        assert(b + Seq::<u8>::empty() =~= b);
        let rest = toks.drop_first();
        assert forall|q: int| 0 <= q < rest.len() implies dec_get(
            c.dec_kv(),
            #[trigger] rest[q],
        ) is Some by {
            assert(rest[q] == toks[q + 1]);
        }
        lemma_take_needed_props(c, rest, need - blen);
        assert(c.spec_decode(toks) == Some(b + c.spec_decode(rest)->0));
        if blen >= need {
            assert(crate::unstable::take_needed(c, toks, need) == one);
            assert(crate::bytes::is_prefix(b, b + c.spec_decode(rest)->0)) by {
                assert((b + c.spec_decode(rest)->0).subrange(0, b.len() as int) =~= b);
            }
        } else {
            let sub = crate::unstable::take_needed(c, rest, need - blen);
            assert(crate::unstable::take_needed(c, toks, need) == one + sub);
            lemma_decode_append(c, one, sub);
            assert(c.spec_decode(one + sub) == Some(b + c.spec_decode(sub)->0));
            lemma_prefix_prepend(b, c.spec_decode(sub)->0, c.spec_decode(rest)->0);
            if c.spec_decode(sub)->0.len() >= need - blen {
            } else {
                assert(sub == rest);
                assert(one + sub =~= toks);
            }
        }
    }
}

/// A completion extends the unstable bytes: it decodes, and the unstable
/// bytes prefix its decoding.
pub open spec fn extends_unstable(c: CoreBPE, u: Seq<u8>, x: Seq<u32>) -> bool {
    c.spec_decode(x) is Some && crate::bytes::is_prefix(u, c.spec_decode(x)->0)
}

/// Inserting keeps a property of all listed completions.
proof fn lemma_insert_extends(c: CoreBPE, u: Seq<u8>, acc: Seq<Seq<u32>>, x: Seq<u32>)
    requires
        forall|j: int| 0 <= j < acc.len() ==> extends_unstable(c, u, #[trigger] acc[j]),
        extends_unstable(c, u, x),
    ensures
        forall|j: int|
            0 <= j < crate::unstable::insert_completion(acc, x).len() ==> extends_unstable(
                c,
                u,
                #[trigger] crate::unstable::insert_completion(acc, x)[j],
            ),
{
    let r = crate::unstable::insert_completion(acc, x);
    assert forall|j: int| 0 <= j < r.len() implies extends_unstable(c, u, #[trigger] r[j]) by {
        if !acc.contains(x) && j == acc.len() {
            assert(r[j] == x);
        } else {
            assert(r[j] == acc[j]);
        }
    }
}

/// Every completion the direct-prefix walk adds extends the unstable bytes.
proof fn lemma_direct_walk_extends(c: CoreBPE, i: int, u: Seq<u8>, acc: Seq<Seq<u32>>)
    requires
        c.wf(),
        forall|j: int| 0 <= j < acc.len() ==> extends_unstable(c, u, #[trigger] acc[j]),
    ensures
        forall|j: int|
            0 <= j < crate::unstable::direct_completions(c, i, u, acc).len() ==> extends_unstable(
                c,
                u,
                #[trigger] crate::unstable::direct_completions(c, i, u, acc)[j],
            ),
    decreases c.encoder.kv().len() - i + 1,
{
    let kv = c.encoder.kv();
    if 0 <= i < kv.len() && crate::bytes::is_prefix(u, kv[i].0) {
        let key = kv[i].0;
        let t = kv[i].1;
        crate::vocab::lemma_spec_get_at(kv, key, i);
        c.encoder.lemma_rank_of_as_map(key);
        assert(c.enc().contains_key(key) && c.enc()[key] == t);
        lemma_decoder_inverse(c, key);
        assert(seq![t][0] == t);
        assert(c.token_bytes(t) == Some(key));
        assert(seq![t].drop_first() =~= Seq::<u32>::empty());
        assert(c.spec_decode(Seq::<u32>::empty()) == Some(Seq::<u8>::empty()));
        assert(c.spec_decode(seq![t]) == Some(key + Seq::<u8>::empty()));
        assert(key + Seq::<u8>::empty() =~= key);
        assert(extends_unstable(c, u, seq![t]));
        lemma_insert_extends(c, u, acc, seq![t]);
        lemma_direct_walk_extends(c, i + 1, u, crate::unstable::insert_completion(acc, seq![t]));
        let r = crate::unstable::direct_completions(c, i, u, acc);
        let r2 = crate::unstable::direct_completions(
            c,
            i + 1,
            u,
            crate::unstable::insert_completion(acc, seq![t]),
        );
        assert(r == r2);
        assert forall|j: int| 0 <= j < r.len() implies extends_unstable(c, u, #[trigger] r[j]) by {
            assert(r[j] == r2[j]);
        }
    } else {
        let r = crate::unstable::direct_completions(c, i, u, acc);
        assert(r == acc);
        assert forall|j: int| 0 <= j < r.len() implies extends_unstable(c, u, #[trigger] r[j]) by {
            assert(r[j] == acc[j]);
        }
    }
}

/// Every completion a split walk adds extends the unstable bytes.
proof fn lemma_split_walk_extends(c: CoreBPE, i: int, u: Seq<u8>, spos: int, acc: Seq<Seq<u32>>)
    requires
        c.wf(),
        crate::segment::seg_total(c.pattern@),
        1 <= spos < u.len(),
        forall|j: int| 0 <= j < acc.len() ==> extends_unstable(c, u, #[trigger] acc[j]),
    ensures
        forall|j: int|
            0 <= j < crate::unstable::split_walk(
                c,
                i,
                u.subrange(0, spos),
                u.subrange(spos, u.len() as int),
                u.len() as int,
                acc,
            ).len() ==> extends_unstable(
                c,
                u,
                #[trigger] crate::unstable::split_walk(
                    c,
                    i,
                    u.subrange(0, spos),
                    u.subrange(spos, u.len() as int),
                    u.len() as int,
                    acc,
                )[j],
            ),
    decreases c.encoder.kv().len() - i + 1,
{
    let kv = c.encoder.kv();
    let prefix = u.subrange(0, spos);
    let suffix = u.subrange(spos, u.len() as int);
    if 0 <= i < kv.len() && crate::bytes::is_prefix(suffix, kv[i].0) {
        let poss = prefix + kv[i].0;
        assert(crate::bytes::is_prefix(u, poss)) by {
            assert(poss.subrange(0, u.len() as int) =~= u) by {
                assert forall|j: int| 0 <= j < u.len() implies poss[j] == u[j] by {
                    if j >= spos {
                        assert(kv[i].0.subrange(0, suffix.len() as int)[j - spos] == kv[i].0[j
                            - spos]);
                        assert(suffix[j - spos] == u[j]);
                    }
                }
            }
        }
        let enc_toks = spec_encode_span(c.enc(), c.pattern@, poss).0;
        assert forall|q: int| 0 <= q < enc_toks.len() implies dec_get(
            c.dec_kv(),
            #[trigger] enc_toks[q],
        ) is Some by {
            crate::unstable::lemma_span_tokens_decodable(c, poss, q);
        }
        lemma_span_decode(c, poss);
        lemma_take_needed_props(c, enc_toks, u.len() as int);
        let kept = crate::unstable::take_needed(c, enc_toks, u.len() as int);
        assert(extends_unstable(c, u, kept)) by {
            assert(c.spec_decode(enc_toks)->0 == poss);
            if c.spec_decode(kept)->0.len() >= u.len() {
                lemma_prefix_of_prefix(u, c.spec_decode(kept)->0, poss);
            } else {
                assert(kept == enc_toks);
            }
        }
        lemma_insert_extends(c, u, acc, kept);
        lemma_split_walk_extends(
            c,
            i + 1,
            u,
            spos,
            crate::unstable::insert_completion(acc, kept),
        );
        let r = crate::unstable::split_walk(c, i, prefix, suffix, u.len() as int, acc);
        let r2 = crate::unstable::split_walk(
            c,
            i + 1,
            prefix,
            suffix,
            u.len() as int,
            crate::unstable::insert_completion(acc, kept),
        );
        assert(r == r2);
        assert forall|j: int| 0 <= j < r.len() implies extends_unstable(c, u, #[trigger] r[j]) by {
            assert(r[j] == r2[j]);
        }
    } else {
        let r = crate::unstable::split_walk(c, i, prefix, suffix, u.len() as int, acc);
        assert(r == acc);
        assert forall|j: int| 0 <= j < r.len() implies extends_unstable(c, u, #[trigger] r[j]) by {
            assert(r[j] == acc[j]);
        }
    }
}

/// Every completion the split scans add extends the unstable bytes.
proof fn lemma_split_loop_extends(c: CoreBPE, u: Seq<u8>, i: int, acc: Seq<Seq<u32>>)
    requires
        c.wf(),
        crate::segment::seg_total(c.pattern@),
        1 <= i,
        forall|j: int| 0 <= j < acc.len() ==> extends_unstable(c, u, #[trigger] acc[j]),
    ensures
        forall|j: int|
            0 <= j < crate::unstable::split_loop(c, u, i, acc).len() ==> extends_unstable(
                c,
                u,
                #[trigger] crate::unstable::split_loop(c, u, i, acc)[j],
            ),
    decreases u.len() - i + 1,
{
    if 1 <= i < u.len() {
        lemma_split_walk_extends(
            c,
            crate::vocab::spec_lower_bound(c.encoder.kv(), u.subrange(i, u.len() as int)),
            u,
            i,
            acc,
        );
        let acc2 = crate::unstable::split_walk(
            c,
            crate::vocab::spec_lower_bound(c.encoder.kv(), u.subrange(i, u.len() as int)),
            u.subrange(0, i),
            u.subrange(i, u.len() as int),
            u.len() as int,
            acc,
        );
        lemma_split_loop_extends(c, u, i + 1, acc2);
        let r = crate::unstable::split_loop(c, u, i, acc);
        let r2 = crate::unstable::split_loop(c, u, i + 1, acc2);
        assert(r == r2);
        assert forall|j: int| 0 <= j < r.len() implies extends_unstable(c, u, #[trigger] r[j]) by {
            assert(r[j] == r2[j]);
        }
    } else {
        let r = crate::unstable::split_loop(c, u, i, acc);
        assert(r == acc);
        assert forall|j: int| 0 <= j < r.len() implies extends_unstable(c, u, #[trigger] r[j]) by {
            assert(r[j] == acc[j]);
        }
    }
}

/// The whitespace-correction completion extends the unstable bytes too.
proof fn lemma_ws_patch_extends(c: CoreBPE, u: Seq<u8>, acc: Seq<Seq<u32>>)
    requires
        c.wf(),
        forall|j: int| 0 <= j < acc.len() ==> extends_unstable(c, u, #[trigger] acc[j]),
    ensures
        forall|j: int|
            0 <= j < crate::unstable::ws_patch(c, u, acc).len() ==> extends_unstable(
                c,
                u,
                #[trigger] crate::unstable::ws_patch(c, u, acc)[j],
            ),
{
    let w = crate::unstable::last_char_width(u);
    if u.len() > 1 && 0 <= w && u.len() - w > 0 && (match crate::unstable::last_char_of(u) {
        Some(ch) => crate::unstable::is_ws_char(ch),
        None => false,
    }) {
        let u1 = u.subrange(0, u.len() - w);
        let u2 = u.subrange(u.len() - w, u.len() as int);
        let re = spec_bpe_tokens(c.enc(), u1) + spec_bpe_tokens(c.enc(), u2);
        lemma_bpe_decode(c, u1);
        lemma_bpe_decode(c, u2);
        lemma_decode_append(c, spec_bpe_tokens(c.enc(), u1), spec_bpe_tokens(c.enc(), u2));
        assert(extends_unstable(c, u, re)) by {
            assert(u1 + u2 =~= u);
            assert(c.spec_decode(re) == Some(u));
            assert(u.subrange(0, u.len() as int) =~= u);
        }
        lemma_insert_extends(c, u, acc, re);
    } else {
        let r = crate::unstable::ws_patch(c, u, acc);
        assert(r == acc);
        assert forall|j: int| 0 <= j < r.len() implies extends_unstable(c, u, #[trigger] r[j]) by {
            assert(r[j] == acc[j]);
        }
    }
}

/// Unstable-suffix completions are sound: every candidate the resolver
/// returns decodes to bytes that the unstable trailing bytes prefix, so each
/// one is a possible continuation of the text seen so far. Needs the
/// covering-segmentation assumption, since straddling candidates are
/// re-tokenized through the pattern.
pub proof fn lemma_completions_extend(c: CoreBPE, text: Seq<u8>)
    requires
        c.wf(),
        crate::segment::seg_total(c.pattern@),
    ensures
        ({
            let full = c.spec_encode_from(text, 0).0;
            let stable = c.spec_unstable(text).0;
            let comps = c.spec_unstable(text).1;
            let tail = full.subrange(stable.len() as int, full.len() as int);
            forall|j: int|
                0 <= j < comps.len() ==> extends_unstable(
                    c,
                    c.spec_decode(tail)->0,
                    #[trigger] comps[j],
                )
        }),
{
    lemma_unstable_consistency(c, text);
    let full = c.spec_encode_from(text, 0).0;
    let ll0 = c.spec_encode_from(text, 0).1;
    let stable = c.spec_unstable(text).0;
    let comps = c.spec_unstable(text).1;
    let tail = full.subrange(stable.len() as int, full.len() as int);
    if ll0 == 0 {
    } else {
        let ll = spec_widened(c, full, ll0);
        lemma_encode_ll(c, text, 0);
        if 0 < ll0 <= full.len() && crate::unstable::token_all_space(c, full[full.len() - ll0]) {
            lemma_widen_le(c, full, ll0);
        }
        assert(0 <= ll <= full.len());
        assert(stable.len() == full.len() - ll);
        assert(tail == full.subrange(full.len() - ll, full.len() as int));
        let u = c.spec_decode(tail)->0;
        if u.len() == 0 {
        } else {
            let acc0 = Seq::<Seq<u32>>::empty();
            lemma_direct_walk_extends(
                c,
                crate::vocab::spec_lower_bound(c.encoder.kv(), u),
                u,
                acc0,
            );
            let acc1 = crate::unstable::direct_completions(
                c,
                crate::vocab::spec_lower_bound(c.encoder.kv(), u),
                u,
                acc0,
            );
            if u.len() > 1 {
                lemma_split_loop_extends(c, u, 1, acc1);
            }
            let acc2 = crate::unstable::split_loop(c, u, 1, acc1);
            lemma_ws_patch_extends(c, u, acc2);
        }
    }
}

/// No completion is listed twice.
pub open spec fn nodup(acc: Seq<Seq<u32>>) -> bool {
    forall|a: int, b: int| 0 <= a < b < acc.len() ==> #[trigger] acc[a] != #[trigger] acc[b]
}

proof fn lemma_insert_nodup(acc: Seq<Seq<u32>>, x: Seq<u32>)
    requires
        nodup(acc),
    ensures
        nodup(crate::unstable::insert_completion(acc, x)),
{
    let r = crate::unstable::insert_completion(acc, x);
    if !acc.contains(x) {
        assert forall|a: int, b: int| 0 <= a < b < r.len() implies #[trigger] r[a]
            != #[trigger] r[b] by {
            if b == acc.len() {
                assert(r[a] == acc[a] && r[b] == x);
                if acc[a] == x {
                    assert(acc.contains(x));
                }
            } else {
                assert(r[a] == acc[a] && r[b] == acc[b]);
            }
        }
    }
}

proof fn lemma_direct_walk_nodup(c: CoreBPE, i: int, u: Seq<u8>, acc: Seq<Seq<u32>>)
    requires
        nodup(acc),
    ensures
        nodup(crate::unstable::direct_completions(c, i, u, acc)),
    decreases c.encoder.kv().len() - i + 1,
{
    let kv = c.encoder.kv();
    if 0 <= i < kv.len() && crate::bytes::is_prefix(u, kv[i].0) {
        lemma_insert_nodup(acc, seq![kv[i].1]);
        lemma_direct_walk_nodup(
            c,
            i + 1,
            u,
            crate::unstable::insert_completion(acc, seq![kv[i].1]),
        );
    }
}

proof fn lemma_split_walk_nodup(
    c: CoreBPE,
    i: int,
    prefix: Seq<u8>,
    suffix: Seq<u8>,
    need: int,
    acc: Seq<Seq<u32>>,
)
    requires
        nodup(acc),
    ensures
        nodup(crate::unstable::split_walk(c, i, prefix, suffix, need, acc)),
    decreases c.encoder.kv().len() - i + 1,
{
    let kv = c.encoder.kv();
    if 0 <= i < kv.len() && crate::bytes::is_prefix(suffix, kv[i].0) {
        let poss = prefix + kv[i].0;
        let kept = crate::unstable::take_needed(
            c,
            spec_encode_span(c.enc(), c.pattern@, poss).0,
            need,
        );
        lemma_insert_nodup(acc, kept);
        lemma_split_walk_nodup(
            c,
            i + 1,
            prefix,
            suffix,
            need,
            crate::unstable::insert_completion(acc, kept),
        );
    }
}

proof fn lemma_split_loop_nodup(c: CoreBPE, u: Seq<u8>, i: int, acc: Seq<Seq<u32>>)
    requires
        nodup(acc),
    ensures
        nodup(crate::unstable::split_loop(c, u, i, acc)),
    decreases u.len() - i + 1,
{
    if 1 <= i < u.len() {
        lemma_split_walk_nodup(
            c,
            crate::vocab::spec_lower_bound(c.encoder.kv(), u.subrange(i, u.len() as int)),
            u.subrange(0, i),
            u.subrange(i, u.len() as int),
            u.len() as int,
            acc,
        );
        lemma_split_loop_nodup(
            c,
            u,
            i + 1,
            crate::unstable::split_walk(
                c,
                crate::vocab::spec_lower_bound(c.encoder.kv(), u.subrange(i, u.len() as int)),
                u.subrange(0, i),
                u.subrange(i, u.len() as int),
                u.len() as int,
                acc,
            ),
        );
    }
}

proof fn lemma_ws_patch_nodup(c: CoreBPE, u: Seq<u8>, acc: Seq<Seq<u32>>)
    requires
        nodup(acc),
    ensures
        nodup(crate::unstable::ws_patch(c, u, acc)),
{
    let w = crate::unstable::last_char_width(u);
    if u.len() > 1 && 0 <= w && u.len() - w > 0 && (match crate::unstable::last_char_of(u) {
        Some(ch) => crate::unstable::is_ws_char(ch),
        None => false,
    }) {
        let re = spec_bpe_tokens(c.enc(), u.subrange(0, u.len() - w)) + spec_bpe_tokens(
            c.enc(),
            u.subrange(u.len() - w, u.len() as int),
        );
        lemma_insert_nodup(acc, re);
    }
}

/// The resolver's completion list is a set: no candidate appears twice.
pub proof fn lemma_completions_nodup(c: CoreBPE, text: Seq<u8>)
    ensures
        nodup(c.spec_unstable(text).1),
{
    let full = c.spec_encode_from(text, 0).0;
    let ll0 = c.spec_encode_from(text, 0).1;
    if ll0 != 0 {
        let ll = spec_widened(c, full, ll0);
        let tail = full.subrange(full.len() - ll, full.len() as int);
        let u = match c.spec_decode(tail) {
            Some(b) => b,
            None => Seq::<u8>::empty(),
        };
        if u.len() != 0 {
            let acc0 = Seq::<Seq<u32>>::empty();
            lemma_direct_walk_nodup(
                c,
                crate::vocab::spec_lower_bound(c.encoder.kv(), u),
                u,
                acc0,
            );
            let acc1 = crate::unstable::direct_completions(
                c,
                crate::vocab::spec_lower_bound(c.encoder.kv(), u),
                u,
                acc0,
            );
            lemma_split_loop_nodup(c, u, 1, acc1);
            lemma_ws_patch_nodup(c, u, crate::unstable::split_loop(c, u, 1, acc1));
        }
    }
}

} // verus!
