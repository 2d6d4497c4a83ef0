//! The codec: owns the vocabulary, the special-token table with its inverse,
//! and the segmentation pattern, and exposes construction, encoding and
//! decoding.
use vstd::prelude::*;

use crate::bytes::bytes_eq;
use crate::segment::{regex_new_ok, regex_ok};
use crate::vocab::{last_value, lemma_spec_get_at, spec_get, spec_get_opt, Vocab};

verus! {

/// The rank mapping that a pair list denotes, later pairs overwriting
/// earlier ones.
pub open spec fn enc_map_of(pairs: Seq<(Seq<u8>, u32)>) -> Map<Seq<u8>, u32> {
    Map::new(|k: Seq<u8>| last_value(pairs, k) is Some, |k: Seq<u8>| last_value(pairs, k)->0)
}

/// No two keys share a rank.
pub open spec fn ranks_unique(m: Map<Seq<u8>, u32>) -> bool {
    forall|k1: Seq<u8>, k2: Seq<u8>|
        m.contains_key(k1) && m.contains_key(k2) && m[k1] == m[k2] ==> k1 == k2
}

/// Every single-byte sequence has a rank.
pub open spec fn byte_coverage(m: Map<Seq<u8>, u32>) -> bool {
    forall|b: u8| #[trigger] m.contains_key(seq![b])
}

/// Every special-token literal encodes to at least one byte.
pub open spec fn specials_nonempty(sp_in: Seq<(Seq<char>, u32)>) -> bool {
    forall|i: int|
        0 <= i < sp_in.len() ==> vstd::utf8::encode_utf8(#[trigger] sp_in[i].0).len() > 0
}

/// Replaces the rank of key `k` in place, or appends the pair when the key
/// is new.
pub open spec fn upsert(acc: Seq<(Seq<u8>, u32)>, k: Seq<u8>, v: u32) -> Seq<(Seq<u8>, u32)>
    decreases acc.len(),
{
    if acc.len() == 0 {
        seq![(k, v)]
    } else if acc[0].0 == k {
        seq![(k, v)] + acc.drop_first()
    } else {
        seq![acc[0]] + upsert(acc.drop_first(), k, v)
    }
}

/// The special-token table that an input list denotes: literals in first
/// appearance order, a repeated literal keeping its place with the later
/// rank.
pub open spec fn spec_specials(inp: Seq<(Seq<char>, u32)>) -> Seq<(Seq<u8>, u32)>
    decreases inp.len(),
{
    if inp.len() == 0 {
        Seq::empty()
    } else {
        upsert(
            spec_specials(inp.drop_last()),
            vstd::utf8::encode_utf8(inp.last().0),
            inp.last().1,
        )
    }
}

/// First-match lookup of a rank in the decoder list.
pub open spec fn dec_get(s: Seq<(u32, Seq<u8>)>, t: u32) -> Option<Seq<u8>>
    decreases s.len(),
{
    if s.len() == 0 {
        None
    } else if s[0].0 == t {
        Some(s[0].1)
    } else {
        dec_get(s.drop_first(), t)
    }
}

/// Last-match lookup of a rank in the special table: the inverse special
/// decoder, later entries overwriting earlier ones.
pub open spec fn sp_dec_get(sp: Seq<(Seq<u8>, u32)>, t: u32) -> Option<Seq<u8>>
    decreases sp.len(),
{
    if sp.len() == 0 {
        None
    } else if sp.last().1 == t {
        Some(sp.last().0)
    } else {
        sp_dec_get(sp.drop_last(), t)
    }
}

pub struct CoreBPE {
    pub encoder: Vocab,
    pub specials: Vec<(Vec<u8>, u32)>,
    pub decoder: Vec<(u32, Vec<u8>)>,
    pub pattern: String,
}

impl CoreBPE {
    /// The ordinary rank mapping.
    pub open spec fn enc(self) -> Map<Seq<u8>, u32> {
        self.encoder.as_map()
    }

    /// The special-token table: literal bytes with their ranks, in order.
    pub open spec fn sp(self) -> Seq<(Seq<u8>, u32)> {
        self.specials@.map_values(|p: (Vec<u8>, u32)| (p.0@, p.1))
    }

    /// The decoder entries: rank to token bytes.
    pub open spec fn dec_kv(self) -> Seq<(u32, Seq<u8>)> {
        self.decoder@.map_values(|p: (u32, Vec<u8>)| (p.0, p.1@))
    }

    /// Internal consistency: the vocabulary index is sorted; the decoder
    /// mirrors the vocabulary entries with unique ranks; every single byte
    /// has a rank; special literals are nonempty and listed once each.
    pub open spec fn wf(self) -> bool {
        &&& self.encoder.wf()
        &&& self.dec_kv() == self.encoder.kv().map_values(|p: (Seq<u8>, u32)| (p.1, p.0))
        &&& forall|i: int, j: int|
            0 <= i < j < self.dec_kv().len() ==> #[trigger] self.dec_kv()[i].0
                != #[trigger] self.dec_kv()[j].0
        &&& byte_coverage(self.enc())
        &&& forall|i: int| 0 <= i < self.sp().len() ==> (#[trigger] self.sp()[i].0).len() >= 1
        &&& forall|i: int, j: int|
            0 <= i < j < self.sp().len() ==> #[trigger] self.sp()[i].0 != #[trigger] self.sp()[
                j
            ].0
    }

    /// The byte sequence a rank decodes to: the ordinary decoder first, then
    /// the special decoder.
    pub open spec fn token_bytes(self, t: u32) -> Option<Seq<u8>> {
        match dec_get(self.dec_kv(), t) {
            Some(b) => Some(b),
            None => sp_dec_get(self.sp(), t),
        }
    }
}

/// `spec_get` answers are witnessed by an entry.
pub proof fn lemma_spec_get_index(s: Seq<(Seq<u8>, u32)>, k: Seq<u8>)
    requires
        spec_get(s, k) is Some,
    ensures
        exists|j: int| 0 <= j < s.len() && s[j] == (k, spec_get(s, k)->0),
    decreases s.len(),
{
    if s.len() > 0 {
        if s[0].0 == k {
            assert(s[0] == (k, spec_get(s, k)->0));
        } else {
            lemma_spec_get_index(s.drop_first(), k);
            let j0 = choose|j: int|
                0 <= j < s.drop_first().len() && s.drop_first()[j] == (
                    k,
                    spec_get(s.drop_first(), k)->0,
                );
            assert(s[j0 + 1] == (k, spec_get(s, k)->0));
        }
    }
}

/// In a decoder that mirrors the vocabulary entries with unique ranks, the
/// rank of any vocabulary key decodes back to that key.
pub proof fn lemma_decoder_inverse(c: CoreBPE, k: Seq<u8>)
    requires
        c.wf(),
        c.enc().contains_key(k),
    ensures
        dec_get(c.dec_kv(), c.enc()[k]) == Some(k),
{
    lemma_spec_get_index(c.encoder.kv(), k);
    let j = choose|j: int|
        0 <= j < c.encoder.kv().len() && c.encoder.kv()[j] == (k, spec_get(c.encoder.kv(), k)->0);
    assert(c.dec_kv()[j] == (c.enc()[k], k));
    lemma_dec_get_at(c.dec_kv(), c.enc()[k], j);
}

/// With unique ranks, a match at any index is what `dec_get` returns.
pub proof fn lemma_dec_get_at(s: Seq<(u32, Seq<u8>)>, t: u32, j: int)
    requires
        0 <= j < s.len(),
        s[j].0 == t,
        forall|a: int, b: int| 0 <= a < b < s.len() ==> #[trigger] s[a].0 != #[trigger] s[b].0,
    ensures
        dec_get(s, t) == Some(s[j].1),
    decreases s.len(),
{
    if j == 0 {
    } else {
        assert(s[0].0 != t);
        assert forall|a: int, b: int|
            0 <= a < b < s.drop_first().len() implies #[trigger] s.drop_first()[a].0
            != #[trigger] s.drop_first()[b].0 by {
            assert(s.drop_first()[a] == s[a + 1]);
            assert(s.drop_first()[b] == s[b + 1]);
        }
        assert(s.drop_first()[j - 1] == s[j]);
        lemma_dec_get_at(s.drop_first(), t, j - 1);
    }
}

/// A rank no entry holds decodes to nothing.
pub proof fn lemma_dec_get_absent(s: Seq<(u32, Seq<u8>)>, t: u32)
    requires
        forall|i: int| 0 <= i < s.len() ==> (#[trigger] s[i]).0 != t,
    ensures
        dec_get(s, t) is None,
    decreases s.len(),
{
    if s.len() > 0 {
        assert forall|i: int| 0 <= i < s.drop_first().len() implies (#[trigger] s.drop_first()[
            i
        ]).0 != t by {
            assert(s.drop_first()[i] == s[i + 1]);
        }
        lemma_dec_get_absent(s.drop_first(), t);
    }
}

/// Upserting a key present at index `idx` (keys unique) updates that entry.
proof fn lemma_upsert_update(acc: Seq<(Seq<u8>, u32)>, idx: int, v: u32)
    requires
        0 <= idx < acc.len(),
        forall|a: int, b: int| 0 <= a < b < acc.len() ==> #[trigger] acc[a].0 != #[trigger] acc[
            b
        ].0,
    ensures
        upsert(acc, acc[idx].0, v) == acc.update(idx, (acc[idx].0, v)),
    decreases acc.len(),
{
    let k = acc[idx].0;
    if idx == 0 {
        assert(upsert(acc, k, v) =~= acc.update(0, (k, v)));
    } else {
        assert(acc[0].0 != k);
        assert forall|a: int, b: int|
            0 <= a < b < acc.drop_first().len() implies #[trigger] acc.drop_first()[a].0
            != #[trigger] acc.drop_first()[b].0 by {
            assert(acc.drop_first()[a] == acc[a + 1]);
            assert(acc.drop_first()[b] == acc[b + 1]);
        }
        assert(acc.drop_first()[idx - 1] == acc[idx]);
        lemma_upsert_update(acc.drop_first(), idx - 1, v);
        assert(upsert(acc, k, v) =~= acc.update(idx, (k, v))) by {
            assert(upsert(acc.drop_first(), k, v) == acc.drop_first().update(idx - 1, (k, v)));
            assert forall|j: int| 0 <= j < acc.len() implies (seq![acc[0]] + upsert(
                acc.drop_first(),
                k,
                v,
            ))[j] == acc.update(idx, (k, v))[j] by {
                if j > 0 {
                    assert(acc.drop_first().update(idx - 1, (k, v))[j - 1] == acc.update(
                        idx,
                        (k, v),
                    )[j]);
                }
            }
        }
    }
}

/// Upserting an absent key appends it.
proof fn lemma_upsert_append(acc: Seq<(Seq<u8>, u32)>, k: Seq<u8>, v: u32)
    requires
        forall|i: int| 0 <= i < acc.len() ==> (#[trigger] acc[i]).0 != k,
    ensures
        upsert(acc, k, v) == acc.push((k, v)),
    decreases acc.len(),
{
    if acc.len() == 0 {
        assert(upsert(acc, k, v) =~= acc.push((k, v)));
    } else {
        assert forall|i: int| 0 <= i < acc.drop_first().len() implies (#[trigger] acc.drop_first()[
            i
        ]).0 != k by {
            assert(acc.drop_first()[i] == acc[i + 1]);
        }
        lemma_upsert_append(acc.drop_first(), k, v);
        assert(upsert(acc, k, v) =~= acc.push((k, v))) by {
            assert forall|j: int| 0 <= j < acc.len() + 1 implies (seq![acc[0]] + upsert(
                acc.drop_first(),
                k,
                v,
            ))[j] == acc.push((k, v))[j] by {
                if j > 0 {
                    assert(acc.drop_first().push((k, v))[j - 1] == acc.push((k, v))[j]);
                }
            }
        }
    }
}

impl CoreBPE {
    /// Builds a codec from vocabulary pairs, special tokens and the
    /// segmentation pattern. Construction fails when the pattern does not
    /// compile, when two vocabulary keys share a rank (a corrupted table),
    /// when some single-byte token is missing, or when a special-token
    /// literal is empty.
    pub fn new(
        encoder: Vec<(Vec<u8>, u32)>,
        special_tokens_encoder: Vec<(String, u32)>,
        pattern: &str,
    ) -> (r: Result<CoreBPE, String>)
        ensures
            (r matches Ok(c) ==> c.wf() && c.enc() == enc_map_of(encoder.deep_view()) && c.sp()
                == spec_specials(special_tokens_encoder.deep_view()) && c.pattern@ == pattern@),
            (r is Ok) <==> (regex_ok(pattern@) && ranks_unique(enc_map_of(encoder.deep_view()))
                && byte_coverage(enc_map_of(encoder.deep_view())) && specials_nonempty(
                special_tokens_encoder.deep_view(),
            )),
    {
        let ghost em = enc_map_of(encoder.deep_view());
        if !regex_new_ok(pattern) {
            return Err("invalid segmentation pattern".to_owned());
        }
        let vocab = Vocab::from_pairs(&encoder);
        proof {
            assert(vocab.as_map().dom() =~= em.dom()) by {
                assert forall|k: Seq<u8>|
                    #![trigger vocab.as_map().dom().contains(k), em.dom().contains(k)]
                    vocab.as_map().dom().contains(k) == em.dom().contains(k) by {
                    assert(vocab.rank_of(k) == last_value(encoder.deep_view(), k));
                    assert(vocab.as_map().dom().contains(k) == (spec_get(vocab.kv(), k) is Some));
                    assert(em.dom().contains(k) == (last_value(encoder.deep_view(), k) is Some));
                }
            }
            assert(vocab.as_map() =~= em) by {
                assert forall|k: Seq<u8>| #[trigger]
                    vocab.as_map().dom().contains(k) implies vocab.as_map()[k] == em[k] by {
                    assert(vocab.rank_of(k) == last_value(encoder.deep_view(), k));
                    assert(vocab.as_map()[k] == spec_get(vocab.kv(), k)->0);
                    assert(em[k] == last_value(encoder.deep_view(), k)->0);
                }
            }
        }
        // Every single byte must resolve, or later encoding could not be
        // total over arbitrary byte pieces.
        let mut bv: usize = 0;
        while bv < 256
            invariant
                0 <= bv <= 256,
                vocab.wf(),
                vocab.as_map() == em,
                em == enc_map_of(encoder.deep_view()),
                forall|b: u8| b < bv ==> #[trigger] em.contains_key(seq![b]),
            decreases 256 - bv,
        {
            let mut key: Vec<u8> = Vec::new();
            key.push(bv as u8);
            proof {
                assert(key@ =~= seq![bv as u8]);
            }
            match vocab.get(key.as_slice()) {
                Some(_) => {},
                None => {
                    proof {
                        assert(!em.contains_key(seq![bv as u8]));
                    }
                    return Err("vocabulary is missing a single-byte token".to_owned());
                },
            }
            bv = bv + 1;
        }
        proof {
            assert(byte_coverage(em)) by {
                assert forall|b: u8| #[trigger] em.contains_key(seq![b]) by {
                    assert(b < 256);
                }
            }
        }
        // Build the inverse decoder; a rank seen twice means the vocabulary
        // is corrupted.
        let mut decoder: Vec<(u32, Vec<u8>)> = Vec::new();
        let mut i: usize = 0;
        let ghost kv = vocab.kv();
        while i < vocab.count()
            invariant
                0 <= i <= kv.len(),
                vocab.wf(),
                vocab.as_map() == em,
                em == enc_map_of(encoder.deep_view()),
                kv == vocab.kv(),
                decoder@.len() == i,
                forall|a: int, b: int| 0 <= a < b < i ==> #[trigger] kv[a].1 != #[trigger] kv[b].1,
                forall|j: int|
                    0 <= j < i ==> (#[trigger] decoder@[j]).0 == kv[j].1 && decoder@[j].1@
                        == kv[j].0,
            decreases kv.len() - i,
        {
            let rank = vocab.rank_at(i);
            // A duplicate rank would make decoding ambiguous.
            let mut j: usize = 0;
            while j < decoder.len()
                invariant
                    0 <= j <= decoder@.len(),
                    decoder@.len() == i,
                    i < kv.len(),
                    vocab.wf(),
                    vocab.as_map() == em,
                    em == enc_map_of(encoder.deep_view()),
                    kv == vocab.kv(),
                    rank == kv[i as int].1,
                    forall|q: int|
                        0 <= q < i ==> (#[trigger] decoder@[q]).0 == kv[q].1 && decoder@[q].1@
                            == kv[q].0,
                    forall|q: int| 0 <= q < j ==> #[trigger] kv[q].1 != rank,
                decreases decoder@.len() - j,
            {
                if decoder[j].0 == rank {
                    proof {
                        assert forall|a: int, b: int|
                            0 <= a < b < kv.len() implies crate::bytes::lex_lt(
                            kv[a].0,
                            kv[b].0,
                        ) by {
                            assert(crate::bytes::lex_lt(vocab.kv()[a].0, vocab.kv()[b].0));
                        }
                        assert(kv[j as int].1 == kv[i as int].1);
                        assert(crate::bytes::lex_lt(kv[j as int].0, kv[i as int].0));
                        assert(kv[j as int].0 != kv[i as int].0) by {
                            crate::bytes::lemma_lex_irrefl(kv[j as int].0);
                        }
                        lemma_spec_get_at(kv, kv[j as int].0, j as int);
                        lemma_spec_get_at(kv, kv[i as int].0, i as int);
                        vocab.lemma_rank_of_as_map(kv[j as int].0);
                        vocab.lemma_rank_of_as_map(kv[i as int].0);
                        assert(em.contains_key(kv[j as int].0) && em.contains_key(
                            kv[i as int].0,
                        ));
                        assert(em[kv[j as int].0] == em[kv[i as int].0]);
                        assert(!ranks_unique(em));
                    }
                    return Err("corrupted vocabulary: duplicate rank".to_owned());
                }
                j = j + 1;
            }
            let key = vstd::slice::slice_to_vec(vocab.key_at(i).as_slice());
            let ghost pre = decoder@;
            decoder.push((rank, key));
            proof {
                assert forall|q: int|
                    0 <= q < i + 1 implies (#[trigger] decoder@[q]).0 == kv[q].1 && decoder@[q].1@
                        == kv[q].0 by {
                    if q < i {
                        assert(decoder@[q] == pre[q]);
                    }
                }
                assert forall|a: int, b: int|
                    0 <= a < b < i + 1 implies #[trigger] kv[a].1 != #[trigger] kv[b].1 by {
                    if b == i {
                        assert(kv[a].1 != kv[i as int].1);
                    }
                }
            }
            i = i + 1;
        }
        proof {
            assert(ranks_unique(em)) by {
                assert forall|k1: Seq<u8>, k2: Seq<u8>|
                    em.contains_key(k1) && em.contains_key(k2) && em[k1] == em[k2] implies k1
                    == k2 by {
                    vocab.lemma_rank_of_as_map(k1);
                    vocab.lemma_rank_of_as_map(k2);
                    lemma_spec_get_index(kv, k1);
                    lemma_spec_get_index(kv, k2);
                    let j1 = choose|j: int| 0 <= j < kv.len() && kv[j] == (k1, spec_get(kv, k1)->0);
                    let j2 = choose|j: int| 0 <= j < kv.len() && kv[j] == (k2, spec_get(kv, k2)->0);
                    if j1 != j2 {
                        assert(kv[j1].1 != kv[j2].1);
                        assert(kv[j1].1 == em[k1] && kv[j2].1 == em[k2]);
                        assert(false);
                    } else {
                        assert(k1 == k2);
                    }
                }
            }
        }
        // The special tokens, in first appearance order; a repeated literal
        // keeps its place and takes the later rank; an empty literal could
        // never be matched and is refused.
        let mut specials: Vec<(Vec<u8>, u32)> = Vec::new();
        let mut i: usize = 0;
        let ghost spin = special_tokens_encoder.deep_view();
        proof {
            assert(spec_specials(spin.take(0)) =~= Seq::<(Seq<u8>, u32)>::empty());
            assert(specials@.map_values(|p: (Vec<u8>, u32)| (p.0@, p.1)) =~= Seq::<(
                Seq<u8>,
                u32,
            )>::empty());
        }
        while i < special_tokens_encoder.len()
            invariant
                0 <= i <= spin.len(),
                spin == special_tokens_encoder.deep_view(),
                spin.len() == special_tokens_encoder@.len(),
                specials@.map_values(|p: (Vec<u8>, u32)| (p.0@, p.1)) == spec_specials(
                    spin.take(i as int),
                ),
                forall|j: int|
                    0 <= j < i ==> vstd::utf8::encode_utf8(#[trigger] spin[j].0).len() > 0,
                forall|a: int, b: int|
                    0 <= a < b < specials@.len() ==> (#[trigger] specials@[a]).0@
                        != (#[trigger] specials@[b]).0@,
                forall|a: int| 0 <= a < specials@.len() ==> (#[trigger] specials@[a]).0@.len() >= 1,
            decreases spin.len() - i,
        {
            let ghost acc = specials@.map_values(|p: (Vec<u8>, u32)| (p.0@, p.1));
            let lit = special_tokens_encoder[i].0.as_str().as_bytes();
            let rank = special_tokens_encoder[i].1;
            proof {
                assert(spin[i as int] == (special_tokens_encoder@[i as int].0@,
                special_tokens_encoder@[i as int].1));
                assert(lit@ == vstd::utf8::encode_utf8(spin[i as int].0));
            }
            if lit.len() == 0 {
                proof {
                    assert(!specials_nonempty(spin));
                }
                return Err("empty special token literal".to_owned());
            }
            // Replace in place when the literal is already listed.
            let mut at: usize = 0;
            let mut found: bool = false;
            while at < specials.len() && !found
                invariant
                    0 <= at <= specials@.len(),
                    acc == specials@.map_values(|p: (Vec<u8>, u32)| (p.0@, p.1)),
                    !found ==> forall|q: int| 0 <= q < at ==> (#[trigger] acc[q]).0 != lit@,
                    found ==> at < specials@.len() && acc[at as int].0 == lit@,
                    acc.len() == specials@.len(),
                    forall|q: int| 0 <= q < acc.len() ==> #[trigger] acc[q] == (specials@[q].0@,
                    specials@[q].1),
                decreases specials@.len() - at + (if found {
                    0int
                } else {
                    1int
                }),
            {
                if bytes_eq(specials[at].0.as_slice(), lit) {
                    found = true;
                } else {
                    at = at + 1;
                }
            }
            let ghost new_acc = upsert(acc, lit@, rank);
            if found {
                let kb = vstd::slice::slice_to_vec(specials[at].0.as_slice());
                let ghost pre = specials@;
                specials[at] = (kb, rank);
                proof {
                    lemma_upsert_update(acc, at as int, rank);
                    assert(specials@.map_values(|p: (Vec<u8>, u32)| (p.0@, p.1)) =~= acc.update(
                        at as int,
                        (lit@, rank),
                    ));
                }
            } else {
                let kb = vstd::slice::slice_to_vec(lit);
                let ghost pre = specials@;
                specials.push((kb, rank));
                proof {
                    lemma_upsert_append(acc, lit@, rank);
                    assert(specials@.map_values(|p: (Vec<u8>, u32)| (p.0@, p.1)) =~= acc.push(
                        (lit@, rank),
                    )) by {
                        assert forall|q: int|
                            0 <= q < specials@.len() implies specials@.map_values(
                            |p: (Vec<u8>, u32)| (p.0@, p.1),
                        )[q] == #[trigger] acc.push((lit@, rank))[q] by {
                            if q < pre.len() {
                                assert(specials@[q] == pre[q]);
                                assert(pre.map_values(|p: (Vec<u8>, u32)| (p.0@, p.1))[q] == acc[q]);
                            }
                        }
                    }
                }
            }
            proof {
                assert(spin.take(i + 1).drop_last() =~= spin.take(i as int));
                assert(spin.take(i + 1).last() == spin[i as int]);
                let cur = specials@.map_values(|p: (Vec<u8>, u32)| (p.0@, p.1));
                assert(cur == spec_specials(spin.take(i + 1)));
                assert forall|a: int, b: int|
                    0 <= a < b < specials@.len() implies (#[trigger] specials@[a]).0@
                    != (#[trigger] specials@[b]).0@ by {
                    assert(cur[a] == (specials@[a].0@, specials@[a].1));
                    assert(cur[b] == (specials@[b].0@, specials@[b].1));
                    if found {
                        assert(cur =~= acc.update(at as int, (lit@, rank)));
                    }
                }
                assert forall|a: int|
                    0 <= a < specials@.len() implies (#[trigger] specials@[a]).0@.len() >= 1 by {
                    assert(cur[a] == (specials@[a].0@, specials@[a].1));
                    if found {
                        assert(cur =~= acc.update(at as int, (lit@, rank)));
                    }
                }
            }
            i = i + 1;
        }
        proof {
            assert(spin.take(spin.len() as int) =~= spin);
        }
        let c = CoreBPE { encoder: vocab, specials, decoder, pattern: pattern.to_owned() };
        proof {
            assert(c.dec_kv() =~= c.encoder.kv().map_values(|p: (Seq<u8>, u32)| (p.1, p.0)));
            assert forall|a: int, b: int|
                0 <= a < b < c.dec_kv().len() implies #[trigger] c.dec_kv()[a].0
                != #[trigger] c.dec_kv()[b].0 by {
                assert(c.dec_kv()[a] == (kv[a].1, kv[a].0));
                assert(c.dec_kv()[b] == (kv[b].1, kv[b].0));
                assert(kv[a].1 != kv[b].1);
            }
        }
        Ok(c)
    }
}

/// A literal occurs at byte position `pos` of the text.
pub open spec fn is_match_at(lit: Seq<u8>, text: Seq<u8>, pos: int) -> bool {
    0 <= pos && pos + lit.len() <= text.len() && text.subrange(pos, pos + lit.len()) == lit
}

/// The first listed special literal matching at `pos`, scanning the table
/// from entry `i` on.
pub open spec fn match_from(sp: Seq<(Seq<u8>, u32)>, text: Seq<u8>, pos: int, i: int) -> Option<
    int,
>
    decreases sp.len() - i + 1,
{
    if !(0 <= i < sp.len()) {
        None
    } else if is_match_at(sp[i].0, text, pos) {
        Some(i)
    } else {
        match_from(sp, text, pos, i + 1)
    }
}

/// The leftmost occurrence of any special literal at or after `pos`; at one
/// position the first listed literal wins. Returns the position and the
/// literal's index.
pub open spec fn next_special(sp: Seq<(Seq<u8>, u32)>, text: Seq<u8>, pos: int) -> Option<
    (int, int),
>
    decreases text.len() - pos + 1,
{
    if !(0 <= pos <= text.len()) {
        None
    } else {
        match match_from(sp, text, pos, 0) {
            Some(i) => Some((pos, i)),
            None => if pos == text.len() {
                None
            } else {
                next_special(sp, text, pos + 1)
            },
        }
    }
}

/// The tokens of one piece: its own rank when the piece is a vocabulary key,
/// else the pair merge of its bytes.
pub open spec fn spec_encode_piece(m: Map<Seq<u8>, u32>, piece: Seq<u8>) -> Seq<u32> {
    if m.contains_key(piece) {
        seq![m[piece]]
    } else {
        crate::merge::spec_bpe_tokens(m, piece)
    }
}

/// The tokens of a piece list, in order.
pub open spec fn spec_encode_pieces(m: Map<Seq<u8>, u32>, ps: Seq<Seq<u8>>) -> Seq<u32>
    decreases ps.len(),
{
    if ps.len() == 0 {
        Seq::empty()
    } else {
        spec_encode_piece(m, ps[0]) + spec_encode_pieces(m, ps.drop_first())
    }
}

/// The tokens of one ordinary span between special tokens, with the token
/// count of the span's last piece. When the pattern segments the span, each
/// piece is encoded on its own; when the segmentation is unavailable (the
/// span is not valid UTF-8, or the match engine fails), the whole span goes
/// through the pair merge as one piece.
pub open spec fn spec_encode_span(m: Map<Seq<u8>, u32>, pat: Seq<char>, span: Seq<u8>) -> (
    Seq<u32>,
    int,
) {
    if vstd::utf8::valid_utf8(span) && crate::segment::seg_pieces_of(pat, span) is Some {
        let ps = crate::segment::seg_pieces_of(pat, span)->0;
        (
            spec_encode_pieces(m, ps),
            if ps.len() == 0 {
                0int
            } else {
                spec_encode_piece(m, ps.last()).len() as int
            },
        )
    } else {
        let t = crate::merge::spec_bpe_tokens(m, span);
        (t, t.len() as int)
    }
}

/// Appending one more piece appends its tokens.
pub proof fn lemma_encode_pieces_snoc(m: Map<Seq<u8>, u32>, ps: Seq<Seq<u8>>, k: int)
    requires
        0 <= k < ps.len(),
    ensures
        spec_encode_pieces(m, ps.take(k + 1)) == spec_encode_pieces(m, ps.take(k))
            + spec_encode_piece(m, ps[k]),
    decreases k,
{
    if k == 0 {
        assert(ps.take(1)[0] == ps[0]);
        assert(ps.take(1).drop_first() =~= ps.take(0));
        assert(spec_encode_pieces(m, ps.take(0)) =~= Seq::<u32>::empty());
        assert(spec_encode_pieces(m, ps.take(1)) =~= spec_encode_piece(m, ps[0]));
    } else {
        lemma_encode_pieces_snoc(m, ps.drop_first(), k - 1);
        assert(ps.take(k + 1)[0] == ps[0]);
        assert(ps.take(k)[0] == ps[0]);
        assert(ps.take(k + 1).drop_first() =~= ps.drop_first().take(k));
        assert(ps.take(k).drop_first() =~= ps.drop_first().take(k - 1));
        assert(ps.drop_first()[k - 1] == ps[k]);
        assert(spec_encode_pieces(m, ps.take(k)) + spec_encode_piece(m, ps[k])
            =~= spec_encode_piece(m, ps[0]) + (spec_encode_pieces(m, ps.drop_first().take(k - 1))
            + spec_encode_piece(m, ps[k])));
    }
}

impl CoreBPE {
    /// The tokens and final last-piece count of encoding the text bytes from
    /// position `pos` on: ordinary spans between special-token occurrences
    /// are segmented and merged, each special occurrence emits its own rank
    /// and resets the last-piece count.
    pub open spec fn spec_encode_from(self, text: Seq<u8>, pos: int) -> (Seq<u32>, int)
        decreases text.len() - pos + 1,
    {
        if !(0 <= pos <= text.len()) {
            (Seq::empty(), 0int)
        } else {
            match next_special(self.sp(), text, pos) {
                None => spec_encode_span(
                    self.enc(),
                    self.pattern@,
                    text.subrange(pos, text.len() as int),
                ),
                Some(si) => {
                    let head = spec_encode_span(
                        self.enc(),
                        self.pattern@,
                        text.subrange(pos, si.0),
                    );
                    let step = si.0 + self.sp()[si.1].0.len();
                    // A well-formed table has no empty literal and a match
                    // ends within the text, so the clamped branches never
                    // apply; they only keep the recursion well founded.
                    let nxt = if step <= pos {
                        pos + 1
                    } else if step > text.len() {
                        text.len() as int + 1
                    } else {
                        step
                    };
                    let rest = self.spec_encode_from(text, nxt);
                    (head.0 + seq![self.sp()[si.1].1] + rest.0, rest.1)
                },
            }
        }
    }

    /// The token sequence of the whole text.
    pub open spec fn spec_encode(self, text: Seq<u8>) -> Seq<u32> {
        self.spec_encode_from(text, 0).0
    }

    /// The bytes a token sequence decodes to: each rank resolved through the
    /// ordinary decoder, then the special decoder; a rank found in neither
    /// fails the whole call.
    pub open spec fn spec_decode(self, toks: Seq<u32>) -> Option<Seq<u8>>
        decreases toks.len(),
    {
        if toks.len() == 0 {
            Some(Seq::empty())
        } else {
            match self.token_bytes(toks[0]) {
                None => None,
                Some(b) => match self.spec_decode(toks.drop_first()) {
                    None => None,
                    Some(rest) => Some(b + rest),
                },
            }
        }
    }

    /// Resolves one rank to its bytes: the ordinary decoder first, then the
    /// special decoder.
    pub fn lookup_token(&self, t: u32) -> (r: Option<Vec<u8>>)
        ensures
            match r {
                Some(v) => self.token_bytes(t) == Some(v@),
                None => self.token_bytes(t) is None,
            },
    {
        let mut i: usize = 0;
        while i < self.decoder.len()
            invariant
                0 <= i <= self.dec_kv().len(),
                forall|j: int| 0 <= j < i ==> (#[trigger] self.dec_kv()[j]).0 != t,
            decreases self.dec_kv().len() - i,
        {
            if self.decoder[i].0 == t {
                proof {
                    lemma_dec_get_first(self.dec_kv(), t, i as int);
                }
                return Some(vstd::slice::slice_to_vec(self.decoder[i].1.as_slice()));
            }
            i = i + 1;
        }
        proof {
            lemma_dec_get_absent(self.dec_kv(), t);
            assert(self.sp().take(self.sp().len() as int) =~= self.sp());
        }
        let mut k: usize = self.specials.len();
        while k > 0
            invariant
                0 <= k <= self.sp().len(),
                dec_get(self.dec_kv(), t) is None,
                sp_dec_get(self.sp(), t) == sp_dec_get(self.sp().take(k as int), t),
            decreases k,
        {
            k = k - 1;
            proof {
                assert(self.sp().take(k + 1).last() == self.sp()[k as int]);
                assert(self.sp().take(k + 1).drop_last() =~= self.sp().take(k as int));
            }
            if self.specials[k].1 == t {
                return Some(vstd::slice::slice_to_vec(self.specials[k].0.as_slice()));
            }
        }
        proof {
            assert(self.sp().take(0) =~= Seq::<(Seq<u8>, u32)>::empty());
        }
        None
    }

    /// Decodes a token sequence to bytes; a rank in neither decoder is an
    /// error, and nothing partial is returned.
    pub fn decode(&self, tokens: &[u32]) -> (r: Result<Vec<u8>, String>)
        ensures
            (r is Ok) <==> self.spec_decode(tokens@) is Some,
            (r matches Ok(v) ==> Some(v@) == self.spec_decode(tokens@)),
    {
        let mut out: Vec<u8> = Vec::new();
        let mut i: usize = 0;
        proof {
            assert(tokens@.skip(0) =~= tokens@);
        }
        while i < tokens.len()
            invariant
                0 <= i <= tokens@.len(),
                match self.spec_decode(tokens@.skip(i as int)) {
                    Some(rest) => self.spec_decode(tokens@) == Some(out@ + rest),
                    None => self.spec_decode(tokens@) is None,
                },
            decreases tokens@.len() - i,
        {
            let ghost pre = out@;
            match self.lookup_token(tokens[i]) {
                Some(mut b) => {
                    let ghost bv = b@;
                    out.append(&mut b);
                    proof {
                        assert(tokens@.skip(i as int)[0] == tokens@[i as int]);
                        assert(tokens@.skip(i as int).drop_first() =~= tokens@.skip(i + 1));
                        match self.spec_decode(tokens@.skip(i + 1)) {
                            Some(rest) => {
                                assert(pre + (bv + rest) =~= (pre + bv) + rest);
                            },
                            None => {},
                        }
                    }
                },
                None => {
                    proof {
                        assert(tokens@.skip(i as int)[0] == tokens@[i as int]);
                        assert(self.spec_decode(tokens@.skip(i as int)) is None);
                    }
                    return Err("token not found in any decoder".to_owned());
                },
            }
            i = i + 1;
        }
        proof {
            assert(tokens@.skip(tokens@.len() as int) =~= Seq::<u32>::empty());
            assert(out@ + Seq::<u8>::empty() =~= out@);
        }
        Ok(out)
    }
}

/// A match at the first occurrence is what `dec_get` returns.
pub proof fn lemma_dec_get_first(s: Seq<(u32, Seq<u8>)>, t: u32, j: int)
    requires
        0 <= j < s.len(),
        s[j].0 == t,
        forall|a: int| 0 <= a < j ==> (#[trigger] s[a]).0 != t,
    ensures
        dec_get(s, t) == Some(s[j].1),
    decreases s.len(),
{
    if j > 0 {
        assert forall|a: int| 0 <= a < j - 1 implies (#[trigger] s.drop_first()[a]).0 != t by {
            assert(s.drop_first()[a] == s[a + 1]);
        }
        assert(s.drop_first()[j - 1] == s[j]);
        lemma_dec_get_first(s.drop_first(), t, j - 1);
    }
}

impl CoreBPE {
    /// The first listed special literal occurring at byte position `pos`.
    fn match_at_exec(&self, text: &[u8], pos: usize) -> (r: Option<usize>)
        requires
            pos <= text@.len(),
        ensures
            match r {
                Some(i) => match_from(self.sp(), text@, pos as int, 0) == Some(i as int) && i
                    < self.sp().len() && is_match_at(self.sp()[i as int].0, text@, pos as int),
                None => match_from(self.sp(), text@, pos as int, 0) is None,
            },
    {
        let mut i: usize = 0;
        while i < self.specials.len()
            invariant
                0 <= i <= self.sp().len(),
                pos <= text@.len(),
                match_from(self.sp(), text@, pos as int, 0) == match_from(
                    self.sp(),
                    text@,
                    pos as int,
                    i as int,
                ),
            decreases self.sp().len() - i,
        {
            let lit = &self.specials[i].0;
            proof {
                assert(self.sp()[i as int].0 == lit@);
            }
            if lit.len() <= text.len() - pos {
                let seg = vstd::slice::slice_subrange(text, pos, pos + lit.len());
                if bytes_eq(seg, lit.as_slice()) {
                    proof {
                        assert(is_match_at(self.sp()[i as int].0, text@, pos as int));
                    }
                    return Some(i);
                }
            }
            proof {
                assert(!is_match_at(self.sp()[i as int].0, text@, pos as int)) by {
                    if pos + lit@.len() <= text@.len() {
                        assert(text@.subrange(pos as int, pos + lit@.len()) != lit@);
                    }
                }
            }
            i = i + 1;
        }
        None
    }

    /// The leftmost special-token occurrence at or after `from`: its
    /// position and the literal's table index.
    fn find_next_special(&self, text: &[u8], from: usize) -> (r: Option<(usize, usize)>)
        requires
            from <= text@.len(),
        ensures
            match r {
                Some(pi) => next_special(self.sp(), text@, from as int) == Some(
                    (pi.0 as int, pi.1 as int),
                ) && from <= pi.0 <= text@.len() && pi.1 < self.sp().len() && is_match_at(
                    self.sp()[pi.1 as int].0,
                    text@,
                    pi.0 as int,
                ),
                None => next_special(self.sp(), text@, from as int) is None,
            },
    {
        let mut pos: usize = from;
        loop
            invariant
                from <= pos <= text@.len(),
                next_special(self.sp(), text@, from as int) == next_special(
                    self.sp(),
                    text@,
                    pos as int,
                ),
            decreases text@.len() - pos,
        {
            match self.match_at_exec(text, pos) {
                Some(i) => {
                    return Some((pos, i));
                },
                None => {
                    if pos == text.len() {
                        return None;
                    }
                    pos = pos + 1;
                },
            }
        }
    }

    /// Encodes one ordinary span: segmented into pieces when the pattern
    /// applies, each piece resolved directly or pair-merged; the whole span
    /// pair-merged as one piece when segmentation is unavailable. Also
    /// returns the token count of the span's last piece.
    pub(crate) fn encode_span(&self, span: &[u8]) -> (r: (Vec<u32>, usize))
        requires
            self.wf(),
        ensures
            (r.0@, r.1 as int) == spec_encode_span(self.enc(), self.pattern@, span@),
            r.1 <= r.0@.len(),
    {
        let ghost m = self.enc();
        match crate::segment::seg_find_all(self.pattern.as_str(), span) {
            Some(pieces) => {
                let ghost ps = crate::segment::seg_pieces_of(self.pattern@, span@)->0;
                proof {
                    assert(pieces.deep_view() == ps);
                    assert(spec_encode_pieces(m, ps.take(0)) =~= Seq::<u32>::empty());
                }
                let mut out: Vec<u32> = Vec::new();
                let mut ll: usize = 0;
                let mut k: usize = 0;
                while k < pieces.len()
                    invariant
                        self.wf(),
                        m == self.enc(),
                        pieces.deep_view() == ps,
                        pieces@.len() == ps.len(),
                        0 <= k <= ps.len(),
                        out@ == spec_encode_pieces(m, ps.take(k as int)),
                        ll as int == if k == 0 {
                            0int
                        } else {
                            spec_encode_piece(m, ps[k - 1]).len() as int
                        },
                        ll <= out@.len(),
                    decreases ps.len() - k,
                {
                    let piece = &pieces[k];
                    proof {
                        assert(piece@ == ps[k as int]);
                    }
                    match self.encoder.get(piece.as_slice()) {
                        Some(t) => {
                            out.push(t);
                            ll = 1;
                            proof {
                                self.encoder.lemma_rank_of_as_map(piece@);
                                assert(spec_encode_piece(m, ps[k as int]) =~= seq![m[piece@]]);
                            }
                        },
                        None => {
                            proof {
                                self.encoder.lemma_rank_of_as_map(piece@);
                                assert(!m.contains_key(piece@));
                                assert forall|q: int|
                                    0 <= q < piece@.len() implies m.contains_key(
                                    #[trigger] seq![piece@[q]],
                                ) by {}
                                crate::merge::lemma_coverage_bpe_ok(m, piece@);
                            }
                            let mut toks = crate::merge::byte_pair_encode(
                                piece.as_slice(),
                                &self.encoder,
                            );
                            ll = toks.len();
                            out.append(&mut toks);
                        },
                    }
                    proof {
                        lemma_encode_pieces_snoc(m, ps, k as int);
                    }
                    k = k + 1;
                }
                proof {
                    assert(ps.take(ps.len() as int) =~= ps);
                    if ps.len() > 0 {
                        assert(ps[ps.len() - 1] == ps.last());
                    }
                }
                (out, ll)
            },
            None => {
                proof {
                    assert forall|q: int|
                        0 <= q < span@.len() implies m.contains_key(#[trigger] seq![span@[q]]) by {}
                    crate::merge::lemma_coverage_bpe_ok(m, span@);
                }
                let toks = crate::merge::byte_pair_encode(span, &self.encoder);
                let ll = toks.len();
                (toks, ll)
            },
        }
    }

    /// Encodes the text bytes, returning the tokens and the token count of
    /// the last ordinary piece (zero when the text ends on a special token).
    pub(crate) fn encode_native(&self, text: &[u8]) -> (r: (Vec<u32>, usize))
        requires
            self.wf(),
        ensures
            (r.0@, r.1 as int) == self.spec_encode_from(text@, 0),
            r.1 <= r.0@.len(),
    {
        let n: usize = text.len();
        let mut ret: Vec<u32> = Vec::new();
        let mut cursor: usize = 0;
        proof {
            assert(n == text@.len());
            assert(ret@ + self.spec_encode_from(text@, 0).0 =~= self.spec_encode_from(
                text@,
                0,
            ).0);
        }
        loop
            invariant
                self.wf(),
                n == text@.len(),
                0 <= cursor <= text@.len(),
                self.spec_encode_from(text@, 0).0 == ret@ + self.spec_encode_from(
                    text@,
                    cursor as int,
                ).0,
                self.spec_encode_from(text@, 0).1 == self.spec_encode_from(
                    text@,
                    cursor as int,
                ).1,
            decreases text@.len() - cursor,
        {
            let ghost pos = cursor as int;
            match self.find_next_special(text, cursor) {
                None => {
                    let span = vstd::slice::slice_subrange(text, cursor, text.len());
                    let (mut toks, ll) = self.encode_span(span);
                    let ghost tv = toks@;
                    ret.append(&mut toks);
                    proof {
                        assert(self.spec_encode_from(text@, pos) == spec_encode_span(
                            self.enc(),
                            self.pattern@,
                            text@.subrange(pos, text@.len() as int),
                        ));
                        assert(ret@ =~= self.spec_encode_from(text@, 0).0);
                    }
                    return (ret, ll);
                },
                Some(pi) => {
                    let s = pi.0;
                    let idx = pi.1;
                    let span = vstd::slice::slice_subrange(text, cursor, s);
                    let (mut toks, _unused) = self.encode_span(span);
                    let ghost tv = toks@;
                    ret.append(&mut toks);
                    let rank = self.specials[idx].1;
                    ret.push(rank);
                    proof {
                        assert(self.sp()[idx as int].1 == rank);
                    }
                    let lit_len = self.specials[idx].0.len();
                    proof {
                        assert(self.sp()[idx as int].0.len() == lit_len as int);
                        assert(lit_len >= 1);
                        assert(s + lit_len <= text@.len());
                    }
                    let ghost pre = ret@;
                    cursor = s + lit_len;
                    proof {
                        let head = spec_encode_span(
                            self.enc(),
                            self.pattern@,
                            text@.subrange(pos, s as int),
                        );
                        let step = s as int + self.sp()[idx as int].0.len();
                        assert(step == cursor as int);
                        assert(pos <= s && step > pos && step <= text@.len());
                        assert(self.spec_encode_from(text@, pos) == (head.0 + seq![rank]
                            + self.spec_encode_from(text@, cursor as int).0, self.spec_encode_from(
                            text@,
                            cursor as int,
                        ).1));
                        assert(head.0 == tv);
                        assert(self.spec_encode_from(text@, 0).0 == ret@ + self.spec_encode_from(
                            text@,
                            cursor as int,
                        ).0) by {
                            assert((ret@.subrange(0, ret@.len() - tv.len() - 1)) + (tv + seq![rank]
                                + self.spec_encode_from(text@, cursor as int).0) =~= ret@
                                + self.spec_encode_from(text@, cursor as int).0);
                        }
                    }
                },
            }
        }
    }

    /// Encodes text into its token sequence, special tokens recognized.
    pub fn encode(&self, text: &str) -> (r: Vec<u32>)
        requires
            self.wf(),
        ensures
            r@ == self.spec_encode(vstd::utf8::encode_utf8(text@)),
    {
        self.encode_native(text.as_bytes()).0
    }
}

} // verus!
