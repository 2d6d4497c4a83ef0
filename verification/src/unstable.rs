//! The unstable-suffix resolver: splits an encoding into the tokens that are
//! settled and the trailing bytes whose tokenization could still change as
//! more text arrives, and enumerates the token sequences that could stand
//! for those trailing bytes.
use vstd::prelude::*;

use crate::bytes::{is_prefix, is_prefix_exec};
use crate::codec::{dec_get, spec_encode_span, CoreBPE};
use crate::merge::{bpe_ok, spec_bpe_tokens};
use crate::vocab::spec_lower_bound;

verus! {

/// The character that ends a byte string, when its trailing bytes decode as
/// UTF-8.
pub uninterp spec fn last_char_of(b: Seq<u8>) -> Option<char>;

/// How many trailing bytes that final character (or invalid fragment)
/// spans.
pub uninterp spec fn last_char_width(b: Seq<u8>) -> int;

/// Relies on `bstr::decode_last_utf8`: decodes the final character of a byte
/// string, returning it (or nothing, for a trailing invalid fragment) with
/// the number of trailing bytes it spans; the outcome depends on the bytes
/// alone, the span never exceeds the input, and an empty input spans zero
/// bytes.
#[verifier::external_body]
fn decode_last(b: &[u8]) -> (r: (Option<char>, usize))
    ensures
        r.0 == last_char_of(b@),
        r.1 as int == last_char_width(b@),
        r.1 <= b@.len(),
        b@.len() == 0 ==> r.1 == 0 && r.0 is None,
{
    bstr::decode_last_utf8(b)
}

/// Whether a character counts as whitespace.
pub uninterp spec fn is_ws_char(c: char) -> bool;

/// Relies on `char::is_whitespace`: the Unicode white-space property of the
/// character alone.
#[verifier::external_body]
fn ws_char_check(c: char) -> (r: bool)
    ensures
        r == is_ws_char(c),
{
    c.is_whitespace()
}

/// All bytes are spaces, tabs or newlines.
pub open spec fn all_space(bs: Seq<u8>) -> bool {
    forall|i: int| 0 <= i < bs.len() ==> #[trigger] bs[i] == 32 || bs[i] == 10 || bs[i] == 9
}

/// The token's bytes in the ordinary decoder are all whitespace; a token the
/// ordinary decoder does not know does not count.
pub open spec fn token_all_space(c: CoreBPE, t: u32) -> bool {
    match dec_get(c.dec_kv(), t) {
        Some(b) => all_space(b),
        None => false,
    }
}

/// Extends the trailing token count over further all-whitespace tokens: a
/// whitespace run at a piece boundary can retroactively merge once more
/// input arrives, so it cannot be counted stable.
pub open spec fn widen_ll(c: CoreBPE, toks: Seq<u32>, ll: int) -> int
    decreases toks.len() - ll + 1,
{
    if 0 <= ll < toks.len() && token_all_space(c, toks[toks.len() - ll - 1]) {
        widen_ll(c, toks, ll + 1)
    } else {
        ll
    }
}

/// The corrected trailing token count: widened only when the earliest
/// trailing token is itself all whitespace.
pub open spec fn spec_widened(c: CoreBPE, toks: Seq<u32>, ll0: int) -> int {
    if 0 < ll0 <= toks.len() && token_all_space(c, toks[toks.len() - ll0]) {
        widen_ll(c, toks, ll0)
    } else {
        ll0
    }
}

/// Adds a candidate completion unless it is already present.
pub open spec fn insert_completion(acc: Seq<Seq<u32>>, x: Seq<u32>) -> Seq<Seq<u32>> {
    if acc.contains(x) {
        acc
    } else {
        acc.push(x)
    }
}

/// Keeps the leading tokens whose decoded bytes just cover `need` bytes.
pub open spec fn take_needed(c: CoreBPE, toks: Seq<u32>, need: int) -> Seq<u32>
    decreases toks.len(),
{
    if toks.len() == 0 {
        Seq::empty()
    } else {
        let blen = match dec_get(c.dec_kv(), toks[0]) {
            Some(b) => b.len() as int,
            None => 0int,
        };
        if blen >= need {
            seq![toks[0]]
        } else {
            seq![toks[0]] + take_needed(c, toks.drop_first(), need - blen)
        }
    }
}

/// Walks the sorted index from entry `i` while `u` prefixes the keys, adding
/// each key's own rank as a one-token completion.
pub open spec fn direct_completions(
    c: CoreBPE,
    i: int,
    u: Seq<u8>,
    acc: Seq<Seq<u32>>,
) -> Seq<Seq<u32>>
    decreases c.encoder.kv().len() - i + 1,
{
    let kv = c.encoder.kv();
    if 0 <= i < kv.len() && is_prefix(u, kv[i].0) {
        direct_completions(c, i + 1, u, insert_completion(acc, seq![kv[i].1]))
    } else {
        acc
    }
}

/// Walks the sorted index from entry `i` while `suffix` prefixes the keys:
/// each match is glued to `prefix`, re-encoded, and cut down to the tokens
/// covering the unstable bytes.
pub open spec fn split_walk(
    c: CoreBPE,
    i: int,
    prefix: Seq<u8>,
    suffix: Seq<u8>,
    need: int,
    acc: Seq<Seq<u32>>,
) -> Seq<Seq<u32>>
    decreases c.encoder.kv().len() - i + 1,
{
    let kv = c.encoder.kv();
    if 0 <= i < kv.len() && is_prefix(suffix, kv[i].0) {
        let poss = prefix + kv[i].0;
        let kept = take_needed(c, spec_encode_span(c.enc(), c.pattern@, poss).0, need);
        split_walk(c, i + 1, prefix, suffix, need, insert_completion(acc, kept))
    } else {
        acc
    }
}

/// Tries every internal split position of the unstable bytes in turn.
pub open spec fn split_loop(c: CoreBPE, u: Seq<u8>, i: int, acc: Seq<Seq<u32>>) -> Seq<Seq<u32>>
    decreases u.len() - i + 1,
{
    if 1 <= i < u.len() {
        let prefix = u.subrange(0, i);
        let suffix = u.subrange(i, u.len() as int);
        let acc2 = split_walk(
            c,
            spec_lower_bound(c.encoder.kv(), suffix),
            prefix,
            suffix,
            u.len() as int,
            acc,
        );
        split_loop(c, u, i + 1, acc2)
    } else {
        acc
    }
}

/// When the unstable bytes end in a whitespace character that is not the
/// whole tail, a split before that character could appear later: add the
/// completion that merges the two sides separately.
pub open spec fn ws_patch(c: CoreBPE, u: Seq<u8>, acc: Seq<Seq<u32>>) -> Seq<Seq<u32>> {
    let w = last_char_width(u);
    if u.len() > 1 && 0 <= w && u.len() - w > 0 && (match last_char_of(u) {
        Some(ch) => is_ws_char(ch),
        None => false,
    }) {
        let re = spec_bpe_tokens(c.enc(), u.subrange(0, u.len() - w)) + spec_bpe_tokens(
            c.enc(),
            u.subrange(u.len() - w, u.len() as int),
        );
        insert_completion(acc, re)
    } else {
        acc
    }
}

impl CoreBPE {
    /// The stable tokens and candidate completions of encoding the text
    /// bytes: the encoding minus its corrected trailing piece, and every
    /// completion the direct-prefix scan, the split scans and the whitespace
    /// correction contribute.
    pub open spec fn spec_unstable(self, text: Seq<u8>) -> (Seq<u32>, Seq<Seq<u32>>) {
        let enc = self.spec_encode_from(text, 0);
        let toks = enc.0;
        let ll0 = enc.1;
        if ll0 == 0 {
            (toks, Seq::empty())
        } else {
            let ll = spec_widened(self, toks, ll0);
            let stable = toks.subrange(0, toks.len() - ll);
            let tail = toks.subrange(toks.len() - ll, toks.len() as int);
            let u = match self.spec_decode(tail) {
                Some(b) => b,
                None => Seq::empty(),
            };
            if u.len() == 0 {
                (stable, Seq::empty())
            } else {
                let acc1 = direct_completions(
                    self,
                    spec_lower_bound(self.encoder.kv(), u),
                    u,
                    Seq::empty(),
                );
                let acc2 = split_loop(self, u, 1, acc1);
                (stable, ws_patch(self, u, acc2))
            }
        }
    }
}

/// Every token of a finished pair merge is a value of the table.
pub proof fn lemma_bpe_token_known_at(m: Map<Seq<u8>, u32>, piece: Seq<u8>, q: int)
    requires
        bpe_ok(m, piece),
        0 <= q < spec_bpe_tokens(m, piece).len(),
    ensures
        exists|k: Seq<u8>| #[trigger]
            m.contains_key(k) && m[k] == spec_bpe_tokens(m, piece)[q],
{
    let fb = crate::merge::final_bounds(m, piece);
    crate::merge::lemma_merge_bounds_len(m, piece, crate::merge::init_bounds(piece));
    crate::merge::lemma_bpe_ok_at(m, piece, q);
    let seg = piece.subrange(fb[q], fb[q + 1]);
    assert(m.contains_key(seg));
    assert(spec_bpe_tokens(m, piece)[q] == m[seg]);
}

/// A rank held by some decoder entry resolves.
pub proof fn lemma_dec_get_exists(s: Seq<(u32, Seq<u8>)>, t: u32, j: int)
    requires
        0 <= j < s.len(),
        s[j].0 == t,
    ensures
        dec_get(s, t) is Some,
    decreases s.len(),
{
    if s[0].0 != t {
        assert(s.drop_first()[j - 1] == s[j]);
        lemma_dec_get_exists(s.drop_first(), t, j - 1);
    }
}

/// Any value of the encoder map resolves through the ordinary decoder.
pub proof fn lemma_enc_value_decodes(c: CoreBPE, t: u32)
    requires
        c.wf(),
        exists|k: Seq<u8>| c.enc().contains_key(k) && c.enc()[k] == t,
    ensures
        dec_get(c.dec_kv(), t) is Some,
{
    let k = choose|k: Seq<u8>| c.enc().contains_key(k) && c.enc()[k] == t;
    crate::codec::lemma_decoder_inverse(c, k);
}

/// A special-table rank resolves through the special decoder.
pub proof fn lemma_sp_rank_decodes(sp: Seq<(Seq<u8>, u32)>, i: int)
    requires
        0 <= i < sp.len(),
    ensures
        crate::codec::sp_dec_get(sp, sp[i].1) is Some,
    decreases sp.len(),
{
    if sp.last().1 != sp[i].1 {
        assert(i < sp.len() - 1);
        assert(sp.drop_last()[i] == sp[i]);
        lemma_sp_rank_decodes(sp.drop_last(), i);
    }
}

/// Every token a piece encodes to resolves to bytes.
pub proof fn lemma_piece_tokens_decodable(c: CoreBPE, piece: Seq<u8>, q: int)
    requires
        c.wf(),
        0 <= q < crate::codec::spec_encode_piece(c.enc(), piece).len(),
    ensures
        dec_get(c.dec_kv(), crate::codec::spec_encode_piece(c.enc(), piece)[q]) is Some,
        c.token_bytes(crate::codec::spec_encode_piece(c.enc(), piece)[q]) is Some,
{
    let m = c.enc();
    if m.contains_key(piece) {
        assert(crate::codec::spec_encode_piece(m, piece)[q] == m[piece]);
        lemma_enc_value_decodes(c, m[piece]);
    } else {
        assert forall|i: int| 0 <= i < piece.len() implies m.contains_key(
            #[trigger] seq![piece[i]],
        ) by {}
        crate::merge::lemma_coverage_bpe_ok(m, piece);
        lemma_bpe_token_known_at(m, piece, q);
        lemma_enc_value_decodes(c, spec_bpe_tokens(m, piece)[q]);
    }
}

/// Every token a piece list encodes to resolves to bytes.
pub proof fn lemma_pieces_tokens_decodable(c: CoreBPE, ps: Seq<Seq<u8>>, q: int)
    requires
        c.wf(),
        0 <= q < crate::codec::spec_encode_pieces(c.enc(), ps).len(),
    ensures
        dec_get(c.dec_kv(), crate::codec::spec_encode_pieces(c.enc(), ps)[q]) is Some,
        c.token_bytes(crate::codec::spec_encode_pieces(c.enc(), ps)[q]) is Some,
    decreases ps.len(),
{
    let m = c.enc();
    let head = crate::codec::spec_encode_piece(m, ps[0]);
    if q < head.len() {
        lemma_piece_tokens_decodable(c, ps[0], q);
    } else {
        lemma_pieces_tokens_decodable(c, ps.drop_first(), q - head.len());
    }
}

/// Every token an ordinary span encodes to resolves to bytes.
pub proof fn lemma_span_tokens_decodable(c: CoreBPE, span: Seq<u8>, q: int)
    requires
        c.wf(),
        0 <= q < spec_encode_span(c.enc(), c.pattern@, span).0.len(),
    ensures
        dec_get(c.dec_kv(), spec_encode_span(c.enc(), c.pattern@, span).0[q]) is Some,
        c.token_bytes(spec_encode_span(c.enc(), c.pattern@, span).0[q]) is Some,
{
    let m = c.enc();
    if vstd::utf8::valid_utf8(span) && crate::segment::seg_pieces_of(c.pattern@, span) is Some {
        lemma_pieces_tokens_decodable(
            c,
            crate::segment::seg_pieces_of(c.pattern@, span)->0,
            q,
        );
    } else {
        assert forall|i: int| 0 <= i < span.len() implies m.contains_key(
            #[trigger] seq![span[i]],
        ) by {}
        crate::merge::lemma_coverage_bpe_ok(m, span);
        lemma_bpe_token_known_at(m, span, q);
        lemma_enc_value_decodes(c, spec_bpe_tokens(m, span)[q]);
    }
}

/// Every token the encoder emits resolves to bytes.
pub proof fn lemma_encode_tokens_decodable(c: CoreBPE, text: Seq<u8>, pos: int, q: int)
    requires
        c.wf(),
        0 <= q < c.spec_encode_from(text, pos).0.len(),
    ensures
        c.token_bytes(c.spec_encode_from(text, pos).0[q]) is Some,
    decreases text.len() - pos + 1,
{
    if !(0 <= pos <= text.len()) {
    } else {
        match crate::codec::next_special(c.sp(), text, pos) {
            None => {
                lemma_span_tokens_decodable(c, text.subrange(pos, text.len() as int), q);
            },
            Some(si) => {
                let head = spec_encode_span(c.enc(), c.pattern@, text.subrange(pos, si.0));
                let step = si.0 + c.sp()[si.1].0.len();
                let nxt = if step <= pos {
                    pos + 1
                } else if step > text.len() {
                    text.len() as int + 1
                } else {
                    step
                };
                if q < head.0.len() {
                    assert(c.spec_encode_from(text, pos).0[q] == head.0[q]);
                    lemma_span_tokens_decodable(c, text.subrange(pos, si.0), q);
                } else if q == head.0.len() {
                    assert(c.spec_encode_from(text, pos).0[q] == c.sp()[si.1].1);
                    lemma_next_special_props(c.sp(), text, pos);
                    lemma_sp_rank_decodes(c.sp(), si.1);
                    match dec_get(c.dec_kv(), c.sp()[si.1].1) {
                        Some(_) => {},
                        None => {},
                    }
                } else {
                    assert(c.spec_encode_from(text, pos).0[q] == c.spec_encode_from(
                        text,
                        nxt,
                    ).0[q - head.0.len() - 1]);
                    lemma_encode_tokens_decodable(c, text, nxt, q - head.0.len() - 1);
                }
            },
        }
    }
}

/// A found occurrence names a real table entry.
pub proof fn lemma_next_special_props(sp: Seq<(Seq<u8>, u32)>, text: Seq<u8>, pos: int)
    ensures
        crate::codec::next_special(sp, text, pos) matches Some(si) ==> 0 <= si.1 < sp.len()
            && pos <= si.0 <= text.len() && crate::codec::is_match_at(sp[si.1].0, text, si.0),
    decreases text.len() - pos + 1,
{
    if 0 <= pos <= text.len() {
        lemma_match_from_props(sp, text, pos, 0);
        if crate::codec::match_from(sp, text, pos, 0) is None && pos < text.len() {
            lemma_next_special_props(sp, text, pos + 1);
        }
    }
}

/// A found match index names a literal matching at the position.
pub proof fn lemma_match_from_props(sp: Seq<(Seq<u8>, u32)>, text: Seq<u8>, pos: int, i: int)
    ensures
        crate::codec::match_from(sp, text, pos, i) matches Some(j) ==> i <= j < sp.len()
            && crate::codec::is_match_at(sp[j].0, text, pos),
    decreases sp.len() - i + 1,
{
    if 0 <= i < sp.len() && !crate::codec::is_match_at(sp[i].0, text, pos) {
        lemma_match_from_props(sp, text, pos, i + 1);
    }
}

/// A token sequence whose every rank resolves decodes as a whole.
pub proof fn lemma_decode_some(c: CoreBPE, toks: Seq<u32>)
    requires
        forall|q: int| 0 <= q < toks.len() ==> c.token_bytes(#[trigger] toks[q]) is Some,
    ensures
        c.spec_decode(toks) is Some,
    decreases toks.len(),
{
    if toks.len() > 0 {
        assert(c.token_bytes(toks[0]) is Some);
        assert forall|q: int| 0 <= q < toks.drop_first().len() implies c.token_bytes(
            #[trigger] toks.drop_first()[q],
        ) is Some by {
            assert(toks.drop_first()[q] == toks[q + 1]);
        }
        lemma_decode_some(c, toks.drop_first());
    }
}

/// Compares two token vectors for equal contents.
fn toks_eq(a: &Vec<u32>, b: &Vec<u32>) -> (r: bool)
    ensures
        r == (a@ == b@),
{
    if a.len() != b.len() {
        proof {
            assert(a@ != b@);
        }
        return false;
    }
    let mut i: usize = 0;
    while i < a.len()
        invariant
            0 <= i <= a@.len(),
            a@.len() == b@.len(),
            forall|j: int| 0 <= j < i ==> a@[j] == b@[j],
        decreases a@.len() - i,
    {
        if a[i] != b[i] {
            return false;
        }
        i = i + 1;
    }
    proof {
        assert(a@ =~= b@);
    }
    true
}

/// Adds a candidate completion unless an equal one is already listed.
fn push_completion(comps: &mut Vec<Vec<u32>>, c: Vec<u32>)
    ensures
        final(comps).deep_view() == insert_completion(old(comps).deep_view(), c@),
{
    let ghost dv = comps.deep_view();
    let mut i: usize = 0;
    while i < comps.len()
        invariant
            0 <= i <= comps@.len(),
            dv == comps.deep_view(),
            dv.len() == comps@.len(),
            forall|j: int| 0 <= j < comps@.len() ==> #[trigger] dv[j] == comps@[j]@,
            forall|j: int| 0 <= j < i ==> #[trigger] dv[j] != c@,
        decreases comps@.len() - i,
    {
        if toks_eq(&comps[i], &c) {
            proof {
                assert(dv[i as int] == c@);
                assert(dv.contains(c@));
            }
            return ;
        }
        i = i + 1;
    }
    proof {
        assert(!dv.contains(c@)) by {
            if dv.contains(c@) {
                let j = choose|j: int| 0 <= j < dv.len() && dv[j] == c@;
                assert(dv[j] != c@);
            }
        }
    }
    let ghost cv = c@;
    comps.push(c);
    proof {
        assert(comps.deep_view() =~= dv.push(cv)) by {
            assert forall|j: int| 0 <= j < comps@.len() implies comps.deep_view()[j] == dv.push(
                cv,
            )[j] by {
                assert(comps.deep_view()[j] == comps@[j]@);
                if j < dv.len() {
                    assert(comps@[j]@ == dv[j]);
                }
            }
        }
    }
}

/// Glues two byte strings into one owned vector.
fn concat_bytes(a: &[u8], b: &[u8]) -> (r: Vec<u8>)
    ensures
        r@ == a@ + b@,
{
    let mut r = vstd::slice::slice_to_vec(a);
    let mut i: usize = 0;
    while i < b.len()
        invariant
            0 <= i <= b@.len(),
            r@ == a@ + b@.take(i as int),
        decreases b@.len() - i,
    {
        r.push(b[i]);
        proof {
            assert(a@ + b@.take(i + 1) =~= (a@ + b@.take(i as int)).push(b@[i as int]));
        }
        i = i + 1;
    }
    proof {
        assert(b@.take(b@.len() as int) =~= b@);
    }
    r
}

impl CoreBPE {
    /// Whether the ordinary decoder knows the token as pure whitespace.
    fn token_is_all_space(&self, t: u32) -> (r: bool)
        ensures
            r == token_all_space(*self, t),
    {
        let mut i: usize = 0;
        while i < self.decoder.len()
            invariant
                0 <= i <= self.dec_kv().len(),
                forall|j: int| 0 <= j < i ==> (#[trigger] self.dec_kv()[j]).0 != t,
            decreases self.dec_kv().len() - i,
        {
            if self.decoder[i].0 == t {
                proof {
                    crate::codec::lemma_dec_get_first(self.dec_kv(), t, i as int);
                }
                let b = &self.decoder[i].1;
                let mut q: usize = 0;
                while q < b.len()
                    invariant
                        0 <= q <= b@.len(),
                        b@ == self.dec_kv()[i as int].1,
                        dec_get(self.dec_kv(), t) == Some(b@),
                        forall|p: int| 0 <= p < q ==> #[trigger] b@[p] == 32 || b@[p] == 10
                            || b@[p] == 9,
                    decreases b@.len() - q,
                {
                    let x = b[q];
                    if !(x == 32 || x == 10 || x == 9) {
                        proof {
                            assert(!all_space(b@));
                        }
                        return false;
                    }
                    q = q + 1;
                }
                proof {
                    assert(all_space(b@));
                }
                return true;
            }
            i = i + 1;
        }
        proof {
            crate::codec::lemma_dec_get_absent(self.dec_kv(), t);
        }
        false
    }

    /// Keeps the leading tokens of `encoded` whose decoded lengths first
    /// reach `need` bytes.
    fn take_needed_exec(&self, encoded: &Vec<u32>, need: usize) -> (r: Vec<u32>)
        ensures
            r@ == take_needed(*self, encoded@, need as int),
    {
        let mut kept: Vec<u32> = Vec::new();
        let mut rem: usize = need;
        let mut i: usize = 0;
        proof {
            assert(encoded@.skip(0) =~= encoded@);
            assert(kept@ + take_needed(*self, encoded@, need as int) =~= take_needed(
                *self,
                encoded@,
                need as int,
            ));
        }
        while i < encoded.len()
            invariant
                0 <= i <= encoded@.len(),
                0 < rem <= need || (i == 0 && rem == need),
                take_needed(*self, encoded@, need as int) == kept@ + take_needed(
                    *self,
                    encoded@.skip(i as int),
                    rem as int,
                ),
            decreases encoded@.len() - i,
        {
            let t = encoded[i];
            proof {
                assert(encoded@.skip(i as int)[0] == encoded@[i as int]);
                assert(encoded@.skip(i as int).drop_first() =~= encoded@.skip(i + 1));
            }
            let mut blen: usize = 0;
            let mut j: usize = 0;
            let mut found: bool = false;
            while j < self.decoder.len() && !found
                invariant
                    0 <= j <= self.dec_kv().len(),
                    !found ==> blen == 0,
                    !found ==> forall|q: int| 0 <= q < j ==> (#[trigger] self.dec_kv()[q]).0 != t,
                    found ==> dec_get(self.dec_kv(), t) == Some(self.dec_kv()[j as int].1)
                        && blen == self.dec_kv()[j as int].1.len(),
                decreases self.dec_kv().len() - j + (if found {
                    0int
                } else {
                    1int
                }),
            {
                if self.decoder[j].0 == t {
                    proof {
                        crate::codec::lemma_dec_get_first(self.dec_kv(), t, j as int);
                    }
                    blen = self.decoder[j].1.len();
                    found = true;
                } else {
                    j = j + 1;
                }
            }
            proof {
                if !found {
                    crate::codec::lemma_dec_get_absent(self.dec_kv(), t);
                }
                assert((match dec_get(self.dec_kv(), t) {
                    Some(b) => b.len() as int,
                    None => 0int,
                }) == blen as int);
            }
            let ghost pre = kept@;
            kept.push(t);
            if blen >= rem {
                proof {
                    assert(take_needed(*self, encoded@.skip(i as int), rem as int) =~= seq![t]);
                    assert(pre + seq![t] =~= kept@);
                }
                return kept;
            }
            rem = rem - blen;
            proof {
                assert(pre + (seq![t] + take_needed(
                    *self,
                    encoded@.skip(i + 1),
                    rem as int,
                )) =~= kept@ + take_needed(*self, encoded@.skip(i + 1), rem as int));
            }
            i = i + 1;
        }
        proof {
            assert(take_needed(*self, encoded@.skip(encoded@.len() as int), rem as int)
                =~= Seq::<u32>::empty());
            assert(kept@ + Seq::<u32>::empty() =~= kept@);
        }
        kept
    }

    /// Splits an encoding into its stable tokens and the candidate token
    /// sequences for the unstable trailing bytes.
    pub fn encode_with_unstable(&self, text: &str) -> (r: (Vec<u32>, Vec<Vec<u32>>))
        requires
            self.wf(),
        ensures
            (r.0@, r.1.deep_view()) == self.spec_unstable(vstd::utf8::encode_utf8(text@)),
    {
        let tb = text.as_bytes();
        let ghost tv = tb@;
        let (mut tokens, ll0) = self.encode_native(tb);
        let ghost full = self.spec_encode_from(tv, 0);
        if ll0 == 0 {
            let comps: Vec<Vec<u32>> = Vec::new();
            proof {
                assert(comps.deep_view() =~= Seq::<Seq<u32>>::empty());
            }
            return (tokens, comps);
        }
        // Whitespace at the trailing edge can merge retroactively: widen the
        // unstable token count over pure-whitespace tokens.
        let n = tokens.len();
        let mut ll: usize = ll0;
        if self.token_is_all_space(tokens[n - ll0]) {
            while ll < n && self.token_is_all_space(tokens[n - ll - 1])
                invariant
                    1 <= ll <= n,
                    n == tokens@.len(),
                    spec_widened(*self, tokens@, ll0 as int) == widen_ll(
                        *self,
                        tokens@,
                        ll as int,
                    ),
                decreases n - ll,
            {
                ll = ll + 1;
            }
        }
        proof {
            assert(ll as int == spec_widened(*self, tokens@, ll0 as int));
        }
        let tail = vstd::slice::slice_to_vec(
            vstd::slice::slice_subrange(tokens.as_slice(), n - ll, n),
        );
        tokens.truncate(n - ll);
        let ghost stable = tokens@;
        proof {
            assert(tokens@ =~= full.0.subrange(0, full.0.len() - ll));
            assert(tail@ =~= full.0.subrange(full.0.len() - ll, full.0.len() as int));
            assert forall|q: int| 0 <= q < tail@.len() implies self.token_bytes(
                #[trigger] tail@[q],
            ) is Some by {
                assert(tail@[q] == full.0[full.0.len() - ll + q]);
                lemma_encode_tokens_decodable(*self, tv, 0, full.0.len() - ll + q);
            }
            lemma_decode_some(*self, tail@);
        }
        let unstable = match self.decode(tail.as_slice()) {
            Ok(u) => u,
            Err(_) => {
                proof {
                    assert(false);
                }
                Vec::new()
            },
        };
        let ghost uv = unstable@;
        let mut comps: Vec<Vec<u32>> = Vec::new();
        proof {
            assert(comps.deep_view() =~= Seq::<Seq<u32>>::empty());
        }
        if unstable.len() == 0 {
            return (tokens, comps);
        }
        // Single tokens that extend the unstable bytes.
        let mut idx = self.encoder.lower_bound(unstable.as_slice());
        while idx < self.encoder.count() && is_prefix_exec(
            unstable.as_slice(),
            self.encoder.key_at(idx).as_slice(),
        )
            invariant
                self.wf(),
                uv == unstable@,
                0 <= idx <= self.encoder.kv().len(),
                direct_completions(
                    *self,
                    spec_lower_bound(self.encoder.kv(), uv),
                    uv,
                    Seq::empty(),
                ) == direct_completions(*self, idx as int, uv, comps.deep_view()),
            decreases self.encoder.kv().len() - idx,
        {
            let mut one: Vec<u32> = Vec::new();
            one.push(self.encoder.rank_at(idx));
            proof {
                assert(one@ =~= seq![self.encoder.kv()[idx as int].1]);
            }
            push_completion(&mut comps, one);
            idx = idx + 1;
        }
        // Straddling tokens: for each split of the unstable bytes, extend
        // the suffix with any token that starts with it and re-tokenize.
        let ghost acc1 = comps.deep_view();
        proof {
            assert(acc1 == direct_completions(
                *self,
                spec_lower_bound(self.encoder.kv(), uv),
                uv,
                Seq::empty(),
            ));
        }
        let mut i: usize = 1;
        while i < unstable.len()
            invariant
                self.wf(),
                uv == unstable@,
                uv.len() == unstable@.len(),
                1 <= i <= uv.len() || (uv.len() <= 1 && i == 1),
                split_loop(*self, uv, 1, acc1) == split_loop(*self, uv, i as int, comps.deep_view()),
            decreases uv.len() - i,
        {
            let prefix = vstd::slice::slice_subrange(unstable.as_slice(), 0, i);
            let suffix = vstd::slice::slice_subrange(unstable.as_slice(), i, unstable.len());
            let ghost acc_in = comps.deep_view();
            let mut idx = self.encoder.lower_bound(suffix);
            while idx < self.encoder.count() && is_prefix_exec(
                suffix,
                self.encoder.key_at(idx).as_slice(),
            )
                invariant
                    self.wf(),
                    uv == unstable@,
                    1 <= i < uv.len(),
                    prefix@ == uv.subrange(0, i as int),
                    suffix@ == uv.subrange(i as int, uv.len() as int),
                    0 <= idx <= self.encoder.kv().len(),
                    split_walk(
                        *self,
                        spec_lower_bound(self.encoder.kv(), suffix@),
                        prefix@,
                        suffix@,
                        uv.len() as int,
                        acc_in,
                    ) == split_walk(
                        *self,
                        idx as int,
                        prefix@,
                        suffix@,
                        uv.len() as int,
                        comps.deep_view(),
                    ),
                decreases self.encoder.kv().len() - idx,
            {
                let poss = concat_bytes(prefix, self.encoder.key_at(idx).as_slice());
                let (encoded, _last) = self.encode_span(poss.as_slice());
                let kept = self.take_needed_exec(&encoded, unstable.len());
                push_completion(&mut comps, kept);
                idx = idx + 1;
            }
            i = i + 1;
        }
        proof {
            assert(comps.deep_view() == split_loop(*self, uv, 1, acc1));
        }
        // A trailing whitespace character that is not the whole tail could
        // gain a split of its own: add the completion merging both sides
        // separately.
        if unstable.len() > 1 {
            let (ch, w) = decode_last(unstable.as_slice());
            if unstable.len() - w > 0 {
                let ws = match ch {
                    Some(cc) => ws_char_check(cc),
                    None => false,
                };
                if ws {
                    proof {
                        let hd = uv.subrange(0, uv.len() - last_char_width(uv));
                        assert forall|q: int| 0 <= q < hd.len() implies self.enc().contains_key(
                            #[trigger] seq![hd[q]],
                        ) by {
                            assert(hd[q] == uv[q]);
                        }
                        crate::merge::lemma_coverage_bpe_ok(self.enc(), hd);
                    }
                    let head = vstd::slice::slice_subrange(
                        unstable.as_slice(),
                        0,
                        unstable.len() - w,
                    );
                    let tail_b = vstd::slice::slice_subrange(
                        unstable.as_slice(),
                        unstable.len() - w,
                        unstable.len(),
                    );
                    proof {
                        assert forall|q: int|
                            0 <= q < tail_b@.len() implies self.enc().contains_key(
                            #[trigger] seq![tail_b@[q]],
                        ) by {
                            assert(tail_b@[q] == uv[uv.len() - last_char_width(uv) + q]);
                        }
                        crate::merge::lemma_coverage_bpe_ok(self.enc(), tail_b@);
                    }
                    let mut re = crate::merge::byte_pair_encode(head, &self.encoder);
                    let mut re2 = crate::merge::byte_pair_encode(tail_b, &self.encoder);
                    re.append(&mut re2);
                    push_completion(&mut comps, re);
                }
            }
        }
        proof {
            assert(comps.deep_view() == ws_patch(*self, uv, split_loop(*self, uv, 1, acc1)));
        }
        (tokens, comps)
    }
}

} // verus!
