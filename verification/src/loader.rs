//! The vocabulary loader: parses a byte blob of newline-separated records,
//! each `<base64-token> <decimal-rank>`, into (token bytes, rank) pairs in
//! file order. Blank lines are skipped; a malformed record is a load error.
use base64::Engine;
use vstd::prelude::*;

verus! {

/// What the standard base64 decoding of a byte string yields, if it is
/// well-formed standard (padded) base64.
pub uninterp spec fn b64_decode_of(s: Seq<u8>) -> Option<Seq<u8>>;

/// Relies on `base64::engine::general_purpose::STANDARD.decode`: standard
/// alphabet with padding; the outcome depends on the input bytes alone.
#[verifier::external_body]
fn b64_decode(s: &[u8]) -> (r: Option<Vec<u8>>)
    ensures
        (r is Some) <==> (b64_decode_of(s@) is Some),
        (r matches Some(v) ==> Some(v@) == b64_decode_of(s@)),
{
    base64::engine::general_purpose::STANDARD.decode(s).ok()
}

/// The first index at or after `from` holding byte `c`, or the length.
pub open spec fn find_byte(b: Seq<u8>, c: u8, from: int) -> int
    decreases b.len() - from + 1,
{
    if !(0 <= from < b.len()) {
        b.len() as int
    } else if b[from] == c {
        from
    } else {
        find_byte(b, c, from + 1)
    }
}

pub proof fn lemma_find_byte(b: Seq<u8>, c: u8, from: int)
    requires
        0 <= from <= b.len(),
    ensures
        from <= find_byte(b, c, from) <= b.len(),
        find_byte(b, c, from) < b.len() ==> b[find_byte(b, c, from)] == c,
        forall|i: int| from <= i < find_byte(b, c, from) ==> b[i] != c,
    decreases b.len() - from,
{
    if from < b.len() && b[from] != c {
        lemma_find_byte(b, c, from + 1);
    }
}

/// The value of a run of decimal digit characters, most significant first.
pub open spec fn digits_val(d: Seq<u8>) -> Option<int>
    decreases d.len(),
{
    if d.len() == 0 {
        None
    } else if !(48 <= d.last() <= 57) {
        None
    } else if d.len() == 1 {
        Some(d.last() - 48)
    } else {
        match digits_val(d.drop_last()) {
            Some(v) => Some(v * 10 + (d.last() - 48)),
            None => None,
        }
    }
}

/// How the rank field parses as an unsigned 32-bit decimal: an optional plus
/// sign, then decimal digits, with the value in range.
pub open spec fn spec_parse_u32(s: Seq<u8>) -> Option<u32> {
    let d = if s.len() > 0 && s[0] == 43 {
        s.drop_first()
    } else {
        s
    };
    match digits_val(d) {
        Some(v) => if v <= u32::MAX {
            Some(v as u32)
        } else {
            None
        },
        None => None,
    }
}

/// One record: token field up to the first space, base64-decoded, and the
/// rest parsed as the rank.
pub open spec fn spec_record(l: Seq<u8>) -> Option<(Seq<u8>, u32)> {
    let sp = find_byte(l, 32, 0);
    if sp >= l.len() {
        None
    } else {
        match b64_decode_of(l.subrange(0, sp)) {
            Some(tb) => match spec_parse_u32(l.subrange(sp + 1, l.len() as int)) {
                Some(v) => Some((tb, v)),
                None => None,
            },
            None => None,
        }
    }
}

/// The records of the blob from position `pos` on: one line per newline
/// split, blank lines skipped, each remaining line a record or a load error.
pub open spec fn spec_load_from(b: Seq<u8>, pos: int) -> Option<Seq<(Seq<u8>, u32)>>
    decreases b.len() - pos + 1,
{
    if !(0 <= pos <= b.len()) {
        Some(Seq::empty())
    } else {
        let i0 = find_byte(b, 10, pos);
        let i = if i0 < pos {
            pos
        } else {
            i0
        };
        let line = b.subrange(pos, i);
        let rest = if i + 1 > b.len() {
            Some(Seq::<(Seq<u8>, u32)>::empty())
        } else {
            spec_load_from(b, i + 1)
        };
        if line.len() == 0 {
            rest
        } else {
            match spec_record(line) {
                Some(rec) => match rest {
                    Some(rs) => Some(seq![rec] + rs),
                    None => None,
                },
                None => None,
            }
        }
    }
}

/// All records of the blob, in file order.
pub open spec fn spec_load(b: Seq<u8>) -> Option<Seq<(Seq<u8>, u32)>> {
    spec_load_from(b, 0)
}

/// Finds the first occurrence of byte `c` in `b` at or after `from`,
/// returning the length when there is none.
fn find_byte_exec(b: &[u8], c: u8, from: usize) -> (r: usize)
    requires
        from <= b@.len(),
    ensures
        r == find_byte(b@, c, from as int),
        from <= r <= b@.len(),
{
    let mut i: usize = from;
    while i < b.len()
        invariant
            from <= i <= b@.len(),
            find_byte(b@, c, from as int) == find_byte(b@, c, i as int),
        decreases b@.len() - i,
    {
        if b[i] == c {
            return i;
        }
        i = i + 1;
    }
    i
}

/// Parses the rank field: an optional plus sign then decimal digits, valued
/// within 32 bits.
fn parse_u32(s: &[u8]) -> (r: Option<u32>)
    ensures
        r == spec_parse_u32(s@),
{
    let ghost d = if s@.len() > 0 && s@[0] == 43 {
        s@.drop_first()
    } else {
        s@
    };
    let start: usize = if s.len() > 0 && s[0] == 43 {
        1
    } else {
        0
    };
    proof {
        assert(d =~= s@.skip(start as int));
    }
    if s.len() == start {
        proof {
            assert(digits_val(d) is None);
        }
        return None;
    }
    let mut acc: u32 = 0;
    let mut i: usize = start;
    while i < s.len()
        invariant
            start <= i <= s@.len(),
            start < s@.len(),
            d == s@.skip(start as int),
            d == if s@.len() > 0 && s@[0] == 43 {
                s@.drop_first()
            } else {
                s@
            },
            i == start ==> acc == 0,
            digits_val(d.subrange(0, i - start)) == if i == start {
                Option::<int>::None
            } else {
                Option::<int>::Some(acc as int)
            },
        decreases s@.len() - i,
    {
        let ch = s[i];
        if ch < 48 || ch > 57 {
            proof {
                assert(d[i - start] == ch);
                lemma_digits_val_nondigit(d, i - start);
            }
            return None;
        }
        let dig: u32 = (ch - 48) as u32;
        let acc2 = match acc.checked_mul(10) {
            Some(x) => match x.checked_add(dig) {
                Some(y) => y,
                None => {
                    proof {
                        lemma_parse_overflow(d, i - start, acc as int, dig as int, s@);
                    }
                    return None;
                },
            },
            None => {
                proof {
                    lemma_parse_overflow(d, i - start, acc as int, dig as int, s@);
                }
                return None;
            },
        };
        proof {
            let pre = d.subrange(0, i - start + 1);
            assert(pre.last() == ch);
            assert(pre.drop_last() =~= d.subrange(0, i - start));
            if i == start {
                assert(digits_val(pre) == Some((ch - 48) as int));
            }
        }
        acc = acc2;
        i = i + 1;
    }
    proof {
        assert(d.subrange(0, s@.len() - start) =~= d);
    }
    Some(acc)
}

/// A parsed digit run has a non-negative value.
proof fn lemma_digits_val_nonneg(d: Seq<u8>)
    ensures
        digits_val(d) matches Some(v) ==> v >= 0,
    decreases d.len(),
{
    if d.len() > 1 {
        lemma_digits_val_nonneg(d.drop_last());
    }
}

/// A non-digit byte anywhere in the run makes the whole run unparsable.
proof fn lemma_digits_val_nondigit(d: Seq<u8>, k: int)
    requires
        0 <= k < d.len(),
        !(48 <= d[k] <= 57),
    ensures
        digits_val(d) is None,
    decreases d.len(),
{
    if k < d.len() - 1 {
        assert(d.drop_last()[k] == d[k]);
        lemma_digits_val_nondigit(d.drop_last(), k);
    }
}

/// Extending a digit run never shrinks its value.
proof fn lemma_digits_val_extend_ge(d: Seq<u8>, k: int, v: int)
    requires
        0 <= k <= d.len(),
        digits_val(d.subrange(0, k)) == Some(v),
    ensures
        digits_val(d) is None || digits_val(d)->0 >= v,
    decreases d.len() - k,
{
    if k == d.len() {
        assert(d.subrange(0, k) =~= d);
    } else {
        let e = d.subrange(0, k + 1);
        assert(e.drop_last() =~= d.subrange(0, k));
        assert(e.last() == d[k]);
        if 48 <= d[k] <= 57 {
            lemma_digits_val_nonneg(d.subrange(0, k));
            assert(k > 0 ==> digits_val(e) == Some(v * 10 + (d[k] - 48)));
            if k == 0 {
                assert(digits_val(d.subrange(0, 0)) is None);
            }
            assert(digits_val(e) matches Some(w) && w >= v) by {
                assert(v >= 0);
            }
            lemma_digits_val_extend_ge(d, k + 1, digits_val(e)->0);
        } else {
            lemma_digits_val_nondigit(d, k);
        }
    }
}

/// Once the accumulated value leaves the 32-bit range, the full run's value
/// does too, so the rank field fails to parse.
proof fn lemma_parse_overflow(d: Seq<u8>, k: int, acc: int, dig: int, s: Seq<u8>)
    requires
        d == if s.len() > 0 && s[0] == 43 {
            s.drop_first()
        } else {
            s
        },
        0 <= k < d.len(),
        k == 0 ==> acc == 0,
        k > 0 ==> digits_val(d.subrange(0, k)) == Some(acc),
        48 <= d[k] <= 57,
        dig == d[k] - 48,
        acc * 10 + dig > u32::MAX,
    ensures
        spec_parse_u32(s) is None,
{
    if k == 0 {
        assert(false);
    } else {
        let e = d.subrange(0, k + 1);
        assert(e.drop_last() =~= d.subrange(0, k));
        assert(e.last() == d[k]);
        assert(digits_val(e) == Some(acc * 10 + dig));
        lemma_digits_val_extend_ge(d, k + 1, acc * 10 + dig);
    }
}

/// Parses a vocabulary blob of newline-separated `<base64-token> <rank>`
/// records into (token bytes, rank) pairs in file order. Blank lines are
/// skipped; a record with no space, a token field that is not valid base64,
/// or a rank field that is not an unsigned 32-bit decimal is a load error.
pub fn load_bpe(bpe: &[u8]) -> (r: Result<Vec<(Vec<u8>, u32)>, String>)
    ensures
        (r is Ok) <==> (spec_load(bpe@) is Some),
        (r matches Ok(v) ==> Some(v.deep_view()) == spec_load(bpe@)),
{
    let n: usize = bpe.len();
    let mut out: Vec<(Vec<u8>, u32)> = Vec::new();
    let mut cur: usize = 0;
    let mut done: bool = false;
    proof {
        assert(out.deep_view() =~= Seq::<(Seq<u8>, u32)>::empty());
    }
    while !done
        invariant
            n == bpe@.len(),
            !done ==> 0 <= cur <= n,
            !done ==> match spec_load_from(bpe@, cur as int) {
                Some(rs) => spec_load(bpe@) == Some(out.deep_view() + rs),
                None => spec_load(bpe@) is None,
            },
            done ==> spec_load(bpe@) == Some(out.deep_view()),
        decreases
                (if done {
                    0int
                } else {
                    n - cur + 1
                }),
    {
        let ghost pos = cur as int;
        let ghost acc0 = out.deep_view();
        let i = find_byte_exec(bpe, 10, cur);
        proof {
            lemma_find_byte(bpe@, 10, pos);
        }
        let line = vstd::slice::slice_subrange(bpe, cur, i);
        let ghost lrec = spec_record(line@);
        if line.len() > 0 {
            let sp = find_byte_exec(line, 32, 0);
            proof {
                lemma_find_byte(line@, 32, 0);
            }
            if sp >= line.len() {
                proof {
                    assert(lrec is None);
                    assert(spec_load_from(bpe@, pos) is None);
                }
                return Err("Invalid BPE".to_owned());
            }
            let tok_field = vstd::slice::slice_subrange(line, 0, sp);
            let rank_field = vstd::slice::slice_subrange(line, sp + 1, line.len());
            match b64_decode(tok_field) {
                None => {
                    proof {
                        assert(lrec is None);
                        assert(spec_load_from(bpe@, pos) is None);
                    }
                    return Err("invalid base64 token field".to_owned());
                },
                Some(tb) => {
                    match parse_u32(rank_field) {
                        None => {
                            proof {
                                assert(lrec is None);
                                assert(spec_load_from(bpe@, pos) is None);
                            }
                            return Err("invalid rank field".to_owned());
                        },
                        Some(v) => {
                            let ghost tbv = tb@;
                            let ghost pre = out@;
                            out.push((tb, v));
                            proof {
                                assert(lrec == Some((tbv, v)));
                                assert(out@.len() == acc0.len() + 1);
                                assert(out@[acc0.len() as int].0@ == tbv);
                                assert(out.deep_view()[acc0.len() as int] == (tbv, v));
                                assert forall|j: int| 0 <= j < acc0.len() implies out.deep_view()[j]
                                    == acc0[j] by {
                                    assert(out@[j] == pre[j]);
                                    assert(out.deep_view()[j] == (out@[j].0@, out@[j].1));
                                    assert(acc0[j] == (pre[j].0@, pre[j].1));
                                }
                                assert(out.deep_view() =~= acc0 + seq![(tbv, v)]);
                            }
                        },
                    }
                },
            }
        }
        proof {
            let rest = if i + 1 > bpe@.len() {
                Some(Seq::<(Seq<u8>, u32)>::empty())
            } else {
                spec_load_from(bpe@, i + 1)
            };
            assert(spec_load_from(bpe@, pos) == (if line@.len() == 0 {
                rest
            } else {
                match lrec {
                    Some(rec) => match rest {
                        Some(rs) => Some(seq![rec] + rs),
                        None => None,
                    },
                    None => None,
                }
            }));
            match rest {
                Some(rs) => {
                    assert(spec_load(bpe@) == Some(out.deep_view() + rs)) by {
                        match lrec {
                            Some(rec) => {
                                if line@.len() > 0 {
                                    assert(out.deep_view() + rs =~= acc0 + (seq![rec] + rs));
                                }
                            },
                            None => {},
                        }
                    }
                },
                None => {
                    assert(spec_load(bpe@) is None);
                },
            }
        }
        if i >= n {
            proof {
                assert(out.deep_view() + Seq::<(Seq<u8>, u32)>::empty() =~= out.deep_view());
            }
            done = true;
        } else {
            cur = i + 1;
        }
    }
    proof {
        assert(spec_load(bpe@) == Some(out.deep_view()));
    }
    Ok(out)
}

} // verus!