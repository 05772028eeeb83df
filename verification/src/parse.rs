use vstd::prelude::*;

use crate::codec::{
    dec_digits, enc, enc_entries, enc_int, enc_list, esc, esc_byte, is_digit, BACKSLASH, COLON,
    COMMA, LBRACE, LBRACKET, MINUS, QUOTE, RBRACE, RBRACKET,
};
use crate::doc::{has_key, key_present, unique_keys, view_doc, view_entries, view_items, wf, Doc, DocV};

verus! {

/// The bytes of `pat` stand in `s` at position `i`.
pub open spec fn matches_at(s: Seq<u8>, i: int, pat: Seq<u8>) -> bool {
    0 <= i && i + pat.len() <= s.len() && s.subrange(i, i + pat.len()) == pat
}

/// Position `e` does not continue a number: it is the end of the input or
/// holds a byte that is not a digit.
pub open spec fn delim_ok(s: Seq<u8>, e: int) -> bool {
    e == s.len() || (0 <= e < s.len() && !is_digit(s[e]))
}

pub proof fn lemma_match_index(s: Seq<u8>, i: int, pat: Seq<u8>, k: int)
    requires
        matches_at(s, i, pat),
        0 <= k < pat.len(),
    ensures
        s[i + k] == pat[k],
{
    assert(s.subrange(i, i + pat.len())[k] == s[i + k]);
}

pub proof fn lemma_match_split(s: Seq<u8>, i: int, a: Seq<u8>, b: Seq<u8>)
    requires
        matches_at(s, i, a + b),
    ensures
        matches_at(s, i, a),
        matches_at(s, i + a.len(), b),
{
    assert(s.subrange(i, i + a.len()) =~= a) by {
        assert forall|k: int| 0 <= k < a.len() implies s.subrange(i, i + a.len())[k] == a[k] by {
            lemma_match_index(s, i, a + b, k);
            assert((a + b)[k] == a[k]);
        }
    }
    assert(s.subrange(i + a.len(), i + a.len() + b.len()) =~= b) by {
        assert forall|k: int| 0 <= k < b.len() implies s.subrange(
            i + a.len(),
            i + a.len() + b.len(),
        )[k] == b[k] by {
            lemma_match_index(s, i, a + b, a.len() + k);
            assert((a + b)[a.len() + k] == b[k]);
        }
    }
}

pub proof fn lemma_dec_digits(m: nat)
    ensures
        dec_digits(m).len() >= 1,
        forall|t: int| 0 <= t < dec_digits(m).len() ==> is_digit(#[trigger] dec_digits(m)[t]),
    decreases m,
{
    if m < 10 {
    } else {
        lemma_dec_digits(m / 10);
        assert(forall|t: int|
            0 <= t < dec_digits(m).len() ==> dec_digits(m)[t] == (if t < dec_digits(m / 10).len() {
                dec_digits(m / 10)[t]
            } else {
                (48 + m % 10) as u8
            }));
    }
}

/// The value written by a sequence of decimal digits, most significant
/// first.
pub open spec fn digits_val(ds: Seq<u8>) -> nat
    decreases ds.len(),
{
    if ds.len() == 0 {
        0
    } else {
        digits_val(ds.drop_last()) * 10 + (ds.last() - 48) as nat
    }
}

pub proof fn lemma_digits_val_dec(m: nat)
    ensures
        digits_val(dec_digits(m)) == m,
    decreases m,
{
    if m < 10 {
        assert(dec_digits(m).drop_last() =~= Seq::<u8>::empty());
        assert(digits_val(Seq::<u8>::empty()) == 0);
        assert(dec_digits(m).last() == (48 + m) as u8);
        assert(digits_val(dec_digits(m)) == 0 * 10 + ((48 + m) as u8 - 48) as nat);
    } else {
        lemma_digits_val_dec(m / 10);
        assert(dec_digits(m).drop_last() =~= dec_digits(m / 10));
        assert(dec_digits(m).last() == (48 + m % 10) as u8);
        assert(digits_val(dec_digits(m)) == (m / 10) * 10 + m % 10);
    }
}

pub proof fn lemma_dec_prefix(m: nat, t: int)
    requires
        0 <= t <= dec_digits(m).len(),
    ensures
        digits_val(dec_digits(m).take(t)) <= m,
    decreases m,
{
    lemma_dec_digits(m);
    if t == dec_digits(m).len() {
        assert(dec_digits(m).take(t) =~= dec_digits(m));
        lemma_digits_val_dec(m);
    } else if m < 10 {
        assert(t == 0);
        assert(dec_digits(m).take(0) =~= Seq::<u8>::empty());
    } else {
        lemma_dec_digits(m / 10);
        assert(t <= dec_digits(m / 10).len());
        assert(dec_digits(m).take(t) =~= dec_digits(m / 10).take(t));
        lemma_dec_prefix(m / 10, t);
        assert(m / 10 <= m);
    }
}

/// The first byte of each written form: the written forms of the six kinds
/// of document begin with distinct, recognisable bytes.
pub proof fn lemma_enc_first(dv: DocV)
    ensures
        enc(dv).len() >= 1,
        match dv {
            DocV::Null => enc(dv) == seq![110u8, 117u8, 108u8, 108u8],
            DocV::Bool(b) => enc(dv) == if b {
                seq![116u8, 114u8, 117u8, 101u8]
            } else {
                seq![102u8, 97u8, 108u8, 115u8, 101u8]
            },
            DocV::Int(n) => (n < 0 ==> enc(dv)[0] == MINUS) && (n >= 0 ==> is_digit(enc(dv)[0])),
            DocV::Str(_) => enc(dv)[0] == QUOTE,
            DocV::Arr(_) => enc(dv)[0] == LBRACKET,
            DocV::Obj(_) => enc(dv)[0] == LBRACE,
        },
{
    match dv {
        DocV::Int(n) => {
            if n < 0 {
                lemma_dec_digits((-n) as nat);
                assert(enc(dv)[0] == MINUS);
            } else {
                lemma_dec_digits(n as nat);
                assert(enc(dv)[0] == dec_digits(n as nat)[0]);
            }
        },
        _ => {},
    }
}

/// The first byte of the escaped form of a non-empty byte string is never
/// the bare quote; it is the backslash exactly when the first byte of the
/// string needs an escape.
pub proof fn lemma_esc_first(sv: Seq<u8>)
    requires
        sv.len() > 0,
    ensures
        esc(sv).len() >= 1,
        sv[0] == QUOTE || sv[0] == BACKSLASH ==> esc(sv) == seq![BACKSLASH, sv[0]] + esc(
            sv.drop_first(),
        ) && esc(sv)[0] == BACKSLASH,
        sv[0] != QUOTE && sv[0] != BACKSLASH ==> esc(sv) == seq![sv[0]] + esc(sv.drop_first())
            && esc(sv)[0] == sv[0],
{
    if sv[0] == QUOTE || sv[0] == BACKSLASH {
        assert(esc_byte(sv[0]) + esc(sv.drop_first()) =~= seq![BACKSLASH, sv[0]] + esc(
            sv.drop_first(),
        ));
    } else {
        assert(esc_byte(sv[0]) + esc(sv.drop_first()) =~= seq![sv[0]] + esc(sv.drop_first()));
    }
}

} // verus!

verus! {

/// The magnitude of an integer.
pub open spec fn mag_of(n: int) -> nat {
    if n < 0 {
        (-n) as nat
    } else {
        n as nat
    }
}

/// The hypothesis under which an integer must be read back exactly: it is
/// in machine range, its written form stands at `i`, and no digit follows.
pub open spec fn int_hyp(s: Seq<u8>, i: int, n: int) -> bool {
    &&& i64::MIN <= n <= i64::MAX
    &&& matches_at(s, i, enc_int(n))
    &&& delim_ok(s, i + enc_int(n).len())
}

proof fn lemma_int_digits_at(s: Seq<u8>, i: int, n: int)
    requires
        matches_at(s, i, enc_int(n)),
    ensures
        n < 0 ==> s[i] == MINUS && matches_at(s, i + 1, dec_digits(mag_of(n))),
        n >= 0 ==> matches_at(s, i, dec_digits(mag_of(n))),
        enc_int(n).len() == (if n < 0 { 1int } else { 0int }) + dec_digits(mag_of(n)).len(),
{
    if n < 0 {
        lemma_match_split(s, i, seq![MINUS], dec_digits(mag_of(n)));
        lemma_match_index(s, i, enc_int(n), 0);
        assert(enc_int(n)[0] == (seq![MINUS] + dec_digits(mag_of(n)))[0]);
    }
}

/// Under the integer hypothesis, a digit run that has been read as far as
/// a further digit is a proper prefix of the written digits, so the value
/// read so far is bounded by the magnitude.
proof fn lemma_int_prefix(s: Seq<u8>, i: int, k0: int, cur: int, acc: u64, n: int)
    requires
        0 <= i <= k0 <= cur < s.len(),
        k0 == if s[i] == MINUS {
            i + 1
        } else {
            i
        },
        forall|t: int| k0 <= t < cur ==> is_digit(#[trigger] s[t]),
        is_digit(s[cur]),
        acc as nat == digits_val(s.subrange(k0, cur)),
        int_hyp(s, i, n),
    ensures
        mag_of(n) >= acc as nat * 10,
{
    let m = mag_of(n);
    lemma_int_digits_at(s, i, n);
    lemma_dec_digits(m);
    lemma_digits_val_dec(m);
    let dlen = dec_digits(m).len() as int;
    if n < 0 {
        assert(s[i] == MINUS);
    } else {
        lemma_match_index(s, i, dec_digits(m), 0);
        assert(is_digit(s[i]));
        assert(s[i] != MINUS);
    }
    assert(matches_at(s, k0, dec_digits(m)));
    assert(delim_ok(s, k0 + dlen));
    // the run reaches past position cur, so the digits read are a proper
    // prefix of the written digits
    assert(cur < k0 + dlen) by {
        if k0 + dlen <= cur {
            assert(k0 <= k0 + dlen <= cur);
            if k0 + dlen < cur {
                assert(is_digit(s[k0 + dlen]));
            } else {
                assert(is_digit(s[cur]));
            }
            assert(!is_digit(s[k0 + dlen]));
        }
    }
    let t = cur - k0;
    assert(s.subrange(k0, cur) =~= dec_digits(m).take(t)) by {
        assert forall|q: int| 0 <= q < t implies s.subrange(k0, cur)[q] == dec_digits(m).take(t)[q] by {
            lemma_match_index(s, k0, dec_digits(m), q);
        }
    }
    assert(dec_digits(m).take(t + 1).drop_last() =~= dec_digits(m).take(t));
    assert(dec_digits(m).take(t + 1).last() == dec_digits(m)[t]);
    lemma_dec_prefix(m, t + 1);
    assert(digits_val(dec_digits(m).take(t + 1)) == acc as nat * 10 + (dec_digits(m)[t] - 48) as nat);
}

/// Under the integer hypothesis, a digit run that has come to rest (no
/// digit follows it) is exactly the written digits, so the value read is
/// the magnitude.
proof fn lemma_int_run(s: Seq<u8>, i: int, k0: int, cur: int, acc: u64, n: int)
    requires
        0 <= i <= k0 < cur <= s.len(),
        k0 == if s[i] == MINUS {
            i + 1
        } else {
            i
        },
        forall|t: int| k0 <= t < cur ==> is_digit(#[trigger] s[t]),
        cur == s.len() || !is_digit(s[cur]),
        acc as nat == digits_val(s.subrange(k0, cur)),
        int_hyp(s, i, n),
    ensures
        (n < 0) <==> (s[i] == MINUS),
        acc as nat == mag_of(n),
        cur == i + enc_int(n).len(),
{
    let m = mag_of(n);
    lemma_int_digits_at(s, i, n);
    lemma_dec_digits(m);
    lemma_digits_val_dec(m);
    let dlen = dec_digits(m).len() as int;
    if n >= 0 {
        lemma_match_index(s, i, dec_digits(m), 0);
        assert(is_digit(s[i]));
        assert(s[i] != MINUS);
    }
    assert(matches_at(s, k0, dec_digits(m)));
    assert(delim_ok(s, k0 + dlen));
    assert(cur <= k0 + dlen) by {
        if k0 + dlen < cur {
            assert(is_digit(s[k0 + dlen]));
            assert(!is_digit(s[k0 + dlen]));
        }
    }
    assert(cur >= k0 + dlen) by {
        if cur < k0 + dlen {
            lemma_match_index(s, k0, dec_digits(m), cur - k0);
            assert(is_digit(s[cur]));
            assert(cur < s.len());
        }
    }
    assert(s.subrange(k0, cur) =~= dec_digits(m)) by {
        assert forall|q: int| 0 <= q < dlen implies s.subrange(k0, cur)[q] == dec_digits(m)[q] by {
            lemma_match_index(s, k0, dec_digits(m), q);
        }
    }
}

/// Reads quoted text from just past the opening quote, unescaping the
/// backslash pairs, until the closing quote; the bytes read before this
/// call stand in `acc`.
fn parse_str_tail(s: &Vec<u8>, i: usize, acc: Vec<u8>) -> (r: Option<(Vec<u8>, usize)>)
    requires
        i <= s@.len(),
    ensures
        r matches Some(p) ==> i < p.1 <= s@.len(),
        forall|sv: Seq<u8>|
            #[trigger] matches_at(s@, i as int, esc(sv) + seq![QUOTE]) ==> r is Some && (
            r->Some_0).0@ == acc@ + sv && (r->Some_0).1 == i + esc(sv).len() + 1,
    decreases s@.len() - i,
{
    let n = s.len();
    if i >= n {
        proof {
            assert forall|sv: Seq<u8>| matches_at(s@, i as int, esc(sv) + seq![QUOTE]) implies false by {
                assert((esc(sv) + seq![QUOTE]).len() >= 1);
            }
        }
        return None;
    }
    let b0 = s[i];
    if b0 == QUOTE {
        let ghost accv = acc@;
        let r = Some((acc, i + 1));
        proof {
            assert forall|sv: Seq<u8>| #[trigger] matches_at(s@, i as int, esc(sv) + seq![QUOTE])
                implies r is Some && (r->Some_0).0@ == accv + sv && (r->Some_0).1 == i + esc(
                sv,
            ).len() + 1 by {
                lemma_match_index(s@, i as int, esc(sv) + seq![QUOTE], 0);
                if sv.len() > 0 {
                    lemma_esc_first(sv);
                    assert((esc(sv) + seq![QUOTE])[0] == esc(sv)[0]);
                    assert(false);
                } else {
                    assert(esc(sv) =~= Seq::<u8>::empty());
                    assert(accv + sv =~= accv);
                }
            }
        }
        return r;
    }
    if b0 == BACKSLASH {
        if i + 1 >= n {
            proof {
                assert forall|sv: Seq<u8>| matches_at(
                    s@,
                    i as int,
                    esc(sv) + seq![QUOTE],
                ) implies false by {
                    lemma_match_index(s@, i as int, esc(sv) + seq![QUOTE], 0);
                    if sv.len() == 0 {
                        assert(esc(sv) =~= Seq::<u8>::empty());
                        assert((esc(sv) + seq![QUOTE])[0] == QUOTE);
                    } else {
                        lemma_esc_first(sv);
                        assert((esc(sv) + seq![QUOTE])[0] == esc(sv)[0]);
                        assert(sv[0] == QUOTE || sv[0] == BACKSLASH);
                        assert(esc(sv).len() >= 2);
                        assert(i + 2 < s@.len() + 1);
                    }
                }
            }
            return None;
        }
        let c = s[i + 1];
        let mut acc2 = acc;
        let ghost accv = acc2@;
        acc2.push(c);
        let r = parse_str_tail(s, i + 2, acc2);
        proof {
            assert forall|sv: Seq<u8>| #[trigger] matches_at(s@, i as int, esc(sv) + seq![QUOTE])
                implies r is Some && (r->Some_0).0@ == accv + sv && (r->Some_0).1 == i + esc(
                sv,
            ).len() + 1 by {
                lemma_match_index(s@, i as int, esc(sv) + seq![QUOTE], 0);
                if sv.len() == 0 {
                    assert(esc(sv) =~= Seq::<u8>::empty());
                    assert((esc(sv) + seq![QUOTE])[0] == QUOTE);
                    assert(false);
                }
                lemma_esc_first(sv);
                assert((esc(sv) + seq![QUOTE])[0] == esc(sv)[0]);
                assert(sv[0] == QUOTE || sv[0] == BACKSLASH);
                lemma_match_index(s@, i as int, esc(sv) + seq![QUOTE], 1);
                assert((esc(sv) + seq![QUOTE])[1] == esc(sv)[1]);
                assert(esc(sv)[1] == sv[0]);
                assert(c == sv[0]);
                assert(esc(sv) + seq![QUOTE] =~= seq![BACKSLASH, sv[0]] + (esc(sv.drop_first())
                    + seq![QUOTE]));
                lemma_match_split(
                    s@,
                    i as int,
                    seq![BACKSLASH, sv[0]],
                    esc(sv.drop_first()) + seq![QUOTE],
                );
                assert(matches_at(s@, i + 2, esc(sv.drop_first()) + seq![QUOTE]));
                assert((r->Some_0).0@ == (accv + seq![sv[0]]) + sv.drop_first());
                assert((accv + seq![sv[0]]) + sv.drop_first() =~= accv + sv);
                assert(esc(sv).len() == 2 + esc(sv.drop_first()).len());
            }
        }
        return r;
    }
    let mut acc2 = acc;
    let ghost accv = acc2@;
    acc2.push(b0);
    let r = parse_str_tail(s, i + 1, acc2);
    proof {
        assert(accv == acc@);
        assert forall|sv: Seq<u8>| #[trigger] matches_at(s@, i as int, esc(sv) + seq![QUOTE])
            implies r is Some && (r->Some_0).0@ == accv + sv && (r->Some_0).1 == i + esc(
            sv,
        ).len() + 1 by {
            lemma_match_index(s@, i as int, esc(sv) + seq![QUOTE], 0);
            if sv.len() == 0 {
                assert(esc(sv) =~= Seq::<u8>::empty());
                assert((esc(sv) + seq![QUOTE])[0] == QUOTE);
                assert(false);
            }
            lemma_esc_first(sv);
            assert((esc(sv) + seq![QUOTE])[0] == esc(sv)[0]);
            assert(!(sv[0] == QUOTE || sv[0] == BACKSLASH));
            assert(b0 == sv[0]);
            assert(esc(sv) + seq![QUOTE] =~= seq![sv[0]] + (esc(sv.drop_first()) + seq![QUOTE]));
            lemma_match_split(s@, i as int, seq![sv[0]], esc(sv.drop_first()) + seq![QUOTE]);
            assert(matches_at(s@, i + 1, esc(sv.drop_first()) + seq![QUOTE]));
            assert((r->Some_0).0@ == (accv + seq![sv[0]]) + sv.drop_first());
            assert((accv + seq![sv[0]]) + sv.drop_first() =~= accv + sv);
            assert(esc(sv).len() == 1 + esc(sv.drop_first()).len());
        }
        assert(accv == acc@);
    }
    r
}

/// Reads an integer: an optional minus sign, then a greedy run of decimal
/// digits.  A value outside the machine range is refused.
fn parse_int(s: &Vec<u8>, i: usize) -> (r: Option<(i64, usize)>)
    requires
        i < s@.len(),
    ensures
        r matches Some(p) ==> i < p.1 <= s@.len(),
        forall|n: int|
            #[trigger] int_hyp(s@, i as int, n) ==> r is Some && (r->Some_0).0 as int == n && (
            r->Some_0).1 == i + enc_int(n).len(),
{
    let nlen = s.len();
    let neg = s[i] == MINUS;
    let k0 = if neg {
        i + 1
    } else {
        i
    };
    proof {
        assert forall|n: int| int_hyp(s@, i as int, n) && !(k0 < s@.len() && is_digit(
            s@[k0 as int],
        )) implies false by {
            lemma_int_digits_at(s@, i as int, n);
            lemma_dec_digits(mag_of(n));
            if n < 0 {
                lemma_match_index(s@, i + 1, dec_digits(mag_of(n)), 0);
            } else {
                lemma_match_index(s@, i as int, dec_digits(mag_of(n)), 0);
                assert(is_digit(s@[i as int]));
                assert(s@[i as int] != MINUS);
            }
        }
    }
    if k0 >= nlen {
        return None;
    }
    let d0 = s[k0];
    if !(48 <= d0 && d0 <= 57) {
        return None;
    }
    let mut acc: u64 = 0;
    let mut cur = k0;
    proof {
        assert(s@.subrange(k0 as int, k0 as int) =~= Seq::<u8>::empty());
    }
    while cur < nlen && 48 <= s[cur] && s[cur] <= 57
        invariant
            i <= k0 <= cur <= nlen,
            nlen == s@.len(),
            i < s@.len(),
            neg == (s@[i as int] == MINUS),
            k0 as int == if neg {
                i as int + 1
            } else {
                i as int
            },
            forall|t: int| k0 <= t < cur ==> is_digit(#[trigger] s@[t]),
            acc as nat == digits_val(s@.subrange(k0 as int, cur as int)),
        decreases nlen - cur,
    {
        let d = s[cur] - 48;
        if acc > (u64::MAX - 9) / 10 {
            proof {
                assert forall|n: int| int_hyp(s@, i as int, n) implies false by {
                    lemma_int_prefix(s@, i as int, k0 as int, cur as int, acc, n);
                    assert(mag_of(n) >= acc as nat * 10);
                    assert(acc as nat * 10 > 1844674407370955160 * 10);
                    assert(mag_of(n) <= 9223372036854775808);
                }
            }
            return None;
        }
        acc = acc * 10 + (d as u64);
        proof {
            assert(s@.subrange(k0 as int, cur as int + 1).drop_last() =~= s@.subrange(
                k0 as int,
                cur as int,
            ));
            assert(s@.subrange(k0 as int, cur as int + 1).last() == s@[cur as int]);
        }
        cur += 1;
    }
    proof {
        assert forall|n: int| #[trigger] int_hyp(s@, i as int, n) implies ((n < 0) == neg)
            && (acc as nat == mag_of(n)) && (cur == i + enc_int(n).len()) by {
            lemma_int_run(s@, i as int, k0 as int, cur as int, acc, n);
        }
    }
    if neg {
        if acc > 9223372036854775808u64 {
            proof {
                assert forall|n: int| int_hyp(s@, i as int, n) implies false by {
                    assert((n < 0) == neg);
                    assert(acc as nat == mag_of(n));
                    assert(mag_of(n) <= 9223372036854775808nat);
                }
            }
            return None;
        }
        let v: i64 = if acc == 9223372036854775808u64 {
            i64::MIN
        } else {
            -(acc as i64)
        };
        Some((v, cur))
    } else {
        if acc > 9223372036854775807u64 {
            return None;
        }
        Some((acc as i64, cur))
    }
}

} // verus!

verus! {

/// The hypothesis under which a document must be read back exactly: it is
/// well formed, its written form stands at `i`, and no digit follows.
pub open spec fn val_hyp(s: Seq<u8>, i: int, dv: DocV) -> bool {
    &&& wf(dv)
    &&& matches_at(s, i, enc(dv))
    &&& delim_ok(s, i + enc(dv).len())
}

/// The hypothesis under which the elements of an array from `idx` on,
/// followed by the closing bracket, must be read back exactly.
pub open spec fn list_hyp(s: Seq<u8>, i: int, items: Seq<DocV>, idx: int) -> bool {
    &&& wf(DocV::Arr(items))
    &&& 0 <= idx < items.len()
    &&& matches_at(s, i, enc_list(items, idx) + seq![RBRACKET])
}

/// The hypothesis under which the entries of a mapping from `idx` on,
/// followed by the closing brace, must be read back exactly.
pub open spec fn entries_hyp(s: Seq<u8>, i: int, entries: Seq<(Seq<u8>, DocV)>, idx: int) -> bool {
    &&& wf(DocV::Obj(entries))
    &&& 0 <= idx < entries.len()
    &&& matches_at(s, i, enc_entries(entries, idx) + seq![RBRACE])
}

/// What the shape of an array hypothesis gives at one element: the
/// element's own hypothesis holds, and a comma or the closing bracket
/// follows it.
proof fn lemma_list_parts(s: Seq<u8>, i: int, items: Seq<DocV>, idx: int)
    requires
        list_hyp(s, i, items, idx),
    ensures
        val_hyp(s, i, items[idx]),
        idx + 1 < items.len() ==> s[i + enc(items[idx]).len()] == COMMA,
        idx + 1 == items.len() ==> s[i + enc(items[idx]).len()] == RBRACKET,
        i + enc(items[idx]).len() < s.len(),
{
    let tail: Seq<u8> = if idx + 1 < items.len() {
        seq![COMMA] + enc_list(items, idx + 1)
    } else {
        Seq::<u8>::empty()
    };
    assert(enc_list(items, idx) == enc(items[idx]) + tail);
    assert(enc_list(items, idx) + seq![RBRACKET] =~= enc(items[idx]) + (tail + seq![RBRACKET]));
    lemma_match_split(s, i, enc(items[idx]), tail + seq![RBRACKET]);
    lemma_match_index(s, i + enc(items[idx]).len(), tail + seq![RBRACKET], 0);
    if idx + 1 < items.len() {
        assert((tail + seq![RBRACKET])[0] == COMMA);
    } else {
        assert((tail + seq![RBRACKET])[0] == RBRACKET);
    }
    assert(wf(DocV::Arr(items)));
    assert(forall|t: int| 0 <= t < items.len() ==> wf(#[trigger] items[t]));
    assert(wf(items[idx]));
}

/// A well-formed array stays well formed when a well-formed element is
/// appended.
proof fn lemma_wf_push(v: Seq<DocV>, dv: DocV)
    requires
        wf(DocV::Arr(v)),
        wf(dv),
    ensures
        wf(DocV::Arr(v.push(dv))),
{
    assert(forall|t: int| 0 <= t < v.len() ==> wf(#[trigger] v[t]));
    assert forall|t: int| 0 <= t < v.push(dv).len() implies wf(#[trigger] v.push(dv)[t]) by {
        if t < v.len() {
            assert(v.push(dv)[t] == v[t]);
            assert(wf(v[t]));
        } else {
            assert(v.push(dv)[t] == dv);
        }
    }
}

/// Reads one document value at `i`.
#[verifier::rlimit(100)]
pub fn parse_value(s: &Vec<u8>, i: usize) -> (r: Option<(Doc, usize)>)
    requires
        i <= s@.len(),
    ensures
        r matches Some(p) ==> i < p.1 <= s@.len() && wf(view_doc(&p.0)),
        forall|dv: DocV|
            #[trigger] val_hyp(s@, i as int, dv) ==> r is Some && view_doc(&(r->Some_0).0) == dv
                && (r->Some_0).1 == i + enc(dv).len(),
    decreases s@.len() - i, 0int,
{
    let n = s.len();
    if i >= n {
        proof {
            assert forall|dv: DocV| #[trigger] val_hyp(s@, i as int, dv) implies false by {
                lemma_enc_first(dv);
            }
        }
        return None;
    }
    let b = s[i];
    if b == 110 {
        if n - i > 3 && s[i + 1] == 117 && s[i + 2] == 108 && s[i + 3] == 108 {
            let r = Some((Doc::Null, i + 4));
            proof {
                assert forall|dv: DocV| #[trigger] val_hyp(s@, i as int, dv) implies r is Some
                    && view_doc(&(r->Some_0).0) == dv && (r->Some_0).1 == i + enc(dv).len() by {
                    lemma_enc_first(dv);
                    lemma_match_index(s@, i as int, enc(dv), 0);
                    match dv {
                        DocV::Null => {},
                        _ => {
                            assert(false);
                        },
                    }
                }
            }
            return r;
        } else {
            proof {
                assert forall|dv: DocV| #[trigger] val_hyp(s@, i as int, dv) implies false by {
                    lemma_enc_first(dv);
                    lemma_match_index(s@, i as int, enc(dv), 0);
                    match dv {
                        DocV::Null => {
                            lemma_match_index(s@, i as int, enc(dv), 1);
                            lemma_match_index(s@, i as int, enc(dv), 2);
                            lemma_match_index(s@, i as int, enc(dv), 3);
                        },
                        _ => {},
                    }
                }
            }
            return None;
        }
    }
    if b == 116 {
        if n - i > 3 && s[i + 1] == 114 && s[i + 2] == 117 && s[i + 3] == 101 {
            let r = Some((Doc::Bool(true), i + 4));
            proof {
                assert forall|dv: DocV| #[trigger] val_hyp(s@, i as int, dv) implies r is Some
                    && view_doc(&(r->Some_0).0) == dv && (r->Some_0).1 == i + enc(dv).len() by {
                    lemma_enc_first(dv);
                    lemma_match_index(s@, i as int, enc(dv), 0);
                    match dv {
                        DocV::Bool(bv) => {
                            assert(bv == true);
                        },
                        _ => {
                            assert(false);
                        },
                    }
                }
            }
            return r;
        } else {
            proof {
                assert forall|dv: DocV| #[trigger] val_hyp(s@, i as int, dv) implies false by {
                    lemma_enc_first(dv);
                    lemma_match_index(s@, i as int, enc(dv), 0);
                    match dv {
                        DocV::Bool(bv) => {
                            assert(bv == true);
                            lemma_match_index(s@, i as int, enc(dv), 1);
                            lemma_match_index(s@, i as int, enc(dv), 2);
                            lemma_match_index(s@, i as int, enc(dv), 3);
                        },
                        _ => {},
                    }
                }
            }
            return None;
        }
    }
    if b == 102 {
        if n - i > 4 && s[i + 1] == 97 && s[i + 2] == 108 && s[i + 3] == 115 && s[i + 4] == 101 {
            let r = Some((Doc::Bool(false), i + 5));
            proof {
                assert forall|dv: DocV| #[trigger] val_hyp(s@, i as int, dv) implies r is Some
                    && view_doc(&(r->Some_0).0) == dv && (r->Some_0).1 == i + enc(dv).len() by {
                    lemma_enc_first(dv);
                    lemma_match_index(s@, i as int, enc(dv), 0);
                    match dv {
                        DocV::Bool(bv) => {
                            assert(bv == false);
                        },
                        _ => {
                            assert(false);
                        },
                    }
                }
            }
            return r;
        } else {
            proof {
                assert forall|dv: DocV| #[trigger] val_hyp(s@, i as int, dv) implies false by {
                    lemma_enc_first(dv);
                    lemma_match_index(s@, i as int, enc(dv), 0);
                    match dv {
                        DocV::Bool(bv) => {
                            assert(bv == false);
                            lemma_match_index(s@, i as int, enc(dv), 1);
                            lemma_match_index(s@, i as int, enc(dv), 2);
                            lemma_match_index(s@, i as int, enc(dv), 3);
                            lemma_match_index(s@, i as int, enc(dv), 4);
                        },
                        _ => {},
                    }
                }
            }
            return None;
        }
    }
    if b == QUOTE {
        let r0 = parse_str_tail(s, i + 1, Vec::new());
        proof {
            assert forall|dv: DocV| #[trigger] val_hyp(s@, i as int, dv) implies r0 is Some && (
            r0->Some_0).0@ == enc_str_of(dv) && (r0->Some_0).1 == i + enc(dv).len() by {
                lemma_enc_first(dv);
                lemma_match_index(s@, i as int, enc(dv), 0);
                match dv {
                    DocV::Str(sv) => {
                        assert(enc(dv) =~= seq![QUOTE] + (esc(sv) + seq![QUOTE]));
                        lemma_match_split(s@, i as int, seq![QUOTE], esc(sv) + seq![QUOTE]);
                        assert(matches_at(s@, i + 1, esc(sv) + seq![QUOTE]));
                        assert(Seq::<u8>::empty() + sv =~= sv);
                    },
                    _ => {
                        assert(false);
                    },
                }
            }
        }
        match r0 {
            None => {
                return None;
            },
            Some((bytes, j)) => {
                let r = Some((Doc::Str(bytes), j));
                proof {
                    assert forall|dv: DocV| #[trigger] val_hyp(s@, i as int, dv) implies r is Some
                        && view_doc(&(r->Some_0).0) == dv && (r->Some_0).1 == i + enc(
                    dv,
                    ).len() by {
                        lemma_enc_first(dv);
                        lemma_match_index(s@, i as int, enc(dv), 0);
                        match dv {
                            DocV::Str(sv) => {
                                assert(bytes@ == sv);
                            },
                            _ => {
                                assert(false);
                            },
                        }
                    }
                }
                return r;
            },
        }
    }
    if b == LBRACKET {
        if i + 1 < n && s[i + 1] == RBRACKET {
            let ev: Vec<Doc> = Vec::new();
            proof {
                assert(view_items(&ev) =~= Seq::<DocV>::empty());
            }
            let r = Some((Doc::Arr(ev), i + 2));
            proof {
                assert forall|dv: DocV| #[trigger] val_hyp(s@, i as int, dv) implies r is Some
                    && view_doc(&(r->Some_0).0) == dv && (r->Some_0).1 == i + enc(dv).len() by {
                    lemma_enc_first(dv);
                    lemma_match_index(s@, i as int, enc(dv), 0);
                    match dv {
                        DocV::Arr(items) => {
                            if items.len() > 0 {
                                lemma_enc_first(items[0]);
                                assert(wf(items[0]));
                                assert(enc(dv)[1] == (enc_list(items, 0) + seq![RBRACKET])[0]);
                                assert(enc_list(items, 0)[0] == enc(items[0])[0]);
                                lemma_match_index(s@, i as int, enc(dv), 1);
                                assert(false);
                            } else {
                                assert(enc(dv) =~= seq![LBRACKET, RBRACKET]);
                                assert(items =~= Seq::<DocV>::empty());
                            }
                        },
                        _ => {
                            assert(false);
                        },
                    }
                }
            }
            return r;
        }
        let ev: Vec<Doc> = Vec::new();
        proof {
            assert(view_items(&ev) =~= Seq::<DocV>::empty());
        }
        let r0 = parse_arr_rest(s, i + 1, ev);
        proof {
            let ghost evv = Seq::<DocV>::empty();
            assert forall|dv: DocV| #[trigger] val_hyp(s@, i as int, dv) implies r0 is Some
                && view_doc(&Doc::Arr((r0->Some_0).0)) == dv && (r0->Some_0).1 == i + enc(
                dv,
            ).len() by {
                lemma_enc_first(dv);
                lemma_match_index(s@, i as int, enc(dv), 0);
                match dv {
                    DocV::Arr(items) => {
                        if items.len() == 0 {
                            assert(enc(dv) =~= seq![LBRACKET, RBRACKET]);
                            lemma_match_index(s@, i as int, enc(dv), 1);
                            assert(false);
                        }
                        assert(enc(dv) =~= seq![LBRACKET] + (enc_list(items, 0) + seq![RBRACKET]));
                        lemma_match_split(
                            s@,
                            i as int,
                            seq![LBRACKET],
                            enc_list(items, 0) + seq![RBRACKET],
                        );
                        assert(list_hyp(s@, i + 1, items, 0));
                        assert(Seq::<DocV>::empty() =~= items.take(0));
                    },
                    _ => {
                        assert(false);
                    },
                }
            }
        }
        match r0 {
            None => {
                return None;
            },
            Some((items_vec, j)) => {
                let r = Some((Doc::Arr(items_vec), j));
                proof {
                    assert forall|dv: DocV| #[trigger] val_hyp(s@, i as int, dv) implies r is Some
                        && view_doc(&(r->Some_0).0) == dv && (r->Some_0).1 == i + enc(
                    dv,
                    ).len() by {
                        assert((r0->Some_0).0 == items_vec);
                        assert(view_doc(&Doc::Arr((r0->Some_0).0)) == dv);
                    }
                }
                return r;
            },
        }
    }
    if b == LBRACE {
        if i + 1 < n && s[i + 1] == RBRACE {
            let ev: Vec<(Vec<u8>, Doc)> = Vec::new();
            proof {
                assert(view_entries(&ev) =~= Seq::<(Seq<u8>, DocV)>::empty());
            }
            let r = Some((Doc::Obj(ev), i + 2));
            proof {
                assert forall|dv: DocV| #[trigger] val_hyp(s@, i as int, dv) implies r is Some
                    && view_doc(&(r->Some_0).0) == dv && (r->Some_0).1 == i + enc(dv).len() by {
                    lemma_enc_first(dv);
                    lemma_match_index(s@, i as int, enc(dv), 0);
                    match dv {
                        DocV::Obj(entries) => {
                            if entries.len() > 0 {
                                assert(enc(dv)[1] == (enc_entries(entries, 0) + seq![RBRACE])[0]);
                                assert(enc_entries(entries, 0)[0] == QUOTE);
                                lemma_match_index(s@, i as int, enc(dv), 1);
                                assert(false);
                            } else {
                                assert(enc(dv) =~= seq![LBRACE, RBRACE]);
                                assert(entries =~= Seq::<(Seq<u8>, DocV)>::empty());
                            }
                        },
                        _ => {
                            assert(false);
                        },
                    }
                }
            }
            return r;
        }
        let ev: Vec<(Vec<u8>, Doc)> = Vec::new();
        proof {
            assert(view_entries(&ev) =~= Seq::<(Seq<u8>, DocV)>::empty());
        }
        let r0 = parse_obj_rest(s, i + 1, ev);
        proof {
            assert forall|dv: DocV| #[trigger] val_hyp(s@, i as int, dv) implies r0 is Some
                && view_doc(&Doc::Obj((r0->Some_0).0)) == dv && (r0->Some_0).1 == i + enc(
                dv,
            ).len() by {
                lemma_enc_first(dv);
                lemma_match_index(s@, i as int, enc(dv), 0);
                match dv {
                    DocV::Obj(entries) => {
                        if entries.len() == 0 {
                            assert(enc(dv) =~= seq![LBRACE, RBRACE]);
                            lemma_match_index(s@, i as int, enc(dv), 1);
                            assert(false);
                        }
                        assert(enc(dv) =~= seq![LBRACE] + (enc_entries(entries, 0) + seq![RBRACE]));
                        lemma_match_split(
                            s@,
                            i as int,
                            seq![LBRACE],
                            enc_entries(entries, 0) + seq![RBRACE],
                        );
                        assert(entries_hyp(s@, i + 1, entries, 0));
                        assert(Seq::<(Seq<u8>, DocV)>::empty() =~= entries.take(0));
                    },
                    _ => {
                        assert(false);
                    },
                }
            }
        }
        match r0 {
            None => {
                return None;
            },
            Some((entries_vec, j)) => {
                let r = Some((Doc::Obj(entries_vec), j));
                return r;
            },
        }
    }
    if b == MINUS || (48 <= b && b <= 57) {
        let r0 = parse_int(s, i);
        proof {
            assert forall|dv: DocV| #[trigger] val_hyp(s@, i as int, dv) implies r0 is Some
                && DocV::Int((r0->Some_0).0 as int) == dv && (r0->Some_0).1 == i + enc(
                dv,
            ).len() by {
                lemma_enc_first(dv);
                lemma_match_index(s@, i as int, enc(dv), 0);
                match dv {
                    DocV::Int(nv) => {
                        assert(int_hyp(s@, i as int, nv));
                    },
                    _ => {
                        assert(false);
                    },
                }
            }
        }
        match r0 {
            None => {
                return None;
            },
            Some((v, j)) => {
                let r = Some((Doc::Int(v), j));
                return r;
            },
        }
    }
    proof {
        assert forall|dv: DocV| #[trigger] val_hyp(s@, i as int, dv) implies false by {
            lemma_enc_first(dv);
            lemma_match_index(s@, i as int, enc(dv), 0);
            match dv {
                DocV::Int(nv) => {
                    assert(enc(dv)[0] == MINUS || is_digit(enc(dv)[0]));
                },
                _ => {},
            }
        }
    }
    None
}

/// The scalar text carried by a document that is known to be text.
pub open spec fn enc_str_of(dv: DocV) -> Seq<u8> {
    match dv {
        DocV::Str(sv) => sv,
        _ => Seq::empty(),
    }
}

} // verus!

verus! {

/// Reads the elements of an array from just past the opening bracket or
/// the last separating comma; the elements already read stand in `acc`.
#[verifier::rlimit(100)]
fn parse_arr_rest(s: &Vec<u8>, i: usize, acc: Vec<Doc>) -> (r: Option<(Vec<Doc>, usize)>)
    requires
        i <= s@.len(),
        wf(DocV::Arr(view_items(&acc))),
    ensures
        r matches Some(p) ==> i < p.1 <= s@.len() && wf(DocV::Arr(view_items(&p.0))),
        forall|items: Seq<DocV>, idx: int|
            #[trigger] list_hyp(s@, i as int, items, idx) && view_items(&acc) == items.take(idx)
                ==> r is Some && view_items(&(r->Some_0).0) == items && (r->Some_0).1 == i
                + enc_list(items, idx).len() + 1,
    decreases s@.len() - i, 1int,
{
    let ghost accv = view_items(&acc);
    let r0 = parse_value(s, i);
    proof {
        assert forall|items: Seq<DocV>, idx: int|
            #[trigger] list_hyp(s@, i as int, items, idx) implies val_hyp(
            s@,
            i as int,
            items[idx],
        ) && (idx + 1 < items.len() ==> s@[i + enc(items[idx]).len()] == COMMA) && (idx + 1
            == items.len() ==> s@[i + enc(items[idx]).len()] == RBRACKET) && i + enc(
            items[idx],
        ).len() < s@.len() by {
            lemma_list_parts(s@, i as int, items, idx);
        }
    }
    match r0 {
        None => {
            return None;
        },
        Some((d, j)) => {
            let mut acc2 = acc;
            acc2.push(d);
            proof {
                assert(view_items(&acc2) =~= accv.push(view_doc(&d)));
            }
            if j >= s.len() {
                return None;
            }
            let b = s[j];
            proof {
                lemma_wf_push(accv, view_doc(&d));
                assert(wf(DocV::Arr(view_items(&acc2))));
            }
            if b == COMMA {
                let r = parse_arr_rest(s, j + 1, acc2);
                proof {
                    assert forall|items: Seq<DocV>, idx: int|
                        #[trigger] list_hyp(s@, i as int, items, idx) && accv == items.take(idx)
                            implies r is Some && view_items(&(r->Some_0).0) == items && (
                        r->Some_0).1 == i + enc_list(items, idx).len() + 1 by {
                        assert(view_doc(&d) == items[idx]);
                        assert(j == i + enc(items[idx]).len());
                        if idx + 1 == items.len() {
                            assert(s@[j as int] == RBRACKET);
                            assert(false);
                        }
                        let tail: Seq<u8> = seq![COMMA] + enc_list(items, idx + 1);
                        assert(enc_list(items, idx) == enc(items[idx]) + tail);
                        assert(enc_list(items, idx) + seq![RBRACKET] =~= enc(items[idx]) + (
                        seq![COMMA] + (enc_list(items, idx + 1) + seq![RBRACKET])));
                        lemma_match_split(
                            s@,
                            i as int,
                            enc(items[idx]),
                            seq![COMMA] + (enc_list(items, idx + 1) + seq![RBRACKET]),
                        );
                        lemma_match_split(
                            s@,
                            j as int,
                            seq![COMMA],
                            enc_list(items, idx + 1) + seq![RBRACKET],
                        );
                        assert(list_hyp(s@, j + 1, items, idx + 1));
                        assert(items.take(idx).push(items[idx]) =~= items.take(idx + 1));
                        assert(view_items(&acc2) == items.take(idx + 1));
                    }
                }
                return r;
            }
            if b == RBRACKET {
                let r = Some((acc2, j + 1));
                proof {
                    assert forall|items: Seq<DocV>, idx: int|
                        #[trigger] list_hyp(s@, i as int, items, idx) && accv == items.take(idx)
                            implies r is Some && view_items(&(r->Some_0).0) == items && (
                        r->Some_0).1 == i + enc_list(items, idx).len() + 1 by {
                        assert(view_doc(&d) == items[idx]);
                        assert(j == i + enc(items[idx]).len());
                        if idx + 1 < items.len() {
                            assert(s@[j as int] == COMMA);
                            assert(false);
                        }
                        assert(items.take(idx).push(items[idx]) =~= items);
                        assert(view_items(&acc2) == items);
                        assert(enc_list(items, idx) == enc(items[idx]) + Seq::<u8>::empty());
                        assert(enc_list(items, idx) =~= enc(items[idx]));
                    }
                }
                return r;
            }
            proof {
                assert forall|items: Seq<DocV>, idx: int|
                    #[trigger] list_hyp(s@, i as int, items, idx) && accv == items.take(idx)
                        implies false by {
                    assert(view_doc(&d) == items[idx]);
                    assert(j == i + enc(items[idx]).len());
                }
            }
            return None;
        },
    }
}

/// Reads the entries of a mapping from just past the opening brace or the
/// last separating comma; the entries already read stand in `acc`.  An
/// entry whose key has already been seen is refused.
#[verifier::rlimit(100)]
fn parse_obj_rest(s: &Vec<u8>, i: usize, acc: Vec<(Vec<u8>, Doc)>) -> (r: Option<
    (Vec<(Vec<u8>, Doc)>, usize),
>)
    requires
        i <= s@.len(),
        wf(DocV::Obj(view_entries(&acc))),
    ensures
        r matches Some(p) ==> i < p.1 <= s@.len() && wf(DocV::Obj(view_entries(&p.0))),
        forall|entries: Seq<(Seq<u8>, DocV)>, idx: int|
            #[trigger] entries_hyp(s@, i as int, entries, idx) && view_entries(&acc)
                == entries.take(idx) ==> r is Some && view_entries(&(r->Some_0).0) == entries && (
            r->Some_0).1 == i + enc_entries(entries, idx).len() + 1,
    decreases s@.len() - i, 1int,
{
    let ghost accv = view_entries(&acc);
    let n = s.len();
    proof {
        assert forall|entries: Seq<(Seq<u8>, DocV)>, idx: int|
            #[trigger] entries_hyp(s@, i as int, entries, idx) implies s@[i as int] == QUOTE
            && matches_at(s@, i + 1, esc(entries[idx].0) + seq![QUOTE]) && i < s@.len() by {
            let k = entries[idx].0;
            let v = entries[idx].1;
            let tail: Seq<u8> = if idx + 1 < entries.len() {
                seq![COMMA] + enc_entries(entries, idx + 1)
            } else {
                Seq::<u8>::empty()
            };
            assert(enc_entries(entries, idx) == seq![QUOTE] + esc(k) + seq![QUOTE, COLON] + enc(v)
                + tail);
            assert(enc_entries(entries, idx) + seq![RBRACE] =~= seq![QUOTE] + ((esc(k)
                + seq![QUOTE]) + (seq![COLON] + enc(v) + (tail + seq![RBRACE]))));
            lemma_match_split(
                s@,
                i as int,
                seq![QUOTE],
                (esc(k) + seq![QUOTE]) + (seq![COLON] + enc(v) + (tail + seq![RBRACE])),
            );
            lemma_match_split(
                s@,
                i + 1,
                esc(k) + seq![QUOTE],
                seq![COLON] + enc(v) + (tail + seq![RBRACE]),
            );
            lemma_match_index(s@, i as int, seq![QUOTE], 0);
        }
    }
    if i >= n {
        return None;
    }
    if s[i] != QUOTE {
        return None;
    }
    let r0 = parse_str_tail(s, i + 1, Vec::new());
    match r0 {
        None => {
            proof {
                assert forall|entries: Seq<(Seq<u8>, DocV)>, idx: int|
                    #[trigger] entries_hyp(s@, i as int, entries, idx) implies false by {
                    assert(Seq::<u8>::empty() + entries[idx].0 =~= entries[idx].0);
                }
            }
            return None;
        },
        Some((key, j1)) => {
            proof {
                assert forall|entries: Seq<(Seq<u8>, DocV)>, idx: int|
                    #[trigger] entries_hyp(s@, i as int, entries, idx) implies key@ == entries[
                    idx].0 && j1 == i + 1 + esc(entries[idx].0).len() + 1 && matches_at(
                    s@,
                    j1 as int,
                    seq![COLON] + enc(entries[idx].1),
                ) && (j1 + 1 + enc(entries[idx].1).len() <= s@.len()) && delim_ok(
                    s@,
                    j1 + 1 + enc(entries[idx].1).len(),
                ) && wf(entries[idx].1) by {
                    let k = entries[idx].0;
                    let v = entries[idx].1;
                    let tail: Seq<u8> = if idx + 1 < entries.len() {
                        seq![COMMA] + enc_entries(entries, idx + 1)
                    } else {
                        Seq::<u8>::empty()
                    };
                    assert(enc_entries(entries, idx) == seq![QUOTE] + esc(k) + seq![QUOTE, COLON]
                        + enc(v) + tail);
                    assert(enc_entries(entries, idx) + seq![RBRACE] =~= seq![QUOTE] + ((esc(k)
                        + seq![QUOTE]) + ((seq![COLON] + enc(v)) + (tail + seq![RBRACE]))));
                    lemma_match_split(
                        s@,
                        i as int,
                        seq![QUOTE],
                        (esc(k) + seq![QUOTE]) + ((seq![COLON] + enc(v)) + (tail + seq![RBRACE])),
                    );
                    lemma_match_split(
                        s@,
                        i + 1,
                        esc(k) + seq![QUOTE],
                        (seq![COLON] + enc(v)) + (tail + seq![RBRACE]),
                    );
                    assert(Seq::<u8>::empty() + k =~= k);
                    lemma_match_split(
                        s@,
                        i + 1 + esc(k).len() + 1,
                        seq![COLON] + enc(v),
                        tail + seq![RBRACE],
                    );
                    lemma_match_index(s@, j1 + 1 + enc(v).len(), tail + seq![RBRACE], 0);
                    if idx + 1 < entries.len() {
                        assert((tail + seq![RBRACE])[0] == COMMA);
                    } else {
                        assert((tail + seq![RBRACE])[0] == RBRACE);
                    }
                    assert(wf(DocV::Obj(entries)));
                    assert(wf(entries[idx].1));
                }
            }
            if has_key(&acc, &key) {
                proof {
                    assert forall|entries: Seq<(Seq<u8>, DocV)>, idx: int|
                        #[trigger] entries_hyp(s@, i as int, entries, idx) && accv == entries.take(
                        idx) implies false by {
                        assert(unique_keys(entries));
                        let kk = entries[idx].0;
                        assert(key_present(kk, accv));
                        let witness = choose|t: int|
                            0 <= t < accv.len() && (#[trigger] accv[t]).0 == kk;
                        assert(accv[witness] == entries.take(idx)[witness]);
                        assert(entries[witness].0 == entries[idx].0);
                    }
                }
                return None;
            }
            if j1 >= n {
                return None;
            }
            if s[j1] != COLON {
                proof {
                    assert forall|entries: Seq<(Seq<u8>, DocV)>, idx: int|
                        #[trigger] entries_hyp(s@, i as int, entries, idx) implies false by {
                        lemma_match_index(s@, j1 as int, seq![COLON] + enc(entries[idx].1), 0);
                    }
                }
                return None;
            }
            let r1 = parse_value(s, j1 + 1);
            proof {
                assert forall|entries: Seq<(Seq<u8>, DocV)>, idx: int|
                    #[trigger] entries_hyp(s@, i as int, entries, idx) implies val_hyp(
                    s@,
                    j1 as int + 1,
                    entries[idx].1,
                ) by {
                    lemma_match_split(s@, j1 as int, seq![COLON], enc(entries[idx].1));
                }
            }
            match r1 {
                None => {
                    return None;
                },
                Some((d, j2)) => {
                    let mut acc2 = acc;
                    let ghost keyv = key@;
                    acc2.push((key, d));
                    proof {
                        assert(view_entries(&acc2) =~= accv.push((keyv, view_doc(&d))));
                        assert forall|t: int| 0 <= t < accv.len() implies (#[trigger] accv[t]).0
                            != keyv by {
                            assert(!key_present(keyv, accv));
                        }
                        assert(unique_keys(view_entries(&acc2)));
                        assert(wf(DocV::Obj(view_entries(&acc2))));
                    }
                    if j2 >= n {
                        proof {
                            assert forall|entries: Seq<(Seq<u8>, DocV)>, idx: int|
                                #[trigger] entries_hyp(s@, i as int, entries, idx) implies false by {
                                assert(j2 == j1 + 1 + enc(entries[idx].1).len());
                            }
                        }
                        return None;
                    }
                    let b = s[j2];
                    proof {
                        assert forall|entries: Seq<(Seq<u8>, DocV)>, idx: int|
                            #[trigger] entries_hyp(s@, i as int, entries, idx) && accv
                                == entries.take(idx) implies view_entries(&acc2) == entries.take(
                            idx + 1,
                        ) && j2 == j1 + 1 + enc(entries[idx].1).len() && (idx + 1 < entries.len()
                            ==> s@[j2 as int] == COMMA && matches_at(
                            s@,
                            j2 as int + 1,
                            enc_entries(entries, idx + 1) + seq![RBRACE],
                        )) && (idx + 1 == entries.len() ==> s@[j2 as int] == RBRACE) by {
                            let k = entries[idx].0;
                            let v = entries[idx].1;
                            let tail: Seq<u8> = if idx + 1 < entries.len() {
                                seq![COMMA] + enc_entries(entries, idx + 1)
                            } else {
                                Seq::<u8>::empty()
                            };
                            assert(enc_entries(entries, idx) == seq![QUOTE] + esc(k) + seq![
                                QUOTE,
                                COLON,
                            ] + enc(v) + tail);
                            assert(enc_entries(entries, idx) + seq![RBRACE] =~= seq![QUOTE] + ((esc(
                                k,
                            ) + seq![QUOTE]) + ((seq![COLON] + enc(v)) + (tail + seq![RBRACE]))));
                            lemma_match_split(
                                s@,
                                i as int,
                                seq![QUOTE],
                                (esc(k) + seq![QUOTE]) + ((seq![COLON] + enc(v)) + (tail
                                    + seq![RBRACE])),
                            );
                            lemma_match_split(
                                s@,
                                i + 1,
                                esc(k) + seq![QUOTE],
                                (seq![COLON] + enc(v)) + (tail + seq![RBRACE]),
                            );
                            lemma_match_split(
                                s@,
                                i + 1 + esc(k).len() + 1,
                                seq![COLON] + enc(v),
                                tail + seq![RBRACE],
                            );
                            assert(entries.take(idx).push(entries[idx]) =~= entries.take(idx + 1));
                            assert(matches_at(
                                s@,
                                i + 1 + esc(k).len() + 1 + (seq![COLON] + enc(v)).len(),
                                tail + seq![RBRACE],
                            ));
                            assert(i + 1 + esc(k).len() + 1 + (seq![COLON] + enc(v)).len() == j2);
                            if idx + 1 < entries.len() {
                                assert(tail + seq![RBRACE] =~= seq![COMMA] + (enc_entries(
                                    entries,
                                    idx + 1,
                                ) + seq![RBRACE]));
                                lemma_match_split(
                                    s@,
                                    j2 as int,
                                    seq![COMMA],
                                    enc_entries(entries, idx + 1) + seq![RBRACE],
                                );
                                lemma_match_index(s@, j2 as int, seq![COMMA], 0);
                            } else {
                                lemma_match_index(s@, j2 as int, tail + seq![RBRACE], 0);
                            }
                        }
                    }
                    if b == COMMA {
                        let r = parse_obj_rest(s, j2 + 1, acc2);
                        proof {
                            assert forall|entries: Seq<(Seq<u8>, DocV)>, idx: int|
                                #[trigger] entries_hyp(s@, i as int, entries, idx) && accv
                                    == entries.take(idx) implies r is Some && view_entries(
                                &(r->Some_0).0,
                            ) == entries && (r->Some_0).1 == i + enc_entries(entries, idx).len()
                                + 1 by {
                                if idx + 1 == entries.len() {
                                    assert(s@[j2 as int] == RBRACE);
                                    assert(false);
                                }
                                assert(entries_hyp(s@, j2 as int + 1, entries, idx + 1));
                            }
                        }
                        return r;
                    }
                    if b == RBRACE {
                        let r = Some((acc2, j2 + 1));
                        proof {
                            assert forall|entries: Seq<(Seq<u8>, DocV)>, idx: int|
                                #[trigger] entries_hyp(s@, i as int, entries, idx) && accv
                                    == entries.take(idx) implies r is Some && view_entries(
                                &(r->Some_0).0,
                            ) == entries && (r->Some_0).1 == i + enc_entries(entries, idx).len()
                                + 1 by {
                                if idx + 1 < entries.len() {
                                    assert(s@[j2 as int] == COMMA);
                                    assert(false);
                                }
                                assert(entries.take(idx + 1) =~= entries);
                            }
                        }
                        return r;
                    }
                    proof {
                        assert forall|entries: Seq<(Seq<u8>, DocV)>, idx: int|
                            #[trigger] entries_hyp(s@, i as int, entries, idx) && accv
                                == entries.take(idx) implies false by {
                        }
                    }
                    return None;
                },
            }
        },
    }
}

} // verus!

verus! {

/// Reads a document from its written form.  The written form of any
/// well-formed document, with nothing before or after it, is read back as
/// that document; anything else that is accepted is itself well formed.
/// Input that cannot be read this way is a hard error, so that a rewritten
/// manifest is never silently ignored.
pub fn parse_doc(s: &Vec<u8>) -> (r: Result<Doc, crate::error::BOError>)
    ensures
        forall|dv: DocV| wf(dv) && s@ == enc(dv) ==> r is Ok && view_doc(&(r->Ok_0)) == dv,
        r matches Ok(d) ==> wf(view_doc(&d)),
{
    proof {
        assert forall|dv: DocV| wf(dv) && s@ == enc(dv) implies val_hyp(s@, 0, dv) by {
            assert(s@.subrange(0, enc(dv).len() as int) =~= s@);
        }
    }
    match parse_value(s, 0) {
        None => Err(crate::error::BOError::ParseManifestError),
        Some((d, j)) => {
            if j == s.len() {
                Ok(d)
            } else {
                proof {
                    assert forall|dv: DocV| wf(dv) && s@ == enc(dv) implies false by {
                        assert(val_hyp(s@, 0, dv));
                    }
                }
                Err(crate::error::BOError::ParseManifestError)
            }
        },
    }
}

} // verus!
