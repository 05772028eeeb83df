use vstd::prelude::*;

use crate::doc::{view_doc, view_entries, view_items, Doc, DocV};

verus! {

pub const QUOTE: u8 = 34;
pub const BACKSLASH: u8 = 92;
pub const COMMA: u8 = 44;
pub const COLON: u8 = 58;
pub const MINUS: u8 = 45;
pub const LBRACKET: u8 = 91;
pub const RBRACKET: u8 = 93;
pub const LBRACE: u8 = 123;
pub const RBRACE: u8 = 125;

pub open spec fn is_digit(b: u8) -> bool {
    48 <= b <= 57
}

/// How one byte of scalar text is written: the quote and the backslash are
/// escaped with a backslash, every other byte stands for itself.
pub open spec fn esc_byte(b: u8) -> Seq<u8> {
    if b == QUOTE || b == BACKSLASH {
        seq![BACKSLASH, b]
    } else {
        seq![b]
    }
}

/// The escaped form of a byte string.
pub open spec fn esc(s: Seq<u8>) -> Seq<u8>
    decreases s.len(),
{
    if s.len() == 0 {
        Seq::empty()
    } else {
        esc_byte(s[0]) + esc(s.drop_first())
    }
}

pub proof fn lemma_esc_add(a: Seq<u8>, b: Seq<u8>)
    ensures
        esc(a + b) == esc(a) + esc(b),
    decreases a.len(),
{
    if a.len() == 0 {
        assert(a + b =~= b);
        assert(esc(a) + esc(b) =~= esc(b));
    } else {
        assert((a + b).drop_first() =~= a.drop_first() + b);
        lemma_esc_add(a.drop_first(), b);
        assert(esc_byte((a + b)[0]) + (esc(a.drop_first()) + esc(b)) =~= (esc_byte(a[0]) + esc(
            a.drop_first(),
        )) + esc(b));
    }
}

/// The decimal digits of a natural number, most significant first.
pub open spec fn dec_digits(n: nat) -> Seq<u8>
    decreases n,
{
    if n < 10 {
        seq![(48 + n) as u8]
    } else {
        dec_digits(n / 10) + seq![(48 + n % 10) as u8]
    }
}

/// The written form of an integer: a minus sign for negative values, then
/// the decimal digits of the magnitude.
pub open spec fn enc_int(n: int) -> Seq<u8> {
    if n < 0 {
        seq![MINUS] + dec_digits((-n) as nat)
    } else {
        dec_digits(n as nat)
    }
}

/// The written form of a document: a compact rendering with quoted and
/// escaped scalar text, bracketed arrays and braced mappings, every value
/// separated by one punctuation byte.  The result is plain JSON.
pub open spec fn enc(d: DocV) -> Seq<u8>
    decreases d, 0int,
{
    match d {
        DocV::Null => seq![110u8, 117u8, 108u8, 108u8],
        DocV::Bool(b) => if b {
            seq![116u8, 114u8, 117u8, 101u8]
        } else {
            seq![102u8, 97u8, 108u8, 115u8, 101u8]
        },
        DocV::Int(n) => enc_int(n),
        DocV::Str(s) => seq![QUOTE] + esc(s) + seq![QUOTE],
        DocV::Arr(items) => seq![LBRACKET] + enc_list(items, 0) + seq![RBRACKET],
        DocV::Obj(entries) => seq![LBRACE] + enc_entries(entries, 0) + seq![RBRACE],
    }
}

/// The written form of the elements of an array from index `i` on,
/// separated by commas.
pub open spec fn enc_list(items: Seq<DocV>, i: int) -> Seq<u8>
    decreases items, items.len() - i,
{
    if 0 <= i < items.len() {
        enc(items[i]) + (if i + 1 < items.len() {
            seq![COMMA] + enc_list(items, i + 1)
        } else {
            Seq::empty()
        })
    } else {
        Seq::empty()
    }
}

/// The written form of the entries of a mapping from index `i` on: quoted
/// key, colon, value, separated by commas.
pub open spec fn enc_entries(entries: Seq<(Seq<u8>, DocV)>, i: int) -> Seq<u8>
    decreases entries, entries.len() - i,
{
    if 0 <= i < entries.len() {
        seq![QUOTE] + esc(entries[i].0) + seq![QUOTE, COLON] + enc(entries[i].1) + (if i + 1
            < entries.len() {
            seq![COMMA] + enc_entries(entries, i + 1)
        } else {
            Seq::empty()
        })
    } else {
        Seq::empty()
    }
}

/// Writes the decimal digits of `n` onto `out`.
fn push_digits(n: u64, out: &mut Vec<u8>)
    ensures
        final(out)@ == old(out)@ + dec_digits(n as nat),
    decreases n,
{
    if n < 10 {
        out.push(48 + n as u8);
        assert(out@ =~= old(out)@ + dec_digits(n as nat));
    } else {
        push_digits(n / 10, out);
        out.push(48 + (n % 10) as u8);
        assert(out@ =~= old(out)@ + dec_digits(n as nat));
    }
}

/// Writes the document `d` onto `out`.
pub fn enc_into(d: &Doc, out: &mut Vec<u8>)
    ensures
        final(out)@ == old(out)@ + enc(view_doc(d)),
    decreases d, 0int,
{
    match d {
        Doc::Null => {
            out.push(110);
            out.push(117);
            out.push(108);
            out.push(108);
            assert(out@ =~= old(out)@ + enc(view_doc(d)));
        },
        Doc::Bool(b) => {
            if *b {
                out.push(116);
                out.push(114);
                out.push(117);
                out.push(101);
            } else {
                out.push(102);
                out.push(97);
                out.push(108);
                out.push(115);
                out.push(101);
            }
            assert(out@ =~= old(out)@ + enc(view_doc(d)));
        },
        Doc::Int(n) => {
            let ghost prefix = out@;
            if *n < 0 {
                out.push(MINUS);
                let mag: u64 = ((-(*n as i128)) as u64);
                assert(mag as nat == (-(*n as int)) as nat);
                push_digits(mag, out);
                assert(out@ =~= prefix + enc_int(*n as int));
            } else {
                push_digits(*n as u64, out);
            }
        },
        Doc::Str(s) => {
            push_escaped(s, out);
            assert(out@ =~= old(out)@ + enc(view_doc(d)));
        },
        Doc::Arr(items) => {
            out.push(LBRACKET);
            if items.len() > 0 {
                enc_list_into(items, 0, out);
            }
            out.push(RBRACKET);
            assert(out@ =~= old(out)@ + enc(view_doc(d)));
        },
        Doc::Obj(entries) => {
            out.push(LBRACE);
            if entries.len() > 0 {
                enc_entries_into(entries, 0, out);
            }
            out.push(RBRACE);
            assert(out@ =~= old(out)@ + enc(view_doc(d)));
        },
    }
}

/// Writes a quoted, escaped byte string onto `out`.
fn push_escaped(s: &Vec<u8>, out: &mut Vec<u8>)
    ensures
        final(out)@ == old(out)@ + seq![QUOTE] + esc(s@) + seq![QUOTE],
{
    out.push(QUOTE);
    let ghost base = out@;
    let mut i: usize = 0;
    while i < s.len()
        invariant
            i <= s@.len(),
            base == old(out)@ + seq![QUOTE],
            out@ == base + esc(s@.take(i as int)),
        decreases s@.len() - i,
    {
        let b = s[i];
        if b == QUOTE || b == BACKSLASH {
            out.push(BACKSLASH);
            out.push(b);
        } else {
            out.push(b);
        }
        proof {
            assert(s@.take(i as int + 1) =~= s@.take(i as int) + seq![s@[i as int]]);
            lemma_esc_add(s@.take(i as int), seq![s@[i as int]]);
            assert(seq![s@[i as int]].drop_first() =~= Seq::<u8>::empty());
            assert(esc(Seq::<u8>::empty()) =~= Seq::<u8>::empty());
            assert(esc(seq![s@[i as int]]) =~= esc_byte(s@[i as int]) + esc(
                seq![s@[i as int]].drop_first(),
            ));
            assert(esc(seq![s@[i as int]]) =~= esc_byte(s@[i as int]));
            assert(out@ =~= base + esc(s@.take(i as int + 1)));
        }
        i += 1;
    }
    proof {
        assert(s@.take(s@.len() as int) =~= s@);
        assert(out@ =~= old(out)@ + seq![QUOTE] + esc(s@));
    }
    out.push(QUOTE);
    assert(out@ =~= old(out)@ + seq![QUOTE] + esc(s@) + seq![QUOTE]);
}

/// Writes the elements of `items` from `idx` on, comma separated, onto
/// `out`.
fn enc_list_into(items: &Vec<Doc>, idx: usize, out: &mut Vec<u8>)
    requires
        idx < items@.len(),
    ensures
        final(out)@ == old(out)@ + enc_list(view_items(items), idx as int),
    decreases items, items@.len() - idx,
{
    let ghost v = view_items(items);
    let n = items.len();
    proof {
        assert(v[idx as int] == view_doc(&items@[idx as int]));
    }
    enc_into(&items[idx], out);
    if idx + 1 < n {
        out.push(COMMA);
        enc_list_into(items, idx + 1, out);
        assert(out@ =~= old(out)@ + enc_list(v, idx as int));
    } else {
        assert(out@ =~= old(out)@ + enc_list(v, idx as int));
    }
}

/// Writes the entries of `entries` from `idx` on, comma separated, onto
/// `out`.
fn enc_entries_into(entries: &Vec<(Vec<u8>, Doc)>, idx: usize, out: &mut Vec<u8>)
    requires
        idx < entries@.len(),
    ensures
        final(out)@ == old(out)@ + enc_entries(view_entries(entries), idx as int),
    decreases entries, entries@.len() - idx,
{
    let ghost v = view_entries(entries);
    proof {
        assert(v[idx as int] == (entries@[idx as int].0@, view_doc(&entries@[idx as int].1)));
    }
    let n = entries.len();
    push_escaped(&entries[idx].0, out);
    out.push(COLON);
    enc_into(&entries[idx].1, out);
    if idx + 1 < n {
        out.push(COMMA);
        enc_entries_into(entries, idx + 1, out);
        assert(out@ =~= old(out)@ + enc_entries(v, idx as int));
    } else {
        assert(out@ =~= old(out)@ + enc_entries(v, idx as int));
    }
}

/// Renders a document in its written form.
pub fn encode_doc(d: &Doc) -> (out: Vec<u8>)
    ensures
        out@ == enc(d@),
{
    let mut out: Vec<u8> = Vec::new();
    enc_into(d, &mut out);
    proof {
        assert(out@ =~= enc(view_doc(d)));
    }
    out
}

} // verus!
