use vstd::prelude::*;

verus! {

/// A structured document: the engine's model of one snapshot of a watched
/// object.  The watched resource kind is not known at build time, so the
/// document is an ordered mapping of byte-string keys to variant values
/// rather than a fixed schema.  Scalar text is kept as raw bytes.
pub enum Doc {
    Null,
    Bool(bool),
    Int(i64),
    Str(Vec<u8>),
    Arr(Vec<Doc>),
    Obj(Vec<(Vec<u8>, Doc)>),
}

/// The mathematical value of a `Doc`.
pub enum DocV {
    Null,
    Bool(bool),
    Int(int),
    Str(Seq<u8>),
    Arr(Seq<DocV>),
    Obj(Seq<(Seq<u8>, DocV)>),
}

pub open spec fn items_view(s: Seq<Doc>) -> Seq<DocV>
    decreases s,
{
    Seq::new(
        s.len(),
        |i: int|
            if 0 <= i < s.len() {
                view_doc(&s[i])
            } else {
                DocV::Null
            },
    )
}

pub open spec fn view_items(items: &Vec<Doc>) -> Seq<DocV>
    decreases items,
{
    items_view(items@)
}

pub open spec fn entries_view(s: Seq<(Vec<u8>, Doc)>) -> Seq<(Seq<u8>, DocV)>
    decreases s,
{
    Seq::new(
        s.len(),
        |i: int|
            if 0 <= i < s.len() {
                (s[i].0@, view_doc(&s[i].1))
            } else {
                (Seq::empty(), DocV::Null)
            },
    )
}

pub open spec fn view_entries(entries: &Vec<(Vec<u8>, Doc)>) -> Seq<(Seq<u8>, DocV)>
    decreases entries,
{
    entries_view(entries@)
}

pub open spec fn view_doc(d: &Doc) -> DocV
    decreases d,
{
    match d {
        Doc::Null => DocV::Null,
        Doc::Bool(b) => DocV::Bool(*b),
        Doc::Int(n) => DocV::Int(*n as int),
        Doc::Str(s) => DocV::Str(s@),
        Doc::Arr(items) => DocV::Arr(view_items(items)),
        Doc::Obj(entries) => DocV::Obj(view_entries(entries)),
    }
}

impl View for Doc {
    type V = DocV;

    open spec fn view(&self) -> DocV {
        view_doc(self)
    }
}

/// Whether a sequence of mapping entries holds no key twice.
pub open spec fn unique_keys(entries: Seq<(Seq<u8>, DocV)>) -> bool {
    forall|i: int, j: int| 0 <= i < j < entries.len() ==> entries[i].0 != entries[j].0
}

/// Every element of an array of documents is well formed.
pub open spec fn wf_arr(items: Seq<DocV>) -> bool
    decreases items,
{
    forall|i: int| 0 <= i < items.len() ==> wf(#[trigger] items[i])
}

/// Every value of a sequence of mapping entries is well formed.
pub open spec fn wf_obj_vals(entries: Seq<(Seq<u8>, DocV)>) -> bool
    decreases entries,
{
    forall|i: int| 0 <= i < entries.len() ==> wf(#[trigger] entries[i].1)
}

/// A well-formed document: every integer fits the machine representation,
/// and every mapping, at every depth, holds no key twice.
pub open spec fn wf(d: DocV) -> bool
    decreases d,
{
    match d {
        DocV::Null => true,
        DocV::Bool(_) => true,
        DocV::Int(n) => i64::MIN <= n <= i64::MAX,
        DocV::Str(_) => true,
        DocV::Arr(items) => wf_arr(items),
        DocV::Obj(entries) => unique_keys(entries) && wf_obj_vals(entries),
    }
}

/// A well-formed array is well formed at each element.
pub proof fn lemma_wf_arr(items: Seq<DocV>)
    requires
        wf(DocV::Arr(items)),
    ensures
        forall|t: int| 0 <= t < items.len() ==> wf(#[trigger] items[t]),
{
}

/// Well-formedness of an array follows from that of its elements.
pub proof fn lemma_wf_arr_intro(items: Seq<DocV>)
    requires
        forall|t: int| 0 <= t < items.len() ==> wf(#[trigger] items[t]),
    ensures
        wf(DocV::Arr(items)),
{
}

/// A well-formed mapping has no repeated key and is well formed at each
/// value.
pub proof fn lemma_wf_obj(entries: Seq<(Seq<u8>, DocV)>)
    requires
        wf(DocV::Obj(entries)),
    ensures
        unique_keys(entries),
        forall|t: int| 0 <= t < entries.len() ==> wf(#[trigger] entries[t].1),
{
}

/// Well-formedness of a mapping follows from key uniqueness and the
/// well-formedness of its values.
pub proof fn lemma_wf_obj_intro(entries: Seq<(Seq<u8>, DocV)>)
    requires
        unique_keys(entries),
        forall|t: int| 0 <= t < entries.len() ==> wf(#[trigger] entries[t].1),
    ensures
        wf(DocV::Obj(entries)),
{
}

/// Pointwise structural equality of two arrays of documents.
pub open spec fn arr_eqv(x: Seq<DocV>, y: Seq<DocV>) -> bool
    decreases x,
{
    x.len() == y.len() && (forall|i: int| 0 <= i < x.len() ==> equiv(#[trigger] x[i], y[i]))
}

/// The entry `e` has an entry in `y` with the same key and a structurally
/// equal value.
pub open spec fn has_match(e: (Seq<u8>, DocV), y: Seq<(Seq<u8>, DocV)>) -> bool
    decreases e,
{
    exists|j: int| 0 <= j < y.len() && (#[trigger] y[j]).0 == e.0 && equiv(e.1, y[j].1)
}

/// The key `k` occurs among the keys of `x`.
pub open spec fn key_present(k: Seq<u8>, x: Seq<(Seq<u8>, DocV)>) -> bool {
    exists|i: int| 0 <= i < x.len() && (#[trigger] x[i]).0 == k
}

/// Every entry of `x` has an entry in `y` with the same key and a
/// structurally equal value.
pub open spec fn obj_le(x: Seq<(Seq<u8>, DocV)>, y: Seq<(Seq<u8>, DocV)>) -> bool
    decreases x,
{
    forall|i: int| 0 <= i < x.len() ==> has_match(#[trigger] x[i], y)
}

/// Every key of `y` also occurs among the keys of `x`.
pub open spec fn keys_sub(y: Seq<(Seq<u8>, DocV)>, x: Seq<(Seq<u8>, DocV)>) -> bool {
    forall|j: int| 0 <= j < y.len() ==> key_present((#[trigger] y[j]).0, x)
}

/// Structural equality of two documents: scalars must agree, arrays must
/// agree pointwise, and mappings must carry the same keys with structurally
/// equal values, in any order.
pub open spec fn equiv(a: DocV, b: DocV) -> bool
    decreases a,
{
    match (a, b) {
        (DocV::Null, DocV::Null) => true,
        (DocV::Bool(x), DocV::Bool(y)) => x == y,
        (DocV::Int(x), DocV::Int(y)) => x == y,
        (DocV::Str(x), DocV::Str(y)) => x == y,
        (DocV::Arr(x), DocV::Arr(y)) => arr_eqv(x, y),
        (DocV::Obj(x), DocV::Obj(y)) => obj_le(x, y) && keys_sub(y, x),
        _ => false,
    }
}

/// Compares two byte strings.
pub fn bytes_eq(a: &Vec<u8>, b: &Vec<u8>) -> (r: bool)
    ensures
        r == (a@ == b@),
{
    if a.len() != b.len() {
        proof {
            assert(a@.len() != b@.len());
        }
        return false;
    }
    let mut i: usize = 0;
    while i < a.len()
        invariant
            i <= a.len(),
            a.len() == b.len(),
            forall|j: int| 0 <= j < i ==> a@[j] == b@[j],
        decreases a.len() - i,
    {
        if a[i] != b[i] {
            return false;
        }
        i += 1;
    }
    proof {
        assert(a@ =~= b@);
    }
    true
}

/// Decides structural equality of two documents.
pub fn doc_eq(a: &Doc, b: &Doc) -> (r: bool)
    ensures
        r == equiv(a@, b@),
    decreases a,
{
    match (a, b) {
        (Doc::Null, Doc::Null) => true,
        (Doc::Bool(x), Doc::Bool(y)) => x == y,
        (Doc::Int(x), Doc::Int(y)) => x == y,
        (Doc::Str(x), Doc::Str(y)) => bytes_eq(x, y),
        (Doc::Arr(x), Doc::Arr(y)) => arrs_eq(x, y),
        (Doc::Obj(x), Doc::Obj(y)) => objs_le(x, y) && keys_le(y, x),
        _ => false,
    }
}

/// Decides pointwise structural equality of two document arrays.
fn arrs_eq(x: &Vec<Doc>, y: &Vec<Doc>) -> (r: bool)
    ensures
        r == arr_eqv(view_items(x), view_items(y)),
    decreases x,
{
    let ghost vx = view_items(x);
    let ghost vy = view_items(y);
    if x.len() != y.len() {
        return false;
    }
    let mut i: usize = 0;
    while i < x.len()
        invariant
            i <= x@.len(),
            x@.len() == y@.len(),
            vx == view_items(x),
            vy == view_items(y),
            forall|k: int| 0 <= k < i ==> equiv(#[trigger] vx[k], vy[k]),
        decreases x@.len() - i,
    {
        proof {
            assert(vx[i as int] == view_doc(&x@[i as int]));
            assert(vy[i as int] == view_doc(&y@[i as int]));
        }
        if !doc_eq(&x[i], &y[i]) {
            proof {
                assert(!equiv(vx[i as int], vy[i as int]));
            }
            return false;
        }
        i += 1;
    }
    true
}

/// Decides whether every entry of `x` has a structurally equal entry in `y`.
fn objs_le(x: &Vec<(Vec<u8>, Doc)>, y: &Vec<(Vec<u8>, Doc)>) -> (r: bool)
    ensures
        r == obj_le(view_entries(x), view_entries(y)),
    decreases x,
{
    let ghost vx = view_entries(x);
    let ghost vy = view_entries(y);
    let mut i: usize = 0;
    while i < x.len()
        invariant
            i <= x@.len(),
            vx == view_entries(x),
            vy == view_entries(y),
            forall|k: int| 0 <= k < i ==> has_match(#[trigger] vx[k], vy),
        decreases x@.len() - i,
    {
        let mut j: usize = 0;
        let mut found = false;
        while j < y.len()
            invariant
                j <= y@.len(),
                i < x@.len(),
                vx == view_entries(x),
                vy == view_entries(y),
                found ==> has_match(vx[i as int], vy),
                !found ==> forall|jj: int|
                    0 <= jj < j ==> !((#[trigger] vy[jj]).0 == vx[i as int].0 && equiv(
                        vx[i as int].1,
                        vy[jj].1,
                    )),
            decreases y@.len() - j,
        {
            proof {
                assert(vx[i as int] == (x@[i as int].0@, view_doc(&x@[i as int].1)));
                assert(vy[j as int] == (y@[j as int].0@, view_doc(&y@[j as int].1)));
            }
            if !found && bytes_eq(&x[i].0, &y[j].0) && doc_eq(&x[i].1, &y[j].1) {
                found = true;
                proof {
                    assert(has_match(vx[i as int], vy));
                }
            }
            j += 1;
        }
        if !found {
            proof {
                assert(!has_match(vx[i as int], vy));
            }
            return false;
        }
        i += 1;
    }
    true
}

/// Decides whether every key of `y` also occurs in `x`.
fn keys_le(y: &Vec<(Vec<u8>, Doc)>, x: &Vec<(Vec<u8>, Doc)>) -> (r: bool)
    ensures
        r == keys_sub(view_entries(y), view_entries(x)),
{
    let ghost vx = view_entries(x);
    let ghost vy = view_entries(y);
    let mut j: usize = 0;
    while j < y.len()
        invariant
            j <= y@.len(),
            vx == view_entries(x),
            vy == view_entries(y),
            forall|k: int| 0 <= k < j ==> key_present((#[trigger] vy[k]).0, vx),
        decreases y@.len() - j,
    {
        let mut i: usize = 0;
        let mut found = false;
        while i < x.len()
            invariant
                i <= x@.len(),
                j < y@.len(),
                vx == view_entries(x),
                vy == view_entries(y),
                found ==> key_present(vy[j as int].0, vx),
                !found ==> forall|ii: int| 0 <= ii < i ==> (#[trigger] vx[ii]).0 != vy[j as int].0,
            decreases x@.len() - i,
        {
            proof {
                assert(vx[i as int] == (x@[i as int].0@, view_doc(&x@[i as int].1)));
                assert(vy[j as int] == (y@[j as int].0@, view_doc(&y@[j as int].1)));
            }
            if !found && bytes_eq(&x[i].0, &y[j].0) {
                found = true;
                proof {
                    assert(key_present(vy[j as int].0, vx));
                }
            }
            i += 1;
        }
        if !found {
            proof {
                assert(!key_present(vy[j as int].0, vx));
            }
            return false;
        }
        j += 1;
    }
    true
}

/// Decides whether `key` occurs among the keys of `entries`.
pub fn has_key(entries: &Vec<(Vec<u8>, Doc)>, key: &Vec<u8>) -> (r: bool)
    ensures
        r == key_present(key@, view_entries(entries)),
{
    let ghost ve = view_entries(entries);
    let mut i: usize = 0;
    let mut found = false;
    while i < entries.len()
        invariant
            i <= entries@.len(),
            ve == view_entries(entries),
            found ==> key_present(key@, ve),
            !found ==> forall|t: int| 0 <= t < i ==> (#[trigger] ve[t]).0 != key@,
        decreases entries@.len() - i,
    {
        proof {
            assert(ve[i as int] == (entries@[i as int].0@, view_doc(&entries@[i as int].1)));
        }
        if !found && bytes_eq(&entries[i].0, key) {
            found = true;
            proof {
                assert(key_present(key@, ve));
            }
        }
        i += 1;
    }
    if !found {
        proof {
            assert(!key_present(key@, ve));
        }
    }
    found
}

/// The first value bound to `key` in a sequence of mapping entries.
pub open spec fn lookup(entries: Seq<(Seq<u8>, DocV)>, key: Seq<u8>) -> Option<DocV>
    decreases entries.len(),
{
    if entries.len() == 0 {
        Option::None
    } else if entries[0].0 == key {
        Option::Some(entries[0].1)
    } else {
        lookup(entries.drop_first(), key)
    }
}

/// The position of the first entry bound to `key`, or the length if there
/// is none.
pub open spec fn key_idx(entries: Seq<(Seq<u8>, DocV)>, key: Seq<u8>) -> int
    decreases entries.len(),
{
    if entries.len() == 0 {
        0
    } else if entries[0].0 == key {
        0
    } else {
        1 + key_idx(entries.drop_first(), key)
    }
}

/// When no entry before `i` is bound to `key`, the first binding of `key`
/// is at `i` if the entry there carries it, and `key` is absent when the
/// whole sequence has been passed.
pub proof fn lemma_key_scan(s: Seq<(Seq<u8>, DocV)>, key: Seq<u8>, i: int)
    requires
        0 <= i <= s.len(),
        forall|t: int| 0 <= t < i ==> (#[trigger] s[t]).0 != key,
    ensures
        i < s.len() && s[i].0 == key ==> key_present(key, s) && key_idx(s, key) == i && lookup(
            s,
            key,
        ) == Option::Some(s[i].1),
        i == s.len() ==> !key_present(key, s) && lookup(s, key) is None,
    decreases i, s.len(),
{
    if i == s.len() {
        if key_present(key, s) {
            let w = choose|t: int| 0 <= t < s.len() && (#[trigger] s[t]).0 == key;
            assert(s[w].0 != key);
        }
        lemma_lookup_absent(s, key);
    } else if s[i].0 == key {
        if i == 0 {
        } else {
            assert(s[0].0 != key);
            assert forall|t: int| 0 <= t < i - 1 implies (#[trigger] s.drop_first()[t]).0
                != key by {
                assert(s.drop_first()[t] == s[t + 1]);
            }
            assert(s.drop_first()[i - 1] == s[i]);
            lemma_key_scan(s.drop_first(), key, i - 1);
        }
    }
}

/// A key that no entry carries is not found.
pub proof fn lemma_lookup_absent(s: Seq<(Seq<u8>, DocV)>, key: Seq<u8>)
    requires
        forall|t: int| 0 <= t < s.len() ==> (#[trigger] s[t]).0 != key,
    ensures
        lookup(s, key) is None,
    decreases s.len(),
{
    if s.len() > 0 {
        assert(s[0].0 != key);
        assert forall|t: int| 0 <= t < s.drop_first().len() implies (#[trigger] s.drop_first()[
            t]).0 != key by {
            assert(s.drop_first()[t] == s[t + 1]);
        }
        lemma_lookup_absent(s.drop_first(), key);
    }
}

/// Looks `key` up among `entries`, returning the first value bound to it.
pub fn obj_get<'a>(entries: &'a Vec<(Vec<u8>, Doc)>, key: &Vec<u8>) -> (r: Option<&'a Doc>)
    ensures
        match r {
            Option::Some(d) => lookup(view_entries(entries), key@) == Option::Some(view_doc(d)),
            Option::None => lookup(view_entries(entries), key@) is None,
        },
{
    let ghost ve = view_entries(entries);
    let mut i: usize = 0;
    while i < entries.len()
        invariant
            i <= entries@.len(),
            ve == view_entries(entries),
            forall|t: int| 0 <= t < i ==> (#[trigger] ve[t]).0 != key@,
        decreases entries@.len() - i,
    {
        proof {
            assert(ve[i as int] == (entries@[i as int].0@, view_doc(&entries@[i as int].1)));
        }
        if bytes_eq(&entries[i].0, key) {
            proof {
                lemma_key_scan(ve, key@, i as int);
            }
            return Some(&entries[i].1);
        }
        i += 1;
    }
    proof {
        lemma_key_scan(ve, key@, ve.len() as int);
    }
    None
}

/// The entries with `key` now bound to `v`: the first entry carrying `key`
/// is replaced, or a new entry is appended when none does.
pub open spec fn spec_set(s: Seq<(Seq<u8>, DocV)>, key: Seq<u8>, v: DocV) -> Seq<(Seq<u8>, DocV)> {
    if key_present(key, s) {
        s.update(key_idx(s, key), (key, v))
    } else {
        s.push((key, v))
    }
}

/// Binds `key` to `val` in `entries`, replacing the first entry that
/// carries `key` or appending one.
pub fn set_key(entries: &mut Vec<(Vec<u8>, Doc)>, key: Vec<u8>, val: Doc)
    ensures
        entries_view(final(entries)@) == spec_set(entries_view(old(entries)@), key@, view_doc(&val)),
{
    let ghost ve0 = view_entries(entries);
    let ghost kv = key@;
    let ghost vv = view_doc(&val);
    let n = entries.len();
    let mut i: usize = 0;
    while i < n
        invariant
            n == entries@.len(),
            i <= n,
            entries@ == old(entries)@,
            ve0 == view_entries(entries),
            kv == key@,
            vv == view_doc(&val),
            forall|t: int| 0 <= t < i ==> (#[trigger] ve0[t]).0 != kv,
        decreases n - i,
    {
        proof {
            assert(ve0[i as int] == (entries@[i as int].0@, view_doc(&entries@[i as int].1)));
        }
        if bytes_eq(&entries[i].0, &key) {
            proof {
                lemma_key_scan(ve0, kv, i as int);
            }
            entries[i] = (key, val);
            proof {
                assert(view_entries(entries) =~= ve0.update(i as int, (kv, vv)));
                assert(key_present(kv, ve0));
                assert(key_idx(ve0, kv) == i as int);
                assert(spec_set(ve0, kv, vv) == ve0.update(i as int, (kv, vv)));
                assert(view_entries(entries) == spec_set(ve0, kv, vv));
            }
            return;
        }
        i += 1;
    }
    proof {
        lemma_key_scan(ve0, kv, n as int);
    }
    entries.push((key, val));
    proof {
        assert(view_entries(entries) =~= ve0.push((kv, vv)));
    }
}

/// Binding a key leaves a well-formed mapping well formed.
pub proof fn lemma_spec_set_wf(s: Seq<(Seq<u8>, DocV)>, key: Seq<u8>, v: DocV)
    requires
        wf(DocV::Obj(s)),
        wf(v),
    ensures
        wf(DocV::Obj(spec_set(s, key, v))),
{
    let r = spec_set(s, key, v);
    if key_present(key, s) {
        let w = choose|t: int| 0 <= t < s.len() && (#[trigger] s[t]).0 == key;
        lemma_key_first(s, key);
        let idx = key_idx(s, key);
        assert(s[idx].0 == key);
        assert forall|a: int, b: int| 0 <= a < b < r.len() implies r[a].0 != r[b].0 by {
            assert(r[a].0 == s[a].0);
            assert(r[b].0 == s[b].0);
        }
        assert forall|t: int| 0 <= t < r.len() implies wf(#[trigger] r[t].1) by {
            if t != idx {
                assert(r[t] == s[t]);
                assert(wf_obj_vals(s));
                assert(wf(s[t].1));
            }
        }
        assert(unique_keys(r));
        assert(wf_obj_vals(r));
    } else {
        assert forall|a: int, b: int| 0 <= a < b < r.len() implies r[a].0 != r[b].0 by {
            if b == s.len() {
                assert(r[a] == s[a]);
                assert(!key_present(key, s));
                assert(!(0 <= a < s.len() && s[a].0 == key));
            } else {
                assert(r[a] == s[a]);
                assert(r[b] == s[b]);
            }
        }
        assert forall|t: int| 0 <= t < r.len() implies wf(#[trigger] r[t].1) by {
            if t < s.len() {
                assert(r[t] == s[t]);
                assert(wf_obj_vals(s));
                assert(wf(s[t].1));
            } else {
                assert(r[t] == (key, v));
            }
        }
        assert(unique_keys(r));
        assert(wf_obj_vals(r));
    }
}

/// Where a key is present, its first position is in range and carries it.
pub proof fn lemma_key_first(s: Seq<(Seq<u8>, DocV)>, key: Seq<u8>)
    requires
        key_present(key, s),
    ensures
        0 <= key_idx(s, key) < s.len(),
        s[key_idx(s, key)].0 == key,
    decreases s.len(),
{
    if s.len() > 0 {
        if s[0].0 == key {
        } else {
            assert forall|t: int|
                0 <= t < s.drop_first().len() && (#[trigger] s.drop_first()[t]).0
                == key implies true by {}
            let w = choose|t: int| 0 <= t < s.len() && (#[trigger] s[t]).0 == key;
            assert(w != 0);
            assert(s.drop_first()[w - 1] == s[w]);
            assert(key_present(key, s.drop_first()));
            lemma_key_first(s.drop_first(), key);
            assert(s[1 + key_idx(s.drop_first(), key)] == s.drop_first()[key_idx(
                s.drop_first(),
                key,
            )]);
        }
    }
}

/// The value of a document field by key: the document must be a mapping.
pub open spec fn doc_lookup(d: DocV, key: Seq<u8>) -> Option<DocV> {
    match d {
        DocV::Obj(entries) => lookup(entries, key),
        _ => Option::None,
    }
}

/// Looks a field up in a document; a document that is not a mapping has no
/// fields.
pub fn doc_get<'a>(d: &'a Doc, key: &Vec<u8>) -> (r: Option<&'a Doc>)
    ensures
        match r {
            Option::Some(v) => doc_lookup(view_doc(d), key@) == Option::Some(view_doc(v)),
            Option::None => doc_lookup(view_doc(d), key@) is None,
        },
{
    match d {
        Doc::Obj(entries) => obj_get(entries, key),
        _ => None,
    }
}

/// Copies a byte string.
pub fn copy_bytes(src: &Vec<u8>) -> (r: Vec<u8>)
    ensures
        r@ == src@,
{
    let mut out: Vec<u8> = Vec::new();
    let mut i: usize = 0;
    while i < src.len()
        invariant
            i <= src@.len(),
            out@ == src@.take(i as int),
        decreases src@.len() - i,
    {
        out.push(src[i]);
        proof {
            assert(src@.take(i as int + 1) =~= src@.take(i as int) + seq![src@[i as int]]);
            assert(out@ =~= src@.take(i as int + 1));
        }
        i += 1;
    }
    proof {
        assert(src@.take(src@.len() as int) =~= src@);
    }
    out
}

/// Structural equality holds of every document and itself.
pub proof fn lemma_equiv_refl(d: DocV)
    ensures
        equiv(d, d),
    decreases d,
{
    match d {
        DocV::Arr(items) => {
            assert forall|i: int| 0 <= i < items.len() implies equiv(#[trigger] items[i], items[i]) by {
                lemma_equiv_refl(items[i]);
            }
        },
        DocV::Obj(entries) => {
            assert forall|i: int| 0 <= i < entries.len() implies has_match(
                #[trigger] entries[i],
                entries,
            ) by {
                lemma_equiv_refl(entries[i].1);
                assert(entries[i].0 == entries[i].0 && equiv(entries[i].1, entries[i].1));
            }
            assert forall|j: int| 0 <= j < entries.len() implies key_present(
                (#[trigger] entries[j]).0,
                entries,
            ) by {
                assert(entries[j].0 == entries[j].0);
            }
            assert(obj_le(entries, entries));
            assert(keys_sub(entries, entries));
        },
        _ => {},
    }
}

} // verus!
