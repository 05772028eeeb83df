use vstd::prelude::*;

use crate::doc::{copy_bytes, doc_get, doc_lookup, view_doc, view_entries, view_items, Doc, DocV};
use crate::error::BOError;
use crate::meta::{finalizers_key, k_finalizers, k_metadata, metadata_key};

verus! {

/// The byte strings carried by a list of finalizer names.
pub open spec fn names_view(s: Seq<Vec<u8>>) -> Seq<Seq<u8>> {
    Seq::new(
        s.len(),
        |i: int|
            if 0 <= i < s.len() {
                s[i]@
            } else {
                Seq::empty()
            },
    )
}

/// Whether a finalizer name differs from `name`.
pub open spec fn keeps(x: Seq<u8>, name: Seq<u8>) -> bool {
    x != name
}

/// The finalizer sequence after one update: every entry equal to `name`
/// is dropped, and when `add` is set, `name` is appended once at the end.
pub open spec fn spec_update_finalizers(s: Seq<Seq<u8>>, name: Seq<u8>, add: bool) -> Seq<Seq<u8>> {
    s.filter(|x: Seq<u8>| keeps(x, name)) + (if add {
        seq![name]
    } else {
        Seq::<Seq<u8>>::empty()
    })
}

proof fn lemma_filter_push<A>(s: Seq<A>, x: A, p: spec_fn(A) -> bool)
    ensures
        s.push(x).filter(p) == if p(x) {
            s.filter(p).push(x)
        } else {
            s.filter(p)
        },
{
    reveal(Seq::filter);
    assert(s.push(x).drop_last() =~= s);
    assert(s.push(x).last() == x);
}

proof fn lemma_filter_add<A>(a: Seq<A>, b: Seq<A>, p: spec_fn(A) -> bool)
    ensures
        (a + b).filter(p) == a.filter(p) + b.filter(p),
    decreases b.len(),
{
    reveal(Seq::filter);
    if b.len() == 0 {
        assert(a + b =~= a);
        assert(b.filter(p) =~= Seq::<A>::empty());
        assert(a.filter(p) + b.filter(p) =~= a.filter(p));
    } else {
        assert(a + b =~= (a + b.drop_last()).push(b.last()));
        lemma_filter_push(a + b.drop_last(), b.last(), p);
        lemma_filter_add(a, b.drop_last(), p);
        lemma_filter_push(b.drop_last(), b.last(), p);
        if p(b.last()) {
            assert(a.filter(p) + b.drop_last().filter(p).push(b.last()) =~= (a.filter(p)
                + b.drop_last().filter(p)).push(b.last()));
        }
    }
}

proof fn lemma_filter_idem<A>(s: Seq<A>, p: spec_fn(A) -> bool)
    ensures
        s.filter(p).filter(p) == s.filter(p),
    decreases s.len(),
{
    reveal(Seq::filter);
    if s.len() > 0 {
        lemma_filter_idem(s.drop_last(), p);
        lemma_filter_push(s.drop_last().filter(p), s.last(), p);
    }
}

/// Updating twice with `add` set leaves what one update leaves: dropping
/// and re-appending the name a second time changes nothing.
pub proof fn lemma_update_finalizers_idempotent(s: Seq<Seq<u8>>, name: Seq<u8>)
    ensures
        spec_update_finalizers(spec_update_finalizers(s, name, true), name, true)
            == spec_update_finalizers(s, name, true),
{
    let p = |x: Seq<u8>| keeps(x, name);
    let once = spec_update_finalizers(s, name, true);
    lemma_filter_add(s.filter(p), seq![name], p);
    lemma_filter_idem(s, p);
    assert(seq![name].filter(p) =~= Seq::<Seq<u8>>::empty()) by {
        reveal(Seq::filter);
        assert(seq![name].drop_last() =~= Seq::<Seq<u8>>::empty());
        assert(seq![name].last() == name);
        assert(!p(name));
        assert(Seq::<Seq<u8>>::empty().filter(p) =~= Seq::<Seq<u8>>::empty());
    }
    assert(once.filter(p) =~= s.filter(p));
}

/// Removing a name that no entry carries leaves the sequence as it is.
#[verifier::rlimit(100)]
pub proof fn lemma_remove_absent(s: Seq<Seq<u8>>, name: Seq<u8>)
    requires
        !s.contains(name),
    ensures
        spec_update_finalizers(s, name, false) == s,
    decreases s.len(),
{
    let p = |x: Seq<u8>| keeps(x, name);
    if s.len() == 0 {
        assert(spec_update_finalizers(s, name, false) =~= s) by {
            reveal(Seq::filter);
        }
    } else {
        assert(s.drop_last().push(s.last()) =~~= s);
        assert(!s.drop_last().contains(name)) by {
            if s.drop_last().contains(name) {
                let w = choose|t: int|
                    0 <= t < s.drop_last().len() && s.drop_last()[t] == name;
                assert(s[w] == name);
                assert(s.contains(name));
            }
        }
        lemma_remove_absent(s.drop_last(), name);
        assert(s.last() != name) by {
            if s.last() == name {
                assert(s[s.len() - 1] == name);
                assert(s.contains(name));
            }
        }
        lemma_filter_push(s.drop_last(), s.last(), p);
        assert(spec_update_finalizers(s, name, false) =~= s.filter(p));
        assert(s.drop_last().filter(p) + Seq::<Seq<u8>>::empty() =~= s.drop_last().filter(p));
        assert(s.drop_last().filter(p) =~= s.drop_last());
        assert(s.filter(p) == s.drop_last().filter(p).push(s.last()));
        assert(s.filter(p) =~= s);
    }
}

/// After an update with `add` set, the name stands in the sequence exactly
/// once: as its last entry, and nowhere before.
pub proof fn lemma_update_adds_once(s: Seq<Seq<u8>>, name: Seq<u8>)
    ensures
        spec_update_finalizers(s, name, true).last() == name,
        forall|t: int|
            0 <= t < spec_update_finalizers(s, name, true).len() - 1
                ==> spec_update_finalizers(s, name, true)[t] != name,
{
    let p = |x: Seq<u8>| keeps(x, name);
    let r = spec_update_finalizers(s, name, true);
    assert(r.last() == name);
    assert forall|t: int| 0 <= t < r.len() - 1 implies r[t] != name by {
        assert(r[t] == s.filter(p)[t]);
        s.lemma_filter_pred(p, t);
    }
}

/// Applies one finalizer update to a list of names.
pub fn update_finalizers(list: &Vec<Vec<u8>>, name: &Vec<u8>, add: bool) -> (r: Vec<Vec<u8>>)
    ensures
        names_view(r@) == spec_update_finalizers(names_view(list@), name@, add),
{
    let ghost lv = names_view(list@);
    let ghost p = |x: Seq<u8>| keeps(x, name@);
    let mut out: Vec<Vec<u8>> = Vec::new();
    let mut i: usize = 0;
    proof {
        reveal(Seq::filter);
        assert(lv.take(0) =~= Seq::<Seq<u8>>::empty());
        assert(names_view(out@) =~= lv.take(0).filter(p));
    }
    while i < list.len()
        invariant
            i <= list@.len(),
            lv == names_view(list@),
            p == (|x: Seq<u8>| keeps(x, name@)),
            names_view(out@) == lv.take(i as int).filter(p),
        decreases list@.len() - i,
    {
        proof {
            assert(lv[i as int] == list@[i as int]@);
        }
        if !crate::doc::bytes_eq(&list[i], name) {
            out.push(copy_bytes(&list[i]));
        }
        proof {
            assert(lv.take(i as int + 1) =~= lv.take(i as int).push(lv[i as int]));
            lemma_filter_push(lv.take(i as int), lv[i as int], p);
            if p(lv[i as int]) {
                assert(names_view(out@) =~= lv.take(i as int).filter(p).push(lv[i as int]));
            }
            assert(names_view(out@) =~= lv.take(i as int + 1).filter(p));
        }
        i += 1;
    }
    proof {
        assert(lv.take(lv.len() as int) =~= lv);
    }
    if add {
        out.push(copy_bytes(name));
        proof {
            assert(names_view(out@) =~= lv.filter(p) + seq![name@]);
        }
    } else {
        proof {
            assert(names_view(out@) =~= lv.filter(p) + Seq::<Seq<u8>>::empty());
        }
    }
    out
}

/// The merge patch that carries only the new finalizer list under
/// `metadata.finalizers`.
pub open spec fn spec_finalizer_patch(l: Seq<Seq<u8>>) -> DocV {
    DocV::Obj(
        seq![
            (
                metadata_key(),
                DocV::Obj(
                    seq![
                        (
                            finalizers_key(),
                            DocV::Arr(Seq::new(l.len(), |i: int| DocV::Str(l[i]))),
                        ),
                    ],
                ),
            ),
        ],
    )
}

/// Builds the merge patch that sets `metadata.finalizers` to `list` and
/// touches nothing else.
pub fn finalizer_patch(list: Vec<Vec<u8>>) -> (r: Doc)
    ensures
        view_doc(&r) == spec_finalizer_patch(names_view(list@)),
{
    let ghost lv = names_view(list@);
    let mut items: Vec<Doc> = Vec::new();
    let mut i: usize = 0;
    proof {
        assert(view_items(&items) =~= Seq::new(0nat, |t: int| DocV::Str(lv[t])));
    }
    while i < list.len()
        invariant
            i <= list@.len(),
            lv == names_view(list@),
            view_items(&items) == Seq::new(i as nat, |t: int| DocV::Str(lv[t])),
        decreases list@.len() - i,
    {
        proof {
            assert(lv[i as int] == list@[i as int]@);
        }
        let ghost iv0 = items@;
        let ghost vprev = view_items(&items);
        let nd = Doc::Str(copy_bytes(&list[i]));
        let ghost ndv = view_doc(&nd);
        proof {
            assert(ndv == DocV::Str(lv[i as int]));
        }
        items.push(nd);
        proof {
            assert(items@ == iv0.push(nd));
            assert(vprev == crate::doc::items_view(iv0));
            assert(vprev.len() == i as int);
            assert(iv0.len() == i as int);
            assert forall|t: int| 0 <= t < i + 1 implies view_items(&items)[t] == DocV::Str(
                lv[t],
            ) by {
                assert(view_items(&items)[t] == view_doc(&items@[t]));
                if t < i {
                    assert(items@[t] == iv0[t]);
                    assert(vprev[t] == view_doc(&iv0[t]));
                    assert(vprev[t] == DocV::Str(lv[t]));
                } else {
                    assert(items@[t] == nd);
                }
            }
            assert(view_items(&items) =~= Seq::new((i + 1) as nat, |t: int| DocV::Str(lv[t])));
        }
        i += 1;
    }
    proof {
        assert(view_items(&items) =~= Seq::new(lv.len(), |t: int| DocV::Str(lv[t])));
    }
    let ghost target_arr = DocV::Arr(Seq::new(lv.len(), |t: int| DocV::Str(lv[t])));
    let mut inner: Vec<(Vec<u8>, Doc)> = Vec::new();
    inner.push((k_finalizers(), Doc::Arr(items)));
    proof {
        assert(view_entries(&inner) =~= seq![(finalizers_key(), target_arr)]);
    }
    let ghost target_inner = DocV::Obj(seq![(finalizers_key(), target_arr)]);
    let mut outer: Vec<(Vec<u8>, Doc)> = Vec::new();
    outer.push((k_metadata(), Doc::Obj(inner)));
    proof {
        assert(view_entries(&outer) =~= seq![(metadata_key(), target_inner)]);
    }
    let r = Doc::Obj(outer);
    proof {
        assert(view_doc(&r) == spec_finalizer_patch(lv));
    }
    r
}

/// The finalizer names of a manifest: the byte strings under
/// `metadata.finalizers`.  An absent field stands for no finalizers; a
/// field of any other shape has no reading.
pub open spec fn spec_finalizers_of(d: DocV) -> Option<Seq<Seq<u8>>> {
    match doc_lookup(d, metadata_key()) {
        Option::Some(md) => match doc_lookup(md, finalizers_key()) {
            Option::Some(DocV::Arr(items)) => if forall|i: int|
                0 <= i < items.len() ==> (#[trigger] items[i]) is Str {
                Option::Some(Seq::new(items.len(), |i: int| items[i]->Str_0))
            } else {
                Option::None
            },
            Option::Some(_) => Option::None,
            Option::None => Option::Some(Seq::empty()),
        },
        Option::None => Option::Some(Seq::empty()),
    }
}

/// Reads the finalizer names out of a manifest.
pub fn finalizers_of(manifest: &Doc) -> (r: Option<Vec<Vec<u8>>>)
    ensures
        match r {
            Option::Some(l) => spec_finalizers_of(view_doc(manifest)) == Option::Some(
                names_view(l@),
            ),
            Option::None => spec_finalizers_of(view_doc(manifest)) is None,
        },
{
    let md = match doc_get(manifest, &k_metadata()) {
        Some(md) => md,
        None => {
            let empty: Vec<Vec<u8>> = Vec::new();
            proof {
                assert(names_view(empty@) =~= Seq::<Seq<u8>>::empty());
            }
            return Some(empty);
        },
    };
    let fins = match doc_get(md, &k_finalizers()) {
        Some(f) => f,
        None => {
            let empty: Vec<Vec<u8>> = Vec::new();
            proof {
                assert(names_view(empty@) =~= Seq::<Seq<u8>>::empty());
            }
            return Some(empty);
        },
    };
    match fins {
        Doc::Arr(items) => {
            let ghost iv = crate::doc::view_items(items);
            let mut out: Vec<Vec<u8>> = Vec::new();
            let mut i: usize = 0;
            while i < items.len()
                invariant
                    i <= items@.len(),
                    iv == crate::doc::view_items(items),
                    doc_lookup(view_doc(manifest), metadata_key()) == Option::Some(view_doc(md)),
                    doc_lookup(view_doc(md), finalizers_key()) == Option::Some(DocV::Arr(iv)),
                    forall|t: int| 0 <= t < i ==> (#[trigger] iv[t]) is Str,
                    names_view(out@) == Seq::new(i as nat, |t: int| iv[t]->Str_0),
                decreases items@.len() - i,
            {
                proof {
                    assert(iv[i as int] == view_doc(&items@[i as int]));
                }
                let ghost ov = names_view(out@);
                let ghost o0 = out@;
                match &items[i] {
                    Doc::Str(b) => {
                        let nb = copy_bytes(b);
                        let ghost nbv = nb@;
                        out.push(nb);
                        proof {
                            assert(ov == names_view(o0));
                            assert(ov.len() == i as int);
                            assert(o0.len() == i as int);
                            assert(out@ == o0.push(out@[i as int]));
                            assert forall|t: int| 0 <= t < i + 1 implies names_view(out@)[t]
                                == (iv[t])->Str_0 by {
                                assert(names_view(out@)[t] == out@[t]@);
                                if t < i {
                                    assert(out@[t] == o0[t]);
                                    assert(ov[t] == o0[t]@);
                                    assert(ov[t] == (iv[t])->Str_0);
                                } else {
                                    assert(out@[t]@ == nbv);
                                    assert(iv[i as int] == DocV::Str(nbv));
                                }
                            }
                            assert(names_view(out@) =~= Seq::new(
                                (i + 1) as nat,
                                |t: int| iv[t]->Str_0,
                            ));
                        }
                    },
                    _ => {
                        proof {
                            assert(!((iv[i as int]) is Str));
                        }
                        return None;
                    },
                }
                i += 1;
            }
            proof {
                assert(names_view(out@) =~= Seq::new(iv.len(), |t: int| iv[t]->Str_0));
            }
            Some(out)
        },
        _ => None,
    }
}

/// Computes the merge patch of one finalizer update on a manifest: the
/// current `metadata.finalizers` (absent standing for none) with `name`
/// dropped everywhere and, when `add` is set, appended once.  A manifest
/// whose finalizer field has another shape cannot be read and is refused.
pub fn prepare_finalizer_update(manifest: &Doc, name: &Vec<u8>, add: bool) -> (r: Result<
    Doc,
    BOError,
>)
    ensures
        match spec_finalizers_of(view_doc(manifest)) {
            Option::Some(l) => r matches Ok(p) && view_doc(&p) == spec_finalizer_patch(
                spec_update_finalizers(l, name@, add),
            ),
            Option::None => r == Result::<Doc, BOError>::Err(BOError::ParseManifestError),
        },
{
    match finalizers_of(manifest) {
        None => Err(BOError::ParseManifestError),
        Some(current) => {
            let updated = update_finalizers(&current, name, add);
            Ok(finalizer_patch(updated))
        },
    }
}

} // verus!
