use vstd::prelude::*;

use crate::codec::{enc, encode_doc};
use crate::doc::{
    copy_bytes, doc_get, doc_lookup, entries_view, lemma_spec_set_wf, set_key, spec_set, view_doc,
    wf, Doc, DocV,
};

verus! {

pub open spec fn api_version_key() -> Seq<u8> {
    seq![97u8, 112u8, 105u8, 86u8, 101u8, 114u8, 115u8, 105u8, 111u8, 110u8]
}

pub open spec fn kind_key() -> Seq<u8> {
    seq![107u8, 105u8, 110u8, 100u8]
}

pub open spec fn metadata_key() -> Seq<u8> {
    seq![109u8, 101u8, 116u8, 97u8, 100u8, 97u8, 116u8, 97u8]
}

pub open spec fn deletion_ts_key() -> Seq<u8> {
    seq![
        100u8, 101u8, 108u8, 101u8, 116u8, 105u8, 111u8, 110u8, 84u8, 105u8, 109u8, 101u8, 115u8,
        116u8, 97u8, 109u8, 112u8,
    ]
}

pub open spec fn finalizers_key() -> Seq<u8> {
    seq![102u8, 105u8, 110u8, 97u8, 108u8, 105u8, 122u8, 101u8, 114u8, 115u8]
}

pub open spec fn name_key() -> Seq<u8> {
    seq![110u8, 97u8, 109u8, 101u8]
}

pub open spec fn namespace_key() -> Seq<u8> {
    seq![110u8, 97u8, 109u8, 101u8, 115u8, 112u8, 97u8, 99u8, 101u8]
}

/// The field name `apiVersion`.
pub fn k_api_version() -> (r: Vec<u8>)
    ensures
        r@ == api_version_key(),
{
    let r = vec![97u8, 112u8, 105u8, 86u8, 101u8, 114u8, 115u8, 105u8, 111u8, 110u8];
    proof {
        assert(r@ =~= api_version_key());
    }
    r
}

/// The field name `kind`.
pub fn k_kind() -> (r: Vec<u8>)
    ensures
        r@ == kind_key(),
{
    let r = vec![107u8, 105u8, 110u8, 100u8];
    proof {
        assert(r@ =~= kind_key());
    }
    r
}

/// The field name `metadata`.
pub fn k_metadata() -> (r: Vec<u8>)
    ensures
        r@ == metadata_key(),
{
    let r = vec![109u8, 101u8, 116u8, 97u8, 100u8, 97u8, 116u8, 97u8];
    proof {
        assert(r@ =~= metadata_key());
    }
    r
}

/// The field name `deletionTimestamp`.
pub fn k_deletion_ts() -> (r: Vec<u8>)
    ensures
        r@ == deletion_ts_key(),
{
    let r = vec![
        100u8, 101u8, 108u8, 101u8, 116u8, 105u8, 111u8, 110u8, 84u8, 105u8, 109u8, 101u8, 115u8,
        116u8, 97u8, 109u8, 112u8,
    ];
    proof {
        assert(r@ =~= deletion_ts_key());
    }
    r
}

/// The field name `finalizers`.
pub fn k_finalizers() -> (r: Vec<u8>)
    ensures
        r@ == finalizers_key(),
{
    let r = vec![102u8, 105u8, 110u8, 97u8, 108u8, 105u8, 122u8, 101u8, 114u8, 115u8];
    proof {
        assert(r@ =~= finalizers_key());
    }
    r
}

/// The field name `name`.
pub fn k_name() -> (r: Vec<u8>)
    ensures
        r@ == name_key(),
{
    let r = vec![110u8, 97u8, 109u8, 101u8];
    proof {
        assert(r@ =~= name_key());
    }
    r
}

/// The field name `namespace`.
pub fn k_namespace() -> (r: Vec<u8>)
    ensures
        r@ == namespace_key(),
{
    let r = vec![110u8, 97u8, 109u8, 101u8, 115u8, 112u8, 97u8, 99u8, 101u8];
    proof {
        assert(r@ =~= namespace_key());
    }
    r
}

/// The snapshot with the discovered `apiVersion` and `kind` bound, as it
/// is handed to the external handler.
pub open spec fn spec_augment(d: DocV, av: Seq<u8>, k: Seq<u8>) -> DocV {
    match d {
        DocV::Obj(es) => DocV::Obj(
            spec_set(spec_set(es, api_version_key(), DocV::Str(av)), kind_key(), DocV::Str(k)),
        ),
        _ => d,
    }
}

/// Augmenting keeps a document well formed.
pub proof fn lemma_spec_augment_wf(d: DocV, av: Seq<u8>, k: Seq<u8>)
    requires
        wf(d),
    ensures
        wf(spec_augment(d, av, k)),
{
    match d {
        DocV::Obj(es) => {
            lemma_spec_set_wf(es, api_version_key(), DocV::Str(av));
            lemma_spec_set_wf(
                spec_set(es, api_version_key(), DocV::Str(av)),
                kind_key(),
                DocV::Str(k),
            );
        },
        _ => {},
    }
}

/// Binds the discovered `apiVersion` and `kind` in a snapshot.  A snapshot
/// is always a mapping.
pub fn augment(doc: Doc, api_version: &Vec<u8>, kind: &Vec<u8>) -> (r: Doc)
    requires
        view_doc(&doc) is Obj,
    ensures
        view_doc(&r) == spec_augment(view_doc(&doc), api_version@, kind@),
{
    match doc {
        Doc::Obj(entries) => {
            let mut entries = entries;
            set_key(&mut entries, k_api_version(), Doc::Str(copy_bytes(api_version)));
            set_key(&mut entries, k_kind(), Doc::Str(copy_bytes(kind)));
            Doc::Obj(entries)
        },
        _ => {
            proof {
                assert(false);
            }
            Doc::Null
        },
    }
}

/// Prepares the manifest for one handler run: binds the discovered
/// `apiVersion` and `kind` in the snapshot and renders the result in its
/// written form.  Returns the augmented document (kept for the later
/// comparison with what the handler leaves behind) and the bytes to write.
pub fn render_manifest(doc: Doc, api_version: &Vec<u8>, kind: &Vec<u8>) -> (r: (Doc, Vec<u8>))
    requires
        view_doc(&doc) is Obj,
    ensures
        view_doc(&r.0) == spec_augment(view_doc(&doc), api_version@, kind@),
        r.1@ == enc(view_doc(&r.0)),
        wf(view_doc(&doc)) ==> wf(view_doc(&r.0)),
{
    proof {
        if wf(view_doc(&doc)) {
            lemma_spec_augment_wf(view_doc(&doc), api_version@, kind@);
        }
    }
    let augmented = augment(doc, api_version, kind);
    let bytes = encode_doc(&augmented);
    (augmented, bytes)
}

/// Whether the snapshot carries `metadata.deletionTimestamp`.
pub open spec fn spec_has_deletion_ts(d: DocV) -> bool {
    match doc_lookup(d, metadata_key()) {
        Option::Some(md) => !(doc_lookup(md, deletion_ts_key()) is None),
        Option::None => false,
    }
}

/// Decides whether the snapshot carries `metadata.deletionTimestamp`.
pub fn has_deletion_timestamp(obj: &Doc) -> (r: bool)
    ensures
        r == spec_has_deletion_ts(view_doc(obj)),
{
    match doc_get(obj, &k_metadata()) {
        Some(md) => doc_get(md, &k_deletion_ts()).is_some(),
        None => false,
    }
}

} // verus!
