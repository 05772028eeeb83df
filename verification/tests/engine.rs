use bash_operator::cli::{effective_namespace, Cli};
use bash_operator::codec::encode_doc;
use bash_operator::doc::{doc_eq, set_key, Doc};
use bash_operator::error::BOError;
use bash_operator::finalizer::{finalizer_patch, prepare_finalizer_update, update_finalizers};
use bash_operator::gvk::get_gvk;
use bash_operator::meta::{augment, has_deletion_timestamp, render_manifest};
use bash_operator::parse::parse_doc;
use bash_operator::reconcile::{
    classify_exit, conclude_reconcile, derive_action, on_error, parse_requeue, requeue_from_exit,
    ReconcileAction, RequeueDirective,
};

fn obj(entries: Vec<(&str, Doc)>) -> Doc {
    Doc::Obj(
        entries
            .into_iter()
            .map(|(k, v)| (k.as_bytes().to_vec(), v))
            .collect(),
    )
}

fn s(text: &str) -> Doc {
    Doc::Str(text.as_bytes().to_vec())
}

fn sample_object(with_deletion: bool) -> Doc {
    let mut metadata = vec![("name", s("demo")), ("namespace", s("default"))];
    if with_deletion {
        metadata.push(("deletionTimestamp", s("2024-01-01T00:00:00Z")));
    }
    metadata.push((
        "finalizers",
        Doc::Arr(vec![s("example.com/cleanup")]),
    ));
    obj(vec![
        ("metadata", obj(metadata)),
        (
            "spec",
            obj(vec![("replicas", Doc::Int(3)), ("paused", Doc::Bool(false))]),
        ),
        ("status", Doc::Null),
    ])
}

#[test]
fn parse_three_segment_designation() {
    let g = get_gvk("apps/v1/Deployment").unwrap();
    assert_eq!(g.group, "apps");
    assert_eq!(g.version, "v1");
    assert_eq!(g.kind, "Deployment");
}

#[test]
fn parse_two_segment_designation() {
    let g = get_gvk("v1/Secret").unwrap();
    assert_eq!(g.group, "");
    assert_eq!(g.version, "v1");
    assert_eq!(g.kind, "Secret");
}

#[test]
fn parse_rejects_malformed_designations() {
    assert!(get_gvk("Deployment").is_err());
    assert!(get_gvk("").is_err());
    assert!(get_gvk("a/b/c/d").is_err());
    assert!(get_gvk("/Deployment").is_err());
    assert!(get_gvk("v1/").is_err());
    assert!(get_gvk("a//b").is_err());
    assert!(get_gvk("a/v1/").is_err());
}

#[test]
fn encoding_scalars() {
    assert_eq!(encode_doc(&Doc::Null), b"null".to_vec());
    assert_eq!(encode_doc(&Doc::Bool(true)), b"true".to_vec());
    assert_eq!(encode_doc(&Doc::Bool(false)), b"false".to_vec());
    assert_eq!(encode_doc(&Doc::Int(0)), b"0".to_vec());
    assert_eq!(encode_doc(&Doc::Int(-42)), b"-42".to_vec());
    assert_eq!(encode_doc(&s("a\"b\\c")), b"\"a\\\"b\\\\c\"".to_vec());
}

#[test]
fn encoding_nested_document() {
    let d = obj(vec![
        ("a", Doc::Int(1)),
        ("b", Doc::Arr(vec![Doc::Bool(true), Doc::Null])),
    ]);
    assert_eq!(encode_doc(&d), b"{\"a\":1,\"b\":[true,null]}".to_vec());
}

#[test]
fn codec_round_trip() {
    let d = sample_object(false);
    let bytes = encode_doc(&d);
    let back = parse_doc(&bytes).unwrap();
    assert!(doc_eq(&d, &back));
}

#[test]
fn codec_round_trip_with_escapes_and_extremes() {
    let d = obj(vec![
        ("quoted", s("say \"hi\" \\ bye")),
        ("big", Doc::Int(i64::MAX)),
        ("small", Doc::Int(i64::MIN)),
        ("empty_arr", Doc::Arr(vec![])),
        ("empty_obj", obj(vec![])),
        ("empty_str", s("")),
    ]);
    let bytes = encode_doc(&d);
    let back = parse_doc(&bytes).unwrap();
    assert!(doc_eq(&d, &back));
}

#[test]
fn parser_rejects_malformed_input() {
    assert!(parse_doc(&b"{".to_vec()).is_err());
    assert!(parse_doc(&b"tru".to_vec()).is_err());
    assert!(parse_doc(&b"nullx".to_vec()).is_err());
    assert!(parse_doc(&b"".to_vec()).is_err());
    assert!(parse_doc(&b"[1,]".to_vec()).is_err());
    assert!(parse_doc(&b"{\"a\":1,\"a\":2}".to_vec()).is_err());
    assert!(parse_doc(&b"9223372036854775808".to_vec()).is_err());
}

#[test]
fn parser_reads_extreme_integers() {
    match parse_doc(&b"9223372036854775807".to_vec()).unwrap() {
        Doc::Int(n) => assert_eq!(n, i64::MAX),
        _ => panic!("expected an integer"),
    }
    match parse_doc(&b"-9223372036854775808".to_vec()).unwrap() {
        Doc::Int(n) => assert_eq!(n, i64::MIN),
        _ => panic!("expected an integer"),
    }
}

#[test]
fn structural_equality_ignores_field_order() {
    let a = obj(vec![("x", Doc::Int(1)), ("y", Doc::Int(2))]);
    let b = obj(vec![("y", Doc::Int(2)), ("x", Doc::Int(1))]);
    assert!(doc_eq(&a, &b));
    let c = obj(vec![("x", Doc::Int(1)), ("y", Doc::Int(3))]);
    assert!(!doc_eq(&a, &c));
    let d = obj(vec![("x", Doc::Int(1))]);
    assert!(!doc_eq(&a, &d));
}

#[test]
fn augment_binds_api_version_and_kind() {
    let d = obj(vec![("metadata", obj(vec![("name", s("demo"))]))]);
    let a = augment(d, &b"apps/v1".to_vec(), &b"Deployment".to_vec());
    let bytes = encode_doc(&a);
    assert_eq!(
        bytes,
        b"{\"metadata\":{\"name\":\"demo\"},\"apiVersion\":\"apps/v1\",\"kind\":\"Deployment\"}".to_vec()
    );
}

#[test]
fn augment_replaces_existing_bindings() {
    let d = obj(vec![("apiVersion", s("v1")), ("kind", s("Old"))]);
    let a = augment(d, &b"apps/v1".to_vec(), &b"New".to_vec());
    assert_eq!(encode_doc(&a), b"{\"apiVersion\":\"apps/v1\",\"kind\":\"New\"}".to_vec());
}

#[test]
fn set_key_appends_and_replaces() {
    let mut entries: Vec<(Vec<u8>, Doc)> = Vec::new();
    set_key(&mut entries, b"a".to_vec(), Doc::Int(1));
    set_key(&mut entries, b"b".to_vec(), Doc::Int(2));
    set_key(&mut entries, b"a".to_vec(), Doc::Int(3));
    assert_eq!(encode_doc(&Doc::Obj(entries)), b"{\"a\":3,\"b\":2}".to_vec());
}

#[test]
fn action_follows_deletion_timestamp() {
    assert_eq!(derive_action(&sample_object(true)), ReconcileAction::Delete);
    assert_eq!(derive_action(&sample_object(false)), ReconcileAction::Apply);
    assert!(has_deletion_timestamp(&sample_object(true)));
    assert!(!has_deletion_timestamp(&sample_object(false)));
    assert_eq!(ReconcileAction::Apply.as_arg(), "Apply");
    assert_eq!(ReconcileAction::Delete.as_arg(), "Delete");
}

#[test]
fn requeue_signal_values() {
    assert_eq!(parse_requeue(&b"30".to_vec()), 30);
    assert_eq!(parse_requeue(&b"30\n".to_vec()), 30);
    assert_eq!(parse_requeue(&b" 42 \n".to_vec()), 42);
    assert_eq!(parse_requeue(&b"abc".to_vec()), 10);
    assert_eq!(parse_requeue(&b"".to_vec()), 10);
    assert_eq!(parse_requeue(&b"12x".to_vec()), 10);
    assert_eq!(parse_requeue(&b"99999999999999999999".to_vec()), 10);
    assert_eq!(parse_requeue(&b"7\n123".to_vec()), 7);
}

#[test]
fn requeue_from_exit_status() {
    assert_eq!(requeue_from_exit(5), RequeueDirective::After(5));
    assert_eq!(requeue_from_exit(0), RequeueDirective::AwaitChange);
}

#[test]
fn exit_status_classification() {
    assert!(classify_exit(Some(0)).is_ok());
    assert_eq!(classify_exit(Some(5)), Err(BOError::ErrorStatusCode(5)));
    assert_eq!(classify_exit(None), Err(BOError::ErrorStatusCode(1)));
}

#[test]
fn unchanged_manifest_needs_no_patch() {
    let (augmented, bytes) = render_manifest(
        sample_object(false),
        &b"apps/v1".to_vec(),
        &b"Deployment".to_vec(),
    );
    let reread = parse_doc(&bytes).unwrap();
    let out = conclude_reconcile(&augmented, Some(0), Some(&reread), &b"30".to_vec()).unwrap();
    assert!(!out.patch_needed);
    assert_eq!(out.requeue, RequeueDirective::After(30));
}

#[test]
fn changed_manifest_needs_one_patch() {
    let (augmented, _bytes) = render_manifest(
        sample_object(false),
        &b"apps/v1".to_vec(),
        &b"Deployment".to_vec(),
    );
    let rewritten = obj(vec![("spec", obj(vec![("replicas", Doc::Int(5))]))]);
    let out = conclude_reconcile(&augmented, Some(0), Some(&rewritten), &b"".to_vec()).unwrap();
    assert!(out.patch_needed);
    assert_eq!(out.requeue, RequeueDirective::After(10));
}

#[test]
fn failed_handler_patches_nothing() {
    let (augmented, _bytes) = render_manifest(
        sample_object(false),
        &b"apps/v1".to_vec(),
        &b"Deployment".to_vec(),
    );
    let reread = obj(vec![]);
    assert_eq!(
        conclude_reconcile(&augmented, Some(5), Some(&reread), &b"1".to_vec()),
        Err(BOError::ErrorStatusCode(5))
    );
    assert_eq!(
        conclude_reconcile(&augmented, None, Some(&reread), &b"1".to_vec()),
        Err(BOError::ErrorStatusCode(1))
    );
    assert_eq!(
        conclude_reconcile(&augmented, Some(0), None, &b"1".to_vec()),
        Err(BOError::ParseManifestError)
    );
}

#[test]
fn error_recovery_waits_ten_seconds() {
    assert_eq!(on_error(), RequeueDirective::After(10));
}

#[test]
fn finalizer_add_is_idempotent() {
    let name = b"example.com/cleanup".to_vec();
    let start: Vec<Vec<u8>> = vec![b"other".to_vec()];
    let once = update_finalizers(&start, &name, true);
    let twice = update_finalizers(&once, &name, true);
    assert_eq!(once, twice);
    assert_eq!(once.iter().filter(|f| **f == name).count(), 1);
    assert_eq!(once, vec![b"other".to_vec(), b"example.com/cleanup".to_vec()]);
}

#[test]
fn finalizer_remove_absent_is_noop() {
    let name = b"example.com/cleanup".to_vec();
    let start: Vec<Vec<u8>> = vec![b"other".to_vec()];
    assert_eq!(update_finalizers(&start, &name, false), start);
    let gone = update_finalizers(&vec![name.clone(), b"other".to_vec()], &name, false);
    assert_eq!(gone, vec![b"other".to_vec()]);
}

#[test]
fn finalizer_patch_carries_only_finalizers() {
    let patch = finalizer_patch(vec![b"a".to_vec(), b"b".to_vec()]);
    assert_eq!(
        encode_doc(&patch),
        b"{\"metadata\":{\"finalizers\":[\"a\",\"b\"]}}".to_vec()
    );
}

#[test]
fn namespace_selection() {
    let mut args = Cli {
        log_level: "info".to_string(),
        gvk: "v1/Secret".to_string(),
        func_name: "handler".to_string(),
        namespace: Some("team".to_string()),
        all_namespaces: false,
    };
    assert_eq!(effective_namespace(&args, "default"), Some("team".to_string()));
    args.namespace = None;
    assert_eq!(effective_namespace(&args, "default"), Some("default".to_string()));
    args.all_namespaces = true;
    assert_eq!(effective_namespace(&args, "default"), None);
}

#[test]
fn finalizer_update_from_manifest() {
    let manifest = sample_object(false);
    let patch =
        prepare_finalizer_update(&manifest, &b"example.com/cleanup".to_vec(), true).unwrap();
    assert_eq!(
        encode_doc(&patch),
        b"{\"metadata\":{\"finalizers\":[\"example.com/cleanup\"]}}".to_vec()
    );
    let removed =
        prepare_finalizer_update(&manifest, &b"example.com/cleanup".to_vec(), false).unwrap();
    assert_eq!(encode_doc(&removed), b"{\"metadata\":{\"finalizers\":[]}}".to_vec());
}

#[test]
fn finalizer_update_without_metadata() {
    let manifest = obj(vec![("spec", Doc::Null)]);
    let patch = prepare_finalizer_update(&manifest, &b"keep".to_vec(), true).unwrap();
    assert_eq!(
        encode_doc(&patch),
        b"{\"metadata\":{\"finalizers\":[\"keep\"]}}".to_vec()
    );
}

#[test]
fn finalizer_update_rejects_malformed_list() {
    let manifest = obj(vec![(
        "metadata",
        obj(vec![("finalizers", Doc::Int(3))]),
    )]);
    assert!(matches!(
        prepare_finalizer_update(&manifest, &b"x".to_vec(), true),
        Err(BOError::ParseManifestError)
    ));
    let mixed = obj(vec![(
        "metadata",
        obj(vec![("finalizers", Doc::Arr(vec![s("ok"), Doc::Null]))]),
    )]);
    assert!(matches!(
        prepare_finalizer_update(&mixed, &b"x".to_vec(), true),
        Err(BOError::ParseManifestError)
    ));
}
