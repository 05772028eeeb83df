use vstd::prelude::*;

verus! {

/// The command-line surface of the operator: the designation of the
/// resource kind to watch, the handler to call on each reconcile, the
/// namespace selection and the log level.
#[derive(Debug, Clone)]
pub struct Cli {
    /// Log level name.
    pub log_level: String,
    /// The `group/version/kind` designation of the watched resource.
    pub gvk: String,
    /// The handler called on each reconcile with an action and a manifest
    /// path.
    pub func_name: String,
    /// The namespace to watch; the client's default namespace when absent.
    pub namespace: Option<String>,
    /// Watch every namespace; when set, `namespace` is ignored.
    pub all_namespaces: bool,
}

/// Which namespace the watch covers: none at all (every namespace) when
/// `all_namespaces` is set, else the named one, else the client's default.
pub fn effective_namespace(args: &Cli, default_namespace: &str) -> (r: Option<String>)
    ensures
        args.all_namespaces ==> r is None,
        !args.all_namespaces ==> match args.namespace {
            Some(ns) => r matches Some(out) && out@ == ns@,
            None => r matches Some(out) && out@ == default_namespace@,
        },
{
    if args.all_namespaces {
        None
    } else {
        match &args.namespace {
            Some(ns) => Some(ns.clone()),
            None => Some(default_namespace.to_owned()),
        }
    }
}

} // verus!
