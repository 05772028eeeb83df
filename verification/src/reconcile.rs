use vstd::prelude::*;

use crate::codec::is_digit;
use crate::doc::{doc_eq, equiv, view_doc, Doc};
use crate::error::BOError;
use crate::meta::spec_has_deletion_ts;
use crate::parse::digits_val;

verus! {

/// The action handed to the external handler for one observed object.
#[derive(Debug, Clone, Copy, PartialEq, Eq, Structural)]
pub enum ReconcileAction {
    Apply,
    Delete,
}

/// What the loop does next: run again after a delay, or wait for the next
/// external change.
#[derive(Debug, Clone, Copy, PartialEq, Eq, Structural)]
pub enum RequeueDirective {
    After(u64),
    AwaitChange,
}

/// The action an object snapshot calls for: deletion when a deletion
/// timestamp is present, application otherwise.
pub open spec fn spec_action(d: crate::doc::DocV) -> ReconcileAction {
    if spec_has_deletion_ts(d) {
        ReconcileAction::Delete
    } else {
        ReconcileAction::Apply
    }
}

/// Derives the intended action from the snapshot.
pub fn derive_action(obj: &Doc) -> (r: ReconcileAction)
    ensures
        r == spec_action(view_doc(obj)),
{
    if crate::meta::has_deletion_timestamp(obj) {
        ReconcileAction::Delete
    } else {
        ReconcileAction::Apply
    }
}

impl ReconcileAction {
    /// The name under which the action is handed to the handler.
    pub fn as_arg(&self) -> (r: &'static str)
        ensures
            *self is Apply ==> r@ == "Apply"@,
            *self is Delete ==> r@ == "Delete"@,
    {
        match self {
            ReconcileAction::Apply => "Apply",
            ReconcileAction::Delete => "Delete",
        }
    }
}

pub open spec fn is_ws(b: u8) -> bool {
    b == 32 || b == 9 || b == 13
}

/// The first line of the signal file: everything before the first line
/// feed.
pub open spec fn line_len(s: Seq<u8>) -> int
    decreases s.len(),
{
    if s.len() == 0 {
        0
    } else if s[0] == 10 {
        0
    } else {
        1 + line_len(s.drop_first())
    }
}

/// The sequence without leading blanks.
pub open spec fn trim_front(s: Seq<u8>) -> Seq<u8>
    decreases s.len(),
{
    if s.len() > 0 && is_ws(s[0]) {
        trim_front(s.drop_first())
    } else {
        s
    }
}

/// The sequence without trailing blanks.
pub open spec fn trim_back(s: Seq<u8>) -> Seq<u8>
    decreases s.len(),
{
    if s.len() > 0 && is_ws(s.last()) {
        trim_back(s.drop_last())
    } else {
        s
    }
}

/// Every byte of the sequence is a decimal digit.
pub open spec fn all_digits(s: Seq<u8>) -> bool {
    forall|i: int| 0 <= i < s.len() ==> is_digit(#[trigger] s[i])
}

/// The delay asked for by a requeue-signal file: its first line, stripped
/// of surrounding blanks, read as an unsigned decimal number of seconds;
/// anything unreadable, empty or out of machine range falls back to ten
/// seconds.
pub open spec fn spec_requeue(s: Seq<u8>) -> nat {
    let t = trim_back(trim_front(s.take(line_len(s))));
    if t.len() > 0 && all_digits(t) && digits_val(t) <= u64::MAX {
        digits_val(t)
    } else {
        10
    }
}

/// The value of a prefix of a digit string is no more than the value of
/// the whole.
proof fn lemma_digits_prefix_le(t: Seq<u8>, j: int)
    requires
        0 <= j <= t.len(),
    ensures
        digits_val(t.take(j)) <= digits_val(t),
    decreases t.len(),
{
    if j == t.len() {
        assert(t.take(j) =~= t);
    } else if t.len() > 0 {
        assert(t.take(j) =~= t.drop_last().take(j));
        lemma_digits_prefix_le(t.drop_last(), j);
    }
}

/// Reads the requeue-signal file.
pub fn parse_requeue(s: &Vec<u8>) -> (r: u64)
    ensures
        r as nat == spec_requeue(s@),
{
    let n = s.len();
    // end of the first line
    let mut e: usize = 0;
    while e < n && s[e] != 10
        invariant
            0 <= e <= n,
            n == s@.len(),
            forall|t: int| 0 <= t < e ==> s@[t] != 10,
        decreases n - e,
    {
        e += 1;
    }
    proof {
        lemma_line_scan(s@, e as int);
    }
    // leading blanks
    let mut a: usize = 0;
    while a < e && (s[a] == 32 || s[a] == 9 || s[a] == 13)
        invariant
            0 <= a <= e <= n,
            n == s@.len(),
            forall|t: int| 0 <= t < a ==> is_ws(s@[t]),
        decreases e - a,
    {
        a += 1;
    }
    // trailing blanks
    let mut b: usize = e;
    while b > a && (s[b - 1] == 32 || s[b - 1] == 9 || s[b - 1] == 13)
        invariant
            a <= b <= e <= n,
            n == s@.len(),
            forall|t: int| b <= t < e ==> is_ws(s@[t]),
        decreases b - a,
    {
        b -= 1;
    }
    proof {
        lemma_trim_scan(s@.take(e as int), a as int, b as int);
    }
    let ghost tv = trim_back(trim_front(s@.take(e as int)));
    proof {
        assert(tv =~= s@.subrange(a as int, b as int));
    }
    if a == b {
        return 10;
    }
    let mut acc: u64 = 0;
    let mut i: usize = a;
    proof {
        assert(tv.take(0) =~= Seq::<u8>::empty());
    }
    while i < b
        invariant
            a <= i <= b <= n,
            n == s@.len(),
            a < b,
            tv == s@.subrange(a as int, b as int),
            tv == trim_back(trim_front(s@.take(line_len(s@)))),
            forall|t: int| a <= t < i ==> is_digit(#[trigger] s@[t]),
            acc as nat == digits_val(tv.take(i - a)),
        decreases b - i,
    {
        let c = s[i];
        if !(48 <= c && c <= 57) {
            proof {
                assert(tv[i - a] == s@[i as int]);
                assert(!all_digits(tv));
            }
            return 10;
        }
        let wide: u128 = (acc as u128) * 10 + ((c - 48) as u128);
        proof {
            assert(tv.take(i - a + 1).drop_last() =~= tv.take(i - a));
            assert(tv.take(i - a + 1).last() == tv[i - a]);
            assert(tv[i - a] == s@[i as int]);
            assert(digits_val(tv.take(i - a + 1)) == acc as nat * 10 + (tv[i - a] - 48) as nat);
        }
        if wide > u64::MAX as u128 {
            proof {
                lemma_digits_prefix_le(tv, i - a + 1);
                assert(digits_val(tv) > u64::MAX);
            }
            return 10;
        }
        acc = wide as u64;
        i += 1;
    }
    proof {
        assert(tv.take(b - a) =~= tv);
        assert(all_digits(tv)) by {
            assert forall|t: int| 0 <= t < tv.len() implies is_digit(#[trigger] tv[t]) by {
                assert(tv[t] == s@[a + t]);
            }
        }
    }
    acc
}

/// The scanned line end is where the recursive description puts it.
proof fn lemma_line_scan(s: Seq<u8>, e: int)
    requires
        0 <= e <= s.len(),
        forall|t: int| 0 <= t < e ==> s[t] != 10,
        e == s.len() || s[e] == 10,
    ensures
        line_len(s) == e,
    decreases e,
{
    if e == 0 {
    } else {
        assert(s[0] != 10);
        assert forall|t: int| 0 <= t < e - 1 implies s.drop_first()[t] != 10 by {
            assert(s.drop_first()[t] == s[t + 1]);
        }
        if e < s.len() {
            assert(s.drop_first()[e - 1] == s[e]);
        }
        lemma_line_scan(s.drop_first(), e - 1);
    }
}

/// The scanned blank bounds are where the recursive trims put them.
proof fn lemma_trim_scan(line: Seq<u8>, a: int, b: int)
    requires
        0 <= a <= b <= line.len(),
        forall|t: int| 0 <= t < a ==> is_ws(#[trigger] line[t]),
        forall|t: int| b <= t < line.len() ==> is_ws(#[trigger] line[t]),
        a < b ==> !is_ws(line[a]) && !is_ws(line[b - 1]),
        a == b ==> b == line.len(),
    ensures
        trim_back(trim_front(line)) == line.subrange(a, b),
    decreases line.len(),
{
    if a > 0 {
        assert(is_ws(line[0]));
        assert forall|t: int| 0 <= t < a - 1 implies is_ws(#[trigger] line.drop_first()[t]) by {
            assert(line.drop_first()[t] == line[t + 1]);
        }
        assert forall|t: int| b - 1 <= t < line.drop_first().len() implies is_ws(
            #[trigger] line.drop_first()[t],
        ) by {
            assert(line.drop_first()[t] == line[t + 1]);
        }
        if a < b {
            assert(line.drop_first()[a - 1] == line[a]);
            assert(line.drop_first()[b - 2] == line[b - 1]);
        }
        lemma_trim_scan(line.drop_first(), a - 1, b - 1);
        assert(line.drop_first().subrange(a - 1, b - 1) =~= line.subrange(a, b));
    } else if b < line.len() {
        assert(is_ws(line.last()));
        assert(trim_front(line) == line) by {
            if line.len() > 0 && is_ws(line[0]) {
                assert(a < b);
                assert(!is_ws(line[a]));
                assert(false);
            }
        }
        assert(trim_back(trim_front(line)) == trim_back(line));
        assert forall|t: int| b <= t < line.drop_last().len() implies is_ws(
            #[trigger] line.drop_last()[t],
        ) by {
            assert(line.drop_last()[t] == line[t]);
        }
        assert forall|t: int| 0 <= t < 0 implies is_ws(#[trigger] line.drop_last()[t]) by {}
        if a < b {
            assert(line.drop_last()[b - 1] == line[b - 1]);
        }
        lemma_trim_scan(line.drop_last(), a, b);
        assert(line.drop_last().subrange(a, b) =~= line.subrange(a, b));
        assert(trim_front(line.drop_last()) == line.drop_last()) by {
            if line.drop_last().len() > 0 && is_ws(line.drop_last()[0]) {
                assert(line[0] == line.drop_last()[0]);
                assert(a < b);
                assert(!is_ws(line[a]));
                assert(false);
            }
        }
    } else {
        // no blanks on either side
        assert(trim_front(line) == line) by {
            if line.len() > 0 && is_ws(line[0]) {
                assert(0 < a || (a == b && b == line.len() && line.len() > 0 && a == 0));
                if a == 0 && b == line.len() {
                    if a < b {
                        assert(!is_ws(line[0]));
                    }
                }
                assert(false);
            }
        }
        assert(trim_back(line) == line) by {
            if line.len() > 0 && is_ws(line.last()) {
                if a < b {
                    assert(!is_ws(line[b - 1]));
                }
                assert(false);
            }
        }
        assert(line.subrange(a, b) =~= line);
    }
}

/// How one handler run ends as seen by the engine: the exit status is
/// success only when it is zero; a missing status code stands for one.
pub fn classify_exit(exit_code: Option<i32>) -> (r: Result<(), BOError>)
    ensures
        exit_code == Some(0i32) <==> r is Ok,
        r == match exit_code {
            Some(c) => if c == 0 {
                Result::<(), BOError>::Ok(())
            } else {
                Result::<(), BOError>::Err(BOError::ErrorStatusCode(c))
            },
            None => Result::<(), BOError>::Err(BOError::ErrorStatusCode(1)),
        },
{
    match exit_code {
        Some(c) => if c == 0 {
            Ok(())
        } else {
            Err(BOError::ErrorStatusCode(c))
        },
        None => Err(BOError::ErrorStatusCode(1)),
    }
}

/// What one reconciliation concludes: whether the re-read manifest must be
/// patched onto the cluster object, and when to run again.
#[derive(Debug, Clone, Copy, PartialEq, Eq, Structural)]
pub struct ReconcileOutcome {
    pub patch_needed: bool,
    pub requeue: RequeueDirective,
}

/// Interprets one handler run.  `exit_code` is the handler's exit status
/// (`None` when it was killed without one); `reread` is the manifest read
/// back after the run, `None` when it could not be parsed; the requeue
/// signal file's bytes give the next delay.
///
/// On a non-zero or missing status the run failed with that status code
/// and nothing is patched.  On success, an unreadable manifest is a hard
/// error; otherwise the object is patched exactly when the re-read
/// manifest differs structurally from the one that was written.
pub fn conclude_reconcile(
    augmented: &Doc,
    exit_code: Option<i32>,
    reread: Option<&Doc>,
    requeue_signal: &Vec<u8>,
) -> (r: Result<ReconcileOutcome, BOError>)
    ensures
        r == match exit_code {
            Some(c) => if c == 0 {
                match reread {
                    Some(d) => Result::<ReconcileOutcome, BOError>::Ok(
                        ReconcileOutcome {
                            patch_needed: !equiv(view_doc(augmented), view_doc(d)),
                            requeue: RequeueDirective::After(spec_requeue(requeue_signal@) as u64),
                        },
                    ),
                    None => Result::<ReconcileOutcome, BOError>::Err(BOError::ParseManifestError),
                }
            } else {
                Result::<ReconcileOutcome, BOError>::Err(BOError::ErrorStatusCode(c))
            },
            None => Result::<ReconcileOutcome, BOError>::Err(BOError::ErrorStatusCode(1)),
        },
        spec_requeue(requeue_signal@) <= u64::MAX,
{
    proof {
        lemma_requeue_bound(requeue_signal@);
    }
    match classify_exit(exit_code) {
        Err(e) => Err(e),
        Ok(()) => match reread {
            None => Err(BOError::ParseManifestError),
            Some(d) => Ok(
                ReconcileOutcome {
                    patch_needed: !doc_eq(augmented, d),
                    requeue: RequeueDirective::After(parse_requeue(requeue_signal)),
                },
            ),
        },
    }
}

/// A requeue delay always fits the machine word.
pub proof fn lemma_requeue_bound(s: Seq<u8>)
    ensures
        spec_requeue(s) <= u64::MAX,
{
}

/// The default recovery policy: after a failed reconciliation the object
/// is retried after ten seconds.
pub fn on_error() -> (r: RequeueDirective)
    ensures
        r == RequeueDirective::After(10u64),
{
    RequeueDirective::After(10)
}

/// The requeue convention that reads the handler's exit status itself as
/// the delay: a zero status asks for no timer at all, a non-zero status
/// for that many seconds.
pub fn requeue_from_exit(code: u64) -> (r: RequeueDirective)
    ensures
        code == 0 ==> r == RequeueDirective::AwaitChange,
        code != 0 ==> r == RequeueDirective::After(code),
{
    if code == 0 {
        RequeueDirective::AwaitChange
    } else {
        RequeueDirective::After(code)
    }
}

} // verus!
