use vstd::prelude::*;

use crate::error::BOError;

verus! {

/// A structured resource designation: group, version and kind.  A parsed
/// designation always carries a non-empty version and kind; only the group
/// may be empty.
#[derive(Debug, Clone)]
pub struct GroupVersionKind {
    pub group: String,
    pub version: String,
    pub kind: String,
}

/// The position of the first `c` at or after `from`, or the length when
/// there is none.
pub open spec fn find_at(s: Seq<char>, c: char, from: int) -> int
    decreases s.len() - from,
{
    if from < 0 || from >= s.len() {
        s.len() as int
    } else if s[from] == c {
        from
    } else {
        find_at(s, c, from + 1)
    }
}

pub open spec fn slash() -> char {
    '/'
}

/// Whether a designation string is well formed: two or three
/// slash-separated segments, the last two of them non-empty.
pub open spec fn gvk_ok(s: Seq<char>) -> bool {
    let i1 = find_at(s, slash(), 0);
    let i2 = find_at(s, slash(), i1 + 1);
    let i3 = find_at(s, slash(), i2 + 1);
    &&& i1 < s.len()  // at least two segments
    &&& (i3 == s.len())  // at most three segments
    &&& (if i2 == s.len() {
        i1 + 1 < s.len()  // two segments: non-empty version and kind
        && 0 < i1
    } else {
        i1 + 1 < i2 && i2 + 1 < s.len()  // three segments: group may be empty
    })
}

/// The group of a well-formed designation.
pub open spec fn gvk_group(s: Seq<char>) -> Seq<char> {
    let i1 = find_at(s, slash(), 0);
    let i2 = find_at(s, slash(), i1 + 1);
    if i2 == s.len() {
        Seq::empty()
    } else {
        s.subrange(0, i1)
    }
}

/// The version of a well-formed designation.
pub open spec fn gvk_version(s: Seq<char>) -> Seq<char> {
    let i1 = find_at(s, slash(), 0);
    let i2 = find_at(s, slash(), i1 + 1);
    if i2 == s.len() {
        s.subrange(0, i1)
    } else {
        s.subrange(i1 + 1, i2)
    }
}

/// The kind of a well-formed designation.
pub open spec fn gvk_kind(s: Seq<char>) -> Seq<char> {
    let i1 = find_at(s, slash(), 0);
    let i2 = find_at(s, slash(), i1 + 1);
    if i2 == s.len() {
        s.subrange(i1 + 1, s.len() as int)
    } else {
        s.subrange(i2 + 1, s.len() as int)
    }
}

/// The scanned slash position agrees with the recursive description.
proof fn lemma_find_scan(s: Seq<char>, c: char, from: int, e: int)
    requires
        0 <= from <= e <= s.len(),
        forall|t: int| from <= t < e ==> s[t] != c,
        e == s.len() || s[e] == c,
    ensures
        find_at(s, c, from) == e,
    decreases e - from,
{
    if from < e {
        lemma_find_scan(s, c, from + 1, e);
    }
}

/// Finds the first slash at or after `from`.
fn find_slash(s: &str, len: usize, from: usize) -> (r: usize)
    requires
        len == s@.len(),
        from <= len,
    ensures
        from <= r <= len,
        r as int == find_at(s@, slash(), from as int),
        r < len ==> s@[r as int] == slash(),
{
    let mut i = from;
    while i < len
        invariant
            from <= i <= len,
            len == s@.len(),
            forall|t: int| from <= t < i ==> s@[t] != slash(),
        decreases len - i,
    {
        if s.get_char(i) == '/' {
            proof {
                lemma_find_scan(s@, slash(), from as int, i as int);
            }
            return i;
        }
        i += 1;
    }
    proof {
        lemma_find_scan(s@, slash(), from as int, len as int);
    }
    len
}

/// Parses a `group/version/kind` designation: the last segment is the
/// kind; the one or two segments before it are the version, or the group
/// and the version.  Exactly the well-formed strings parse; everything
/// else is a group-version error.
pub fn get_gvk(gvk: &str) -> (r: Result<GroupVersionKind, BOError>)
    ensures
        r is Ok <==> gvk_ok(gvk@),
        r matches Ok(g) ==> g.group@ == gvk_group(gvk@) && g.version@ == gvk_version(gvk@)
            && g.kind@ == gvk_kind(gvk@) && g.version@.len() > 0 && g.kind@.len() > 0,
        r is Err ==> r == Result::<GroupVersionKind, BOError>::Err(
            BOError::ParseGroupVersionError,
        ),
{
    let len = gvk.unicode_len();
    let i1 = find_slash(gvk, len, 0);
    if i1 >= len {
        return Err(BOError::ParseGroupVersionError);
    }
    let i2 = find_slash(gvk, len, i1 + 1);
    if i2 >= len {
        // two segments: version / kind
        if i1 == 0 || i1 + 1 >= len {
            return Err(BOError::ParseGroupVersionError);
        }
        let version = gvk.substring_char(0, i1).to_owned();
        let kind = gvk.substring_char(i1 + 1, len).to_owned();
        return Ok(
            GroupVersionKind { group: String::new(), version, kind },
        );
    }
    let i3 = find_slash(gvk, len, i2 + 1);
    if i3 < len {
        return Err(BOError::ParseGroupVersionError);
    }
    if i1 + 1 >= i2 || i2 + 1 >= len {
        return Err(BOError::ParseGroupVersionError);
    }
    let group = gvk.substring_char(0, i1).to_owned();
    let version = gvk.substring_char(i1 + 1, i2).to_owned();
    let kind = gvk.substring_char(i2 + 1, len).to_owned();
    Ok(GroupVersionKind { group, version, kind })
}

/// A well-formed designation built from its parts is taken apart into the
/// same parts again: parsing undoes joining with slashes.  The two-segment
/// form carries an empty group.
pub proof fn lemma_gvk_roundtrip(g: Seq<char>, v: Seq<char>, k: Seq<char>)
    requires
        !g.contains(slash()),
        !v.contains(slash()),
        !k.contains(slash()),
        v.len() > 0,
        k.len() > 0,
    ensures
        g.len() > 0 ==> gvk_ok(g + seq![slash()] + v + seq![slash()] + k) && gvk_group(
            g + seq![slash()] + v + seq![slash()] + k,
        ) == g && gvk_version(g + seq![slash()] + v + seq![slash()] + k) == v && gvk_kind(
            g + seq![slash()] + v + seq![slash()] + k,
        ) == k,
        gvk_ok(v + seq![slash()] + k) && gvk_group(v + seq![slash()] + k) == Seq::<char>::empty()
            && gvk_version(v + seq![slash()] + k) == v && gvk_kind(v + seq![slash()] + k) == k,
{
    let two = v + seq![slash()] + k;
    assert forall|t: int| 0 <= t < v.len() implies two[t] != slash() by {
        assert(two[t] == v[t]);
        if v[t] == slash() {
            assert(v.contains(slash()));
        }
    }
    assert(two[v.len() as int] == slash());
    lemma_find_scan(two, slash(), 0, v.len() as int);
    assert forall|t: int| v.len() + 1 <= t < two.len() implies two[t] != slash() by {
        assert(two[t] == k[t - v.len() - 1]);
        if k[t - v.len() - 1] == slash() {
            assert(k.contains(slash()));
        }
    }
    lemma_find_scan(two, slash(), v.len() as int + 1, two.len() as int);
    assert(find_at(two, slash(), two.len() as int + 1) == two.len()) by {
    }
    assert(gvk_version(two) =~= v);
    assert(gvk_kind(two) =~= k);
    if g.len() > 0 {
        let three = g + seq![slash()] + v + seq![slash()] + k;
        assert forall|t: int| 0 <= t < g.len() implies three[t] != slash() by {
            assert(three[t] == g[t]);
            if g[t] == slash() {
                assert(g.contains(slash()));
            }
        }
        assert(three[g.len() as int] == slash());
        lemma_find_scan(three, slash(), 0, g.len() as int);
        assert forall|t: int|
            g.len() as int + 1 <= t < g.len() as int + 1 + v.len() as int implies three[t]
            != slash() by {
            assert(three[t] == v[t - g.len() - 1]);
            if v[t - g.len() - 1] == slash() {
                assert(v.contains(slash()));
            }
        }
        assert(three[g.len() as int + 1 + v.len() as int] == slash());
        lemma_find_scan(three, slash(), g.len() as int + 1, g.len() as int + 1 + v.len() as int);
        assert forall|t: int| g.len() as int + v.len() as int + 2 <= t < three.len() implies three[t]
            != slash() by {
            assert(three[t] == k[t - g.len() - v.len() - 2]);
            if k[t - g.len() - v.len() - 2] == slash() {
                assert(k.contains(slash()));
            }
        }
        lemma_find_scan(three, slash(), g.len() as int + v.len() as int + 2, three.len() as int);
        assert(gvk_group(three) =~= g);
        assert(gvk_version(three) =~= v);
        assert(gvk_kind(three) =~= k);
    }
}

} // verus!
