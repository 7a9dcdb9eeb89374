use vstd::prelude::*;

use crate::path::{paths_view, MailPath};

verus! {

/// Why a mailbox path could not be derived.
#[derive(Debug, Clone, Copy, PartialEq, Eq)]
pub enum MaildirError {
    /// The home directory was needed and is unknown.
    NoHomeDir,
    /// A marker directory has no parent.
    NoParent,
    /// A mailbox directory does not lie under the base.
    OutsideBase,
}

/// The name of the directory that marks a mailbox: `cur`.
pub open spec fn marker_name() -> Seq<u8> {
    seq![99u8, 117u8, 114u8]
}

/// Whether `p` names a marker directory.
pub open spec fn is_marker(p: Seq<Seq<u8>>) -> bool {
    p.len() > 0 && p.last() == marker_name()
}

/// Whether `p` lies under `base` (or is `base` itself).
pub open spec fn under_base(base: Seq<Seq<u8>>, p: Seq<Seq<u8>>) -> bool {
    base.len() <= p.len() && p.subrange(0, base.len() as int) == base
}

/// The path of the directory that holds `p`, relative to `base`.
pub open spec fn relative_parent(
    base: Seq<Seq<u8>>,
    p: Seq<Seq<u8>>,
) -> Result<Seq<Seq<u8>>, MaildirError> {
    if p.len() == 0 {
        Err(MaildirError::NoParent)
    } else if !under_base(base, p.drop_last()) {
        Err(MaildirError::OutsideBase)
    } else {
        Ok(p.drop_last().skip(base.len() as int))
    }
}

/// Whether `entry` is a mailbox marker, that is, whether its last component is `cur`.
pub fn is_cur(entry: &MailPath) -> (r: bool)
    ensures
        r == is_marker(entry@),
{
    let n = entry.parts.len();
    if n == 0 {
        return false;
    }
    let name = &entry.parts[n - 1];
    let r = name.len() == 3 && name[0] == 99u8 && name[1] == 117u8 && name[2] == 114u8;
    assert(r ==> name@ =~= marker_name());
    r
}

/// The mailbox that the marker directory `path` marks, relative to `base`.
pub fn maildir_path(base: &MailPath, path: &MailPath) -> (r: Result<MailPath, MaildirError>)
    ensures
        match r {
            Ok(m) => relative_parent(base@, path@) == Ok::<Seq<Seq<u8>>, MaildirError>(m@),
            Err(e) => relative_parent(base@, path@) == Err::<Seq<Seq<u8>>, MaildirError>(e),
        },
{
    let n = path.parts.len();
    if n == 0 {
        return Err(MaildirError::NoParent);
    }
    let b = base.parts.len();
    if b > n - 1 {
        return Err(MaildirError::OutsideBase);
    }
    let mut i: usize = 0;
    while i < b
        invariant
            b == base@.len(),
            b <= n - 1,
            n == path@.len(),
            i <= b,
            forall|j: int| 0 <= j < i ==> path@[j] == base@[j],
        decreases b - i,
    {
        if !crate::path::bytes_equal(&base.parts[i], &path.parts[i]) {
            assert(path@.drop_last().subrange(0, b as int)[i as int] != base@[i as int]);
            return Err(MaildirError::OutsideBase);
        }
        i = i + 1;
    }
    assert(path@.drop_last().subrange(0, b as int) =~= base@);
    let mut parts: Vec<Vec<u8>> = Vec::new();
    let mut k: usize = b;
    while k < n - 1
        invariant
            b <= k <= n - 1,
            n == path@.len(),
            parts@.len() == k - b,
            forall|j: int| 0 <= j < k - b ==> #[trigger] parts@[j]@ == path@[j + b],
        decreases n - 1 - k,
    {
        parts.push(crate::path::copy_bytes(&path.parts[k]));
        k = k + 1;
    }
    let m = MailPath { parts };
    assert(m@ =~= path@.drop_last().skip(b as int));
    Ok(m)
}

/// Whether `x` is one of `list`.
pub fn contains_path(x: &MailPath, list: &Vec<MailPath>) -> (r: bool)
    ensures
        r == paths_view(list@).contains(x@),
{
    let mut i: usize = 0;
    while i < list.len()
        invariant
            i <= list@.len(),
            forall|j: int| 0 <= j < i ==> list@[j]@ != x@,
        decreases list@.len() - i,
    {
        if list[i].same_path(x) {
            assert(paths_view(list@)[i as int] == x@);
            return true;
        }
        i = i + 1;
    }
    proof {
        if paths_view(list@).contains(x@) {
            let j = choose|j: int| 0 <= j < list@.len() && paths_view(list@)[j] == x@;
            assert(list@[j]@ == x@);
        }
    }
    false
}

/// Whether the mailbox `entry` is one of the `excluded` ones.
pub fn is_excluded(entry: &MailPath, excluded: &Vec<MailPath>) -> (r: bool)
    ensures
        r == paths_view(excluded@).contains(entry@),
{
    contains_path(entry, excluded)
}

/// Whether the mailbox `maildir` is one of the `initial` ones, listed first.
pub fn is_initial(maildir: &MailPath, initial: &Vec<MailPath>) -> (r: bool)
    ensures
        r == paths_view(initial@).contains(maildir@),
{
    contains_path(maildir, initial)
}

} // verus!
