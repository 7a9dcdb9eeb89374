use vstd::prelude::*;

use crate::maildir::MaildirError;
use crate::path::{append_bytes, SEPARATOR};

verus! {

/// The home directory shorthand, `~`.
pub const TILDE: u8 = 126;

/// How many leading bytes of `p` stand for the home directory: two for
/// `~/`, one for a bare `~`, none otherwise.
pub open spec fn home_prefix_len(p: Seq<u8>) -> int {
    if p.len() >= 2 && p[0] == TILDE && p[1] == SEPARATOR {
        2
    } else if p.len() >= 1 && p[0] == TILDE {
        1
    } else {
        0
    }
}

/// `rest` joined onto `dir`: an absolute `rest` replaces `dir`; otherwise a
/// separator comes between them unless `dir` is empty or ends in one.
pub open spec fn join_onto(dir: Seq<u8>, rest: Seq<u8>) -> Seq<u8> {
    if rest.len() > 0 && rest[0] == SEPARATOR {
        rest
    } else if dir.len() == 0 || dir.last() == SEPARATOR {
        dir + rest
    } else {
        dir + seq![SEPARATOR] + rest
    }
}

pub open spec fn opt_bytes(h: Option<&[u8]>) -> Option<Seq<u8>> {
    match h {
        Some(s) => Some(s@),
        None => None,
    }
}

/// `path` with a leading home shorthand replaced by the home directory.
pub open spec fn expanded(path: Seq<u8>, home: Option<Seq<u8>>) -> Result<Seq<u8>, MaildirError> {
    let cut = home_prefix_len(path);
    if cut == 0 {
        Ok(path)
    } else {
        match home {
            Some(h) => Ok(join_onto(h, path.skip(cut))),
            None => Err(MaildirError::NoHomeDir),
        }
    }
}

/// Expands a leading `~` or `~/` of `path` to the home directory `home`.
/// A path without the shorthand is returned as it is; one with it fails
/// when the home directory is unknown.
pub fn expand_path(path: &[u8], home: Option<&[u8]>) -> (r: Result<Vec<u8>, MaildirError>)
    ensures
        match r {
            Ok(v) => expanded(path@, opt_bytes(home)) == Ok::<Seq<u8>, MaildirError>(v@),
            Err(e) => expanded(path@, opt_bytes(home)) == Err::<Seq<u8>, MaildirError>(e),
        },
{
    let mut cut: usize = 0;
    if path.len() >= 1 && path[0] == TILDE {
        cut = 1;
    }
    if path.len() >= 2 && path[0] == TILDE && path[1] == SEPARATOR {
        cut = 2;
    }
    if cut == 0 {
        let mut v: Vec<u8> = Vec::new();
        append_bytes(&mut v, path);
        assert(v@ =~= path@);
        return Ok(v);
    }
    let h = match home {
        Some(h) => h,
        None => {
            return Err(MaildirError::NoHomeDir);
        },
    };
    let rest = slice_from(path, cut);
    if rest.len() > 0 && rest[0] == SEPARATOR {
        return Ok(rest);
    }
    let mut v: Vec<u8> = Vec::new();
    append_bytes(&mut v, h);
    if h.len() > 0 && h[h.len() - 1] != SEPARATOR {
        v.push(SEPARATOR);
    }
    let ghost v0 = v@;
    append_bytes(&mut v, rest.as_slice());
    proof {
        if h@.len() == 0 || h@.last() == SEPARATOR {
            assert(v@ =~= h@ + rest@);
        } else {
            assert(v0 =~= h@ + seq![SEPARATOR]);
            assert(v@ =~= h@ + seq![SEPARATOR] + rest@);
        }
    }
    Ok(v)
}

/// The bytes of `s` from index `start` on.
fn slice_from(s: &[u8], start: usize) -> (r: Vec<u8>)
    requires
        start <= s@.len(),
    ensures
        r@ == s@.skip(start as int),
{
    let mut r: Vec<u8> = Vec::new();
    let mut i: usize = start;
    while i < s.len()
        invariant
            start <= i <= s@.len(),
            r@ == s@.subrange(start as int, i as int),
        decreases s@.len() - i,
    {
        r.push(s[i]);
        i = i + 1;
        assert(r@ =~= s@.subrange(start as int, i as int));
    }
    assert(r@ =~= s@.skip(start as int));
    r
}

} // verus!
