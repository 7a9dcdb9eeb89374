use vstd::prelude::*;

use crate::path::{append_bytes, join_parts, paths_view, MailPath};

verus! {

/// One mailbox as the mail client reads it: `+'` then the path, then `'`.
pub open spec fn entry_text(p: Seq<Seq<u8>>) -> Seq<u8> {
    seq![43u8, 39u8] + join_parts(p) + seq![39u8]
}

/// The mailboxes' entries, separated by single spaces.
pub open spec fn line_text(ps: Seq<Seq<Seq<u8>>>) -> Seq<u8>
    decreases ps.len(),
{
    if ps.len() == 0 {
        Seq::empty()
    } else if ps.len() == 1 {
        entry_text(ps[0])
    } else {
        line_text(ps.drop_last()) + seq![32u8] + entry_text(ps.last())
    }
}

/// The line that lists `paths` for the mail client's mailbox list.
pub fn format_line(paths: &Vec<MailPath>) -> (r: Vec<u8>)
    ensures
        r@ == line_text(paths_view(paths@)),
{
    let ghost ps = paths_view(paths@);
    let mut r: Vec<u8> = Vec::new();
    let mut i: usize = 0;
    while i < paths.len()
        invariant
            ps == paths_view(paths@),
            i <= paths@.len(),
            r@ == line_text(ps.subrange(0, i as int)),
        decreases paths@.len() - i,
    {
        assert(ps.subrange(0, i + 1).drop_last() =~= ps.subrange(0, i as int));
        let ghost r0 = r@;
        if i > 0 {
            r.push(32u8);
        }
        r.push(43u8);
        r.push(39u8);
        let text = paths[i].to_bytes();
        append_bytes(&mut r, text.as_slice());
        r.push(39u8);
        proof {
            if i > 0 {
                assert(r@ =~= r0 + seq![32u8] + entry_text(ps[i as int]));
            } else {
                assert(r@ =~= entry_text(ps[i as int]));
            }
        }
        i = i + 1;
    }
    assert(ps.subrange(0, ps.len() as int) =~= ps);
    r
}

} // verus!
