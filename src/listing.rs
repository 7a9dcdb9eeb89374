use vstd::prelude::*;

use crate::maildir::{
    contains_path, is_cur, is_excluded, is_initial, is_marker, maildir_path, relative_parent,
    under_base, MaildirError,
};
use crate::path::{
    lemma_path_lt_irrefl, lemma_path_lt_total, lemma_path_lt_trans, path_lt, paths_view, MailPath,
};

verus! {

/// A path as its sequence of components.
pub type PathView = Seq<Seq<u8>>;

/// The mailboxes that the marker directories among `entries` denote, relative
/// to `base` and in the order of `entries`, leaving out those in `excluded`.
pub open spec fn found_mailboxes(
    base: PathView,
    entries: Seq<PathView>,
    excluded: Seq<PathView>,
) -> Seq<PathView>
    decreases entries.len(),
{
    if entries.len() == 0 {
        Seq::empty()
    } else {
        let rest = found_mailboxes(base, entries.drop_last(), excluded);
        let e = entries.last();
        let m = e.drop_last().skip(base.len() as int);
        if is_marker(e) && !excluded.contains(m) {
            rest.push(m)
        } else {
            rest
        }
    }
}

/// Every marker directory among `entries` lies in a directory under `base`.
pub open spec fn markers_under_base(base: PathView, entries: Seq<PathView>) -> bool {
    forall|i: int|
        0 <= i < entries.len() && is_marker(#[trigger] entries[i]) ==> under_base(
            base,
            entries[i].drop_last(),
        )
}

/// The entries of `initial` that are among `found`, in the order of
/// `initial`, each once.
pub open spec fn priority_prefix(initial: Seq<PathView>, found: Seq<PathView>) -> Seq<PathView>
    decreases initial.len(),
{
    if initial.len() == 0 {
        Seq::empty()
    } else {
        let pre = priority_prefix(initial.drop_last(), found);
        let x = initial.last();
        if found.contains(x) && !pre.contains(x) {
            pre.push(x)
        } else {
            pre
        }
    }
}

/// Each path of `s` comes before every later one.
pub open spec fn strictly_sorted(s: Seq<PathView>) -> bool {
    forall|i: int, j: int| 0 <= i < j < s.len() ==> path_lt(#[trigger] s[i], #[trigger] s[j])
}

/// `r` is the ordered listing of the mailboxes: first the priority
/// prefix, then every other found mailbox in strictly increasing order.
pub open spec fn is_listing(
    base: PathView,
    entries: Seq<PathView>,
    initial: Seq<PathView>,
    excluded: Seq<PathView>,
    r: Seq<PathView>,
) -> bool {
    let found = found_mailboxes(base, entries, excluded);
    let pre = priority_prefix(initial, found);
    let rest = r.skip(pre.len() as int);
    &&& pre.len() <= r.len()
    &&& r.subrange(0, pre.len() as int) == pre
    &&& strictly_sorted(rest)
    &&& forall|m: PathView| rest.contains(m) <==> found.contains(m) && !initial.contains(m)
}

proof fn lemma_contains_push(s: Seq<PathView>, x: PathView, m: PathView)
    ensures
        s.push(x).contains(m) <==> s.contains(m) || m == x,
{
    if s.contains(m) {
        let i = choose|i: int| 0 <= i < s.len() && s[i] == m;
        assert(s.push(x)[i] == m);
    }
    if m == x {
        assert(s.push(x)[s.len() as int] == m);
    }
    if s.push(x).contains(m) {
        let i = choose|i: int| 0 <= i < s.len() + 1 && s.push(x)[i] == m;
        if i < s.len() {
            assert(s[i] == m);
        }
    }
}

proof fn lemma_view_push(v: Seq<MailPath>, x: MailPath)
    ensures
        paths_view(v.push(x)) == paths_view(v).push(x@),
{
    assert(paths_view(v.push(x)) =~= paths_view(v).push(x@));
}

/// Inserts `x` into the strictly sorted `v`, unless it is there already.
fn insert_sorted(v: &mut Vec<MailPath>, x: MailPath)
    requires
        strictly_sorted(paths_view(old(v)@)),
    ensures
        strictly_sorted(paths_view(final(v)@)),
        forall|m: PathView|
            paths_view(final(v)@).contains(m) <==> paths_view(old(v)@).contains(m) || m == x@,
{
    let ghost s = paths_view(v@);
    let mut i: usize = 0;
    loop
        invariant
            s == paths_view(v@),
            i <= v@.len(),
            forall|j: int| 0 <= j < i ==> path_lt(#[trigger] s[j], x@),
        ensures
            s == paths_view(v@),
            i <= v@.len(),
            forall|j: int| 0 <= j < i ==> path_lt(#[trigger] s[j], x@),
            i < v@.len() ==> !path_lt(s[i as int], x@),
        decreases v@.len() - i,
    {
        if i >= v.len() || !v[i].less_than(&x) {
            break;
        }
        i = i + 1;
    }
    if i < v.len() && v[i].same_path(&x) {
        assert(s[i as int] == x@);
        assert forall|m: PathView| s.contains(m) || m == x@ implies s.contains(m) by {}
        return;
    }
    let ghost xv = x@;
    v.insert(i, x);
    proof {
        let t = paths_view(v@);
        assert(t =~= s.insert(i as int, xv));
        if i < s.len() {
            assert(s[i as int] != xv);
            lemma_path_lt_total(s[i as int], xv);
        }
        assert forall|a: int, b: int| 0 <= a < b < t.len() implies path_lt(
            #[trigger] t[a],
            #[trigger] t[b],
        ) by {
            if b < i {
            } else if a < i && b == i {
            } else if a < i {
                assert(t[b] == s[b - 1]);
            } else if a == i {
                assert(t[b] == s[b - 1]);
                if b - 1 > i {
                    lemma_path_lt_trans(xv, s[i as int], s[b - 1]);
                }
            } else {
                assert(t[a] == s[a - 1] && t[b] == s[b - 1]);
            }
        }
        assert forall|m: PathView| t.contains(m) <==> s.contains(m) || m == xv by {
            if s.contains(m) {
                let j = choose|j: int| 0 <= j < s.len() && s[j] == m;
                if j < i {
                    assert(t[j] == m);
                } else {
                    assert(t[j + 1] == m);
                }
            }
            if m == xv {
                assert(t[i as int] == m);
            }
            if t.contains(m) {
                let j = choose|j: int| 0 <= j < t.len() && t[j] == m;
                if j < i {
                    assert(s[j] == m);
                } else if j > i {
                    assert(s[j - 1] == m);
                }
            }
        }
    }
}

/// Lists the mailboxes that the marker directories among `entries` denote.
///
/// `entries` are the directories that a walk of `base` visited, `base`
/// included. Each one whose last component is `cur` marks the directory
/// that holds it as a mailbox, named by its path relative to `base`.
/// Mailboxes in `excluded` are left out. Those in `initial` come first,
/// in the order of `initial` and each once; the others follow in
/// increasing order. A marker outside `base` is an error.
pub fn list_maildirs(
    base: &MailPath,
    entries: &Vec<MailPath>,
    initial: &Vec<MailPath>,
    excluded: &Vec<MailPath>,
) -> (r: Result<Vec<MailPath>, MaildirError>)
    ensures
        r is Ok <==> markers_under_base(base@, paths_view(entries@)),
        match r {
            Ok(v) => is_listing(
                base@,
                paths_view(entries@),
                paths_view(initial@),
                paths_view(excluded@),
                paths_view(v@),
            ),
            Err(e) => e == MaildirError::OutsideBase,
        },
{
    let ghost bv = base@;
    let ghost ev = paths_view(entries@);
    let ghost iv = paths_view(initial@);
    let ghost xv = paths_view(excluded@);

    // The mailboxes, in the order of the walk.
    let mut dirs: Vec<MailPath> = Vec::new();
    let mut i: usize = 0;
    while i < entries.len()
        invariant
            i <= entries@.len(),
            ev == paths_view(entries@),
            bv == base@,
            xv == paths_view(excluded@),
            paths_view(dirs@) == found_mailboxes(bv, ev.subrange(0, i as int), xv),
            forall|j: int|
                0 <= j < i && is_marker(#[trigger] ev[j]) ==> under_base(bv, ev[j].drop_last()),
        decreases entries@.len() - i,
    {
        let e = &entries[i];
        assert(ev[i as int] == e@);
        assert(ev.subrange(0, i + 1).drop_last() =~= ev.subrange(0, i as int));
        if is_cur(e) {
            match maildir_path(base, e) {
                Err(err) => {
                    assert(!markers_under_base(bv, ev)) by {
                        assert(is_marker(ev[i as int]));
                    }
                    return Err(err);
                },
                Ok(m) => {
                    if !is_excluded(&m, excluded) {
                        proof {
                            lemma_view_push(dirs@, m);
                        }
                        dirs.push(m);
                    }
                },
            }
        }
        i = i + 1;
    }
    assert(ev.subrange(0, ev.len() as int) =~= ev);
    let ghost found = paths_view(dirs@);

    // Split them into the requested ones and the others, kept sorted.
    let mut found_initial: Vec<MailPath> = Vec::new();
    let mut others: Vec<MailPath> = Vec::new();
    let mut j: usize = 0;
    while j < dirs.len()
        invariant
            j <= dirs@.len(),
            found == paths_view(dirs@),
            iv == paths_view(initial@),
            forall|m: PathView|
                #![trigger paths_view(found_initial@).contains(m)]
                #![trigger found.subrange(0, j as int).contains(m)]
                paths_view(found_initial@).contains(m) <==> found.subrange(0, j as int).contains(m)
                    && iv.contains(m),
            strictly_sorted(paths_view(others@)),
            forall|m: PathView|
                #![trigger paths_view(others@).contains(m)]
                #![trigger found.subrange(0, j as int).contains(m)]
                paths_view(others@).contains(m) <==> found.subrange(0, j as int).contains(m)
                    && !iv.contains(m),
        decreases dirs@.len() - j,
    {
        let m = dirs[j].copy();
        let ghost mv = m@;
        assert(found.subrange(0, j + 1) =~= found.subrange(0, j as int).push(mv));
        proof {
            assert forall|k: PathView| found.subrange(0, j + 1).contains(k)
                <==> found.subrange(0, j as int).contains(k) || k == mv by {
                lemma_contains_push(found.subrange(0, j as int), mv, k);
            }
        }
        let ghost fi0 = paths_view(found_initial@);
        let ghost ot0 = paths_view(others@);
        let in_initial = is_initial(&m, initial);
        if in_initial {
            proof {
                lemma_view_push(found_initial@, m);
            }
            found_initial.push(m);
        } else {
            insert_sorted(&mut others, m);
        }
        proof {
            assert forall|k: PathView|
                #![trigger paths_view(found_initial@).contains(k)]
                #![trigger found.subrange(0, j + 1).contains(k)]
                paths_view(found_initial@).contains(k) <==> found.subrange(0, j + 1).contains(k)
                    && iv.contains(k) by {
                lemma_contains_push(fi0, mv, k);
                lemma_contains_push(found.subrange(0, j as int), mv, k);
                if in_initial {
                    assert(paths_view(found_initial@) == fi0.push(mv));
                } else {
                    assert(paths_view(found_initial@) == fi0);
                }
                assert(fi0.contains(k) <==> found.subrange(0, j as int).contains(k) && iv.contains(k));
            }
            assert forall|k: PathView|
                #![trigger paths_view(others@).contains(k)]
                #![trigger found.subrange(0, j + 1).contains(k)]
                paths_view(others@).contains(k) <==> found.subrange(0, j + 1).contains(k)
                    && !iv.contains(k) by {
                lemma_contains_push(found.subrange(0, j as int), mv, k);
                assert(ot0.contains(k) <==> found.subrange(0, j as int).contains(k) && !iv.contains(k));
            }
        }
        j = j + 1;
    }
    assert(found.subrange(0, j as int) =~= found);
    assert forall|m: PathView|
        paths_view(found_initial@).contains(m) <==> found.contains(m) && iv.contains(m) by {
        assert(found.subrange(0, j as int) == found);
        assert(found.subrange(0, j as int).contains(m) == found.contains(m));
    }

    // The requested ones, in the requested order, each once.
    let mut ordered: Vec<MailPath> = Vec::new();
    let mut k: usize = 0;
    while k < initial.len()
        invariant
            k <= initial@.len(),
            iv == paths_view(initial@),
            forall|m: PathView|
                #![trigger paths_view(found_initial@).contains(m)]
                #![trigger found.contains(m)]
                paths_view(found_initial@).contains(m) <==> found.contains(m) && iv.contains(m),
            paths_view(ordered@) == priority_prefix(iv.subrange(0, k as int), found),
        decreases initial@.len() - k,
    {
        let p = &initial[k];
        assert(iv[k as int] == p@);
        assert(iv.contains(p@));
        assert(iv.subrange(0, k + 1).drop_last() =~= iv.subrange(0, k as int));
        if contains_path(p, &found_initial) && !contains_path(p, &ordered) {
            let c = p.copy();
            proof {
                lemma_view_push(ordered@, c);
            }
            ordered.push(c);
        }
        k = k + 1;
    }
    assert(iv.subrange(0, iv.len() as int) =~= iv);

    let ghost pre = paths_view(ordered@);
    let ghost rest = paths_view(others@);
    ordered.append(&mut others);
    assert(paths_view(ordered@).subrange(0, pre.len() as int) =~= pre);
    assert(paths_view(ordered@).skip(pre.len() as int) =~= rest);
    Ok(ordered)
}

/// Marker entry `e` marks the mailbox `m` of `base`.
pub open spec fn marks(base: PathView, e: PathView, m: PathView) -> bool {
    is_marker(e) && relative_parent(base, e) == Ok::<PathView, MaildirError>(m)
}

proof fn lemma_found_contains(
    base: PathView,
    entries: Seq<PathView>,
    excluded: Seq<PathView>,
    m: PathView,
)
    requires
        markers_under_base(base, entries),
    ensures
        found_mailboxes(base, entries, excluded).contains(m) <==> !excluded.contains(m) && exists|
            i: int,
        |
            0 <= i < entries.len() && marks(base, #[trigger] entries[i], m),
    decreases entries.len(),
{
    if entries.len() > 0 {
        let init = entries.drop_last();
        let e = entries.last();
        assert(markers_under_base(base, init)) by {
            assert forall|i: int| 0 <= i < init.len() && is_marker(#[trigger] init[i]) implies under_base(
                base,
                init[i].drop_last(),
            ) by {
                assert(init[i] == entries[i]);
            }
        }
        lemma_found_contains(base, init, excluded, m);
        let rest = found_mailboxes(base, init, excluded);
        let em = e.drop_last().skip(base.len() as int);
        lemma_contains_push(rest, em, m);
        if is_marker(e) {
            assert(under_base(base, e.drop_last())) by {
                assert(entries[entries.len() - 1] == e);
            }
            assert(marks(base, entries[entries.len() - 1], em));
        }
        if exists|i: int| 0 <= i < entries.len() && marks(base, #[trigger] entries[i], m) {
            let i = choose|i: int| 0 <= i < entries.len() && marks(base, #[trigger] entries[i], m);
            if i < init.len() {
                assert(marks(base, init[i], m));
            } else {
                assert(m == em);
            }
        }
        if exists|i: int| 0 <= i < init.len() && marks(base, #[trigger] init[i], m) {
            let i = choose|i: int| 0 <= i < init.len() && marks(base, #[trigger] init[i], m);
            assert(marks(base, entries[i], m));
        }
    }
}

proof fn lemma_prefix_contains(initial: Seq<PathView>, found: Seq<PathView>, x: PathView)
    ensures
        priority_prefix(initial, found).contains(x) <==> found.contains(x) && initial.contains(x),
    decreases initial.len(),
{
    if initial.len() > 0 {
        let init = initial.drop_last();
        let y = initial.last();
        lemma_prefix_contains(init, found, x);
        lemma_contains_push(priority_prefix(init, found), y, x);
        lemma_contains_push(init, y, x);
        assert(initial =~= init.push(y));
    }
}

proof fn lemma_prefix_no_duplicates(initial: Seq<PathView>, found: Seq<PathView>)
    ensures
        priority_prefix(initial, found).no_duplicates(),
    decreases initial.len(),
{
    if initial.len() > 0 {
        lemma_prefix_no_duplicates(initial.drop_last(), found);
        let pre = priority_prefix(initial.drop_last(), found);
        let y = initial.last();
        if found.contains(y) && !pre.contains(y) {
            let p = pre.push(y);
            assert forall|a: int, b: int| 0 <= a < p.len() && 0 <= b < p.len() && a != b implies p[a]
                != p[b] by {
                if a == pre.len() {
                    assert(p[b] == pre[b]);
                } else if b == pre.len() {
                    assert(p[a] == pre[a]);
                }
            }
        }
    }
}

/// The index of the first occurrence of `x` in `s`, or `s.len()` if none.
pub open spec fn first_index(s: Seq<PathView>, x: PathView) -> int
    decreases s.len(),
{
    if !s.contains(x) {
        s.len() as int
    } else if s.drop_last().contains(x) {
        first_index(s.drop_last(), x)
    } else {
        s.len() - 1
    }
}

proof fn lemma_first_index_bound(s: Seq<PathView>, x: PathView)
    requires
        s.contains(x),
    ensures
        0 <= first_index(s, x) < s.len(),
    decreases s.len(),
{
    if s.drop_last().contains(x) {
        lemma_first_index_bound(s.drop_last(), x);
    }
}

/// The paths of `pre` come in the order of their first occurrences in `initial`.
pub open spec fn follows_order_of(pre: Seq<PathView>, initial: Seq<PathView>) -> bool {
    forall|a: int, b: int|
        0 <= a < b < pre.len() ==> first_index(initial, #[trigger] pre[a]) < first_index(
            initial,
            #[trigger] pre[b],
        )
}

proof fn lemma_prefix_order(initial: Seq<PathView>, found: Seq<PathView>)
    ensures
        follows_order_of(priority_prefix(initial, found), initial),
    decreases initial.len(),
{
    if initial.len() > 0 {
        let init = initial.drop_last();
        let y = initial.last();
        let pre0 = priority_prefix(init, found);
        let pre = priority_prefix(initial, found);
        lemma_prefix_order(init, found);
        lemma_prefix_contains(init, found, y);
        assert(initial.drop_last() == init);
        assert forall|a: int, b: int| 0 <= a < b < pre.len() implies first_index(
            initial,
            #[trigger] pre[a],
        ) < first_index(initial, #[trigger] pre[b]) by {
            assert(pre[a] == pre0[a]);
            assert(pre0.contains(pre[a]));
            lemma_prefix_contains(init, found, pre[a]);
            lemma_first_index_bound(init, pre[a]);
            assert(initial.contains(pre[a])) by {
                let k = choose|k: int| 0 <= k < init.len() && init[k] == pre[a];
                assert(initial[k] == pre[a]);
            }
            if b < pre0.len() {
                assert(pre[b] == pre0[b]);
                assert(pre0.contains(pre[b]));
                lemma_prefix_contains(init, found, pre[b]);
                let k = choose|k: int| 0 <= k < init.len() && init[k] == pre[b];
                assert(initial[k] == pre[b]);
            } else {
                assert(pre[b] == y);
                assert(initial[initial.len() - 1] == y);
            }
        }
    }
}

proof fn lemma_sorted_no_duplicates(s: Seq<PathView>)
    requires
        strictly_sorted(s),
    ensures
        s.no_duplicates(),
{
    assert forall|a: int, b: int| 0 <= a < s.len() && 0 <= b < s.len() && a != b implies s[a]
        != s[b] by {
        lemma_path_lt_irrefl(s[a]);
        if a < b {
            assert(path_lt(s[a], s[b]));
        } else {
            assert(path_lt(s[b], s[a]));
        }
    }
}

proof fn lemma_sorted_unique(s: Seq<PathView>, t: Seq<PathView>)
    requires
        strictly_sorted(s),
        strictly_sorted(t),
        forall|m: PathView| s.contains(m) <==> t.contains(m),
    ensures
        s == t,
    decreases s.len(),
{
    if s.len() == 0 {
        if t.len() > 0 {
            assert(t.contains(t[0]));
        }
        assert(s =~= t);
    } else {
        assert(s.contains(s[0]));
        let l = choose|l: int| 0 <= l < t.len() && t[l] == s[0];
        assert(t.contains(t[0]));
        let k = choose|k: int| 0 <= k < s.len() && s[k] == t[0];
        if k > 0 {
            assert(path_lt(s[0], t[0]));
            if l > 0 {
                assert(path_lt(t[0], s[0]));
                lemma_path_lt_trans(s[0], t[0], s[0]);
            }
            lemma_path_lt_irrefl(s[0]);
        }
        assert(s[0] == t[0]);
        let s1 = s.drop_first();
        let t1 = t.drop_first();
        lemma_sorted_no_duplicates(s);
        lemma_sorted_no_duplicates(t);
        assert(strictly_sorted(s1)) by {
            assert forall|i: int, j: int| 0 <= i < j < s1.len() implies path_lt(
                #[trigger] s1[i],
                #[trigger] s1[j],
            ) by {
                assert(s1[i] == s[i + 1] && s1[j] == s[j + 1]);
            }
        }
        assert(strictly_sorted(t1)) by {
            assert forall|i: int, j: int| 0 <= i < j < t1.len() implies path_lt(
                #[trigger] t1[i],
                #[trigger] t1[j],
            ) by {
                assert(t1[i] == t[i + 1] && t1[j] == t[j + 1]);
            }
        }
        assert forall|m: PathView| s1.contains(m) <==> t1.contains(m) by {
            if s1.contains(m) {
                let i = choose|i: int| 0 <= i < s1.len() && s1[i] == m;
                assert(s[i + 1] == m);
                assert(t.contains(m));
                let j = choose|j: int| 0 <= j < t.len() && t[j] == m;
                assert(j != 0);
                assert(t1[j - 1] == m);
            }
            if t1.contains(m) {
                let i = choose|i: int| 0 <= i < t1.len() && t1[i] == m;
                assert(t[i + 1] == m);
                assert(s.contains(m));
                let j = choose|j: int| 0 <= j < s.len() && s[j] == m;
                assert(j != 0);
                assert(s1[j - 1] == m);
            }
        }
        lemma_sorted_unique(s1, t1);
        assert(s =~= seq![s[0]] + s1);
        assert(t =~= seq![t[0]] + t1);
    }
}

proof fn lemma_concat(p: Seq<PathView>, q: Seq<PathView>)
    ensures
        forall|m: PathView| #[trigger] (p + q).contains(m) <==> p.contains(m) || q.contains(m),
        p.no_duplicates() && q.no_duplicates() && (forall|m: PathView|
            p.contains(m) ==> !q.contains(m)) ==> (p + q).no_duplicates(),
{
    let c = p + q;
    assert forall|m: PathView| #[trigger] c.contains(m) <==> p.contains(m) || q.contains(m) by {
        if p.contains(m) {
            let i = choose|i: int| 0 <= i < p.len() && p[i] == m;
            assert(c[i] == m);
        }
        if q.contains(m) {
            let i = choose|i: int| 0 <= i < q.len() && q[i] == m;
            assert(c[i + p.len()] == m);
        }
        if c.contains(m) {
            let i = choose|i: int| 0 <= i < c.len() && c[i] == m;
            if i < p.len() {
                assert(p[i] == m);
            } else {
                assert(q[i - p.len()] == m);
            }
        }
    }
    if p.no_duplicates() && q.no_duplicates() && (forall|m: PathView|
        p.contains(m) ==> !q.contains(m)) {
        assert forall|a: int, b: int| 0 <= a < c.len() && 0 <= b < c.len() && a != b implies c[a]
            != c[b] by {
            if a < p.len() && b >= p.len() {
                assert(p.contains(c[a]) && q.contains(c[b])) by {
                    assert(p[a] == c[a]);
                    assert(q[b - p.len()] == c[b]);
                }
            } else if b < p.len() && a >= p.len() {
                assert(p.contains(c[b]) && q.contains(c[a])) by {
                    assert(p[b] == c[b]);
                    assert(q[a - p.len()] == c[a]);
                }
            } else if a >= p.len() {
                assert(q[a - p.len()] == c[a] && q[b - p.len()] == c[b]);
            }
        }
    }
}

proof fn lemma_listing_split(
    base: PathView,
    entries: Seq<PathView>,
    initial: Seq<PathView>,
    excluded: Seq<PathView>,
    r: Seq<PathView>,
)
    requires
        is_listing(base, entries, initial, excluded, r),
    ensures
        ({
            let found = found_mailboxes(base, entries, excluded);
            let n = priority_prefix(initial, found).len() as int;
            &&& forall|m: PathView| #[trigger]
                r.contains(m) <==> found.contains(m)
            &&& r.no_duplicates()
            &&& forall|m: PathView| #[trigger]
                r.subrange(0, n).contains(m) <==> found.contains(m) && initial.contains(m)
            &&& r.subrange(0, n).no_duplicates()
        }),
{
    let found = found_mailboxes(base, entries, excluded);
    let pre = priority_prefix(initial, found);
    let n = pre.len() as int;
    let rest = r.skip(n);
    assert(r =~= pre + rest);
    lemma_concat(pre, rest);
    lemma_prefix_no_duplicates(initial, found);
    lemma_sorted_no_duplicates(rest);
    assert forall|m: PathView| pre.contains(m) <==> found.contains(m) && initial.contains(m) by {
        lemma_prefix_contains(initial, found, m);
    }
    assert forall|m: PathView| #[trigger] r.contains(m) <==> found.contains(m) by {
        assert((pre + rest).contains(m) <==> pre.contains(m) || rest.contains(m));
    }
}

/// The listing holds exactly the mailboxes that marker entries denote under
/// the base and that are not excluded, and each of them once.
pub proof fn lemma_listing_exact(
    base: PathView,
    entries: Seq<PathView>,
    initial: Seq<PathView>,
    excluded: Seq<PathView>,
    r: Seq<PathView>,
)
    requires
        markers_under_base(base, entries),
        is_listing(base, entries, initial, excluded, r),
    ensures
        forall|m: PathView|
            #[trigger] r.contains(m) <==> !excluded.contains(m) && exists|i: int|
                0 <= i < entries.len() && marks(base, #[trigger] entries[i], m),
        r.no_duplicates(),
{
    lemma_listing_split(base, entries, initial, excluded, r);
    assert forall|m: PathView|
        #[trigger] r.contains(m) <==> !excluded.contains(m) && exists|i: int|
            0 <= i < entries.len() && marks(base, #[trigger] entries[i], m) by {
        lemma_found_contains(base, entries, excluded, m);
    }
}

/// No excluded path is listed.
pub proof fn lemma_listing_excludes(
    base: PathView,
    entries: Seq<PathView>,
    initial: Seq<PathView>,
    excluded: Seq<PathView>,
    r: Seq<PathView>,
)
    requires
        markers_under_base(base, entries),
        is_listing(base, entries, initial, excluded, r),
    ensures
        forall|i: int| 0 <= i < r.len() ==> !excluded.contains(#[trigger] r[i]),
{
    lemma_listing_exact(base, entries, initial, excluded, r);
    assert forall|i: int| 0 <= i < r.len() implies !excluded.contains(#[trigger] r[i]) by {
        assert(r.contains(r[i]));
    }
}

/// The listing is determined by its inputs: two listings of the same
/// entries are equal.
pub proof fn lemma_listing_deterministic(
    base: PathView,
    entries: Seq<PathView>,
    initial: Seq<PathView>,
    excluded: Seq<PathView>,
    r1: Seq<PathView>,
    r2: Seq<PathView>,
)
    requires
        is_listing(base, entries, initial, excluded, r1),
        is_listing(base, entries, initial, excluded, r2),
    ensures
        r1 == r2,
{
    let found = found_mailboxes(base, entries, excluded);
    let n = priority_prefix(initial, found).len() as int;
    let s1 = r1.skip(n);
    let s2 = r2.skip(n);
    assert forall|m: PathView| s1.contains(m) <==> s2.contains(m) by {}
    lemma_sorted_unique(s1, s2);
    assert(r1 =~= r1.subrange(0, n) + s1);
    assert(r2 =~= r2.subrange(0, n) + s2);
}

/// The listing begins with the requested mailboxes that were found, in the
/// order of their first request and each once; the others follow, in
/// strictly increasing order.
pub proof fn lemma_listing_priority_first(
    base: PathView,
    entries: Seq<PathView>,
    initial: Seq<PathView>,
    excluded: Seq<PathView>,
    r: Seq<PathView>,
)
    requires
        is_listing(base, entries, initial, excluded, r),
    ensures
        ({
            let found = found_mailboxes(base, entries, excluded);
            let n = priority_prefix(initial, found).len() as int;
            &&& forall|m: PathView| #[trigger]
                r.subrange(0, n).contains(m) <==> found.contains(m) && initial.contains(m)
            &&& r.subrange(0, n).no_duplicates()
            &&& follows_order_of(r.subrange(0, n), initial)
            &&& forall|i: int| n <= i < r.len() ==> !initial.contains(#[trigger] r[i])
            &&& strictly_sorted(r.skip(n))
        }),
{
    let found = found_mailboxes(base, entries, excluded);
    let n = priority_prefix(initial, found).len() as int;
    lemma_listing_split(base, entries, initial, excluded, r);
    lemma_prefix_order(initial, found);
    assert forall|i: int| n <= i < r.len() implies !initial.contains(#[trigger] r[i]) by {
        assert(r.skip(n)[i - n] == r[i]);
        assert(r.skip(n).contains(r[i]));
    }
}

} // verus!
