use vstd::prelude::*;

use crate::order::{
    lemma_seq_lt_irrefl, lemma_seq_lt_skip, lemma_seq_lt_strict_total, lemma_seq_lt_total,
    lemma_seq_lt_trans, seq_lt, strict_total,
};

verus! {

/// A filesystem path as its sequence of components, each a byte string.
#[derive(Clone, Debug, PartialEq, Eq)]
pub struct MailPath {
    pub parts: Vec<Vec<u8>>,
}

impl View for MailPath {
    type V = Seq<Seq<u8>>;

    open spec fn view(&self) -> Seq<Seq<u8>> {
        self.parts@.map_values(|p: Vec<u8>| p@)
    }
}

/// The views of a list of paths.
pub open spec fn paths_view(v: Seq<MailPath>) -> Seq<Seq<Seq<u8>>> {
    v.map_values(|p: MailPath| p@)
}

pub open spec fn u8_order() -> spec_fn(u8, u8) -> bool {
    |x: u8, y: u8| x < y
}

/// Byte strings compare byte by byte, a proper prefix first.
pub open spec fn bytes_order() -> spec_fn(Seq<u8>, Seq<u8>) -> bool {
    |a: Seq<u8>, b: Seq<u8>| seq_lt(a, b, u8_order())
}

/// Paths compare component by component, a proper prefix first.
pub open spec fn path_lt(a: Seq<Seq<u8>>, b: Seq<Seq<u8>>) -> bool {
    seq_lt(a, b, bytes_order())
}

proof fn lemma_bytes_order_strict_total()
    ensures
        strict_total(bytes_order()),
{
    lemma_seq_lt_strict_total(u8_order());
}

/// No path comes before itself.
pub proof fn lemma_path_lt_irrefl(a: Seq<Seq<u8>>)
    ensures
        !path_lt(a, a),
{
    lemma_bytes_order_strict_total();
    lemma_seq_lt_irrefl(a, bytes_order());
}

/// The order on paths is transitive.
pub proof fn lemma_path_lt_trans(a: Seq<Seq<u8>>, b: Seq<Seq<u8>>, c: Seq<Seq<u8>>)
    requires
        path_lt(a, b),
        path_lt(b, c),
    ensures
        path_lt(a, c),
{
    lemma_bytes_order_strict_total();
    lemma_seq_lt_trans(a, b, c, bytes_order());
}

/// Of two different paths, one comes before the other.
pub proof fn lemma_path_lt_total(a: Seq<Seq<u8>>, b: Seq<Seq<u8>>)
    requires
        a != b,
    ensures
        path_lt(a, b) || path_lt(b, a),
{
    lemma_bytes_order_strict_total();
    lemma_seq_lt_total(a, b, bytes_order());
}

/// Whether two byte strings are equal.
pub fn bytes_equal(a: &Vec<u8>, b: &Vec<u8>) -> (r: bool)
    ensures
        r == (a@ == b@),
{
    if a.len() != b.len() {
        return false;
    }
    let mut i: usize = 0;
    while i < a.len()
        invariant
            a@.len() == b@.len(),
            i <= a@.len(),
            forall|j: int| 0 <= j < i ==> a@[j] == b@[j],
        decreases a@.len() - i,
    {
        if a[i] != b[i] {
            return false;
        }
        i = i + 1;
    }
    assert(a@ =~= b@);
    true
}

/// Whether byte string `a` comes before `b`.
pub fn bytes_less(a: &Vec<u8>, b: &Vec<u8>) -> (r: bool)
    ensures
        r == seq_lt(a@, b@, u8_order()),
{
    let mut i: usize = 0;
    assert(a@.skip(0) =~= a@ && b@.skip(0) =~= b@);
    while i < a.len() && i < b.len()
        invariant
            i <= a@.len(),
            i <= b@.len(),
            seq_lt(a@, b@, u8_order()) == seq_lt(a@.skip(i as int), b@.skip(i as int), u8_order()),
        decreases a@.len() - i,
    {
        if a[i] != b[i] {
            return a[i] < b[i];
        }
        proof {
            lemma_seq_lt_skip(a@, b@, u8_order(), i as int);
        }
        i = i + 1;
    }
    i < b.len()
}

/// Copies a byte string.
pub fn copy_bytes(a: &Vec<u8>) -> (r: Vec<u8>)
    ensures
        r@ == a@,
{
    let mut r: Vec<u8> = Vec::new();
    let mut i: usize = 0;
    while i < a.len()
        invariant
            i <= a@.len(),
            r@ == a@.subrange(0, i as int),
        decreases a@.len() - i,
    {
        r.push(a[i]);
        i = i + 1;
    }
    assert(a@.subrange(0, a@.len() as int) =~= a@);
    r
}

impl MailPath {
    /// Number of components.
    pub fn len(&self) -> (r: usize)
        ensures
            r == self@.len(),
    {
        self.parts.len()
    }

    /// A copy of this path.
    pub fn copy(&self) -> (r: MailPath)
        ensures
            r@ == self@,
    {
        let mut parts: Vec<Vec<u8>> = Vec::new();
        let mut i: usize = 0;
        while i < self.parts.len()
            invariant
                i <= self@.len(),
                self@.len() == self.parts@.len(),
                parts@.len() == i,
                forall|j: int| 0 <= j < i ==> #[trigger] parts@[j]@ == self@[j],
            decreases self@.len() - i,
        {
            let c = copy_bytes(&self.parts[i]);
            parts.push(c);
            i = i + 1;
        }
        let r = MailPath { parts };
        assert(r@ =~= self@);
        r
    }

    /// Whether two paths have the same components.
    pub fn same_path(&self, other: &MailPath) -> (r: bool)
        ensures
            r == (self@ == other@),
    {
        if self.parts.len() != other.parts.len() {
            return false;
        }
        let mut i: usize = 0;
        while i < self.parts.len()
            invariant
                self@.len() == other@.len(),
                self@.len() == self.parts@.len(),
                other@.len() == other.parts@.len(),
                i <= self@.len(),
                forall|j: int| 0 <= j < i ==> self@[j] == other@[j],
            decreases self@.len() - i,
        {
            if !bytes_equal(&self.parts[i], &other.parts[i]) {
                assert(self@[i as int] != other@[i as int]);
                return false;
            }
            i = i + 1;
        }
        assert(self@ =~= other@);
        true
    }

    /// Whether this path comes before `other`.
    pub fn less_than(&self, other: &MailPath) -> (r: bool)
        ensures
            r == path_lt(self@, other@),
    {
        let mut i: usize = 0;
        let ghost a = self@;
        let ghost b = other@;
        assert(a.skip(0) =~= a && b.skip(0) =~= b);
        while i < self.parts.len() && i < other.parts.len()
            invariant
                a == self@,
                b == other@,
                a.len() == self.parts@.len(),
                b.len() == other.parts@.len(),
                i <= a.len(),
                i <= b.len(),
                path_lt(a, b) == seq_lt(a.skip(i as int), b.skip(i as int), bytes_order()),
            decreases a.len() - i,
        {
            if !bytes_equal(&self.parts[i], &other.parts[i]) {
                return bytes_less(&self.parts[i], &other.parts[i]);
            }
            proof {
                lemma_seq_lt_skip(a, b, bytes_order(), i as int);
            }
            i = i + 1;
        }
        i < other.parts.len()
    }
}

/// The path separator, `/`.
pub const SEPARATOR: u8 = 47;

/// `parts` with `cur` added as a last component, unless `cur` is empty.
pub open spec fn flush(parts: Seq<Seq<u8>>, cur: Seq<u8>) -> Seq<Seq<u8>> {
    if cur.len() == 0 {
        parts
    } else {
        parts.push(cur)
    }
}

/// The components that `s` completes, and the one it leaves open.
pub open spec fn split_state(s: Seq<u8>) -> (Seq<Seq<u8>>, Seq<u8>)
    decreases s.len(),
{
    if s.len() == 0 {
        (Seq::empty(), Seq::empty())
    } else {
        let (parts, cur) = split_state(s.drop_last());
        if s.last() == SEPARATOR {
            (flush(parts, cur), Seq::empty())
        } else {
            (parts, cur.push(s.last()))
        }
    }
}

/// The components of `s`: its runs of bytes between separators, empty runs
/// left out.
pub open spec fn split_parts(s: Seq<u8>) -> Seq<Seq<u8>> {
    flush(split_state(s).0, split_state(s).1)
}

/// The components of `p` joined by separators.
pub open spec fn join_parts(p: Seq<Seq<u8>>) -> Seq<u8>
    decreases p.len(),
{
    if p.len() == 0 {
        Seq::empty()
    } else if p.len() == 1 {
        p[0]
    } else {
        join_parts(p.drop_last()) + seq![SEPARATOR] + p.last()
    }
}

/// Appends the bytes of `s` to `v`.
pub fn append_bytes(v: &mut Vec<u8>, s: &[u8])
    ensures
        final(v)@ == old(v)@ + s@,
{
    let ghost v0 = v@;
    let mut i: usize = 0;
    while i < s.len()
        invariant
            i <= s@.len(),
            v@ == v0 + s@.subrange(0, i as int),
        decreases s@.len() - i,
    {
        v.push(s[i]);
        i = i + 1;
        assert(v@ =~= v0 + s@.subrange(0, i as int));
    }
    assert(s@.subrange(0, s@.len() as int) =~= s@);
}

impl MailPath {
    /// Reads a path from its bytes: components are separated by `/`, and
    /// empty components (from a leading, doubled or trailing separator) are
    /// left out.
    pub fn from_bytes(text: &[u8]) -> (r: MailPath)
        ensures
            r@ == split_parts(text@),
    {
        let mut parts: Vec<Vec<u8>> = Vec::new();
        let mut cur: Vec<u8> = Vec::new();
        let mut i: usize = 0;
        while i < text.len()
            invariant
                i <= text@.len(),
                (MailPath { parts }@, cur@) == split_state(text@.subrange(0, i as int)),
            decreases text@.len() - i,
        {
            let b = text[i];
            assert(text@.subrange(0, i + 1).drop_last() =~= text@.subrange(0, i as int));
            if b == SEPARATOR {
                if cur.len() > 0 {
                    let ghost p0 = parts@;
                    parts.push(cur);
                    assert(parts@.map_values(|p: Vec<u8>| p@) =~= p0.map_values(|p: Vec<u8>| p@).push(
                        parts@.last()@,
                    ));
                }
                cur = Vec::new();
            } else {
                cur.push(b);
            }
            i = i + 1;
        }
        assert(text@.subrange(0, text@.len() as int) =~= text@);
        if cur.len() > 0 {
            let ghost p0 = parts@;
            parts.push(cur);
            assert(parts@.map_values(|p: Vec<u8>| p@) =~= p0.map_values(|p: Vec<u8>| p@).push(
                parts@.last()@,
            ));
        }
        MailPath { parts }
    }

    /// The bytes of this path, its components joined by `/`.
    pub fn to_bytes(&self) -> (r: Vec<u8>)
        ensures
            r@ == join_parts(self@),
    {
        let mut r: Vec<u8> = Vec::new();
        let mut i: usize = 0;
        while i < self.parts.len()
            invariant
                i <= self@.len(),
                self@.len() == self.parts@.len(),
                r@ == join_parts(self@.subrange(0, i as int)),
            decreases self@.len() - i,
        {
            assert(self@.subrange(0, i + 1).drop_last() =~= self@.subrange(0, i as int));
            if i > 0 {
                r.push(SEPARATOR);
            }
            append_bytes(&mut r, self.parts[i].as_slice());
            i = i + 1;
        }
        assert(self@.subrange(0, self@.len() as int) =~= self@);
        r
    }
}

} // verus!
