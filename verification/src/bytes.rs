//! Byte strings: the lexicographic order that the index is sorted by, and the
//! small searches that paths and index lines are taken apart with.

use vstd::prelude::*;

verus! {

/// Strict lexicographic order on byte strings. A proper prefix sorts before
/// every string that extends it.
pub open spec fn lex_less(a: Seq<u8>, b: Seq<u8>) -> bool
    decreases a.len(),
{
    if b.len() == 0 {
        false
    } else if a.len() == 0 {
        true
    } else if a[0] != b[0] {
        a[0] < b[0]
    } else {
        lex_less(a.drop_first(), b.drop_first())
    }
}

/// How one byte string stands to another in lexicographic order.
#[derive(Clone, Copy, PartialEq, Eq, Structural, Debug)]
pub enum Rank {
    Before,
    Same,
    After,
}

/// The rank that `lex_less` and equality give to `a` relative to `b`.
pub open spec fn rank_of(a: Seq<u8>, b: Seq<u8>) -> Rank {
    if lex_less(a, b) {
        Rank::Before
    } else if a == b {
        Rank::Same
    } else {
        Rank::After
    }
}

/// No byte string sorts before itself.
pub proof fn lemma_lex_irreflexive(a: Seq<u8>)
    ensures
        !lex_less(a, a),
    decreases a.len(),
{
    if a.len() > 0 {
        lemma_lex_irreflexive(a.drop_first());
    }
}

/// Of two different byte strings exactly one sorts before the other.
pub proof fn lemma_lex_total(a: Seq<u8>, b: Seq<u8>)
    ensures
        a != b ==> (lex_less(a, b) <==> !lex_less(b, a)),
        a == b ==> !lex_less(a, b) && !lex_less(b, a),
    decreases a.len(),
{
    if a == b {
        lemma_lex_irreflexive(a);
    } else if a.len() == 0 || b.len() == 0 {
        if a.len() == 0 && b.len() == 0 {
            assert(a =~= b);
        }
    } else if a[0] == b[0] {
        if a.drop_first() == b.drop_first() {
            assert(a =~= seq![a[0]] + a.drop_first());
            assert(b =~= seq![b[0]] + b.drop_first());
        }
        lemma_lex_total(a.drop_first(), b.drop_first());
    }
}

/// The order is transitive.
pub proof fn lemma_lex_transitive(a: Seq<u8>, b: Seq<u8>, c: Seq<u8>)
    requires
        lex_less(a, b),
        lex_less(b, c),
    ensures
        lex_less(a, c),
    decreases a.len(),
{
    if a.len() > 0 && a[0] == b[0] && b[0] == c[0] {
        lemma_lex_transitive(a.drop_first(), b.drop_first(), c.drop_first());
    }
}

/// Two strings that agree on their first `n` bytes are ordered as their
/// remainders are.
pub proof fn lemma_lex_skip_common(a: Seq<u8>, b: Seq<u8>, n: int)
    requires
        0 <= n <= a.len(),
        n <= b.len(),
        forall|j: int| 0 <= j < n ==> a[j] == b[j],
    ensures
        lex_less(a, b) == lex_less(a.skip(n), b.skip(n)),
    decreases n,
{
    if n == 0 {
        assert(a.skip(0) =~= a);
        assert(b.skip(0) =~= b);
    } else {
        let a1 = a.drop_first();
        let b1 = b.drop_first();
        assert forall|j: int| 0 <= j < n - 1 implies a1[j] == b1[j] by {
            assert(a1[j] == a[j + 1]);
            assert(b1[j] == b[j + 1]);
        }
        lemma_lex_skip_common(a1, b1, n - 1);
        assert(a1.skip(n - 1) =~= a.skip(n));
        assert(b1.skip(n - 1) =~= b.skip(n));
    }
}

/// A proper prefix sorts before the string it starts.
pub proof fn lemma_prefix_sorts_first(p: Seq<u8>, a: Seq<u8>)
    requires
        p.is_prefix_of(a),
        p.len() < a.len(),
    ensures
        lex_less(p, a),
{
    lemma_lex_skip_common(p, a, p.len() as int);
    assert(p.skip(p.len() as int).len() == 0);
}

/// Where two ordered strings part: they agree before `k`, and at `k` either
/// the smaller one ends or it holds the smaller byte.
pub open spec fn parts_at(a: Seq<u8>, b: Seq<u8>, k: int) -> bool {
    &&& 0 <= k <= a.len()
    &&& k < b.len()
    &&& forall|j: int| 0 <= j < k ==> a[j] == b[j]
    &&& k < a.len() ==> a[k] < b[k]
}

/// A string that sorts before another parts from it somewhere.
pub proof fn lemma_lex_parts(a: Seq<u8>, b: Seq<u8>) -> (k: int)
    requires
        lex_less(a, b),
    ensures
        parts_at(a, b, k),
    decreases a.len(),
{
    if a.len() == 0 || a[0] != b[0] {
        0
    } else {
        let a1 = a.drop_first();
        let b1 = b.drop_first();
        let k1 = lemma_lex_parts(a1, b1);
        assert forall|j: int| 0 <= j < k1 + 1 implies a[j] == b[j] by {
            if j > 0 {
                assert(a1[j - 1] == a[j] && b1[j - 1] == b[j]);
            }
        }
        assert(k1 < a1.len() ==> a1[k1] == a[k1 + 1] && b1[k1] == b[k1 + 1]);
        k1 + 1
    }
}

/// Two strings that part somewhere are ordered.
pub proof fn lemma_parts_lex(a: Seq<u8>, b: Seq<u8>, k: int)
    requires
        parts_at(a, b, k),
    ensures
        lex_less(a, b),
{
    lemma_lex_skip_common(a, b, k);
    let a1 = a.skip(k);
    let b1 = b.skip(k);
    assert(b1.len() > 0);
    if k < a.len() {
        assert(a1[0] == a[k] && b1[0] == b[k]);
    }
}

/// The strings that start with `p` stand together in the order: once a
/// string after `p` does not start with `p`, no later one does.
pub proof fn lemma_lex_leaves_prefix(p: Seq<u8>, a: Seq<u8>, b: Seq<u8>)
    requires
        lex_less(p, a),
        !p.is_prefix_of(a),
        lex_less(a, b),
    ensures
        !p.is_prefix_of(b),
{
    let k = lemma_lex_parts(p, a);
    if k == p.len() {
        assert(p =~= a.subrange(0, p.len() as int));
    }
    if p.is_prefix_of(b) {
        assert forall|j: int| 0 <= j < p.len() implies b[j] == p[j] by {
            assert(b.subrange(0, p.len() as int)[j] == b[j]);
        }
        assert(parts_at(b, a, k));
        lemma_parts_lex(b, a, k);
        lemma_lex_total(a, b);
    }
}

/// Compares two byte strings lexicographically.
pub fn compare(a: &[u8], b: &[u8]) -> (rank: Rank)
    ensures
        rank == rank_of(a@, b@),
{
    let mut i: usize = 0;
    while i < a.len() && i < b.len()
        invariant
            i <= a.len(),
            i <= b.len(),
            forall|j: int| 0 <= j < i ==> a@[j] == b@[j],
        decreases a.len() - i,
    {
        if a[i] != b[i] {
            proof {
                lemma_lex_skip_common(a@, b@, i as int);
                lemma_lex_skip_common(b@, a@, i as int);
            }
            if a[i] < b[i] {
                return Rank::Before;
            } else {
                return Rank::After;
            }
        }
        i += 1;
    }
    proof {
        lemma_lex_skip_common(a@, b@, i as int);
        lemma_lex_skip_common(b@, a@, i as int);
        if a.len() == b.len() {
            assert(a@ =~= b@);
        }
    }
    if i < b.len() {
        Rank::Before
    } else if i < a.len() {
        Rank::After
    } else {
        Rank::Same
    }
}

/// Whether `a` starts with `p`.
pub fn starts_with(a: &[u8], p: &[u8]) -> (yes: bool)
    ensures
        yes == p@.is_prefix_of(a@),
{
    if p.len() > a.len() {
        return false;
    }
    let mut i: usize = 0;
    while i < p.len()
        invariant
            i <= p.len() <= a.len(),
            forall|j: int| 0 <= j < i ==> a@[j] == p@[j],
        decreases p.len() - i,
    {
        if a[i] != p[i] {
            assert(a@.subrange(0, p@.len() as int)[i as int] != p@[i as int]);
            return false;
        }
        i += 1;
    }
    assert(p@ =~= a@.subrange(0, p@.len() as int));
    true
}

/// Whether two byte strings are equal.
pub fn same_bytes(a: &[u8], b: &[u8]) -> (yes: bool)
    ensures
        yes == (a@ == b@),
{
    if a.len() != b.len() {
        return false;
    }
    let yes = starts_with(a, b);
    proof {
        if yes {
            assert(a@ =~= a@.subrange(0, b@.len() as int));
        } else if a@ == b@ {
            assert(b@ =~= a@.subrange(0, b@.len() as int));
        }
    }
    yes
}

/// Appends the bytes of `tail` to `out`.
pub fn append(out: &mut Vec<u8>, tail: &[u8])
    ensures
        final(out)@ == old(out)@ + tail@,
{
    let mut i: usize = 0;
    while i < tail.len()
        invariant
            i <= tail.len(),
            out@ == old(out)@ + tail@.take(i as int),
        decreases tail.len() - i,
    {
        out.push(tail[i]);
        assert(tail@.take(i as int + 1) =~= tail@.take(i as int).push(tail@[i as int]));
        i += 1;
    }
    assert(tail@.take(tail@.len() as int) =~= tail@);
}

/// A fresh copy of the bytes of `a`.
pub fn copy(a: &[u8]) -> (out: Vec<u8>)
    ensures
        out@ == a@,
{
    let mut out: Vec<u8> = Vec::new();
    append(&mut out, a);
    assert(out@ =~= a@);
    out
}

/// A fresh copy of the bytes of `a` from `from` up to `to`.
pub fn copy_range(a: &[u8], from: usize, to: usize) -> (out: Vec<u8>)
    requires
        from <= to <= a@.len(),
    ensures
        out@ == a@.subrange(from as int, to as int),
{
    let mut out: Vec<u8> = Vec::new();
    let mut i: usize = from;
    while i < to
        invariant
            from <= i <= to <= a@.len(),
            out@ == a@.subrange(from as int, i as int),
        decreases to - i,
    {
        out.push(a[i]);
        assert(a@.subrange(from as int, i as int + 1) =~= a@.subrange(from as int, i as int).push(
            a@[i as int],
        ));
        i += 1;
    }
    out
}

/// The position of the first `c` in `s`, or the length of `s` if it holds none.
pub open spec fn first_position(s: Seq<u8>, c: u8) -> int
    decreases s.len(),
{
    if s.len() == 0 {
        0
    } else if s[0] == c {
        0
    } else {
        1 + first_position(s.drop_first(), c)
    }
}

/// The position of the last `c` in `s`, or -1 if it holds none.
pub open spec fn last_position(s: Seq<u8>, c: u8) -> int
    decreases s.len(),
{
    if s.len() == 0 {
        -1
    } else if s.last() == c {
        s.len() - 1
    } else {
        last_position(s.drop_last(), c)
    }
}

/// `first_position` is the least index that holds `c`.
pub proof fn lemma_first_position(s: Seq<u8>, c: u8)
    ensures
        0 <= first_position(s, c) <= s.len(),
        first_position(s, c) < s.len() ==> s[first_position(s, c)] == c,
        forall|j: int| 0 <= j < first_position(s, c) ==> s[j] != c,
    decreases s.len(),
{
    if s.len() > 0 && s[0] != c {
        let t = s.drop_first();
        lemma_first_position(t, c);
        assert forall|j: int| 0 <= j < first_position(s, c) implies s[j] != c by {
            if j > 0 {
                assert(s[j] == t[j - 1]);
            }
        }
    }
}

/// `last_position` is the greatest index that holds `c`.
pub proof fn lemma_last_position(s: Seq<u8>, c: u8)
    ensures
        -1 <= last_position(s, c) < s.len(),
        last_position(s, c) >= 0 ==> s[last_position(s, c)] == c,
        forall|j: int| last_position(s, c) < j < s.len() ==> s[j] != c,
    decreases s.len(),
{
    if s.len() > 0 && s.last() != c {
        let t = s.drop_last();
        lemma_last_position(t, c);
        assert forall|j: int| last_position(s, c) < j < s.len() implies s[j] != c by {
            if j < t.len() {
                assert(s[j] == t[j]);
            }
        }
    }
}

/// An index that holds `c` and has no `c` before it is the first position.
pub proof fn lemma_first_position_is(s: Seq<u8>, c: u8, k: int)
    requires
        0 <= k <= s.len(),
        k < s.len() ==> s[k] == c,
        forall|j: int| 0 <= j < k ==> s[j] != c,
    ensures
        first_position(s, c) == k,
{
    lemma_first_position(s, c);
    let f = first_position(s, c);
    if f < k {
        assert(s[f] == c);
    }
}

/// An index that holds `c` and has no `c` after it is the last position.
pub proof fn lemma_last_position_is(s: Seq<u8>, c: u8, k: int)
    requires
        -1 <= k < s.len(),
        k >= 0 ==> s[k] == c,
        forall|j: int| k < j < s.len() ==> s[j] != c,
    ensures
        last_position(s, c) == k,
{
    lemma_last_position(s, c);
    let l = last_position(s, c);
    if l > k {
        assert(s[l] == c);
    }
}

/// Finds the first `c` in `s`.
pub fn find_first(s: &[u8], c: u8) -> (at: usize)
    ensures
        at == first_position(s@, c),
{
    let mut i: usize = 0;
    while i < s.len()
        invariant
            i <= s.len(),
            forall|j: int| 0 <= j < i ==> s@[j] != c,
        decreases s.len() - i,
    {
        if s[i] == c {
            proof {
                lemma_first_position_is(s@, c, i as int);
            }
            return i;
        }
        i += 1;
    }
    proof {
        lemma_first_position_is(s@, c, i as int);
    }
    i
}

/// Finds the last `c` in `s`.
pub fn find_last(s: &[u8], c: u8) -> (at: Option<usize>)
    ensures
        match at {
            Some(k) => k == last_position(s@, c),
            None => last_position(s@, c) == -1,
        },
{
    let mut i: usize = s.len();
    while i > 0
        invariant
            i <= s.len(),
            forall|j: int| i <= j < s.len() ==> s@[j] != c,
        decreases i,
    {
        i -= 1;
        if s[i] == c {
            proof {
                lemma_last_position_is(s@, c, i as int);
            }
            return Some(i);
        }
    }
    proof {
        lemma_last_position_is(s@, c, -1);
    }
    None
}

} // verus!
