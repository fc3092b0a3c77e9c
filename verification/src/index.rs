//! The staging index: one record per tracked path, kept sorted by the bytes
//! of the path, with lookup by binary search, insertion, update and removal.

use crate::bytes::{
    compare, lemma_lex_irreflexive, lemma_lex_total, lemma_lex_transitive,
    lemma_prefix_sorts_first, lex_less, Rank,
};
use crate::path::is_within;
use vstd::prelude::*;

verus! {

/// What a record points at: the contents of a file or the listing of a
/// directory.
#[derive(Clone, Copy, PartialEq, Eq, Structural, Debug)]
pub enum Kind {
    Blob,
    Tree,
}

/// One line of the index: a tracked path, the kind of object stored for it
/// and that object's hash.
#[derive(Clone, PartialEq, Eq, Debug)]
pub struct Record {
    pub path: Vec<u8>,
    pub kind: Kind,
    pub hash: Vec<u8>,
}

/// A record as a mathematical value.
pub struct RecordView {
    pub path: Seq<u8>,
    pub kind: Kind,
    pub hash: Seq<u8>,
}

impl View for Record {
    type V = RecordView;

    open spec fn view(&self) -> RecordView {
        RecordView { path: self.path@, kind: self.kind, hash: self.hash@ }
    }
}

/// The records are in strictly ascending order of their paths, so no path
/// occurs twice.
pub open spec fn sorted_by_path(s: Seq<RecordView>) -> bool {
    forall|i: int, j: int|
        0 <= i < j < s.len() ==> lex_less(#[trigger] s[i].path, #[trigger] s[j].path)
}

/// Whether some record of `s` is for `path`.
pub open spec fn has_path(s: Seq<RecordView>, path: Seq<u8>) -> bool {
    exists|i: int| 0 <= i < s.len() && #[trigger] s[i].path == path
}

/// Whether a record for `path` can be put in at position `k` without breaking
/// the order: every record before `k` has a smaller path and every record
/// from `k` on a greater one.
pub open spec fn is_insertion_point(s: Seq<RecordView>, path: Seq<u8>, k: int) -> bool {
    &&& 0 <= k <= s.len()
    &&& forall|i: int| 0 <= i < k ==> lex_less(#[trigger] s[i].path, path)
    &&& forall|i: int| k <= i < s.len() ==> lex_less(path, #[trigger] s[i].path)
}

/// How many records of `s` have a path that sorts before `path`. In a sorted
/// index this is where a record for `path` stands, or where it would go.
pub open spec fn rank_in(s: Seq<RecordView>, path: Seq<u8>) -> int
    decreases s.len(),
{
    if s.len() == 0 {
        0
    } else {
        rank_in(s.drop_last(), path) + if lex_less(s.last().path, path) {
            1int
        } else {
            0int
        }
    }
}

/// The record that a sorted index holds for `path`, if any.
pub open spec fn lookup(s: Seq<RecordView>, path: Seq<u8>) -> Option<RecordView> {
    let k = rank_in(s, path);
    if k < s.len() && s[k].path == path {
        Some(s[k])
    } else {
        None
    }
}

/// The index after `r` replaced the record for its path, or was put in at
/// its place in the order if there was none.
pub open spec fn upserted(s: Seq<RecordView>, r: RecordView) -> Seq<RecordView> {
    let k = rank_in(s, r.path);
    if k < s.len() && s[k].path == r.path {
        s.update(k, r)
    } else {
        s.insert(k, r)
    }
}

/// The index after the record for `path` was taken out, if there was one.
pub open spec fn removed(s: Seq<RecordView>, path: Seq<u8>) -> Seq<RecordView> {
    let k = rank_in(s, path);
    if k < s.len() && s[k].path == path {
        s.remove(k)
    } else {
        s
    }
}

/// The rank of a path lies between 0 and the number of records.
pub proof fn lemma_rank_bounds(s: Seq<RecordView>, path: Seq<u8>)
    ensures
        0 <= rank_in(s, path) <= s.len(),
    decreases s.len(),
{
    if s.len() > 0 {
        lemma_rank_bounds(s.drop_last(), path);
    }
}

/// A position that has only smaller paths before it and none from it on is
/// the rank of the path.
pub proof fn lemma_rank_is(s: Seq<RecordView>, path: Seq<u8>, k: int)
    requires
        0 <= k <= s.len(),
        forall|i: int| 0 <= i < k ==> lex_less(#[trigger] s[i].path, path),
        forall|i: int| k <= i < s.len() ==> !lex_less(#[trigger] s[i].path, path),
    ensures
        rank_in(s, path) == k,
    decreases s.len(),
{
    if s.len() > 0 {
        let t = s.drop_last();
        if k == s.len() {
            assert(lex_less(s[k - 1].path, path));
            lemma_rank_is(t, path, k - 1);
        } else {
            assert(!lex_less(s[s.len() - 1].path, path));
            lemma_rank_is(t, path, k);
        }
    }
}

/// In a sorted index the rank of a path parts the smaller paths from the
/// others.
pub proof fn lemma_rank_splits(s: Seq<RecordView>, path: Seq<u8>)
    requires
        sorted_by_path(s),
    ensures
        0 <= rank_in(s, path) <= s.len(),
        forall|i: int| 0 <= i < rank_in(s, path) ==> lex_less(#[trigger] s[i].path, path),
        forall|i: int| rank_in(s, path) <= i < s.len() ==> !lex_less(#[trigger] s[i].path, path),
    decreases s.len(),
{
    if s.len() > 0 {
        let t = s.drop_last();
        let n = s.len() - 1;
        assert forall|i: int, j: int| 0 <= i < j < t.len() implies lex_less(
            #[trigger] t[i].path,
            #[trigger] t[j].path,
        ) by {
            assert(t[i] == s[i] && t[j] == s[j]);
        }
        lemma_rank_splits(t, path);
        let kt = rank_in(t, path);
        let k = rank_in(s, path);
        if lex_less(s[n].path, path) {
            if kt < n {
                assert(t[kt] == s[kt]);
                assert(!lex_less(t[kt].path, path));
                assert(lex_less(s[kt].path, s[n].path));
                lemma_lex_transitive(s[kt].path, s[n].path, path);
            }
            assert(kt == n);
        }
        assert forall|i: int| 0 <= i < k implies lex_less(#[trigger] s[i].path, path) by {
            if i < n {
                assert(t[i] == s[i]);
            }
        }
        assert forall|i: int| k <= i < s.len() implies !lex_less(#[trigger] s[i].path, path) by {
            if i < n {
                assert(t[i] == s[i]);
            }
        }
    }
}

/// In a sorted index a path that has a record has it at its rank, and every
/// later record has a greater path.
pub proof fn lemma_rank_finds(s: Seq<RecordView>, path: Seq<u8>)
    requires
        sorted_by_path(s),
    ensures
        has_path(s, path) <==> lookup(s, path) is Some,
        forall|i: int| 0 <= i < s.len() && #[trigger] s[i].path == path ==> i == rank_in(s, path),
        forall|i: int|
            rank_in(s, path) <= i < s.len() && #[trigger] s[i].path != path ==> lex_less(
                path,
                s[i].path,
            ),
{
    lemma_rank_splits(s, path);
    let k = rank_in(s, path);
    assert forall|i: int| 0 <= i < s.len() && #[trigger] s[i].path == path implies i == k by {
        lemma_lex_irreflexive(path);
        if i > k {
            assert(lex_less(s[k].path, s[i].path));
        }
    }
    assert forall|i: int| k <= i < s.len() && #[trigger] s[i].path != path implies lex_less(
        path,
        s[i].path,
    ) by {
        lemma_lex_total(s[i].path, path);
    }
    if lookup(s, path) is Some {
        assert(s[k].path == path);
    }
}

/// In a sorted index the record looked up for a path is the one record of
/// the index that has this path.
pub proof fn lemma_lookup_member(s: Seq<RecordView>, path: Seq<u8>, r: RecordView)
    requires
        sorted_by_path(s),
    ensures
        lookup(s, path) == Some(r) <==> s.contains(r) && r.path == path,
{
    lemma_rank_finds(s, path);
    lemma_rank_bounds(s, path);
    let k = rank_in(s, path);
    if s.contains(r) && r.path == path {
        let i = choose|i: int| 0 <= i < s.len() && s[i] == r;
        assert(s[i].path == path);
    }
    if lookup(s, path) == Some(r) {
        assert(s[k] == r);
    }
}

/// What an index holds after a record was put in: that record, and every
/// record it held for another path.
pub proof fn lemma_upserted_members(s: Seq<RecordView>, r: RecordView, x: RecordView)
    requires
        sorted_by_path(s),
    ensures
        upserted(s, r).contains(x) <==> x == r || (s.contains(x) && x.path != r.path),
{
    lemma_rank_finds(s, r.path);
    lemma_rank_bounds(s, r.path);
    let k = rank_in(s, r.path);
    let t = upserted(s, r);
    assert(t[k] == r);
    if k < s.len() && s[k].path == r.path {
        if t.contains(x) {
            let i = choose|i: int| 0 <= i < t.len() && t[i] == x;
            if i != k {
                assert(s[i] == x);
                assert(s[i].path == r.path ==> i == k);
            }
        }
        if s.contains(x) && x.path != r.path {
            let i = choose|i: int| 0 <= i < s.len() && s[i] == x;
            assert(t[i] == x);
        }
    } else {
        if t.contains(x) {
            let i = choose|i: int| 0 <= i < t.len() && t[i] == x;
            if i < k {
                assert(s[i] == x);
            } else if i > k {
                assert(s[i - 1] == x);
            }
            if x != r {
                let j = choose|j: int| 0 <= j < s.len() && s[j] == x;
                assert(s[j].path == r.path ==> j == k);
            }
        }
        if s.contains(x) && x.path != r.path {
            let i = choose|i: int| 0 <= i < s.len() && s[i] == x;
            if i < k {
                assert(t[i] == x);
            } else {
                assert(t[i + 1] == x);
            }
        }
    }
}

/// After a record was put in, the index gives it back for its path, and
/// gives for every other path what it gave before.
pub proof fn lemma_upserted_lookup(s: Seq<RecordView>, r: RecordView, path: Seq<u8>)
    requires
        sorted_by_path(s),
    ensures
        lookup(upserted(s, r), r.path) == Some(r),
        path != r.path ==> lookup(upserted(s, r), path) == lookup(s, path),
{
    let t = upserted(s, r);
    lemma_upserted_sorted(s, r);
    lemma_upserted_members(s, r, r);
    lemma_lookup_member(t, r.path, r);
    if path != r.path {
        match lookup(s, path) {
            Some(x) => {
                lemma_lookup_member(s, path, x);
                lemma_upserted_members(s, r, x);
                lemma_lookup_member(t, path, x);
            },
            None => {
                if lookup(t, path) is Some {
                    let x = lookup(t, path)->0;
                    lemma_lookup_member(t, path, x);
                    lemma_upserted_members(s, r, x);
                    lemma_lookup_member(s, path, x);
                }
            },
        }
    }
}

/// Putting a record in, or replacing the one for its path, keeps the index
/// sorted and without a second record for any path.
pub proof fn lemma_upserted_sorted(s: Seq<RecordView>, r: RecordView)
    requires
        sorted_by_path(s),
    ensures
        sorted_by_path(upserted(s, r)),
{
    lemma_rank_splits(s, r.path);
    lemma_rank_finds(s, r.path);
    let k = rank_in(s, r.path);
    let t = upserted(s, r);
    if k < s.len() && s[k].path == r.path {
        assert forall|i: int, j: int| 0 <= i < j < t.len() implies lex_less(
            #[trigger] t[i].path,
            #[trigger] t[j].path,
        ) by {
            assert(t[i].path == s[i].path && t[j].path == s[j].path);
        }
    } else {
        assert forall|i: int, j: int| 0 <= i < j < t.len() implies lex_less(
            #[trigger] t[i].path,
            #[trigger] t[j].path,
        ) by {
            if j < k {
                assert(t[i] == s[i] && t[j] == s[j]);
            } else if j == k {
                assert(t[i] == s[i]);
            } else if i < k {
                assert(t[i] == s[i] && t[j] == s[j - 1]);
                if j - 1 < i + 1 {
                } else {
                    assert(lex_less(s[i].path, r.path));
                    assert(s[j - 1].path != r.path);
                    lemma_lex_transitive(s[i].path, r.path, s[j - 1].path);
                }
            } else if i == k {
                assert(t[j] == s[j - 1]);
                assert(s[j - 1].path != r.path);
            } else {
                assert(t[i] == s[i - 1] && t[j] == s[j - 1]);
            }
        }
    }
}

/// Taking a record out keeps the index sorted.
pub proof fn lemma_removed_sorted(s: Seq<RecordView>, path: Seq<u8>)
    requires
        sorted_by_path(s),
    ensures
        sorted_by_path(removed(s, path)),
{
    lemma_rank_bounds(s, path);
    let k = rank_in(s, path);
    let t = removed(s, path);
    if k < s.len() && s[k].path == path {
        assert forall|i: int, j: int| 0 <= i < j < t.len() implies lex_less(
            #[trigger] t[i].path,
            #[trigger] t[j].path,
        ) by {
            let si = if i < k { i } else { i + 1 };
            let sj = if j < k { j } else { j + 1 };
            assert(t[i] == s[si] && t[j] == s[sj]);
        }
    }
}

/// What an index holds after the record of a path was taken out: every
/// record it held for another path.
pub proof fn lemma_removed_members(s: Seq<RecordView>, path: Seq<u8>, x: RecordView)
    requires
        sorted_by_path(s),
    ensures
        removed(s, path).contains(x) <==> s.contains(x) && x.path != path,
{
    lemma_rank_finds(s, path);
    lemma_rank_bounds(s, path);
    let k = rank_in(s, path);
    let t = removed(s, path);
    if k < s.len() && s[k].path == path {
        if t.contains(x) {
            let i = choose|i: int| 0 <= i < t.len() && t[i] == x;
            let si = if i < k { i } else { i + 1 };
            assert(s[si] == x);
            assert(s[si].path == path ==> si == k);
        }
        if s.contains(x) && x.path != path {
            let i = choose|i: int| 0 <= i < s.len() && s[i] == x;
            let ti = if i < k { i } else { i - 1 };
            assert(t[ti] == x);
        }
    } else {
        if s.contains(x) {
            let i = choose|i: int| 0 <= i < s.len() && s[i] == x;
            assert(s[i].path == path ==> i == k);
        }
    }
}

/// After the record of a path was taken out, the index gives nothing for
/// that path, and gives for every other path what it gave before.
pub proof fn lemma_removed_lookup(s: Seq<RecordView>, path: Seq<u8>, other: Seq<u8>)
    requires
        sorted_by_path(s),
    ensures
        lookup(removed(s, path), path) is None,
        other != path ==> lookup(removed(s, path), other) == lookup(s, other),
{
    let t = removed(s, path);
    lemma_removed_sorted(s, path);
    if lookup(t, path) is Some {
        let x = lookup(t, path)->0;
        lemma_lookup_member(t, path, x);
        lemma_removed_members(s, path, x);
    }
    if other != path {
        match lookup(s, other) {
            Some(x) => {
                lemma_lookup_member(s, other, x);
                lemma_removed_members(s, path, x);
                lemma_lookup_member(t, other, x);
            },
            None => {
                if lookup(t, other) is Some {
                    let x = lookup(t, other)->0;
                    lemma_lookup_member(t, other, x);
                    lemma_removed_members(s, path, x);
                    lemma_lookup_member(s, other, x);
                }
            },
        }
    }
}

/// The record of the root sorts first: in a sorted index that holds a
/// record for `root`, and no record for a path outside `root`, that
/// record is the first.
pub proof fn lemma_root_sorts_first(s: Seq<RecordView>, root: Seq<u8>, sep: u8)
    requires
        sorted_by_path(s),
        has_path(s, root),
        forall|i: int| 0 <= i < s.len() ==> is_within(#[trigger] s[i].path, root, sep),
    ensures
        s[0].path == root,
{
    let k = choose|k: int| 0 <= k < s.len() && #[trigger] s[k].path == root;
    if k > 0 {
        let first = s[0].path;
        assert(lex_less(s[0].path, s[k].path));
        assert(is_within(s[0].path, root, sep));
        lemma_lex_total(first, root);
        if first.len() == root.len() {
            assert(first =~= first.subrange(0, root.len() as int));
        } else {
            lemma_prefix_sorts_first(root, first);
        }
    }
}

/// A sorted index has no two records for one path.
pub proof fn lemma_sorted_no_duplicate(s: Seq<RecordView>, i: int, j: int)
    requires
        sorted_by_path(s),
        0 <= i < s.len(),
        0 <= j < s.len(),
        s[i].path == s[j].path,
    ensures
        i == j,
{
    lemma_lex_irreflexive(s[i].path);
    if i < j {
        assert(lex_less(s[i].path, s[j].path));
    } else if j < i {
        assert(lex_less(s[j].path, s[i].path));
    }
}

/// A change to the index: a record put in, or the record of a path taken
/// out.
pub enum Change {
    Upsert(RecordView),
    Remove(Seq<u8>),
}

/// The index after the changes `changes` were made to `s` in their order.
pub open spec fn changed(s: Seq<RecordView>, changes: Seq<Change>) -> Seq<RecordView>
    decreases changes.len(),
{
    if changes.len() == 0 {
        s
    } else {
        let before = changed(s, changes.drop_last());
        match changes.last() {
            Change::Upsert(r) => upserted(before, r),
            Change::Remove(path) => removed(before, path),
        }
    }
}

/// Whatever is put in and taken out, in whatever order, the index stays
/// sorted by path.
pub proof fn lemma_changed_sorted(s: Seq<RecordView>, changes: Seq<Change>)
    requires
        sorted_by_path(s),
    ensures
        sorted_by_path(changed(s, changes)),
    decreases changes.len(),
{
    if changes.len() > 0 {
        let before = changed(s, changes.drop_last());
        lemma_changed_sorted(s, changes.drop_last());
        match changes.last() {
            Change::Upsert(r) => lemma_upserted_sorted(before, r),
            Change::Remove(path) => lemma_removed_sorted(before, path),
        }
    }
}

/// The staging index.
pub struct Index {
    records: Vec<Record>,
}

impl View for Index {
    type V = Seq<RecordView>;

    closed spec fn view(&self) -> Seq<RecordView> {
        self.records@.map_values(|r: Record| r@)
    }
}

impl Index {
    /// The invariant of the index: its records are sorted by path.
    pub open spec fn wf(&self) -> bool {
        sorted_by_path(self@)
    }

    /// An index without records.
    pub fn new() -> (index: Index)
        ensures
            index@ == Seq::<RecordView>::empty(),
            index.wf(),
    {
        let index = Index { records: Vec::new() };
        assert(index@ =~= Seq::<RecordView>::empty());
        index
    }

    /// The index that holds the given records, which must be sorted by
    /// path.
    pub(crate) fn from_sorted(records: Vec<Record>) -> (index: Index)
        requires
            sorted_by_path(records@.map_values(|r: Record| r@)),
        ensures
            index@ == records@.map_values(|r: Record| r@),
            index.wf(),
    {
        Index { records }
    }

    /// The number of records.
    pub fn len(&self) -> (n: usize)
        ensures
            n == self@.len(),
    {
        self.records.len()
    }

    /// Puts `record` into the index: in place of the record for the same path
    /// if there is one, else at the place that keeps the order.
    pub fn upsert(&mut self, record: Record)
        requires
            old(self).wf(),
        ensures
            final(self).wf(),
            final(self)@ == upserted(old(self)@, record@),
    {
        let found = find_index(self, record.path.as_slice());
        let ghost before = self@;
        let count = self.records.len();
        proof {
            lemma_upserted_sorted(before, record@);
            lemma_rank_bounds(before, record@.path);
        }
        if found.0 as i128 <= found.1 {
            let at = middle(found);
            self.records.set(at, record);
            assert(self@ =~= before.update(at as int, record@));
        } else {
            self.records.insert(found.0, record);
            assert(self@ =~= before.insert(found.0 as int, record@));
        }
    }

    /// Takes the record for `path` out of the index. An index without such
    /// a record stays as it is.
    pub fn remove(&mut self, path: &[u8])
        requires
            old(self).wf(),
        ensures
            final(self).wf(),
            final(self)@ == removed(old(self)@, path@),
    {
        let found = find_index(self, path);
        let ghost before = self@;
        let count = self.records.len();
        proof {
            lemma_removed_sorted(before, path@);
            lemma_rank_bounds(before, path@);
            lemma_rank_finds(before, path@);
        }
        if found.0 as i128 <= found.1 {
            let at = middle(found);
            self.records.remove(at);
            assert(self@ =~= before.remove(at as int));
        }
    }

    /// The record that the index holds for `path`, if any.
    pub fn lookup(&self, path: &[u8]) -> (record: Option<&Record>)
        requires
            self.wf(),
        ensures
            match record {
                Some(r) => lookup(self@, path@) == Some(r@),
                None => lookup(self@, path@) is None,
            },
    {
        let found = find_index(self, path);
        proof {
            lemma_rank_finds(self@, path@);
        }
        if found.0 as i128 <= found.1 {
            Some(&self.records[middle(found)])
        } else {
            None
        }
    }

    /// The record at position `i`.
    pub fn get(&self, i: usize) -> (r: &Record)
        requires
            i < self@.len(),
        ensures
            r@ == self@[i as int],
    {
        &self.records[i]
    }
}

/// The position `(lo + hi) / 2` that a pair `(lo, hi)` with `lo <= hi` stands
/// for.
pub fn middle(found: (usize, i128)) -> (at: usize)
    requires
        found.0 <= found.1 <= usize::MAX,
    ensures
        at == (found.0 + found.1) / 2,
{
    let hi: usize = found.1 as usize;
    found.0 + (hi - found.0) / 2
}

/// Searches the sorted index for `path` by bisection and returns a pair
/// `(lo, hi)`. If the index has a record for `path`, then `lo <= hi` and the
/// record stands at `(lo + hi) / 2`. If it has none, then `hi == lo - 1` and
/// `lo` is where a record for `path` has to be put in to keep the order.
pub fn find_index(index: &Index, path: &[u8]) -> (found: (usize, i128))
    requires
        index.wf(),
    ensures
        index@.len() <= usize::MAX,
        has_path(index@, path@) ==> {
            &&& 0 <= found.0 <= found.1 < index@.len()
            &&& index@[(found.0 + found.1) / 2].path == path@
            &&& (found.0 + found.1) / 2 == rank_in(index@, path@)
        },
        !has_path(index@, path@) ==> {
            &&& found.1 == found.0 - 1
            &&& found.0 == rank_in(index@, path@)
            &&& is_insertion_point(index@, path@, found.0 as int)
        },
{
    let mut lo: usize = 0;
    let mut hi: usize = index.records.len();
    while lo < hi
        invariant
            index.wf(),
            0 <= lo <= hi <= index@.len() <= usize::MAX,
            index@.len() == index.records@.len(),
            forall|i: int| 0 <= i < lo ==> lex_less(#[trigger] index@[i].path, path@),
            forall|i: int| hi <= i < index@.len() ==> lex_less(path@, #[trigger] index@[i].path),
        decreases hi - lo,
    {
        let mid: usize = lo + (hi - lo) / 2;
        let rank = compare(index.records[mid].path.as_slice(), path);
        assert(index@[mid as int].path == index.records@[mid as int].path@);
        match rank {
            Rank::Before => {
                assert forall|i: int| 0 <= i < mid + 1 implies lex_less(
                    #[trigger] index@[i].path,
                    path@,
                ) by {
                    if i < mid {
                        lemma_lex_transitive(index@[i].path, index@[mid as int].path, path@);
                    }
                }
                lo = mid + 1;
            },
            Rank::Same => {
                proof {
                    lemma_rank_finds(index@, path@);
                }
                return (mid, mid as i128);
            },
            Rank::After => {
                proof {
                    lemma_lex_total(index@[mid as int].path, path@);
                }
                assert forall|i: int| mid <= i < index@.len() implies lex_less(
                    path@,
                    #[trigger] index@[i].path,
                ) by {
                    if i > mid {
                        lemma_lex_transitive(path@, index@[mid as int].path, index@[i].path);
                    }
                }
                hi = mid;
            },
        }
    }
    proof {
        assert forall|i: int| 0 <= i < index@.len() implies #[trigger] index@[i].path != path@ by {
            lemma_lex_irreflexive(path@);
        }
        assert forall|i: int| lo <= i < index@.len() implies !lex_less(
            #[trigger] index@[i].path,
            path@,
        ) by {
            lemma_lex_total(index@[i].path, path@);
        }
        lemma_rank_is(index@, path@, lo as int);
    }
    (lo, lo as i128 - 1)
}

} // verus!
