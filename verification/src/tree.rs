//! Tree objects: the listing of a directory, one line per entry that lies
//! directly in it.

use crate::bytes::{
    append, lemma_last_position, lemma_lex_irreflexive, lemma_lex_leaves_prefix, lemma_lex_total,
    lemma_prefix_sorts_first, lex_less, starts_with,
};
use crate::index::{
    find_index, has_path, lemma_rank_bounds, lemma_rank_finds, middle, rank_in, upserted, Index,
    Kind, RecordView,
};
use crate::path::{
    cut, file_name, is_child_of, lemma_parent_cut, lemma_parent_shorter, name_of,
};
use vstd::prelude::*;

verus! {

/// The word that a listing and an index line name a kind by: `blob` or
/// `tree`.
pub open spec fn kind_word(kind: Kind) -> Seq<u8> {
    match kind {
        Kind::Blob => seq![0x62u8, 0x6c, 0x6f, 0x62],
        Kind::Tree => seq![0x74u8, 0x72, 0x65, 0x65],
    }
}

/// What every tree payload starts with: `tree` and a zero byte.
pub open spec fn tree_header() -> Seq<u8> {
    seq![0x74u8, 0x72, 0x65, 0x65, 0]
}

/// The line of one entry in a listing: kind, hash and name, parted by
/// spaces and ended by a zero byte.
pub open spec fn child_line(kind: Kind, hash: Seq<u8>, name: Seq<u8>) -> Seq<u8> {
    kind_word(kind) + seq![0x20u8] + hash + seq![0x20u8] + name + seq![0u8]
}

/// The lines of the entries `children`, one after the other in the order
/// given. Each entry is named by the last part of its path.
pub open spec fn tree_body(children: Seq<RecordView>, sep: u8) -> Seq<u8>
    decreases children.len(),
{
    if children.len() == 0 {
        Seq::<u8>::empty()
    } else {
        tree_body(children.drop_last(), sep) + child_line(
            children.last().kind,
            children.last().hash,
            name_of(children.last().path, sep),
        )
    }
}

/// The payload of the tree object that lists `children`.
pub open spec fn tree_object(children: Seq<RecordView>, sep: u8) -> Seq<u8> {
    tree_header() + tree_body(children, sep)
}

/// The records of `s` whose path lies directly in `dir`, in the order in
/// which they stand in `s`. Records further down are left out.
pub open spec fn children_of(s: Seq<RecordView>, dir: Seq<u8>, sep: u8) -> Seq<RecordView>
    decreases s.len(),
{
    if s.len() == 0 {
        Seq::<RecordView>::empty()
    } else if is_child_of(s.last().path, dir, sep) {
        children_of(s.drop_last(), dir, sep).push(s.last())
    } else {
        children_of(s.drop_last(), dir, sep)
    }
}

/// The payload of the tree object for `dir` as the index `s` describes it.
pub open spec fn tree_payload(s: Seq<RecordView>, dir: Seq<u8>, sep: u8) -> Seq<u8> {
    tree_object(children_of(s, dir, sep), sep)
}

/// A stretch of records without an entry of `dir` adds nothing to its
/// children.
pub proof fn lemma_children_skip(s: Seq<RecordView>, dir: Seq<u8>, sep: u8, from: int, to: int)
    requires
        0 <= from <= to <= s.len(),
        forall|j: int| from <= j < to ==> !is_child_of(#[trigger] s[j].path, dir, sep),
    ensures
        children_of(s.take(to), dir, sep) == children_of(s.take(from), dir, sep),
    decreases to - from,
{
    if from < to {
        assert(s.take(to).drop_last() =~= s.take(to - 1));
        assert(s.take(to).last() == s[to - 1]);
        lemma_children_skip(s, dir, sep, from, to - 1);
    }
}

/// Replacing a record that is no entry of `dir` by another that is none
/// leaves the children of `dir` as they are.
pub proof fn lemma_children_update(
    s: Seq<RecordView>,
    dir: Seq<u8>,
    sep: u8,
    k: int,
    r: RecordView,
)
    requires
        0 <= k < s.len(),
        !is_child_of(s[k].path, dir, sep),
        !is_child_of(r.path, dir, sep),
    ensures
        children_of(s.update(k, r), dir, sep) == children_of(s, dir, sep),
    decreases s.len(),
{
    let t = s.update(k, r);
    if k == s.len() - 1 {
        assert(t.drop_last() =~= s.drop_last());
    } else {
        assert(t.drop_last() =~= s.drop_last().update(k, r));
        lemma_children_update(s.drop_last(), dir, sep, k, r);
    }
}

/// Putting in a record that is no entry of `dir` leaves the children of
/// `dir` as they are.
pub proof fn lemma_children_insert(
    s: Seq<RecordView>,
    dir: Seq<u8>,
    sep: u8,
    k: int,
    r: RecordView,
)
    requires
        0 <= k <= s.len(),
        !is_child_of(r.path, dir, sep),
    ensures
        children_of(s.insert(k, r), dir, sep) == children_of(s, dir, sep),
    decreases s.len(),
{
    let t = s.insert(k, r);
    if k == s.len() {
        assert(t.drop_last() =~= s);
    } else {
        assert(t.drop_last() =~= s.drop_last().insert(k, r));
        assert(t.last() == s.last());
        lemma_children_insert(s.drop_last(), dir, sep, k, r);
    }
}

/// A record for a path that does not lie directly in `dir` can be put into
/// the index without a change to the children of `dir`.
pub proof fn lemma_upserted_children(s: Seq<RecordView>, r: RecordView, dir: Seq<u8>, sep: u8)
    requires
        !is_child_of(r.path, dir, sep),
    ensures
        children_of(upserted(s, r), dir, sep) == children_of(s, dir, sep),
{
    lemma_rank_bounds(s, r.path);
    let k = rank_in(s, r.path);
    if k < s.len() && s[k].path == r.path {
        lemma_children_update(s, dir, sep, k, r);
    } else {
        lemma_children_insert(s, dir, sep, k, r);
    }
}

/// No line of a listing takes more bytes than this: the hash, the path,
/// of which the name is a part, and seven bytes for the kind, the spaces
/// and the end.
pub open spec fn entry_bound(r: RecordView) -> nat {
    r.hash.len() + r.path.len() + 7
}

/// No listing made of records of `s` takes more bytes than this.
pub open spec fn listing_bound(s: Seq<RecordView>) -> nat
    decreases s.len(),
{
    if s.len() == 0 {
        0
    } else {
        listing_bound(s.drop_last()) + entry_bound(s.last())
    }
}

/// The lines of a listing stay within the bound of its entries.
pub proof fn lemma_tree_body_bound(children: Seq<RecordView>, sep: u8)
    ensures
        tree_body(children, sep).len() <= listing_bound(children),
    decreases children.len(),
{
    if children.len() > 0 {
        lemma_tree_body_bound(children.drop_last(), sep);
        lemma_parent_cut(children.last().path, sep);
        lemma_last_position(children.last().path, sep);
    }
}

/// The children of a directory weigh no more than the whole index.
pub proof fn lemma_children_bound(s: Seq<RecordView>, dir: Seq<u8>, sep: u8)
    ensures
        listing_bound(children_of(s, dir, sep)) <= listing_bound(s),
    decreases s.len(),
{
    if s.len() > 0 {
        lemma_children_bound(s.drop_last(), dir, sep);
        if is_child_of(s.last().path, dir, sep) {
            let before = children_of(s.drop_last(), dir, sep);
            assert(before.push(s.last()).drop_last() =~= before);
        }
    }
}

/// The tree object of a directory takes at most five bytes more than the
/// bound of the index.
pub proof fn lemma_tree_payload_bound(s: Seq<RecordView>, dir: Seq<u8>, sep: u8)
    ensures
        tree_payload(s, dir, sep).len() <= listing_bound(s) + 5,
{
    lemma_tree_body_bound(children_of(s, dir, sep), sep);
    lemma_children_bound(s, dir, sep);
}

/// A record put in place of another changes the bound by what the two
/// differ.
pub proof fn lemma_bound_update(s: Seq<RecordView>, k: int, r: RecordView)
    requires
        0 <= k < s.len(),
    ensures
        listing_bound(s.update(k, r)) + entry_bound(s[k]) == listing_bound(s) + entry_bound(r),
    decreases s.len(),
{
    let t = s.update(k, r);
    if k == s.len() - 1 {
        assert(t.drop_last() =~= s.drop_last());
    } else {
        assert(t.drop_last() =~= s.drop_last().update(k, r));
        lemma_bound_update(s.drop_last(), k, r);
    }
}

/// A record put in raises the bound by its own.
pub proof fn lemma_bound_insert(s: Seq<RecordView>, k: int, r: RecordView)
    requires
        0 <= k <= s.len(),
    ensures
        listing_bound(s.insert(k, r)) == listing_bound(s) + entry_bound(r),
    decreases s.len(),
{
    let t = s.insert(k, r);
    if k == s.len() {
        assert(t.drop_last() =~= s);
    } else {
        assert(t.drop_last() =~= s.drop_last().insert(k, r));
        assert(t.last() == s.last());
        lemma_bound_insert(s.drop_last(), k, r);
    }
}

/// A record put into the index raises its bound by no more than its own.
pub proof fn lemma_upserted_bound(s: Seq<RecordView>, r: RecordView)
    ensures
        listing_bound(upserted(s, r)) <= listing_bound(s) + entry_bound(r),
{
    lemma_rank_bounds(s, r.path);
    let k = rank_in(s, r.path);
    if k < s.len() && s[k].path == r.path {
        lemma_bound_update(s, k, r);
    } else {
        lemma_bound_insert(s, k, r);
    }
}

/// Writes the word for `kind` at the end of `out`.
pub fn append_kind(out: &mut Vec<u8>, kind: Kind)
    ensures
        final(out)@ == old(out)@ + kind_word(kind),
{
    match kind {
        Kind::Blob => {
            out.push(0x62);
            out.push(0x6c);
            out.push(0x6f);
            out.push(0x62);
        },
        Kind::Tree => {
            out.push(0x74);
            out.push(0x72);
            out.push(0x65);
            out.push(0x65);
        },
    }
    assert(out@ =~= old(out)@ + kind_word(kind));
}

/// Writes the line of one entry at the end of `out`.
pub fn append_child_line(out: &mut Vec<u8>, kind: Kind, hash: &[u8], name: &[u8])
    ensures
        final(out)@ == old(out)@ + child_line(kind, hash@, name@),
{
    append_kind(out, kind);
    out.push(0x20);
    append(out, hash);
    out.push(0x20);
    append(out, name);
    out.push(0);
    assert(out@ =~= old(out)@ + child_line(kind, hash@, name@));
}

/// A payload that holds the header of a tree object and no entry yet.
pub fn new_tree_payload() -> (out: Vec<u8>)
    ensures
        out@ == tree_header(),
{
    let mut out: Vec<u8> = Vec::new();
    out.push(0x74);
    out.push(0x72);
    out.push(0x65);
    out.push(0x65);
    out.push(0);
    assert(out@ =~= tree_header());
    out
}

/// Tests whether `path` lies directly in `dir`.
pub fn is_child(path: &[u8], dir: &[u8], sep: u8) -> (yes: bool)
    ensures
        yes == is_child_of(path@, dir@, sep),
{
    match cut(path, sep) {
        Some(k) => {
            if k != dir.len() {
                return false;
            }
            let yes = starts_with(path, dir);
            proof {
                if yes {
                    assert(path@.take(k as int) =~= dir@);
                }
            }
            yes
        },
        None => false,
    }
}

/// Builds the payload of the tree object for `dir` from the records of the
/// index alone. The entries of `dir` stand behind the place of `dir` itself,
/// among the paths that start with `dir`; the search ends at the first path
/// that does not.
pub fn tree_from_index(index: &Index, dir: &[u8], sep: u8) -> (payload: Vec<u8>)
    requires
        index.wf(),
    ensures
        payload@ == tree_payload(index@, dir@, sep),
{
    let found = find_index(index, dir);
    let count = index.len();
    let ghost s = index@;
    proof {
        lemma_rank_finds(s, dir@);
    }
    let start: usize = if found.0 as i128 <= found.1 {
        middle(found) + 1
    } else {
        found.0
    };
    proof {
        assert forall|j: int| 0 <= j < start implies !is_child_of(
            #[trigger] s[j].path,
            dir@,
            sep,
        ) by {
            if is_child_of(s[j].path, dir@, sep) {
                lemma_parent_shorter(s[j].path, sep);
                lemma_prefix_sorts_first(dir@, s[j].path);
                lemma_lex_total(dir@, s[j].path);
                lemma_lex_irreflexive(dir@);
                if has_path(s, dir@) {
                    let k = rank_in(s, dir@);
                    if j < k {
                        assert(lex_less(s[j].path, s[k].path));
                    }
                }
            }
        }
        lemma_children_skip(s, dir@, sep, 0, start as int);
        assert(s.take(0) =~= Seq::<RecordView>::empty());
        assert forall|j: int| start <= j < s.len() implies lex_less(dir@, #[trigger] s[j].path) by {
            if has_path(s, dir@) {
                let k = rank_in(s, dir@);
                assert(lex_less(s[k].path, s[j].path));
            }
        }
    }
    let mut out = new_tree_payload();
    let mut at: usize = start;
    while at < count
        invariant
            index.wf(),
            s == index@,
            count == s.len(),
            start <= at <= count,
            forall|j: int| start <= j < s.len() ==> lex_less(dir@, #[trigger] s[j].path),
            out@ == tree_object(children_of(s.take(at as int), dir@, sep), sep),
        ensures
            at <= count,
            out@ == tree_object(children_of(s.take(at as int), dir@, sep), sep),
            forall|j: int| at <= j < s.len() ==> !is_child_of(#[trigger] s[j].path, dir@, sep),
        decreases count - at,
    {
        let record = index.get(at);
        if !starts_with(record.path.as_slice(), dir) {
            proof {
                assert forall|j: int| at <= j < s.len() implies !is_child_of(
                    #[trigger] s[j].path,
                    dir@,
                    sep,
                ) by {
                    if j > at {
                        assert(lex_less(s[at as int].path, s[j].path));
                        lemma_lex_leaves_prefix(dir@, s[at as int].path, s[j].path);
                    }
                    if is_child_of(s[j].path, dir@, sep) {
                        lemma_parent_shorter(s[j].path, sep);
                    }
                }
            }
            break;
        }
        proof {
            assert(s.take(at as int + 1).drop_last() =~= s.take(at as int));
            assert(s.take(at as int + 1).last() == s[at as int]);
        }
        if is_child(record.path.as_slice(), dir, sep) {
            let name = file_name(record.path.as_slice(), sep);
            append_child_line(&mut out, record.kind, record.hash.as_slice(), name.as_slice());
            proof {
                let before = children_of(s.take(at as int), dir@, sep);
                let after = children_of(s.take(at as int + 1), dir@, sep);
                assert(after == before.push(s[at as int]));
                assert(after.drop_last() =~= before);
                assert(out@ =~= tree_object(after, sep));
            }
        }
        at += 1;
    }
    proof {
        lemma_children_skip(s, dir@, sep, at as int, s.len() as int);
        assert(s.take(s.len() as int) =~= s);
    }
    out
}

} // verus!
