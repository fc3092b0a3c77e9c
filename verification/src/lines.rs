//! The index as text: one line per record, `<path> <kind> <hash>`, each
//! ended by a line feed, in the order of the index.

use crate::bytes::{
    append, compare, copy_range, find_first, first_position, lemma_first_position,
    lemma_first_position_is, lemma_lex_transitive, lex_less, Rank,
};
use crate::error::Error;
use crate::index::{sorted_by_path, Index, Kind, Record, RecordView};
use crate::tree::{append_kind, kind_word};
use vstd::prelude::*;
use vstd::slice::slice_subrange;

verus! {

/// The byte that parts the fields of a line.
pub const SPACE: u8 = 0x20;

/// The byte that ends a line.
pub const LINE_FEED: u8 = 0x0a;

/// The line of a record, without the line feed.
pub open spec fn record_line(r: RecordView) -> Seq<u8> {
    r.path + seq![SPACE] + kind_word(r.kind) + seq![SPACE] + r.hash
}

/// The text of an index: the lines of its records in order.
pub open spec fn index_text(s: Seq<RecordView>) -> Seq<u8>
    decreases s.len(),
{
    if s.len() == 0 {
        Seq::<u8>::empty()
    } else {
        record_line(s.first()) + seq![LINE_FEED] + index_text(s.drop_first())
    }
}

/// The kind that a word names, if it names one.
pub open spec fn word_kind(word: Seq<u8>) -> Option<Kind> {
    if word == kind_word(Kind::Blob) {
        Some(Kind::Blob)
    } else if word == kind_word(Kind::Tree) {
        Some(Kind::Tree)
    } else {
        None
    }
}

/// The record that a line stands for. The path is what stands before the
/// first space, the kind what stands between the first space and the
/// second, the hash all that follows. A line with fewer than two spaces,
/// or with a word for the kind that names none, stands for no record.
pub open spec fn parse_line(line: Seq<u8>) -> Option<RecordView> {
    let a = first_position(line, SPACE);
    if a >= line.len() {
        None
    } else {
        let rest = line.skip(a + 1);
        let b = first_position(rest, SPACE);
        if b >= rest.len() {
            None
        } else {
            match word_kind(rest.take(b)) {
                Some(kind) => Some(RecordView { path: line.take(a), kind, hash: rest.skip(b + 1) }),
                None => None,
            }
        }
    }
}

/// `done` followed by `rest`, if there is a `rest`.
pub open spec fn followed_by(done: Seq<RecordView>, rest: Option<Seq<RecordView>>) -> Option<
    Seq<RecordView>,
> {
    match rest {
        Some(r) => Some(done + r),
        None => None,
    }
}

/// The records that a text stands for, line by line. A text whose last
/// line is not ended by a line feed, or with a line that stands for no
/// record, stands for nothing.
pub open spec fn parse_lines(text: Seq<u8>) -> Option<Seq<RecordView>>
    decreases text.len(),
{
    if text.len() == 0 {
        Some(Seq::<RecordView>::empty())
    } else {
        let n = first_position(text, LINE_FEED);
        if n >= text.len() {
            None
        } else {
            proof {
                lemma_first_position(text, LINE_FEED);
            }
            match parse_line(text.take(n)) {
                Some(r) => followed_by(seq![r], parse_lines(text.skip(n + 1))),
                None => None,
            }
        }
    }
}

/// Whether `s` holds no byte `c`.
pub open spec fn free_of(s: Seq<u8>, c: u8) -> bool {
    forall|j: int| 0 <= j < s.len() ==> s[j] != c
}

/// Whether a record can stand on a line and be read back: its path holds
/// neither space nor line feed, and its hash no line feed.
pub open spec fn line_safe(r: RecordView) -> bool {
    free_of(r.path, SPACE) && free_of(r.path, LINE_FEED) && free_of(r.hash, LINE_FEED)
}

/// The line of a record that can stand on a line is read back as that
/// record, and holds no line feed.
pub proof fn lemma_line_round_trip(r: RecordView)
    requires
        line_safe(r),
    ensures
        parse_line(record_line(r)) == Some(r),
        free_of(record_line(r), LINE_FEED),
{
    let line = record_line(r);
    let a = r.path.len() as int;
    assert(line[a] == SPACE);
    assert forall|j: int| 0 <= j < a implies line[j] != SPACE by {
        assert(line[j] == r.path[j]);
    }
    lemma_first_position_is(line, SPACE, a);
    let rest = line.skip(a + 1);
    let word = kind_word(r.kind);
    assert(rest =~= word + seq![SPACE] + r.hash);
    assert(word.len() == 4);
    assert(rest[4] == SPACE);
    assert forall|j: int| 0 <= j < 4 implies rest[j] != SPACE by {
        assert(rest[j] == word[j]);
    }
    lemma_first_position_is(rest, SPACE, 4);
    assert(rest.take(4) =~= word);
    assert(rest.skip(5) =~= r.hash);
    assert(line.take(a) =~= r.path);
    assert(kind_word(Kind::Blob)[0] != kind_word(Kind::Tree)[0]);
    assert forall|j: int| 0 <= j < line.len() implies line[j] != LINE_FEED by {
        if j < a {
            assert(line[j] == r.path[j]);
        } else if j > a {
            assert(line[j] == rest[j - a - 1]);
            if j - a - 1 < 4 {
                assert(rest[j - a - 1] == word[j - a - 1]);
            } else if j - a - 1 > 4 {
                assert(rest[j - a - 1] == r.hash[j - a - 6]);
            }
        }
    }
}

/// The text of an index whose records can stand on a line is read back as
/// that index.
pub proof fn lemma_text_round_trip(s: Seq<RecordView>)
    requires
        forall|i: int| 0 <= i < s.len() ==> line_safe(#[trigger] s[i]),
    ensures
        parse_lines(index_text(s)) == Some(s),
    decreases s.len(),
{
    if s.len() > 0 {
        let line = record_line(s.first());
        let tail = s.drop_first();
        let text = index_text(s);
        lemma_line_round_trip(s.first());
        assert forall|i: int| 0 <= i < tail.len() implies line_safe(#[trigger] tail[i]) by {
            assert(tail[i] == s[i + 1]);
        }
        lemma_text_round_trip(tail);
        let n = line.len() as int;
        assert(text[n] == LINE_FEED);
        assert forall|j: int| 0 <= j < n implies text[j] != LINE_FEED by {
            assert(text[j] == line[j]);
        }
        lemma_first_position_is(text, LINE_FEED, n);
        assert(text.take(n) =~= line);
        assert(text.skip(n + 1) =~= index_text(tail));
        assert(seq![s.first()] + tail =~= s);
    }
}

/// A line that stands for a record is the line of that record.
pub proof fn lemma_line_read_back(line: Seq<u8>)
    requires
        parse_line(line) is Some,
    ensures
        record_line(parse_line(line)->0) == line,
{
    lemma_first_position(line, SPACE);
    let a = first_position(line, SPACE);
    let rest = line.skip(a + 1);
    lemma_first_position(rest, SPACE);
    let b = first_position(rest, SPACE);
    let r = parse_line(line)->0;
    assert(kind_word(r.kind) == rest.take(b));
    assert(rest =~= rest.take(b) + seq![SPACE] + rest.skip(b + 1));
    assert(line =~= line.take(a) + seq![SPACE] + rest);
    assert(record_line(r) =~= line);
}

/// A text that stands for records is the text of those records: reading
/// and writing are inverse to each other.
pub proof fn lemma_text_read_back(text: Seq<u8>)
    requires
        parse_lines(text) is Some,
    ensures
        index_text(parse_lines(text)->0) == text,
    decreases text.len(),
{
    if text.len() > 0 {
        lemma_first_position(text, LINE_FEED);
        let n = first_position(text, LINE_FEED);
        let line = text.take(n);
        let tail = text.skip(n + 1);
        let r = parse_line(line)->0;
        let rest = parse_lines(tail)->0;
        lemma_line_read_back(line);
        lemma_text_read_back(tail);
        let s = seq![r] + rest;
        assert(s.first() == r);
        assert(s.drop_first() =~= rest);
        assert(text =~= line + seq![LINE_FEED] + tail);
    }
}

/// The text of an index grows by one line when a record is put at its end.
pub proof fn lemma_index_text_push(s: Seq<RecordView>, r: RecordView)
    ensures
        index_text(s.push(r)) == index_text(s) + record_line(r) + seq![LINE_FEED],
    decreases s.len(),
{
    let t = s.push(r);
    if s.len() == 0 {
        assert(t.drop_first() =~= Seq::<RecordView>::empty());
        assert(t.first() == r);
        assert(index_text(t.drop_first()) =~= Seq::<u8>::empty());
        assert(index_text(s) =~= Seq::<u8>::empty());
        assert(index_text(t) =~= index_text(s) + record_line(r) + seq![LINE_FEED]);
    } else {
        assert(t.drop_first() =~= s.drop_first().push(r));
        lemma_index_text_push(s.drop_first(), r);
        assert(index_text(t) =~= index_text(s) + record_line(r) + seq![LINE_FEED]);
    }
}

/// Records whose paths ascend from each to the next are sorted.
pub proof fn lemma_ascending_sorted(s: Seq<RecordView>)
    requires
        forall|i: int| 0 < i < s.len() ==> lex_less(s[i - 1].path, #[trigger] s[i].path),
    ensures
        sorted_by_path(s),
{
    assert forall|i: int, j: int| 0 <= i < j < s.len() implies lex_less(
        #[trigger] s[i].path,
        #[trigger] s[j].path,
    ) by {
        lemma_ascending_step(s, i, j);
    }
}

proof fn lemma_ascending_step(s: Seq<RecordView>, i: int, j: int)
    requires
        forall|i: int| 0 < i < s.len() ==> lex_less(s[i - 1].path, #[trigger] s[i].path),
        0 <= i < j < s.len(),
    ensures
        lex_less(s[i].path, s[j].path),
    decreases j - i,
{
    assert(lex_less(s[j - 1].path, s[j].path));
    if i < j - 1 {
        lemma_ascending_step(s, i, j - 1);
        lemma_lex_transitive(s[i].path, s[j - 1].path, s[j].path);
    }
}

/// Reads the kind that a word names.
pub fn read_kind(word: &[u8]) -> (kind: Option<Kind>)
    ensures
        kind == word_kind(word@),
{
    if word.len() != 4 {
        return None;
    }
    if word[0] == 0x62 && word[1] == 0x6c && word[2] == 0x6f && word[3] == 0x62 {
        assert(word@ =~= kind_word(Kind::Blob));
        Some(Kind::Blob)
    } else if word[0] == 0x74 && word[1] == 0x72 && word[2] == 0x65 && word[3] == 0x65 {
        assert(word@ =~= kind_word(Kind::Tree));
        Some(Kind::Tree)
    } else {
        assert(kind_word(Kind::Blob)[0] == 0x62 && kind_word(Kind::Blob)[1] == 0x6c && kind_word(
            Kind::Blob,
        )[2] == 0x6f && kind_word(Kind::Blob)[3] == 0x62);
        assert(kind_word(Kind::Tree)[0] == 0x74 && kind_word(Kind::Tree)[1] == 0x72 && kind_word(
            Kind::Tree,
        )[2] == 0x65 && kind_word(Kind::Tree)[3] == 0x65);
        None
    }
}

/// Reads the record that a line stands for.
pub fn read_line(line: &[u8]) -> (record: Option<Record>)
    ensures
        match record {
            Some(r) => parse_line(line@) == Some(r@),
            None => parse_line(line@) is None,
        },
{
    let a = find_first(line, SPACE);
    if a >= line.len() {
        return None;
    }
    let rest = slice_subrange(line, a + 1, line.len());
    assert(rest@ =~= line@.skip(a as int + 1));
    let b = find_first(rest, SPACE);
    if b >= rest.len() {
        return None;
    }
    let word = slice_subrange(rest, 0, b);
    assert(word@ =~= rest@.take(b as int));
    match read_kind(word) {
        Some(kind) => {
            let path = copy_range(line, 0, a);
            let hash = copy_range(rest, b + 1, rest.len());
            assert(path@ =~= line@.take(a as int));
            assert(hash@ =~= rest@.skip(b as int + 1));
            Some(Record { path, kind, hash })
        },
        None => None,
    }
}

/// Writes the line of a record, and the line feed that ends it, at the end
/// of `out`.
pub fn write_line(out: &mut Vec<u8>, record: &Record)
    ensures
        final(out)@ == old(out)@ + record_line(record@) + seq![LINE_FEED],
{
    append(out, record.path.as_slice());
    out.push(SPACE);
    append_kind(out, record.kind);
    out.push(SPACE);
    append(out, record.hash.as_slice());
    out.push(LINE_FEED);
    assert(out@ =~= old(out)@ + record_line(record@) + seq![LINE_FEED]);
}

/// Reads the records that a text stands for, in the order of the text.
pub fn read_lines(text: &[u8]) -> (records: Option<Vec<Record>>)
    ensures
        match records {
            Some(v) => parse_lines(text@) == Some(v@.map_values(|r: Record| r@)),
            None => parse_lines(text@) is None,
        },
{
    let mut records: Vec<Record> = Vec::new();
    let mut pos: usize = 0;
    let len = text.len();
    assert(text@.skip(0) =~= text@);
    assert(records@.map_values(|r: Record| r@) + Seq::<RecordView>::empty()
        =~= Seq::<RecordView>::empty());
    while pos < len
        invariant
            pos <= len == text@.len(),
            parse_lines(text@) == followed_by(
                records@.map_values(|r: Record| r@),
                parse_lines(text@.skip(pos as int)),
            ),
        decreases len - pos,
    {
        let ghost rest = text@.skip(pos as int);
        let ghost done = records@.map_values(|r: Record| r@);
        let tail = slice_subrange(text, pos, len);
        assert(tail@ =~= rest);
        let n = find_first(tail, LINE_FEED);
        if n >= tail.len() {
            return None;
        }
        let line = slice_subrange(tail, 0, n);
        assert(line@ =~= rest.take(n as int));
        let record = match read_line(line) {
            Some(r) => r,
            None => {
                return None;
            },
        };
        proof {
            assert(rest.skip(n as int + 1) =~= text@.skip(pos as int + n as int + 1));
            let further = parse_lines(text@.skip(pos as int + n as int + 1));
            assert(parse_lines(rest) == followed_by(seq![record@], further));
            if further is Some {
                assert(done + (seq![record@] + further->0) =~= done.push(record@) + further->0);
            }
            assert(records@.push(record).map_values(|r: Record| r@) =~= done.push(record@));
        }
        records.push(record);
        pos = pos + n + 1;
    }
    proof {
        assert(text@.skip(pos as int).len() == 0);
        assert(records@.map_values(|r: Record| r@) + Seq::<RecordView>::empty()
            =~= records@.map_values(|r: Record| r@));
    }
    Some(records)
}

/// Tests whether the paths of `records` ascend strictly.
pub fn is_sorted(records: &Vec<Record>) -> (yes: bool)
    ensures
        yes == sorted_by_path(records@.map_values(|r: Record| r@)),
{
    let ghost s = records@.map_values(|r: Record| r@);
    let mut i: usize = 1;
    while i < records.len()
        invariant
            1 <= i,
            s == records@.map_values(|r: Record| r@),
            forall|k: int|
                0 < k < i && k < s.len() ==> lex_less(s[k - 1].path, #[trigger] s[k].path),
        decreases records.len() - i,
    {
        let rank = compare(records[i - 1].path.as_slice(), records[i].path.as_slice());
        assert(s[i as int - 1].path == records@[i as int - 1].path@);
        assert(s[i as int].path == records@[i as int].path@);
        match rank {
            Rank::Before => {},
            _ => {
                return false;
            },
        }
        i += 1;
    }
    proof {
        lemma_ascending_sorted(s);
    }
    true
}

/// Writes the index as text.
pub fn write_index(index: &Index) -> (text: Vec<u8>)
    ensures
        text@ == index_text(index@),
{
    let mut text: Vec<u8> = Vec::new();
    let count = index.len();
    let mut i: usize = 0;
    assert(index@.take(0) =~= Seq::<RecordView>::empty());
    while i < count
        invariant
            i <= count == index@.len(),
            text@ == index_text(index@.take(i as int)),
        decreases count - i,
    {
        proof {
            lemma_index_text_push(index@.take(i as int), index@[i as int]);
            assert(index@.take(i as int).push(index@[i as int]) =~= index@.take(i as int + 1));
        }
        write_line(&mut text, index.get(i));
        i += 1;
    }
    assert(index@.take(count as int) =~= index@);
    text
}

/// Reads an index from its text. A text that stands for no records, or for
/// records that are not sorted by path, is refused with `IndexCorrupt`.
pub fn read_index(text: &[u8]) -> (index: Result<Index, Error>)
    ensures
        match index {
            Ok(i) => parse_lines(text@) == Some(i@) && i.wf(),
            Err(e) => e == Error::IndexCorrupt && (parse_lines(text@) is None || !sorted_by_path(
                parse_lines(text@)->0,
            )),
        },
{
    match read_lines(text) {
        Some(records) => {
            if is_sorted(&records) {
                Ok(Index::from_sorted(records))
            } else {
                Err(Error::IndexCorrupt)
            }
        },
        None => Err(Error::IndexCorrupt),
    }
}

} // verus!
