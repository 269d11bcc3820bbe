//! What holds of every input: how many cookies a jar ends up with, which
//! record of a cookie stays, and which inputs are accepted.
use vstd::prelude::*;
use vstd::utf8::{is_char_boundary_iff_not_is_continuation_byte, valid_utf8, valid_utf8_split};
use crate::error::SyntaxError;
use crate::jar::{collect, distinct, holds, lemma_put_distinct, lemma_slot_unique, lookup, put, slot};
use crate::number::decimal_i64;
use crate::parser::{lemma_error_stays, read_jar, read_lines, read_records};
use crate::record::{
    identity, is_skipped, is_text, line_content, read_line, record_of, true_token, Identity,
    RecordModel, FIELDS, LINE_FEED, TAB,
};
use crate::text::{lemma_split_text, split};

verus! {

/// Number of lines that are neither blank nor a comment.
pub open spec fn record_lines(lines: Seq<Seq<u8>>) -> nat
    decreases lines.len(),
{
    if lines.len() == 0 {
        0
    } else if is_skipped(line_content(lines.last())) {
        record_lines(lines.drop_last())
    } else {
        record_lines(lines.drop_last()) + 1
    }
}

/// Whatever records are collected, the jar holds no cookie twice.
pub proof fn lemma_collect_distinct(records: Seq<RecordModel>)
    ensures
        distinct(collect(records)),
    decreases records.len(),
{
    if records.len() > 0 {
        lemma_collect_distinct(records.drop_last());
        lemma_put_distinct(collect(records.drop_last()), records.last());
    }
}

/// Records of which no two are the same cookie are all kept, as they stand
/// and in their order: the jar has as many entries as there are records.
pub proof fn lemma_distinct_records_all_kept(records: Seq<RecordModel>)
    requires
        distinct(records),
    ensures
        collect(records) == records,
        collect(records).len() == records.len(),
    decreases records.len(),
{
    if records.len() > 0 {
        let front = records.drop_last();
        assert(distinct(front)) by {
            assert forall|i: int, j: int| 0 <= i < j < front.len() implies identity(
                #[trigger] front[i],
            ) != identity(#[trigger] front[j]) by {
                assert(identity(records[i]) != identity(records[j]));
            }
        }
        lemma_distinct_records_all_kept(front);
        if holds(front, identity(records.last())) {
            let c = slot(front, identity(records.last()));
            assert(identity(records[c]) != identity(records[records.len() - 1]));
        }
        assert(front.push(records.last()) =~= records);
    }
}

/// An accepted input has one record for each line that is neither blank nor a
/// comment.
pub proof fn lemma_one_record_per_line(lines: Seq<Seq<u8>>)
    requires
        read_lines(lines) is Ok,
    ensures
        read_lines(lines)->Ok_0.len() == record_lines(lines),
    decreases lines.len(),
{
    if lines.len() > 0 {
        lemma_one_record_per_line(lines.drop_last());
    }
}

/// An accepted input whose record lines are all different cookies gives a jar
/// with exactly one entry for each record line.
pub proof fn lemma_entry_per_record_line(input: Seq<u8>)
    requires
        read_records(input) is Ok,
        distinct(read_records(input)->Ok_0),
    ensures
        read_jar(input) == read_records(input),
        read_jar(input)->Ok_0.len() == record_lines(split(input, LINE_FEED)),
{
    lemma_distinct_records_all_kept(read_records(input)->Ok_0);
    lemma_one_record_per_line(split(input, LINE_FEED));
}

/// Right after a record was added, the jar holds it for its cookie.
pub proof fn lemma_put_then_lookup(s: Seq<RecordModel>, r: RecordModel)
    requires
        distinct(s),
    ensures
        lookup(put(s, r), identity(r)) == Some(r),
{
    let t = put(s, r);
    lemma_put_distinct(s, r);
    let p = if holds(s, identity(r)) {
        slot(s, identity(r))
    } else {
        s.len() as int
    };
    assert(t[p] == r);
    lemma_slot_unique(t, p);
}

/// Adding a record leaves every other cookie as it was.
pub proof fn lemma_put_keeps_others(s: Seq<RecordModel>, r: RecordModel, id: Identity)
    requires
        distinct(s),
        identity(r) != id,
    ensures
        lookup(put(s, r), id) == lookup(s, id),
{
    let t = put(s, r);
    lemma_put_distinct(s, r);
    if holds(s, id) {
        let p = slot(s, id);
        assert(t[p] == s[p]);
        lemma_slot_unique(t, p);
    } else {
        if holds(t, id) {
            let q = slot(t, id);
            if q < s.len() {
                assert(t[q] == s[q] || t[q] == r);
                assert(identity(s[q]) == id);
            }
        }
    }
}

/// Of the records for one cookie, the jar holds the last: a record that no
/// later record shares its domain, path and name with is in the jar,
/// unchanged.
pub proof fn lemma_last_record_wins(records: Seq<RecordModel>, i: int)
    requires
        0 <= i < records.len(),
        forall|j: int| i < j < records.len() ==> identity(#[trigger] records[j]) != identity(records[i]),
    ensures
        lookup(collect(records), identity(records[i])) == Some(records[i]),
    decreases records.len(),
{
    let front = records.drop_last();
    lemma_collect_distinct(front);
    if i == records.len() - 1 {
        lemma_put_then_lookup(collect(front), records.last());
    } else {
        assert forall|j: int| i < j < front.len() implies identity(#[trigger] front[j])
            != identity(front[i]) by {
            assert(identity(records[j]) != identity(records[i]));
        }
        lemma_last_record_wins(front, i);
        assert(identity(records[records.len() - 1]) != identity(records[i]));
        lemma_put_keeps_others(collect(front), records.last(), identity(records[i]));
    }
}

/// Two records for one cookie leave one entry, the later record.
pub proof fn lemma_second_replaces_first(first: RecordModel, second: RecordModel)
    requires
        identity(first) == identity(second),
    ensures
        collect(seq![first, second]) == seq![second],
{
    let both = seq![first, second];
    assert(both.drop_last() =~= seq![first]);
    assert(seq![first].drop_last() =~= Seq::<RecordModel>::empty());
    let none = Seq::<RecordModel>::empty();
    assert(collect(none) == none);
    assert(!holds(none, identity(first)));
    assert(collect(seq![first]) =~= seq![first]) by {
        assert(seq![first].last() == first);
        assert(none.push(first) =~= seq![first]);
    }
    let one = seq![first];
    assert(distinct(one));
    lemma_slot_unique(one, 0);
    assert(one.update(0, second) =~= seq![second]);
}

/// The jar holds a cookie exactly if some record of the input is that cookie.
pub proof fn lemma_collect_holds(records: Seq<RecordModel>, id: Identity)
    ensures
        holds(collect(records), id) == holds(records, id),
    decreases records.len(),
{
    if records.len() > 0 {
        let front = records.drop_last();
        let last = records.last();
        lemma_collect_holds(front, id);
        lemma_collect_distinct(front);
        if identity(last) == id {
            lemma_put_then_lookup(collect(front), last);
            assert(identity(records[records.len() - 1]) == id);
        } else {
            lemma_put_keeps_others(collect(front), last, id);
            if holds(front, id) {
                let p = slot(front, id);
                assert(identity(records[p]) == id);
            }
            if holds(records, id) {
                let p = slot(records, id);
                assert(identity(front[p]) == id);
            }
        }
    }
}

/// An expiration field that denotes zero gives a record without expiration.
pub proof fn lemma_zero_is_no_expiration(fields: Seq<Seq<u8>>)
    requires
        fields.len() == FIELDS,
        decimal_i64(fields[4]) == Some(0i64),
    ensures
        record_of(fields) is Some,
        record_of(fields)->Some_0.expiration is None,
{
}

/// No record expires at the epoch itself.
pub proof fn lemma_never_the_epoch(fields: Seq<Seq<u8>>)
    requires
        fields.len() == FIELDS,
        record_of(fields) is Some,
    ensures
        record_of(fields)->Some_0.expiration != Some(0i64),
{
}

/// A record is secure exactly if its secure field is `TRUE`, byte for byte.
pub proof fn lemma_secure_is_exact(fields: Seq<Seq<u8>>)
    requires
        fields.len() == FIELDS,
        record_of(fields) is Some,
    ensures
        record_of(fields)->Some_0.secure == (fields[3] == true_token()),
{
}

/// The first rejected line decides: the outcome names that line, the place
/// in it and the reason for which it was rejected.
pub proof fn lemma_first_rejected_line(lines: Seq<Seq<u8>>, k: int)
    requires
        0 <= k < lines.len(),
        lines.len() <= usize::MAX,
        forall|j: int| 0 <= j < k ==> !(read_line(#[trigger] lines[j]) is Rejected),
        read_line(lines[k]) is Rejected,
    ensures
        read_lines(lines) == Err::<Seq<RecordModel>, SyntaxError>(
            SyntaxError {
                line: (k + 1) as usize,
                offset: read_line(lines[k])->Rejected_0.offset,
                kind: read_line(lines[k])->Rejected_0.kind,
            },
        ),
{
    lemma_accepted_prefix(lines.take(k));
    assert(lines.take(k + 1).drop_last() =~= lines.take(k));
    assert(lines.take(k + 1).last() == lines[k]);
    lemma_error_stays(lines, k + 1);
}

/// Lines of which none is rejected are accepted.
pub proof fn lemma_accepted_prefix(lines: Seq<Seq<u8>>)
    requires
        forall|j: int| 0 <= j < lines.len() ==> !(read_line(#[trigger] lines[j]) is Rejected),
    ensures
        read_lines(lines) is Ok,
    decreases lines.len(),
{
    if lines.len() > 0 {
        let front = lines.drop_last();
        assert forall|j: int| 0 <= j < front.len() implies !(read_line(#[trigger] front[j])
            is Rejected) by {
            assert(front[j] == lines[j]);
        }
        lemma_accepted_prefix(front);
        assert(!(read_line(lines[lines.len() - 1]) is Rejected));
    }
}

/// An input with a line that is neither blank nor a comment and does not
/// split into seven fields is rejected as a whole.
pub proof fn lemma_wrong_field_count_fails(input: Seq<u8>, k: int)
    requires
        0 <= k < split(input, LINE_FEED).len(),
        !is_skipped(line_content(split(input, LINE_FEED)[k])),
        split(line_content(split(input, LINE_FEED)[k]), TAB).len() != FIELDS,
    ensures
        read_records(input) is Err,
        read_jar(input) is Err,
{
    lemma_rejected_line_fails(split(input, LINE_FEED), k);
}

/// One rejected line fails the input, whatever the other lines hold.
pub proof fn lemma_rejected_line_fails(lines: Seq<Seq<u8>>, k: int)
    requires
        0 <= k < lines.len(),
        read_line(lines[k]) is Rejected,
    ensures
        read_lines(lines) is Err,
{
    assert(lines.take(k + 1).drop_last() =~= lines.take(k));
    assert(lines.take(k + 1).last() == lines[k]);
    lemma_error_stays(lines, k + 1);
}

/// Lines that are all blank or comments give no record and no error.
pub proof fn lemma_skipped_lines_give_nothing(lines: Seq<Seq<u8>>)
    requires
        forall|j: int| 0 <= j < lines.len() ==> is_skipped(line_content(#[trigger] lines[j])),
    ensures
        read_lines(lines) == Ok::<Seq<RecordModel>, SyntaxError>(Seq::<RecordModel>::empty()),
    decreases lines.len(),
{
    if lines.len() > 0 {
        let front = lines.drop_last();
        assert forall|j: int| 0 <= j < front.len() implies is_skipped(
            line_content(#[trigger] front[j]),
        ) by {
            assert(front[j] == lines[j]);
        }
        lemma_skipped_lines_give_nothing(front);
        assert(is_skipped(line_content(lines[lines.len() - 1])));
    }
}

/// An input of blank lines and comments alone is accepted and gives an empty
/// jar.
pub proof fn lemma_comments_give_empty_jar(input: Seq<u8>)
    requires
        forall|j: int|
            0 <= j < split(input, LINE_FEED).len() ==> is_skipped(
                line_content(#[trigger] split(input, LINE_FEED)[j]),
            ),
    ensures
        read_jar(input) == Ok::<Seq<RecordModel>, SyntaxError>(Seq::<RecordModel>::empty()),
{
    lemma_skipped_lines_give_nothing(split(input, LINE_FEED));
}

/// The empty input is accepted and gives an empty jar.
pub proof fn lemma_empty_input_gives_empty_jar()
    ensures
        read_jar(Seq::<u8>::empty()) == Ok::<Seq<RecordModel>, SyntaxError>(
            Seq::<RecordModel>::empty(),
        ),
{
    let lines = split(Seq::<u8>::empty(), LINE_FEED);
    assert(lines =~= seq![Seq::<u8>::empty()]);
    assert(is_skipped(line_content(lines[0])));
    lemma_comments_give_empty_jar(Seq::<u8>::empty());
}

/// A record read from a line of text holds text in every field.
pub proof fn lemma_text_line_gives_text(line: Seq<u8>)
    requires
        valid_utf8(line),
        read_line(line) is Record,
    ensures
        is_text(read_line(line)->Record_0),
{
    let content = line_content(line);
    if content != line {
        is_char_boundary_iff_not_is_continuation_byte(line, line.len() - 1);
        valid_utf8_split(line, line.len() - 1);
        assert(line.subrange(0, line.len() - 1) =~= line.drop_last());
    }
    lemma_split_text(content, TAB);
    let fields = split(content, TAB);
    assert(valid_utf8(fields[0]) && valid_utf8(fields[2]) && valid_utf8(fields[5]) && valid_utf8(
        fields[6],
    ));
}

/// The records read from lines of text hold text in every field.
pub proof fn lemma_text_lines_give_text(lines: Seq<Seq<u8>>)
    requires
        forall|k: int| 0 <= k < lines.len() ==> valid_utf8(#[trigger] lines[k]),
        read_lines(lines) is Ok,
    ensures
        forall|i: int|
            0 <= i < read_lines(lines)->Ok_0.len() ==> is_text(#[trigger] read_lines(lines)->Ok_0[i]),
    decreases lines.len(),
{
    if lines.len() > 0 {
        let front = lines.drop_last();
        assert forall|k: int| 0 <= k < front.len() implies valid_utf8(#[trigger] front[k]) by {
            assert(front[k] == lines[k]);
        }
        lemma_text_lines_give_text(front);
        assert(valid_utf8(lines[lines.len() - 1]));
        if read_line(lines.last()) is Record {
            lemma_text_line_gives_text(lines.last());
        }
    }
}

/// A jar collected from records of text holds records of text.
pub proof fn lemma_collect_keeps_text(records: Seq<RecordModel>)
    requires
        forall|i: int| 0 <= i < records.len() ==> is_text(#[trigger] records[i]),
    ensures
        forall|j: int| 0 <= j < collect(records).len() ==> is_text(#[trigger] collect(records)[j]),
    decreases records.len(),
{
    if records.len() > 0 {
        let front = records.drop_last();
        assert forall|i: int| 0 <= i < front.len() implies is_text(#[trigger] front[i]) by {
            assert(front[i] == records[i]);
        }
        lemma_collect_keeps_text(front);
        assert(is_text(records[records.len() - 1]));
        let before = collect(front);
        let after = put(before, records.last());
        assert forall|j: int| 0 <= j < after.len() implies is_text(#[trigger] after[j]) by {
            if holds(before, identity(records.last())) {
                let c = slot(before, identity(records.last()));
                if j != c {
                    assert(after[j] == before[j]);
                }
            } else if j < before.len() {
                assert(after[j] == before[j]);
            }
        }
    }
}

/// Text in, text out: where the input is valid UTF-8, so are the domain,
/// path, name and value of every cookie in the jar.
pub proof fn lemma_text_input_gives_text(input: Seq<u8>)
    requires
        valid_utf8(input),
        read_jar(input) is Ok,
    ensures
        forall|j: int|
            0 <= j < read_jar(input)->Ok_0.len() ==> is_text(#[trigger] read_jar(input)->Ok_0[j]),
{
    lemma_split_text(input, LINE_FEED);
    lemma_text_lines_give_text(split(input, LINE_FEED));
    lemma_collect_keeps_text(read_records(input)->Ok_0);
}

} // verus!
