//! The grammar of a cookie file, line by line.
//!
//! The input is cut at every line feed. A carriage return before the line
//! feed belongs to the line's end. Each line is blank, a comment, or a record
//! of seven fields between single tabs; the first line that is none of these
//! fails the whole input.
use vstd::prelude::*;
use vstd::string::StringSliceAdditionalSpecFns;
use vstd::utf8::encode_utf8_valid_utf8;
use crate::laws::lemma_text_input_gives_text;
use crate::error::{Error, SyntaxError};
use crate::jar::{collect, models, Cookies};
use crate::record::{
    is_text, parse_line, read_line, CookieRecord, LineModel, RecordModel, LINE_FEED,
};
use crate::text::{slice_of, split, split_spans, Span};

verus! {

/// The records of `lines`, in order, or the first line that was rejected.
/// Lines are numbered from one.
pub open spec fn read_lines(lines: Seq<Seq<u8>>) -> Result<Seq<RecordModel>, SyntaxError>
    decreases lines.len(),
{
    if lines.len() == 0 {
        Ok(Seq::<RecordModel>::empty())
    } else {
        match read_lines(lines.drop_last()) {
            Err(e) => Err(e),
            Ok(records) => match read_line(lines.last()) {
                LineModel::Skipped => Ok(records),
                LineModel::Record(r) => Ok(records.push(r)),
                LineModel::Rejected(e) => Err(
                    SyntaxError { line: lines.len() as usize, offset: e.offset, kind: e.kind },
                ),
            },
        }
    }
}

/// The records that an input holds, in the order of its lines.
pub open spec fn read_records(input: Seq<u8>) -> Result<Seq<RecordModel>, SyntaxError> {
    read_lines(split(input, LINE_FEED))
}

/// The jar that an input gives: its records, collected first to last.
pub open spec fn read_jar(input: Seq<u8>) -> Result<Seq<RecordModel>, SyntaxError> {
    match read_records(input) {
        Ok(records) => Ok(collect(records)),
        Err(e) => Err(e),
    }
}

/// Once a line was rejected, more lines change nothing.
pub proof fn lemma_error_stays(lines: Seq<Seq<u8>>, k: int)
    requires
        0 <= k <= lines.len(),
        read_lines(lines.take(k)) is Err,
    ensures
        read_lines(lines) == read_lines(lines.take(k)),
    decreases lines.len() - k,
{
    if k == lines.len() {
        assert(lines.take(k) =~= lines);
    } else {
        assert(lines.take(k + 1).drop_last() =~= lines.take(k));
        lemma_error_stays(lines, k + 1);
    }
}

/// The reader of the cookie-file grammar.
#[derive(Debug)]
pub struct CookieParser {}

impl CookieParser {
    /// Reads every line of `input` and returns its records in order, or the
    /// first line that is no blank line, comment or record.
    pub fn records(input: &[u8]) -> (outcome: Result<Vec<CookieRecord>, SyntaxError>)
        ensures
            match outcome {
                Ok(records) => read_records(input@) == Ok::<Seq<RecordModel>, SyntaxError>(
                    models(records@),
                ),
                Err(e) => read_records(input@) == Err::<Seq<RecordModel>, SyntaxError>(e),
            },
    {
        let spans: Vec<Span> = split_spans(input, LINE_FEED);
        let ghost lines = split(input@, LINE_FEED);
        let mut records: Vec<CookieRecord> = Vec::new();
        let mut k: usize = 0;
        proof {
            assert(lines.take(0) =~= Seq::<Seq<u8>>::empty());
            assert(models(records@) =~= Seq::<RecordModel>::empty());
        }
        while k < spans.len()
            invariant
                k <= spans.len(),
                lines == split(input@, LINE_FEED),
                spans.len() == lines.len(),
                forall|j: int|
                    0 <= j < spans.len() ==> {
                        &&& (#[trigger] spans[j]).start <= spans[j].end <= input.len()
                        &&& input@.subrange(spans[j].start as int, spans[j].end as int) == lines[j]
                    },
                read_lines(lines.take(k as int)) == Ok::<Seq<RecordModel>, SyntaxError>(
                    models(records@),
                ),
            decreases spans.len() - k,
        {
            let line: &[u8] = slice_of(input, spans[k]);
            proof {
                assert(lines.take(k + 1).drop_last() =~= lines.take(k as int));
                assert(lines.take(k + 1).last() == line@);
            }
            match parse_line(line) {
                Ok(None) => {},
                Ok(Some(r)) => {
                    let ghost before = models(records@);
                    records.push(r);
                    proof {
                        assert(models(records@) =~= before.push(r@));
                    }
                },
                Err(e) => {
                    proof {
                        lemma_error_stays(lines, k + 1);
                    }
                    return Err(SyntaxError { line: k + 1, offset: e.offset, kind: e.kind });
                },
            }
            k += 1;
        }
        proof {
            assert(lines.take(k as int) =~= lines);
        }
        Ok(records)
    }
}

/// Reads a cookie file held in memory as bytes.
pub fn parse_bytes(input: &[u8]) -> (outcome: Result<Cookies, Error>)
    ensures
        match outcome {
            Ok(jar) => jar.wf() && read_jar(input@) == Ok::<Seq<RecordModel>, SyntaxError>(jar@),
            Err(Error::ParseError(e)) => read_jar(input@) == Err::<Seq<RecordModel>, SyntaxError>(
                e,
            ),
            Err(Error::IoError(_)) => false,
        },
{
    match CookieParser::records(input) {
        Ok(records) => Ok(Cookies::from_records(records.as_slice())),
        Err(e) => Err(Error::ParseError(e)),
    }
}

/// Reads a cookie file held in memory as text. The grammar is one of bytes:
/// the text is read in its UTF-8 encoding, and the fields of the records are
/// the bytes between the tabs, which are text again.
pub fn parse(s: &str) -> (outcome: Result<Cookies, Error>)
    ensures
        outcome matches Ok(jar) ==> forall|j: int|
            0 <= j < jar@.len() ==> is_text(#[trigger] jar@[j]),
        match outcome {
            Ok(jar) => jar.wf() && read_jar(s.spec_bytes()) == Ok::<Seq<RecordModel>, SyntaxError>(
                jar@,
            ),
            Err(Error::ParseError(e)) => read_jar(s.spec_bytes()) == Err::<
                Seq<RecordModel>,
                SyntaxError,
            >(e),
            Err(Error::IoError(_)) => false,
        },
{
    let outcome = parse_bytes(s.as_bytes());
    proof {
        encode_utf8_valid_utf8(s@);
        if outcome is Ok {
            lemma_text_input_gives_text(s.spec_bytes());
            assert(read_jar(s.spec_bytes())->Ok_0 == outcome->Ok_0@);
        }
    }
    outcome
}

} // verus!
