//! One cookie, and how a line of text becomes one.
//!
//! A record line holds seven fields: domain, subdomain flag, path, secure
//! flag, expiration, name and value. The subdomain flag must be there but is
//! not kept: a record holds the domain as written, leading dot included.
use vstd::prelude::*;
use vstd::slice::{slice_subrange, slice_to_vec};
use vstd::utf8::{decode_utf8, valid_utf8};
use crate::error::{LineError, SyntaxErrorKind};
use crate::number::{decimal_i64, parse_i64};
use crate::text::{bytes_eq, decode, piece_start, slice_of, split, split_spans, Span};

verus! {

pub const TAB: u8 = 9;

pub const LINE_FEED: u8 = 10;

pub const CARRIAGE_RETURN: u8 = 13;

pub const HASH: u8 = 35;

/// Number of fields on a record line.
pub const FIELDS: usize = 7;

/// One cookie as read from a record line. Text fields hold the bytes of the
/// line as they stand, with nothing trimmed or decoded.
#[derive(Clone, Debug, PartialEq, Eq)]
pub struct CookieRecord {
    pub domain: Vec<u8>,
    pub path: Vec<u8>,
    /// Whether the secure flag was exactly `TRUE`.
    pub secure: bool,
    /// Seconds since the Unix epoch; `None` for a session cookie.
    pub expiration: Option<i64>,
    pub name: Vec<u8>,
    pub value: Vec<u8>,
}

/// What a [`CookieRecord`] stands for.
pub ghost struct RecordModel {
    pub domain: Seq<u8>,
    pub path: Seq<u8>,
    pub secure: bool,
    pub expiration: Option<i64>,
    pub name: Seq<u8>,
    pub value: Seq<u8>,
}

/// Domain, path and name: what makes two records the same cookie.
pub type Identity = (Seq<u8>, Seq<u8>, Seq<u8>);

/// The cookie that a record is for.
pub open spec fn identity(r: RecordModel) -> Identity {
    (r.domain, r.path, r.name)
}

/// Domain, path, name and value are text: each is valid UTF-8.
pub open spec fn is_text(r: RecordModel) -> bool {
    &&& valid_utf8(r.domain)
    &&& valid_utf8(r.path)
    &&& valid_utf8(r.name)
    &&& valid_utf8(r.value)
}

/// The record is one for this domain and path.
pub open spec fn applies(r: RecordModel, domain: Seq<u8>, path: Seq<u8>) -> bool {
    r.domain == domain && r.path == path
}

impl View for CookieRecord {
    type V = RecordModel;

    open spec fn view(&self) -> RecordModel {
        RecordModel {
            domain: self.domain@,
            path: self.path@,
            secure: self.secure,
            expiration: self.expiration,
            name: self.name@,
            value: self.value@,
        }
    }
}

/// The bytes `TRUE`.
pub open spec fn true_token() -> Seq<u8> {
    seq![84u8, 82u8, 85u8, 69u8]
}

/// The expiration that a timestamp stands for: zero means none.
pub open spec fn expiration_of(timestamp: i64) -> Option<i64> {
    if timestamp == 0 {
        None
    } else {
        Some(timestamp)
    }
}

/// The record that seven fields give, or `None` where the expiration field
/// is no signed decimal integer of 64 bits. Every other field is accepted
/// whatever it holds.
pub open spec fn record_of(fields: Seq<Seq<u8>>) -> Option<RecordModel>
    recommends
        fields.len() == FIELDS,
{
    match decimal_i64(fields[4]) {
        Some(timestamp) => Some(
            RecordModel {
                domain: fields[0],
                path: fields[2],
                secure: fields[3] == true_token(),
                expiration: expiration_of(timestamp),
                name: fields[5],
                value: fields[6],
            },
        ),
        None => None,
    }
}

/// A line without the carriage return that may end it.
pub open spec fn line_content(line: Seq<u8>) -> Seq<u8> {
    if line.len() > 0 && line.last() == CARRIAGE_RETURN {
        line.drop_last()
    } else {
        line
    }
}

/// A line that holds no record: it is empty or starts with `#`.
pub open spec fn is_skipped(content: Seq<u8>) -> bool {
    content.len() == 0 || content[0] == HASH
}

/// What one line of the input is.
pub ghost enum LineModel {
    /// Blank or a comment.
    Skipped,
    Record(RecordModel),
    Rejected(LineError),
}

/// What a line is, given without its line feed. A line that is neither blank
/// nor a comment must split at tabs into seven fields, of which the fifth
/// must be a timestamp; it is rejected at the end of the line where fields
/// are missing, at the tab behind the seventh field where there are too many,
/// and at the start of the fifth field where that is no timestamp.
pub open spec fn read_line(line: Seq<u8>) -> LineModel {
    let content = line_content(line);
    if is_skipped(content) {
        LineModel::Skipped
    } else {
        let fields = split(content, TAB);
        if fields.len() != FIELDS {
            LineModel::Rejected(
                LineError {
                    offset: if fields.len() < FIELDS {
                        content.len() as usize
                    } else {
                        (piece_start(fields, 7) - 1) as usize
                    },
                    kind: SyntaxErrorKind::FieldCount { found: fields.len() as usize },
                },
            )
        } else {
            match record_of(fields) {
                Some(r) => LineModel::Record(r),
                None => LineModel::Rejected(
                    LineError {
                        offset: piece_start(fields, 4) as usize,
                        kind: SyntaxErrorKind::Expiration,
                    },
                ),
            }
        }
    }
}

/// Whether `field` is exactly `TRUE`.
pub fn is_true_token(field: &[u8]) -> (yes: bool)
    ensures
        yes == (field@ == true_token()),
{
    if field.len() != 4 {
        return false;
    }
    let yes = field[0] == 84 && field[1] == 82 && field[2] == 85 && field[3] == 69;
    proof {
        if yes {
            assert(field@ =~= true_token());
        }
    }
    yes
}

impl CookieRecord {
    /// Builds a record from the seven fields of a line, in the order in which
    /// the line holds them. The subdomain flag is taken and dropped.
    pub fn from_fields(
        domain: &[u8],
        subdomains: &[u8],
        path: &[u8],
        secure: &[u8],
        expiration: &[u8],
        name: &[u8],
        value: &[u8],
    ) -> (record: Option<CookieRecord>)
        ensures
            match record {
                Some(r) => Some(r@),
                None => None,
            } == record_of(seq![domain@, subdomains@, path@, secure@, expiration@, name@, value@]),
            record is Some <==> decimal_i64(expiration@) is Some,
            record matches Some(r) ==> r.secure == (secure@ == true_token()),
            record matches Some(r) ==> r.expiration == expiration_of(decimal_i64(expiration@)->Some_0),
            record matches Some(r) ==> r.expiration != Some(0i64),
    {
        match parse_i64(expiration) {
            None => None,
            Some(timestamp) => {
                let expires: Option<i64> = if timestamp == 0 {
                    None
                } else {
                    Some(timestamp)
                };
                Some(
                    CookieRecord {
                        domain: slice_to_vec(domain),
                        path: slice_to_vec(path),
                        secure: is_true_token(secure),
                        expiration: expires,
                        name: slice_to_vec(name),
                        value: slice_to_vec(value),
                    },
                )
            },
        }
    }

    /// The domain as text, where it is valid UTF-8.
    pub fn domain_text(&self) -> (text: Option<&str>)
        ensures
            text is Some <==> valid_utf8(self@.domain),
            text matches Some(t) ==> t@ == decode_utf8(self@.domain),
    {
        decode(self.domain.as_slice())
    }

    /// The path as text, where it is valid UTF-8.
    pub fn path_text(&self) -> (text: Option<&str>)
        ensures
            text is Some <==> valid_utf8(self@.path),
            text matches Some(t) ==> t@ == decode_utf8(self@.path),
    {
        decode(self.path.as_slice())
    }

    /// The name as text, where it is valid UTF-8.
    pub fn name_text(&self) -> (text: Option<&str>)
        ensures
            text is Some <==> valid_utf8(self@.name),
            text matches Some(t) ==> t@ == decode_utf8(self@.name),
    {
        decode(self.name.as_slice())
    }

    /// The value as text, where it is valid UTF-8.
    pub fn value_text(&self) -> (text: Option<&str>)
        ensures
            text is Some <==> valid_utf8(self@.value),
            text matches Some(t) ==> t@ == decode_utf8(self@.value),
    {
        decode(self.value.as_slice())
    }

    /// A copy of the record.
    pub fn duplicate(&self) -> (copy: CookieRecord)
        ensures
            copy@ == self@,
    {
        CookieRecord {
            domain: slice_to_vec(self.domain.as_slice()),
            path: slice_to_vec(self.path.as_slice()),
            secure: self.secure,
            expiration: self.expiration,
            name: slice_to_vec(self.name.as_slice()),
            value: slice_to_vec(self.value.as_slice()),
        }
    }

    /// Whether `self` has the given domain and path.
    pub fn is_at(&self, domain: &[u8], path: &[u8]) -> (yes: bool)
        ensures
            yes == applies(self@, domain@, path@),
    {
        bytes_eq(self.domain.as_slice(), domain) && bytes_eq(self.path.as_slice(), path)
    }

    /// Whether `self` has the given domain, path and name.
    pub fn is_cookie(&self, domain: &[u8], path: &[u8], name: &[u8]) -> (yes: bool)
        ensures
            yes == (identity(self@) == (domain@, path@, name@)),
    {
        bytes_eq(self.name.as_slice(), name) && bytes_eq(self.domain.as_slice(), domain)
            && bytes_eq(self.path.as_slice(), path)
    }
}

/// Reads one line of the input, given without its line feed: `Ok(None)` for a
/// blank line or a comment, the record for a record line, and the reason for a
/// line that is neither.
pub fn parse_line(line: &[u8]) -> (outcome: Result<Option<CookieRecord>, LineError>)
    ensures
        match outcome {
            Ok(None) => read_line(line@) == LineModel::Skipped,
            Ok(Some(r)) => read_line(line@) == LineModel::Record(r@),
            Err(e) => read_line(line@) == LineModel::Rejected(e),
        },
{
    let n: usize = line.len();
    let content: &[u8] = if n > 0 && line[n - 1] == CARRIAGE_RETURN {
        slice_subrange(line, 0, n - 1)
    } else {
        line
    };
    proof {
        assert(line@.subrange(0, n - 1) =~= line@.drop_last());
        assert(content@ == line_content(line@));
    }
    if content.len() == 0 || content[0] == HASH {
        return Ok(None);
    }
    let spans: Vec<Span> = split_spans(content, TAB);
    if spans.len() != FIELDS {
        let offset: usize = if spans.len() < FIELDS {
            content.len()
        } else {
            spans[6].end
        };
        proof {
            let fields = split(content@, TAB);
            if spans.len() > FIELDS {
                assert(fields[6].len() == spans[6].end - spans[6].start);
                assert(piece_start(fields, 7) == piece_start(fields, 6) + fields[6].len() + 1);
            }
        }
        return Err(LineError { offset, kind: SyntaxErrorKind::FieldCount { found: spans.len() } });
    }
    let record = CookieRecord::from_fields(
        slice_of(content, spans[0]),
        slice_of(content, spans[1]),
        slice_of(content, spans[2]),
        slice_of(content, spans[3]),
        slice_of(content, spans[4]),
        slice_of(content, spans[5]),
        slice_of(content, spans[6]),
    );
    proof {
        let fields = split(content@, TAB);
        let given = seq![fields[0], fields[1], fields[2], fields[3], fields[4], fields[5], fields[6]];
        assert(given =~= fields);
    }
    match record {
        Some(r) => Ok(Some(r)),
        None => Err(LineError { offset: spans[4].start, kind: SyntaxErrorKind::Expiration }),
    }
}

} // verus!
