//! Handing the cookies of a jar on to the `cookie` crate.
//!
//! That crate's jar knows a cookie by its name alone, so cookies that differ
//! only in domain or path fall together there: the one that this library's
//! jar holds later stays. Its cookies hold text, and instants between the
//! years 1 and 9999; a record with other bytes or another instant cannot be
//! handed on.
use vstd::prelude::*;
use vstd::utf8::decode_utf8;
use crate::jar::Cookies;
use crate::record::{is_text, CookieRecord, RecordModel};
use crate::text::decode;

verus! {

/// 0001-01-01 00:00:00 UTC, in seconds since the Unix epoch.
pub const EARLIEST_INSTANT: i64 = -62135596800;

/// 9999-12-31 23:59:59 UTC, in seconds since the Unix epoch.
pub const LATEST_INSTANT: i64 = 253402300799;

/// The jar of the `cookie` crate.
#[verifier::external_type_specification]
#[verifier::external_body]
pub struct ExCookieJar(cookie::CookieJar);

/// The cookies that a jar of the `cookie` crate holds, by name: for each name
/// for which `get` returns a cookie, that cookie's value, domain and path
/// (empty where it has none), its secure flag (`false` where it has none),
/// and its expiration in whole seconds since the Unix epoch (`None` where it
/// has none or is a session cookie).
pub uninterp spec fn jar_cookies(target: cookie::CookieJar) -> Map<
    Seq<char>,
    (Seq<char>, Seq<char>, Seq<char>, bool, Option<i64>),
>;

/// No cookie under any name.
pub open spec fn no_cookies() -> Map<Seq<char>, (Seq<char>, Seq<char>, Seq<char>, bool, Option<i64>)> {
    Map::empty()
}

/// `cookie::CookieJar::new`: the new jar holds no cookie.
#[verifier::external_body]
fn empty_cookie_jar() -> (fresh: cookie::CookieJar)
    ensures
        jar_cookies(fresh) == no_cookies(),
{
    cookie::CookieJar::new()
}

/// `cookie::CookieJar::add`, on a cookie made by `cookie::Cookie::build` and
/// the builder's `domain`, `path`, `secure`, `expires` and `finish`, with the
/// instant from `time::OffsetDateTime::from_unix_timestamp`. The jar replaces
/// the cookie of the same name, if it holds one, and keeps all others. The
/// builder stores each text as given and the flag as set; it caps an instant
/// at the end of the year 9999, and `time` panics on one outside the years it
/// can hold: both are kept out by the bounds asked of `expires`.
#[verifier::external_body]
fn add_cookie(
    target: &mut cookie::CookieJar,
    name: &str,
    value: &str,
    domain: &str,
    path: &str,
    secure: bool,
    expires: Option<i64>,
)
    requires
        expires matches Some(t) ==> EARLIEST_INSTANT <= t <= LATEST_INSTANT,
    ensures
        jar_cookies(*final(target)) == jar_cookies(*old(target)).insert(
            name@,
            (value@, domain@, path@, secure, expires),
        ),
{
    let cookie = cookie::Cookie::build(name.to_owned(), value.to_owned())
        .domain(domain.to_owned())
        .path(path.to_owned())
        .secure(secure)
        .expires(expires.map(time::OffsetDateTime::from_unix_timestamp))
        .finish();
    target.add(cookie);
}

/// The record holds text in every field and an instant that a cookie of the
/// `cookie` crate can hold.
pub open spec fn exportable(r: RecordModel) -> bool {
    &&& is_text(r)
    &&& r.expiration matches Some(t) ==> EARLIEST_INSTANT <= t <= LATEST_INSTANT
}

/// `cookies` after the record was added under its name.
pub open spec fn with_cookie(
    cookies: Map<Seq<char>, (Seq<char>, Seq<char>, Seq<char>, bool, Option<i64>)>,
    r: RecordModel,
) -> Map<Seq<char>, (Seq<char>, Seq<char>, Seq<char>, bool, Option<i64>)> {
    cookies.insert(
        decode_utf8(r.name),
        (decode_utf8(r.value), decode_utf8(r.domain), decode_utf8(r.path), r.secure, r.expiration),
    )
}

/// The cookies by name that result from adding `records` first to last.
pub open spec fn cookies_of(records: Seq<RecordModel>) -> Map<
    Seq<char>,
    (Seq<char>, Seq<char>, Seq<char>, bool, Option<i64>),
>
    decreases records.len(),
{
    if records.len() == 0 {
        no_cookies()
    } else {
        with_cookie(cookies_of(records.drop_last()), records.last())
    }
}

/// Adds the record to `out` if it can be handed on, and says whether it was.
pub fn export_record(out: &mut cookie::CookieJar, record: &CookieRecord) -> (done: bool)
    ensures
        done == exportable(record@),
        jar_cookies(*final(out)) == if done {
            with_cookie(jar_cookies(*old(out)), record@)
        } else {
            jar_cookies(*old(out))
        },
{
    let in_range: bool = match record.expiration {
        Some(t) => EARLIEST_INSTANT <= t && t <= LATEST_INSTANT,
        None => true,
    };
    if !in_range {
        return false;
    }
    match (
        decode(record.name.as_slice()),
        decode(record.value.as_slice()),
        decode(record.domain.as_slice()),
        decode(record.path.as_slice()),
    ) {
        (Some(name), Some(value), Some(domain), Some(path)) => {
            add_cookie(out, name, value, domain, path, record.secure, record.expiration);
            true
        },
        _ => false,
    }
}

/// The cookies of `jar` in a jar of the `cookie` crate, or `None` where one
/// of them cannot be handed on.
pub fn to_cookie_jar(jar: &Cookies) -> (out: Option<cookie::CookieJar>)
    ensures
        out is Some <==> forall|i: int| 0 <= i < jar@.len() ==> exportable(#[trigger] jar@[i]),
        out matches Some(cookies) ==> jar_cookies(cookies) == cookies_of(jar@),
{
    let mut out = empty_cookie_jar();
    let mut i: usize = 0;
    proof {
        assert(jar@.take(0) =~= Seq::<RecordModel>::empty());
    }
    while i < jar.len()
        invariant
            i <= jar@.len(),
            forall|j: int| 0 <= j < i ==> exportable(#[trigger] jar@[j]),
            jar_cookies(out) == cookies_of(jar@.take(i as int)),
        decreases jar@.len() - i,
    {
        proof {
            assert(jar@.take(i + 1).drop_last() =~= jar@.take(i as int));
            assert(jar@.take(i + 1).last() == jar@[i as int]);
        }
        if !export_record(&mut out, jar.record(i)) {
            return None;
        }
        i += 1;
    }
    proof {
        assert(jar@.take(i as int) =~= jar@);
    }
    Some(out)
}

} // verus!
