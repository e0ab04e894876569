//! The timestamp normalizer: from a sidecar record to the two timestamps.
//!
//! A sidecar record is a JSON document with two date sub-records,
//! `photoTakenTime` and `creationTime`. Each may hold the date as epoch
//! seconds in the text field `timestamp`, or as a formatted date in the text
//! field `formatted`, or both. The epoch field is read first; the formatted
//! field is the fallback. Both are taken as they stand: no time zone is
//! applied to either.

use vstd::prelude::*;
use vstd::string::StrSliceExecFns;
use chrono::{Datelike, Timelike};
use crate::epoch::{calendar_at, from_epoch};
use crate::error::InjectError;
use crate::timestamp::{Calendar, NormalizedTimestamp};

verus! {

/// Declares `serde_json::Value`, the type of a sidecar record, so that it can
/// stand in signatures. The verifier sees nothing inside a value of it; what
/// the library reads from one, it reads through the lookups below.
#[verifier::external_type_specification]
#[verifier::external_body]
pub struct ExValue(serde_json::Value);

/// The text fields that a document holds two levels down: for each pair of a
/// sub-record's name and a field's name under which the document holds a
/// string, that string.
pub uninterp spec fn document_texts(doc: serde_json::Value) -> Map<(Seq<char>, Seq<char>), Seq<char>>;

/// The text fields that a document holds at its top: for each name under
/// which the document holds a string, that string.
pub uninterp spec fn document_labels(doc: serde_json::Value) -> Map<Seq<char>, Seq<char>>;

/// The calendar fields that `text` gives when read under `format`; `None`
/// where it does not match the format or names no date.
pub uninterp spec fn formatted_moment(text: Seq<char>, format: Seq<char>) -> Option<
    (int, int, int, int, int, int),
>;

/// The calendar fields as mathematical integers.
pub open spec fn widened(fields: Option<(i32, u32, u32, u32, u32, u32)>) -> Option<
    (int, int, int, int, int, int),
> {
    match fields {
        Some(f) => Some((f.0 as int, f.1 as int, f.2 as int, f.3 as int, f.4 as int, f.5 as int)),
        None => None,
    }
}

/// Looks a text field up in a document.
///
/// Calls `serde_json::Value::get` with the sub-record's name, `get` on what
/// that returns with the field's name, and `as_str` on the result. Trusted:
/// the result is the string that the document holds there, and `None` where
/// the document is no object, has no such sub-record or field, or holds
/// something other than a string there.
#[verifier::external_body]
fn lookup_text(doc: &serde_json::Value, record: &str, field: &str) -> (r: Option<String>)
    ensures
        r is Some <==> document_texts(*doc).contains_key((record@, field@)),
        r matches Some(s) ==> s@ == document_texts(*doc)[(record@, field@)],
{
    doc.get(record)?.get(field)?.as_str().map(|s| s.to_owned())
}

/// Looks a text field up at the top of a document.
///
/// Calls `serde_json::Value::get` with the field's name and `as_str` on the
/// result. Trusted: the result is the string that the document holds there,
/// and `None` where the document is no object, has no such field, or holds
/// something other than a string there.
#[verifier::external_body]
fn lookup_label(doc: &serde_json::Value, field: &str) -> (r: Option<String>)
    ensures
        r is Some <==> document_labels(*doc).contains_key(field@),
        r matches Some(s) ==> s@ == document_labels(*doc)[field@],
{
    doc.get(field)?.as_str().map(|s| s.to_owned())
}

/// The calendar fields of a formatted date.
///
/// Calls `chrono::NaiveDateTime::parse_from_str` and reads the fields of what
/// it returns. Trusted: the result depends on the text and the format alone,
/// and is `None` where the call fails.
#[verifier::external_body]
fn read_formatted(text: &str, format: &str) -> (r: Option<(i32, u32, u32, u32, u32, u32)>)
    ensures
        widened(r) == formatted_moment(text@, format@),
{
    match chrono::NaiveDateTime::parse_from_str(text, format) {
        Ok(n) => Some((n.year(), n.month(), n.day(), n.hour(), n.minute(), n.second())),
        Err(_) => None,
    }
}

/// The format of a formatted date: abbreviated month name, day, year,
/// twelve-hour time with seconds, `AM` or `PM`, and the letters `UTC`.
pub open spec fn date_format() -> &'static str {
    "%b %d, %Y %I:%M:%S %p UTC"
}

fn date_format_text() -> (r: &'static str)
    ensures
        r == date_format(),
{
    "%b %d, %Y %I:%M:%S %p UTC"
}

/// Whether a character is a decimal digit.
pub open spec fn is_digit(c: char) -> bool {
    '0' <= c && c <= '9'
}

/// Whether a text is made of decimal digits alone.
pub open spec fn all_digits(s: Seq<char>) -> bool {
    forall|i: int| 0 <= i < s.len() ==> is_digit(#[trigger] s[i])
}

/// The number that a run of decimal digits stands for.
pub open spec fn decimal(s: Seq<char>) -> int
    decreases s.len(),
{
    if s.len() == 0 {
        0
    } else {
        10 * decimal(s.drop_last()) + (s.last() as int - '0' as int)
    }
}

/// The digits of an epoch text: the text without its minus sign.
pub open spec fn magnitude(text: Seq<char>) -> Seq<char> {
    if text.len() > 0 && text[0] == '-' {
        text.skip(1)
    } else {
        text
    }
}

/// The epoch seconds that a text stands for: an optional minus sign and at
/// least one decimal digit, the number within 64 bits; otherwise `None`.
pub open spec fn epoch_seconds(text: Seq<char>) -> Option<int> {
    let digits = magnitude(text);
    let value = if text.len() > 0 && text[0] == '-' {
        -decimal(digits)
    } else {
        decimal(digits)
    };
    if digits.len() == 0 || !all_digits(digits) {
        None
    } else if value < i64::MIN || value > i64::MAX {
        None
    } else {
        Some(value)
    }
}

/// The timestamp with the given calendar fields, if they name one.
pub open spec fn moment_of(fields: Option<(int, int, int, int, int, int)>) -> Option<Calendar> {
    match fields {
        Some(f) => {
            let c = Calendar {
                year: f.0,
                month: f.1,
                day: f.2,
                hour: f.3,
                minute: f.4,
                second: f.5,
            };
            if c.valid() {
                Some(c)
            } else {
                None
            }
        },
        None => None,
    }
}

/// The timestamp that an epoch text stands for.
pub open spec fn from_epoch_text(text: Seq<char>) -> Option<Calendar> {
    match epoch_seconds(text) {
        Some(seconds) => calendar_at(seconds),
        None => None,
    }
}

/// The timestamp that a formatted date stands for.
pub open spec fn from_formatted_text(text: Seq<char>) -> Option<Calendar> {
    moment_of(formatted_moment(text, date_format()@))
}

/// The timestamp of one sub-record.
///
/// The epoch field decides where it is present and stands for a timestamp;
/// otherwise the formatted field does. `MissingField` where the sub-record
/// has neither field, `MalformedTimestamp` where it has one and none stands
/// for a timestamp.
pub open spec fn timestamp_of(
    epoch: Option<Seq<char>>,
    formatted: Option<Seq<char>>,
) -> Result<Calendar, InjectError> {
    if epoch is Some && from_epoch_text(epoch.unwrap()) is Some {
        Ok(from_epoch_text(epoch.unwrap()).unwrap())
    } else if formatted is Some && from_formatted_text(formatted.unwrap()) is Some {
        Ok(from_formatted_text(formatted.unwrap()).unwrap())
    } else if epoch is Some || formatted is Some {
        Err(InjectError::MalformedTimestamp)
    } else {
        Err(InjectError::MissingField)
    }
}

/// The text that a document holds under a sub-record and a field, if any.
pub open spec fn text_at(doc: serde_json::Value, record: Seq<char>, field: Seq<char>) -> Option<
    Seq<char>,
> {
    if document_texts(doc).contains_key((record, field)) {
        Some(document_texts(doc)[(record, field)])
    } else {
        None
    }
}

/// The timestamp of the sub-record `record` of a document.
pub open spec fn record_timestamp(doc: serde_json::Value, record: Seq<char>) -> Result<
    Calendar,
    InjectError,
> {
    timestamp_of(text_at(doc, record, "timestamp"@), text_at(doc, record, "formatted"@))
}

/// The two timestamps of a document: the time the picture was taken, then the
/// time it was created. The first failure decides, the taken time first.
pub open spec fn normalized(doc: serde_json::Value) -> Result<(Calendar, Calendar), InjectError> {
    match record_timestamp(doc, "photoTakenTime"@) {
        Err(e) => Err(e),
        Ok(taken) => match record_timestamp(doc, "creationTime"@) {
            Err(e) => Err(e),
            Ok(created) => Ok((taken, created)),
        },
    }
}

/// The digits of a longer run stand for at least as much as those of its
/// beginning.
pub proof fn lemma_decimal_grows(s: Seq<char>, n: int)
    requires
        all_digits(s),
        0 <= n <= s.len(),
    ensures
        0 <= decimal(s.take(n)) <= decimal(s),
    decreases s.len() - n,
{
    if n == s.len() {
        assert(s.take(n) =~= s);
        lemma_decimal_nonnegative(s);
    } else {
        lemma_decimal_grows(s, n + 1);
        assert(s.take(n + 1).drop_last() =~= s.take(n));
        assert(is_digit(s[n]));
        assert(s.take(n + 1).last() == s[n]);
        lemma_decimal_nonnegative(s.take(n));
    }
}

proof fn lemma_decimal_nonnegative(s: Seq<char>)
    requires
        all_digits(s),
    ensures
        0 <= decimal(s),
    decreases s.len(),
{
    if s.len() > 0 {
        assert(all_digits(s.drop_last())) by {
            assert forall|i: int| 0 <= i < s.drop_last().len() implies is_digit(
                #[trigger] s.drop_last()[i],
            ) by {
                assert(s.drop_last()[i] == s[i]);
            }
        }
        lemma_decimal_nonnegative(s.drop_last());
        assert(is_digit(s.last()));
    }
}

/// Reads a text as epoch seconds.
pub fn parse_epoch(text: &str) -> (r: Option<i64>)
    ensures
        match r {
            Some(v) => epoch_seconds(text@) == Some(v as int),
            None => epoch_seconds(text@) is None,
        },
{
    let n = text.unicode_len();
    if n == 0 {
        return None;
    }
    let negative = text.get_char(0) == '-';
    let start: usize = if negative {
        1
    } else {
        0
    };
    if start == n {
        return None;
    }
    let ghost digits = magnitude(text@);
    let mut acc: i128 = 0;
    let mut i: usize = start;
    assert(digits.take(0) =~= Seq::<char>::empty());
    while i < n
        invariant
            start <= i <= n,
            n == text@.len(),
            start == (if negative {
                1usize
            } else {
                0usize
            }),
            negative == (text@.len() > 0 && text@[0] == '-'),
            digits == magnitude(text@),
            all_digits(digits.take(i - start)),
            acc == decimal(digits.take(i - start)),
            0 <= acc <= 0x8000_0000_0000_0000,
        decreases n - i,
    {
        let c = text.get_char(i);
        assert(c == digits[i - start]);
        if !(c >= '0' && c <= '9') {
            assert(!is_digit(digits[i - start]));
            return None;
        }
        let d: i128 = (c as u32 - '0' as u32) as i128;
        acc = acc * 10 + d;
        proof {
            let k = i - start;
            assert(digits.take(k + 1).drop_last() =~= digits.take(k));
            assert(digits.take(k + 1).last() == c);
            assert forall|j: int| 0 <= j < k + 1 implies is_digit(
                #[trigger] digits.take(k + 1)[j],
            ) by {
                if j < k {
                    assert(digits.take(k + 1)[j] == digits.take(k)[j]);
                }
            }
        }
        i += 1;
        if acc > 0x8000_0000_0000_0000 {
            proof {
                if all_digits(digits) {
                    lemma_decimal_grows(digits, i - start);
                }
            }
            return None;
        }
    }
    assert(digits.take(digits.len() as int) =~= digits);
    if negative {
        Some((-acc) as i64)
    } else if acc > 0x7FFF_FFFF_FFFF_FFFF {
        None
    } else {
        Some(acc as i64)
    }
}

/// The timestamp with the calendar fields that a reader returned, if they
/// name one with a four-digit year.
pub fn moment_from_fields(fields: Option<(i32, u32, u32, u32, u32, u32)>) -> (r: Option<
    NormalizedTimestamp,
>)
    ensures
        match r {
            Some(ts) => moment_of(widened(fields)) == Some(ts@),
            None => moment_of(widened(fields)) is None,
        },
{
    match fields {
        Some(f) => NormalizedTimestamp::new(f.0, f.1, f.2, f.3, f.4, f.5),
        None => None,
    }
}

/// Reads an epoch text as a timestamp.
pub fn timestamp_from_epoch(text: &str) -> (r: Option<NormalizedTimestamp>)
    ensures
        match r {
            Some(ts) => from_epoch_text(text@) == Some(ts@),
            None => from_epoch_text(text@) is None,
        },
{
    match parse_epoch(text) {
        Some(seconds) => from_epoch(seconds),
        None => None,
    }
}

/// Reads a formatted date as a timestamp.
pub fn timestamp_from_formatted(text: &str) -> (r: Option<NormalizedTimestamp>)
    ensures
        match r {
            Some(ts) => from_formatted_text(text@) == Some(ts@),
            None => from_formatted_text(text@) is None,
        },
{
    moment_from_fields(read_formatted(text, date_format_text()))
}

/// The timestamp of a sub-record, from the texts of its two date fields.
pub fn choose_timestamp(epoch: Option<String>, formatted: Option<String>) -> (r: Result<
    NormalizedTimestamp,
    InjectError,
>)
    ensures
        match r {
            Ok(ts) => timestamp_of(views_of(epoch), views_of(formatted)) == Ok::<
                Calendar,
                InjectError,
            >(ts@),
            Err(e) => timestamp_of(views_of(epoch), views_of(formatted)) == Err::<
                Calendar,
                InjectError,
            >(e),
        },
{
    if let Some(text) = &epoch {
        if let Some(ts) = timestamp_from_epoch(text.as_str()) {
            return Ok(ts);
        }
    }
    if let Some(text) = &formatted {
        if let Some(ts) = timestamp_from_formatted(text.as_str()) {
            return Ok(ts);
        }
    }
    if epoch.is_some() || formatted.is_some() {
        Err(InjectError::MalformedTimestamp)
    } else {
        Err(InjectError::MissingField)
    }
}

/// The text of an optional string.
pub open spec fn views_of(text: Option<String>) -> Option<Seq<char>> {
    match text {
        Some(s) => Some(s@),
        None => None,
    }
}

/// Reads the timestamp of one sub-record of a document.
pub fn read_record(doc: &serde_json::Value, record: &str) -> (r: Result<
    NormalizedTimestamp,
    InjectError,
>)
    ensures
        match r {
            Ok(ts) => record_timestamp(*doc, record@) == Ok::<Calendar, InjectError>(ts@),
            Err(e) => record_timestamp(*doc, record@) == Err::<Calendar, InjectError>(e),
        },
{
    let epoch = lookup_text(doc, record, "timestamp");
    let formatted = lookup_text(doc, record, "formatted");
    choose_timestamp(epoch, formatted)
}

/// Reads the two timestamps of a sidecar record: the time the picture was
/// taken and the time it was created.
pub fn normalize(doc: &serde_json::Value) -> (r: Result<
    (NormalizedTimestamp, NormalizedTimestamp),
    InjectError,
>)
    ensures
        match r {
            Ok(pair) => normalized(*doc) == Ok::<(Calendar, Calendar), InjectError>(
                (pair.0@, pair.1@),
            ),
            Err(e) => normalized(*doc) == Err::<(Calendar, Calendar), InjectError>(e),
        },
{
    let taken = match read_record(doc, "photoTakenTime") {
        Ok(ts) => ts,
        Err(e) => {
            return Err(e);
        },
    };
    let created = match read_record(doc, "creationTime") {
        Ok(ts) => ts,
        Err(e) => {
            return Err(e);
        },
    };
    Ok((taken, created))
}


/// The name of the image that a sidecar record belongs to: the text of its
/// field `title`, if it has one.
pub open spec fn title_of(doc: serde_json::Value) -> Option<Seq<char>> {
    if document_labels(doc).contains_key("title"@) {
        Some(document_labels(doc)["title"@])
    } else {
        None
    }
}

/// Reads the name of the image that a sidecar record belongs to.
pub fn image_title(doc: &serde_json::Value) -> (r: Option<String>)
    ensures
        views_of(r) == title_of(*doc),
{
    lookup_label(doc, "title")
}

} // verus!
