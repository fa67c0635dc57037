//! The text form of a record.
//!
//! A record is written as one line: a JSON object with a single member, whose
//! name tells the two kinds of record apart, followed by a line feed.
//!
//! ```text
//! {"Set":["key","value"]}
//! {"Remove":"key"}
//! ```
//!
//! The frame around the payload is this module's own; the payload, a JSON
//! string or an array of two, is written and read by `serde_json`.

use crate::error::KvsError;
use crate::kv::{Log, LogView};
use vstd::prelude::*;
use vstd::string::*;

verus! {

/// The byte that ends every record.
pub const DELIMITER: u8 = 0x0a;

/// The most bytes that the payload of a record may have. `serde_json` keeps
/// count of what it reads in 32 bits with a sign; a payload within this
/// limit cannot take such a count out of its range.
pub const PAYLOAD_LIMIT: usize = 0x7fff_ffff;

/// Which of the two shapes of record a line has.
#[derive(Debug, Clone, Copy, PartialEq, Eq, Structural)]
pub enum Tag {
    /// `{"Set":[key,value]}`
    Put,
    /// `{"Remove":key}`
    Remove,
}

/// Why a line is not a record.
pub enum Fault {
    /// The line does not have the frame of either kind of record, or its
    /// payload is longer than [`PAYLOAD_LIMIT`].
    Malformed,
    /// The frame is there, and `serde_json` refuses what it holds.
    Payload,
}

/// The bytes of a line up to its payload.
pub open spec fn opening(tag: Tag) -> Seq<u8> {
    match tag {
        Tag::Put => "{\"Set\":".spec_bytes(),
        Tag::Remove => "{\"Remove\":".spec_bytes(),
    }
}

/// The bytes of a line after its payload: the closing brace and the delimiter.
pub open spec fn closing() -> Seq<u8> {
    "}\n".spec_bytes()
}

/// The line that holds `payload` in the frame of `tag`.
pub open spec fn framed(tag: Tag, payload: Seq<u8>) -> Seq<u8> {
    opening(tag) + payload + closing()
}

/// Whether `line` begins and ends as a record of kind `tag` does.
pub open spec fn has_frame(line: Seq<u8>, tag: Tag) -> bool {
    &&& line.len() >= opening(tag).len() + closing().len()
    &&& line.subrange(0, opening(tag).len() as int) == opening(tag)
    &&& line.subrange(line.len() - closing().len(), line.len() as int) == closing()
}

/// What stands between the opening and the closing of a line of kind `tag`.
pub open spec fn payload_of(line: Seq<u8>, tag: Tag) -> Seq<u8> {
    line.subrange(opening(tag).len() as int, line.len() - closing().len())
}

/// The kind and the payload of a line, where it has the frame of a record.
pub open spec fn unframed(line: Seq<u8>) -> Option<(Tag, Seq<u8>)> {
    if has_frame(line, Tag::Put) {
        Some((Tag::Put, payload_of(line, Tag::Put)))
    } else if has_frame(line, Tag::Remove) {
        Some((Tag::Remove, payload_of(line, Tag::Remove)))
    } else {
        None
    }
}

/// Whether `line` holds exactly one delimiter, as its last byte.
pub open spec fn is_line(line: Seq<u8>) -> bool {
    line.index_of_first(DELIMITER) == Some(line.len() - 1)
}

/// The JSON text that `serde_json` writes for one string.
pub uninterp spec fn json_of_text(text: Seq<char>) -> Seq<u8>;

/// The JSON text of an array of two strings: the texts of the two between
/// brackets, with a comma between them.
pub open spec fn json_of_pair(first: Seq<char>, second: Seq<char>) -> Seq<u8> {
    "[".spec_bytes() + json_of_text(first) + ",".spec_bytes() + json_of_text(second)
        + "]".spec_bytes()
}

/// The two strings that `serde_json` reads from a JSON text, or `None` where
/// it refuses the text.
pub uninterp spec fn pair_of_json(json: Seq<u8>) -> Option<(Seq<char>, Seq<char>)>;

/// The string that `serde_json` reads from a JSON text, or `None` where it
/// refuses the text.
pub uninterp spec fn text_of_json(json: Seq<u8>) -> Option<Seq<char>>;

/// The payload of the line that stands for a record.
pub open spec fn payload(record: LogView) -> Seq<u8> {
    match record {
        LogView::Put(key, value) => json_of_pair(key, value),
        LogView::Remove(key) => json_of_text(key),
    }
}

/// Whether a record can be written: its payload is within the limit.
pub open spec fn fits(record: LogView) -> bool {
    payload(record).len() <= PAYLOAD_LIMIT
}

/// The line that stands for a record.
pub open spec fn encoded(record: LogView) -> Seq<u8> {
    match record {
        LogView::Put(_, _) => framed(Tag::Put, payload(record)),
        LogView::Remove(_) => framed(Tag::Remove, payload(record)),
    }
}

/// The record that a line stands for.
pub open spec fn decoded(line: Seq<u8>) -> Result<LogView, Fault> {
    match unframed(line) {
        None => Err(Fault::Malformed),
        Some((tag, payload)) => if payload.len() > PAYLOAD_LIMIT {
            Err(Fault::Malformed)
        } else {
            match tag {
                Tag::Put => match pair_of_json(payload) {
                    Some((key, value)) => Ok(LogView::Put(key, value)),
                    None => Err(Fault::Payload),
                },
                Tag::Remove => match text_of_json(payload) {
                    Some(key) => Ok(LogView::Remove(key)),
                    None => Err(Fault::Payload),
                },
            }
        },
    }
}

/// The bytes of the three pieces of a frame, one by one.
pub proof fn lemma_frame_bytes()
    ensures
        opening(Tag::Put) == seq![0x7bu8, 0x22, 0x53, 0x65, 0x74, 0x22, 0x3a],
        opening(Tag::Remove) == seq![
            0x7bu8,
            0x22,
            0x52,
            0x65,
            0x6d,
            0x6f,
            0x76,
            0x65,
            0x22,
            0x3a,
        ],
        closing() == seq![0x7du8, DELIMITER],
{
    reveal_strlit("{\"Set\":");
    reveal_strlit("{\"Remove\":");
    reveal_strlit("}\n");
    let put = "{\"Set\":";
    let remove = "{\"Remove\":";
    let close = "}\n";
    is_ascii_spec_bytes(put);
    is_ascii_spec_bytes(remove);
    is_ascii_spec_bytes(close);
    assert(opening(Tag::Remove) =~= seq![
        0x7bu8,
        0x22,
        0x52,
        0x65,
        0x6d,
        0x6f,
        0x76,
        0x65,
        0x22,
        0x3a,
    ]);
}

/// Taking a frame off the line that `framed` built gives back the kind and
/// the payload.
pub proof fn lemma_unframed_framed(tag: Tag, payload: Seq<u8>)
    ensures
        unframed(framed(tag, payload)) == Some((tag, payload)),
{
    lemma_frame_bytes();
    let line = framed(tag, payload);
    assert(line.subrange(0, opening(tag).len() as int) =~= opening(tag));
    assert(line.subrange(line.len() - closing().len(), line.len() as int) =~= closing());
}

/// A framed payload that holds no delimiter is one line.
pub proof fn lemma_framed_is_line(tag: Tag, payload: Seq<u8>)
    requires
        !payload.contains(DELIMITER),
    ensures
        is_line(framed(tag, payload)),
{
    lemma_frame_bytes();
    let line = framed(tag, payload);
    let last = line.len() - 1;
    assert(line[last] == DELIMITER);
    line.index_of_first_ensures(DELIMITER);
}

/// `serde_json::to_vec` on a pair of strings. The contract claims that the
/// call succeeds: writing strings into a vector of bytes has nothing to
/// fail on. It claims of the text that it is the array of the texts of the
/// two strings, that it holds no line feed, and that `serde_json` reads the
/// same two strings back from it.
#[verifier::external_body]
fn pair_to_json(first: &str, second: &str) -> (res: Result<Vec<u8>, serde_json::Error>)
    ensures
        res is Ok,
        res matches Ok(json) ==> {
            &&& json@ == json_of_pair(first@, second@)
            &&& pair_of_json(json@) == Some((first@, second@))
            &&& !json@.contains(DELIMITER)
        },
{
    serde_json::to_vec(&(first, second))
}

/// `serde_json::to_vec` on one string. The contract claims that the call
/// succeeds: writing a string into a vector of bytes has nothing to fail on.
/// It names the text, and claims of it that it holds no line feed and that
/// `serde_json` reads the same string back from it.
#[verifier::external_body]
fn text_to_json(text: &str) -> (res: Result<Vec<u8>, serde_json::Error>)
    ensures
        res is Ok,
        res matches Ok(json) ==> {
            &&& json@ == json_of_text(text@)
            &&& text_of_json(json@) == Some(text@)
            &&& !json@.contains(DELIMITER)
        },
{
    serde_json::to_vec(text)
}

/// `serde_json::from_slice` at the type of a pair of strings, on a text
/// within the limit: beyond it the count that `serde_json` keeps of the
/// digits of a number can leave its range. The contract names what the call
/// reads, and says that it fails exactly where there is no such pair.
#[verifier::external_body]
fn json_to_pair(json: &[u8]) -> (res: Result<(String, String), serde_json::Error>)
    requires
        json@.len() <= PAYLOAD_LIMIT,
    ensures
        match res {
            Ok(pair) => pair_of_json(json@) == Some((pair.0@, pair.1@)),
            Err(_) => pair_of_json(json@) is None,
        },
{
    serde_json::from_slice::<(String, String)>(json)
}

/// `serde_json::from_slice` at the type of a string, on a text within the
/// limit: beyond it the count that `serde_json` keeps of the digits of a
/// number can leave its range. The contract names what the call reads, and
/// says that it fails exactly where there is no such string.
#[verifier::external_body]
fn json_to_text(json: &[u8]) -> (res: Result<String, serde_json::Error>)
    requires
        json@.len() <= PAYLOAD_LIMIT,
    ensures
        match res {
            Ok(text) => text_of_json(json@) == Some(text@),
            Err(_) => text_of_json(json@) is None,
        },
{
    serde_json::from_slice::<String>(json)
}

fn opening_bytes(tag: Tag) -> (res: &'static [u8])
    ensures
        res@ == opening(tag),
{
    match tag {
        Tag::Put => "{\"Set\":".as_bytes(),
        Tag::Remove => "{\"Remove\":".as_bytes(),
    }
}

fn closing_bytes() -> (res: &'static [u8])
    ensures
        res@ == closing(),
{
    "}\n".as_bytes()
}

/// Whether `bytes` holds `part` from position `at` on.
pub(crate) fn holds_at(bytes: &[u8], at: usize, part: &[u8]) -> (res: bool)
    requires
        at + part@.len() <= bytes@.len(),
    ensures
        res == (bytes@.subrange(at as int, at + part@.len()) == part@),
{
    let total = bytes.len();
    let mut i: usize = 0;
    while i < part.len()
        invariant
            i <= part@.len(),
            at + part@.len() <= bytes@.len() == total,
            bytes@.subrange(at as int, at + i) =~= part@.subrange(0, i as int),
        decreases part@.len() - i,
    {
        if bytes[at + i] != part[i] {
            return false;
        }
        i += 1;
    }
    assert(part@.subrange(0, i as int) =~= part@);
    true
}

/// Puts a payload into the frame of a record of kind `tag`.
pub fn frame(tag: Tag, payload: &[u8]) -> (line: Vec<u8>)
    ensures
        line@ == framed(tag, payload@),
{
    let mut line: Vec<u8> = Vec::new();
    line.extend_from_slice(opening_bytes(tag));
    line.extend_from_slice(payload);
    line.extend_from_slice(closing_bytes());
    line
}

/// Whether `line` has the frame of a record of kind `tag`.
fn frame_fits(line: &[u8], tag: Tag) -> (res: bool)
    ensures
        res == has_frame(line@, tag),
{
    let open = opening_bytes(tag);
    let close = closing_bytes();
    proof {
        lemma_frame_bytes();
    }
    if line.len() < open.len() + close.len() {
        return false;
    }
    holds_at(line, 0, open) && holds_at(line, line.len() - close.len(), close)
}

/// Takes the frame off a line: the kind of record and its payload, or `None`
/// where the line has the frame of neither kind.
pub fn unframe(line: &[u8]) -> (res: Option<(Tag, &[u8])>)
    ensures
        match res {
            Some((tag, payload)) => unframed(line@) == Some((tag, payload@)),
            None => unframed(line@) is None,
        },
{
    proof {
        lemma_frame_bytes();
    }
    if frame_fits(line, Tag::Put) {
        let payload = vstd::slice::slice_subrange(
            line,
            opening_bytes(Tag::Put).len(),
            line.len() - closing_bytes().len(),
        );
        Some((Tag::Put, payload))
    } else if frame_fits(line, Tag::Remove) {
        let payload = vstd::slice::slice_subrange(
            line,
            opening_bytes(Tag::Remove).len(),
            line.len() - closing_bytes().len(),
        );
        Some((Tag::Remove, payload))
    } else {
        None
    }
}

/// The line that stands for `log`: its frame around the JSON text of its
/// strings. The call succeeds exactly where the record fits: the line is
/// `encoded(log@)`, it is one line, and [`decode`] reads `log` back from it.
/// A record whose payload is beyond the limit is refused with
/// `InvalidArgument`.
pub fn encode(log: &Log) -> (res: Result<Vec<u8>, KvsError>)
    ensures
        match res {
            Ok(line) => {
                &&& fits(log@)
                &&& line@ == encoded(log@)
                &&& decoded(line@) == Ok::<LogView, Fault>(log@)
                &&& is_line(line@)
            },
            Err(e) => e is InvalidArgument && !fits(log@),
        },
{
    let (tag, written) = match log {
        Log::Put(key, value) => (Tag::Put, pair_to_json(key.as_str(), value.as_str())),
        Log::Remove(key) => (Tag::Remove, text_to_json(key.as_str())),
    };
    match written {
        Ok(json) => {
            if json.len() > PAYLOAD_LIMIT {
                return Err(KvsError::InvalidArgument);
            }
            proof {
                lemma_unframed_framed(tag, json@);
                lemma_framed_is_line(tag, json@);
            }
            Ok(frame(tag, json.as_slice()))
        },
        Err(e) => Err(KvsError::Serde(e)),
    }
}

/// Reads the record that `line` stands for. The result is `Ok` exactly where
/// `decoded(line@)` is; `Malformed` comes where the frame is missing or the
/// payload is beyond the limit, `Serde` where `serde_json` refuses the
/// payload.
pub fn decode(line: &[u8]) -> (res: Result<Log, KvsError>)
    ensures
        match res {
            Ok(log) => decoded(line@) == Ok::<LogView, Fault>(log@),
            Err(KvsError::Malformed) => decoded(line@) == Err::<LogView, Fault>(Fault::Malformed),
            Err(KvsError::Serde(_)) => decoded(line@) == Err::<LogView, Fault>(Fault::Payload),
            Err(_) => false,
        },
{
    match unframe(line) {
        None => Err(KvsError::Malformed),
        Some((tag, payload)) => {
            if payload.len() > PAYLOAD_LIMIT {
                return Err(KvsError::Malformed);
            }
            match tag {
                Tag::Put => match json_to_pair(payload) {
                    Ok(pair) => Ok(Log::Put(pair.0, pair.1)),
                    Err(e) => Err(KvsError::Serde(e)),
                },
                Tag::Remove => match json_to_text(payload) {
                    Ok(key) => Ok(Log::Remove(key)),
                    Err(e) => Err(KvsError::Serde(e)),
                },
            }
        },
    }
}

} // verus!
