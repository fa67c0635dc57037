//! The log as a whole: a sequence of lines, one record each.

use crate::codec::{
    decode, decoded, encode, encoded, fits, holds_at, is_line, Fault, DELIMITER,
};
use crate::error::KvsError;
use crate::kv::{log_views, views, Log, LogView, SizedLog, Storage};
use crate::model::{latest, total};
use vstd::prelude::*;

verus! {

/// `done` followed by what the rest of the log holds, where the rest is sound.
pub open spec fn followed(
    done: Seq<(LogView, nat)>,
    rest: Result<Seq<(LogView, nat)>, Fault>,
) -> Result<Seq<(LogView, nat)>, Fault> {
    match rest {
        Ok(records) => Ok(done + records),
        Err(fault) => Err(fault),
    }
}

/// The records that a log holds, oldest first, each with the length of its
/// line. A log is sound where it is a sequence of lines, each of which ends
/// in a delimiter and stands for a record; the fault is that of the first
/// line that does not.
pub open spec fn parsed(bytes: Seq<u8>) -> Result<Seq<(LogView, nat)>, Fault>
    decreases bytes.len(),
{
    if bytes.len() == 0 {
        Ok(Seq::empty())
    } else {
        match bytes.index_of_first(DELIMITER) {
            None => Err(Fault::Malformed),
            Some(at) => {
                if 0 <= at < bytes.len() {
                    match decoded(bytes.take(at + 1)) {
                        Err(fault) => Err(fault),
                        Ok(record) => followed(
                            seq![(record, (at + 1) as nat)],
                            parsed(bytes.skip(at + 1)),
                        ),
                    }
                } else {
                    Err(Fault::Malformed)
                }
            },
        }
    }
}

/// Where the first delimiter of `bytes` stands, stated by what holds there.
pub proof fn lemma_first_delimiter(bytes: Seq<u8>, at: int)
    requires
        0 <= at < bytes.len(),
        bytes[at] == DELIMITER,
        forall|j: int| 0 <= j < at ==> bytes[j] != DELIMITER,
    ensures
        bytes.index_of_first(DELIMITER) == Some(at),
{
    bytes.index_of_first_ensures(DELIMITER);
}

/// A sound log with one more line at its end holds one more record.
pub proof fn lemma_parsed_append(bytes: Seq<u8>, line: Seq<u8>)
    requires
        parsed(bytes) is Ok,
        is_line(line),
    ensures
        parsed(bytes + line) == match decoded(line) {
            Ok(record) => Ok::<Seq<(LogView, nat)>, Fault>(
                parsed(bytes)->Ok_0.push((record, line.len())),
            ),
            Err(fault) => Err(fault),
        },
    decreases bytes.len(),
{
    line.index_of_first_ensures(DELIMITER);
    if bytes.len() == 0 {
        let at = line.len() - 1;
        assert(line.take(at + 1) =~= line);
        assert(parsed(line.skip(at + 1)) == Ok::<Seq<(LogView, nat)>, Fault>(Seq::empty()));
        match decoded(line) {
            Ok(record) => {
                assert(seq![(record, (at + 1) as nat)] + Seq::<(LogView, nat)>::empty()
                    =~= Seq::<(LogView, nat)>::empty().push((record, line.len())));
            },
            Err(_) => {},
        }
    } else {
        bytes.index_of_first_ensures(DELIMITER);
        let at = bytes.index_of_first(DELIMITER)->Some_0;
        let whole = bytes + line;
        lemma_first_delimiter(whole, at);
        assert(whole.take(at + 1) =~= bytes.take(at + 1));
        assert(whole.skip(at + 1) =~= bytes.skip(at + 1) + line);
        lemma_parsed_append(bytes.skip(at + 1), line);
        let head = decoded(bytes.take(at + 1))->Ok_0;
        let tail = parsed(bytes.skip(at + 1))->Ok_0;
        match decoded(line) {
            Ok(record) => {
                assert(seq![(head, (at + 1) as nat)] + tail.push((record, line.len()))
                    =~= (seq![(head, (at + 1) as nat)] + tail).push((record, line.len())));
            },
            Err(_) => {},
        }
    }
}

/// Reads a whole log. The result is `Ok` exactly where the log is sound, and
/// then holds its records in order, each with the length of its line.
/// `Malformed` comes where the first unsound line has no frame or no
/// delimiter, `Serde` where `serde_json` refuses its payload.
pub fn scan(bytes: &[u8]) -> (res: Result<Vec<SizedLog>, KvsError>)
    ensures
        match res {
            Ok(records) => parsed(bytes@) == Ok::<Seq<(LogView, nat)>, Fault>(views(records@)),
            Err(KvsError::Malformed) => parsed(bytes@) == Err::<Seq<(LogView, nat)>, Fault>(
                Fault::Malformed,
            ),
            Err(KvsError::Serde(_)) => parsed(bytes@) == Err::<Seq<(LogView, nat)>, Fault>(
                Fault::Payload,
            ),
            Err(_) => false,
        },
{
    let total = bytes.len();
    let mut records: Vec<SizedLog> = Vec::new();
    let mut start: usize = 0;
    assert(bytes@.skip(0) =~= bytes@);
    while start < total
        invariant
            start <= total == bytes@.len(),
            parsed(bytes@) == followed(views(records@), parsed(bytes@.skip(start as int))),
        decreases total - start,
    {
        let ghost rest = bytes@.skip(start as int);
        let mut end: usize = start;
        while end < total && bytes[end] != DELIMITER
            invariant
                start <= end <= total == bytes@.len(),
                forall|j: int| start <= j < end ==> bytes@[j] != DELIMITER,
            decreases total - end,
        {
            end += 1;
        }
        if end == total {
            proof {
                rest.index_of_first_ensures(DELIMITER);
            }
            return Err(KvsError::Malformed);
        }
        let line = vstd::slice::slice_subrange(bytes, start, end + 1);
        proof {
            lemma_first_delimiter(rest, end - start);
            assert(rest.take(end - start + 1) =~= line@);
            assert(rest.skip(end - start + 1) =~= bytes@.skip(end + 1));
        }
        match decode(line) {
            Err(e) => {
                return Err(e);
            },
            Ok(log) => {
                let ghost before = views(records@);
                records.push(SizedLog::new(log, end + 1 - start));
                proof {
                    let one = seq![(log@, (end - start + 1) as nat)];
                    assert(views(records@) =~= before + one);
                    match parsed(bytes@.skip(end + 1)) {
                        Ok(tail) => {
                            assert(before + (one + tail) =~= (before + one) + tail);
                        },
                        Err(_) => {},
                    }
                }
            },
        }
        start = end + 1;
    }
    Ok(records)
}

/// The log that holds `records` in this order and nothing else.
pub open spec fn image(records: Seq<LogView>) -> Seq<u8>
    decreases records.len(),
{
    if records.len() == 0 {
        Seq::empty()
    } else {
        image(records.drop_last()) + encoded(records.last())
    }
}

/// Each of `records` with the length of the line that stands for it.
pub open spec fn sized(records: Seq<LogView>) -> Seq<(LogView, nat)> {
    Seq::new(records.len(), |i: int| (records[i], encoded(records[i]).len()))
}

proof fn lemma_total_prepend(first: (LogView, nat), rest: Seq<(LogView, nat)>)
    ensures
        total(seq![first] + rest) == first.1 + total(rest),
    decreases rest.len(),
{
    let whole = seq![first] + rest;
    if rest.len() == 0 {
        assert(total(whole.drop_last()) == 0);
    } else {
        lemma_total_prepend(first, rest.drop_last());
        assert(whole.drop_last() =~= seq![first] + rest.drop_last());
    }
}

/// A sound log is as long as the lines of its records are together.
pub proof fn lemma_parsed_total(bytes: Seq<u8>)
    requires
        parsed(bytes) is Ok,
    ensures
        total(parsed(bytes)->Ok_0) == bytes.len(),
    decreases bytes.len(),
{
    if bytes.len() > 0 {
        bytes.index_of_first_ensures(DELIMITER);
        let at = bytes.index_of_first(DELIMITER)->Some_0;
        let head = decoded(bytes.take(at + 1))->Ok_0;
        lemma_parsed_total(bytes.skip(at + 1));
        lemma_total_prepend((head, (at + 1) as nat), parsed(bytes.skip(at + 1))->Ok_0);
    }
}

/// The log that holds `records` and nothing else is as long as their lines
/// are together.
pub proof fn lemma_image_len(records: Seq<LogView>)
    ensures
        image(records).len() == total(sized(records)),
    decreases records.len(),
{
    if records.len() > 0 {
        lemma_image_len(records.drop_last());
        assert(sized(records).drop_last() =~= sized(records.drop_last()));
    }
}

/// Whether every one of `records` can be written.
pub open spec fn all_fit(records: Seq<LogView>) -> bool {
    forall|i: int| 0 <= i < records.len() ==> fits(#[trigger] records[i])
}

/// Writes the log that holds `logs` in this order and nothing else. The
/// call succeeds exactly where every record fits: the bytes are `image` of
/// the records, and with them come the records as [`scan`] reads them from
/// those bytes, each with the length of its line. Where a record does not
/// fit the call fails with `InvalidArgument`.
pub fn snapshot(logs: &Vec<&Log>) -> (res: Result<(Vec<u8>, Vec<SizedLog>), KvsError>)
    ensures
        match res {
            Ok((bytes, records)) => {
                &&& all_fit(log_views(logs@))
                &&& bytes@ == image(log_views(logs@))
                &&& views(records@) == sized(log_views(logs@))
                &&& parsed(bytes@) == Ok::<Seq<(LogView, nat)>, Fault>(views(records@))
            },
            Err(e) => e is InvalidArgument && !all_fit(log_views(logs@)),
        },
{
    let ghost all = log_views(logs@);
    let mut bytes: Vec<u8> = Vec::new();
    let mut records: Vec<SizedLog> = Vec::new();
    let mut at: usize = 0;
    assert(views(records@) =~= Seq::<(LogView, nat)>::empty());
    while at < logs.len()
        invariant
            at <= logs@.len(),
            all == log_views(logs@),
            bytes@ == image(all.take(at as int)),
            views(records@) == sized(all.take(at as int)),
            parsed(bytes@) == Ok::<Seq<(LogView, nat)>, Fault>(views(records@)),
            all_fit(all.take(at as int)),
        decreases logs@.len() - at,
    {
        let log: &Log = logs[at];
        assert(all[at as int] == log@);
        let line = match encode(log) {
            Ok(line) => line,
            Err(e) => {
                return Err(e);
            },
        };
        proof {
            lemma_parsed_append(bytes@, line@);
            assert(all.take(at + 1).drop_last() =~= all.take(at as int));
            assert(all.take(at + 1).last() == log@);
        }
        let ghost before = views(records@);
        let ghost image_before = bytes@;
        bytes.extend_from_slice(line.as_slice());
        records.push(SizedLog::new(log.clone(), line.len()));
        proof {
            assert(bytes@ =~= image_before + line@);
            assert(views(records@) =~= before.push((log@, line@.len())));
            assert(views(records@) =~= sized(all.take(at + 1)));
        }
        at += 1;
    }
    assert(all.take(at as int) =~= all);
    Ok((bytes, records))
}

/// Whether two strings hold the same text.
fn same_text(left: &str, right: &str) -> (res: bool)
    ensures
        res == (left@ == right@),
{
    let left_bytes = left.as_bytes();
    let right_bytes = right.as_bytes();
    proof {
        vstd::utf8::encode_utf8_decode_utf8(left@);
        vstd::utf8::encode_utf8_decode_utf8(right@);
    }
    if left_bytes.len() != right_bytes.len() {
        return false;
    }
    let same = holds_at(left_bytes, 0, right_bytes);
    assert(left_bytes@.subrange(0, right_bytes@.len() as int) =~= left_bytes@);
    same
}

/// The most recent of `records` that speaks of `key`, if there is one.
pub fn latest_record(records: &Vec<SizedLog>, key: &str) -> (res: Option<SizedLog>)
    ensures
        match res {
            Some(record) => latest(views(records@), key@) == Some(record@),
            None => latest(views(records@), key@) is None,
        },
{
    let ghost all = views(records@);
    let mut upto: usize = records.len();
    assert(all.take(upto as int) =~= all);
    while upto > 0
        invariant
            upto <= records@.len(),
            all == views(records@),
            latest(all, key@) == latest(all.take(upto as int), key@),
        decreases upto,
    {
        let record = &records[upto - 1];
        proof {
            assert(all.take(upto as int).drop_last() =~= all.take(upto - 1));
        }
        if same_text(record.log.key(), key) {
            return Some(record.clone());
        }
        upto -= 1;
    }
    None
}

/// A log kept in memory.
pub struct MemoryStorage {
    bytes: Vec<u8>,
}

impl MemoryStorage {
    /// A log with the given bytes.
    pub fn from_bytes(bytes: Vec<u8>) -> (res: Self)
        ensures
            res.contents() == bytes@,
    {
        MemoryStorage { bytes }
    }

    /// The bytes of the log.
    pub fn into_bytes(self) -> (res: Vec<u8>)
        ensures
            res@ == self.contents(),
    {
        self.bytes
    }
}

impl Storage for MemoryStorage {
    closed spec fn contents(&self) -> Seq<u8> {
        self.bytes@
    }

    /// An empty log, whatever the name.
    fn new(db_name: &str) -> (res: Result<Self, KvsError>)
        ensures
            res matches Ok(storage) && storage.contents() == Seq::<u8>::empty(),
    {
        Ok(MemoryStorage { bytes: Vec::new() })
    }

    fn write(&mut self, line: &[u8]) -> (res: Result<usize, KvsError>)
        ensures
            res is Ok,
    {
        self.bytes.extend_from_slice(line);
        proof {
            vstd::std_specs::vec::axiom_spec_len(&self.bytes);
        }
        Ok(line.len())
    }

    fn read(&mut self) -> (res: Result<Vec<u8>, KvsError>)
        ensures
            res is Ok,
    {
        Ok(self.bytes.clone())
    }

    fn override_storage(&mut self, image: &[u8]) -> (res: Result<(), KvsError>)
        ensures
            res is Ok,
    {
        let mut bytes: Vec<u8> = Vec::new();
        bytes.extend_from_slice(image);
        self.bytes = bytes;
        Ok(())
    }
}

} // verus!
