//! The transaction journal.
//!
//! Replacing one file atomically needs no journal. The journal exists for a change
//! spanning several files, which a crash between renames would leave disagreeing.
//!
//! # Record framing
//!
//! Each record is a 12-byte header followed by its payload:
//!
//! ```text
//! offset size field
//! 0      4    record kind, u32 little-endian
//! 4      4    payload length, u32 little-endian
//! 8      4    CRC-32C over the kind, the length, and the payload
//! 12     ..   payload
//! ```
//!
//! # Torn tails
//!
//! A journal is read until the first record that cannot be trusted: a truncated header, a
//! truncated payload, or a checksum mismatch. That record and everything after it are
//! discarded.
//!
//! # Idempotent replay
//!
//! Only actions between a `Begin` and its matching `Commit` are replayed. An uncommitted
//! tail is rolled back by discarding its staged files. Each action is expressed as a
//! desired end state, so replaying twice has the effect of replaying once.

use crate::bytes::from_le32;
use crate::bytes::from_le64;
use crate::bytes::le32;
use crate::bytes::le32_reads_back;
use crate::bytes::le64;
use crate::bytes::le64_reads_back;
use crate::bytes::push_bytes;
use crate::bytes::push_le32;
use crate::bytes::push_le64;
use crate::bytes::read_le32;
use crate::bytes::read_le64;
use crate::bytes::read_text;
use crate::crc::crc32c;
use crate::crc::crc_of;
use crate::generation::Generation;
use crate::text::joined;
use vstd::prelude::*;
use vstd::utf8::decode_utf8;
use vstd::utf8::encode_utf8;
use vstd::utf8::encode_utf8_decode_utf8;
use vstd::utf8::encode_utf8_valid_utf8;
use vstd::utf8::valid_utf8;

verus! {

const KIND_BEGIN: u32 = 1;

const KIND_PROMOTE: u32 = 2;

const KIND_REMOVE: u32 = 3;

const KIND_COMMIT: u32 = 4;

const RECORD_HEADER_LENGTH: usize = 12;

/// One journalled action.
#[derive(Debug, PartialEq, Eq)]
pub enum JournalRecord {
    /// Opens a transaction for a target generation.
    Begin {
        /// The generation this transaction will produce.
        generation: Generation,
    },
    /// Renames a staged file over its destination.
    Promote {
        /// The staged file.
        staged: String,
        /// The destination it replaces.
        destination: String,
    },
    /// Removes a file.
    Remove {
        /// The file to remove.
        path: String,
    },
    /// Closes a transaction. Everything before it is durable intent.
    Commit,
}

/// What a journalled action says.
pub enum RecordModel {
    /// Opens a transaction.
    Begin {
        /// The generation.
        generation: u64,
    },
    /// Renames a staged file over its destination.
    Promote {
        /// The staged file.
        staged: Seq<char>,
        /// The destination.
        destination: Seq<char>,
    },
    /// Removes a file.
    Remove {
        /// The file.
        path: Seq<char>,
    },
    /// Closes a transaction.
    Commit,
}

impl View for JournalRecord {
    type V = RecordModel;

    open spec fn view(&self) -> RecordModel {
        match self {
            JournalRecord::Begin { generation } => RecordModel::Begin { generation: generation@ },
            JournalRecord::Promote { staged, destination } => RecordModel::Promote {
                staged: staged@,
                destination: destination@,
            },
            JournalRecord::Remove { path } => RecordModel::Remove { path: path@ },
            JournalRecord::Commit => RecordModel::Commit,
        }
    }
}

/// The models of a list of records.
pub open spec fn record_models(records: Seq<JournalRecord>) -> Seq<RecordModel> {
    records.map_values(|record: JournalRecord| record@)
}

// -- Framing -----------------------------------------------------------------------

/// A string in a payload: its length in bytes, then its UTF-8 bytes.
pub open spec fn string_bytes(text: Seq<char>) -> Seq<u8> {
    le32(encode_utf8(text).len() as u32) + encode_utf8(text)
}

impl RecordModel {
    /// The number that marks this kind of record.
    pub open spec fn kind(self) -> u32 {
        match self {
            RecordModel::Begin { .. } => 1,
            RecordModel::Promote { .. } => 2,
            RecordModel::Remove { .. } => 3,
            RecordModel::Commit => 4,
        }
    }

    /// The payload of this record.
    pub open spec fn payload(self) -> Seq<u8> {
        match self {
            RecordModel::Begin { generation } => le64(generation),
            RecordModel::Promote { staged, destination } => string_bytes(staged) + string_bytes(
                destination,
            ),
            RecordModel::Remove { path } => string_bytes(path),
            RecordModel::Commit => Seq::empty(),
        }
    }

    /// Whether the length of the payload fits the four bytes that hold it.
    pub open spec fn fits(self) -> bool {
        match self {
            RecordModel::Promote { staged, destination } => encode_utf8(staged).len() + encode_utf8(
                destination,
            ).len() + 8 <= u32::MAX,
            RecordModel::Remove { path } => encode_utf8(path).len() + 4 <= u32::MAX,
            _ => true,
        }
    }

    /// The bytes of this record, framed and checksummed.
    pub open spec fn encoded(self) -> Seq<u8> {
        framed(self.kind(), self.payload())
    }
}

/// What the checksum of a record covers.
pub open spec fn covered(kind: u32, payload: Seq<u8>) -> Seq<u8> {
    le32(kind) + le32(payload.len() as u32) + payload
}

/// A payload with its header.
pub open spec fn framed(kind: u32, payload: Seq<u8>) -> Seq<u8> {
    le32(kind) + le32(payload.len() as u32) + le32(crc_of(covered(kind, payload))) + payload
}

/// The bytes of a list of records, one after another.
pub open spec fn encoded_all(records: Seq<RecordModel>) -> Seq<u8>
    decreases records.len(),
{
    if records.len() == 0 {
        Seq::empty()
    } else {
        records[0].encoded() + encoded_all(records.drop_first())
    }
}

/// Whether every record fits.
pub open spec fn all_fit(records: Seq<RecordModel>) -> bool {
    forall|i: int| 0 <= i < records.len() ==> (#[trigger] records[i]).fits()
}

// -- Reading -----------------------------------------------------------------------

/// The string that starts at `at`, and where it ends, if one does.
pub open spec fn string_at(payload: Seq<u8>, at: int) -> Option<(Seq<char>, int)> {
    if at + 4 > payload.len() {
        None
    } else {
        let length = from_le32(payload.subrange(at, at + 4)) as int;
        if at + 4 + length > payload.len() {
            None
        } else {
            let bytes = payload.subrange(at + 4, at + 4 + length);
            if valid_utf8(bytes) {
                Some((decode_utf8(bytes), at + 4 + length))
            } else {
                None
            }
        }
    }
}

/// The record that a payload of this kind denotes. A payload that does not match its kind
/// to the last byte denotes none.
pub open spec fn record_of(kind: u32, payload: Seq<u8>) -> Option<RecordModel> {
    if kind == 1 {
        if payload.len() == 8 {
            Some(RecordModel::Begin { generation: from_le64(payload) })
        } else {
            None
        }
    } else if kind == 2 {
        match string_at(payload, 0) {
            None => None,
            Some((staged, middle)) => match string_at(payload, middle) {
                None => None,
                Some((destination, end)) => if end == payload.len() {
                    Some(RecordModel::Promote { staged, destination })
                } else {
                    None
                },
            },
        }
    } else if kind == 3 {
        match string_at(payload, 0) {
            None => None,
            Some((path, end)) => if end == payload.len() {
                Some(RecordModel::Remove { path })
            } else {
                None
            },
        }
    } else if kind == 4 && payload.len() == 0 {
        Some(RecordModel::Commit)
    } else {
        None
    }
}

/// The record that starts at `at`, and where it ends, if it can be trusted.
pub open spec fn record_at(bytes: Seq<u8>, at: int) -> Option<(RecordModel, int)> {
    if at + 12 > bytes.len() {
        None
    } else {
        let kind = from_le32(bytes.subrange(at, at + 4));
        let length = from_le32(bytes.subrange(at + 4, at + 8)) as int;
        let checksum = from_le32(bytes.subrange(at + 8, at + 12));
        let end = at + 12 + length;
        if end > bytes.len() {
            None
        } else {
            let payload = bytes.subrange(at + 12, end);
            if crc_of(covered(kind, payload)) != checksum {
                None
            } else {
                match record_of(kind, payload) {
                    None => None,
                    Some(record) => Some((record, end)),
                }
            }
        }
    }
}

/// The records of `bytes[at..]` up to the first that cannot be trusted, and whether there
/// was one.
pub open spec fn read_from(bytes: Seq<u8>, at: int) -> (Seq<RecordModel>, bool)
    decreases bytes.len() - at,
{
    if at >= bytes.len() {
        (Seq::empty(), false)
    } else {
        match record_at(bytes, at) {
            None => (Seq::empty(), true),
            Some((record, end)) => {
                let rest = read_from(bytes, end);
                (seq![record] + rest.0, rest.1)
            },
        }
    }
}

// -- Recovery ----------------------------------------------------------------------

/// The record that opened the transaction which is open behind the first `upto` records, if
/// one is: the last `Begin` that no `Commit` follows.
pub open spec fn opened(records: Seq<RecordModel>, upto: int) -> Option<int>
    decreases upto,
{
    if upto <= 0 || records[upto - 1] is Commit {
        None
    } else if records[upto - 1] is Begin {
        Some(upto - 1)
    } else {
        opened(records, upto - 1)
    }
}

/// The last transaction that the first `upto` records hold whole: where it opens, and where
/// it closes. A `Commit` that matches no `Begin` closes nothing.
pub open spec fn last_closed(records: Seq<RecordModel>, upto: int) -> Option<(int, int)>
    decreases upto,
{
    if upto <= 0 {
        None
    } else if records[upto - 1] is Commit && opened(records, upto - 1) is Some {
        Some((opened(records, upto - 1)->0, upto - 1))
    } else {
        last_closed(records, upto - 1)
    }
}

/// The staged files of the promotions in a list of records.
pub open spec fn staged_files(records: Seq<RecordModel>) -> Seq<Seq<char>>
    decreases records.len(),
{
    if records.len() == 0 {
        Seq::empty()
    } else {
        let before = staged_files(records.drop_last());
        match records.last() {
            RecordModel::Promote { staged, .. } => before.push(staged),
            _ => before,
        }
    }
}

/// What a journal says should happen.
pub struct RecoveryModel {
    /// The records of the last committed transaction.
    pub committed: Seq<RecordModel>,
    /// The staged files of an uncommitted tail.
    pub abandoned_staged: Seq<Seq<char>>,
    /// Whether a trailing record was discarded.
    pub truncated: bool,
}

/// What recovery from these records requires: the last committed transaction is applied
/// again, and what follows it is abandoned.
pub open spec fn recovery_of(records: Seq<RecordModel>, truncated: bool) -> RecoveryModel {
    match last_closed(records, records.len() as int) {
        None => RecoveryModel {
            committed: Seq::empty(),
            abandoned_staged: staged_files(records),
            truncated,
        },
        Some((begin, commit)) => RecoveryModel {
            committed: records.subrange(begin, commit + 1),
            abandoned_staged: staged_files(records.skip(commit + 1)),
            truncated,
        },
    }
}

/// What a journal with these bytes says should happen.
pub open spec fn replayed(bytes: Seq<u8>) -> RecoveryModel {
    let read = read_from(bytes, 0);
    recovery_of(read.0, read.1)
}

/// The generation of the first record, at or after `at`, that opens a transaction.
pub open spec fn first_generation(records: Seq<RecordModel>, at: int) -> Option<u64>
    decreases records.len() - at,
{
    if at >= records.len() {
        None
    } else {
        match records[at] {
            RecordModel::Begin { generation } => Some(generation),
            _ => first_generation(records, at + 1),
        }
    }
}

fn write_string(buffer: &mut Vec<u8>, value: &str)
    requires
        encode_utf8(value@).len() <= u32::MAX,
    ensures
        final(buffer)@ == old(buffer)@ + string_bytes(value@),
{
    let bytes = value.as_bytes();
    push_le32(buffer, bytes.len() as u32);
    push_bytes(buffer, bytes, 0, bytes.len());
    assert(bytes@.subrange(0, bytes@.len() as int) =~= bytes@);
    assert(buffer@ =~= old(buffer)@ + string_bytes(value@));
}

impl JournalRecord {
    fn kind(&self) -> (kind: u32)
        ensures
            kind == self@.kind(),
    {
        match self {
            JournalRecord::Begin { .. } => KIND_BEGIN,
            JournalRecord::Promote { .. } => KIND_PROMOTE,
            JournalRecord::Remove { .. } => KIND_REMOVE,
            JournalRecord::Commit => KIND_COMMIT,
        }
    }

    fn payload(&self) -> (payload: Vec<u8>)
        requires
            self@.fits(),
        ensures
            payload@ == self@.payload(),
    {
        let mut payload: Vec<u8> = Vec::new();
        match self {
            JournalRecord::Begin { generation } => {
                push_le64(&mut payload, generation.get());
            }
            JournalRecord::Promote { staged, destination } => {
                write_string(&mut payload, staged.as_str());
                write_string(&mut payload, destination.as_str());
            }
            JournalRecord::Remove { path } => {
                write_string(&mut payload, path.as_str());
            }
            JournalRecord::Commit => {}
        }
        assert(payload@ =~= self@.payload());
        payload
    }

    /// Encodes this record, framed and checksummed.
    pub fn encode(&self) -> (record: Vec<u8>)
        requires
            self@.fits(),
        ensures
            record@ == self@.encoded(),
    {
        let payload = self.payload();
        let kind = self.kind();
        proof {
            payload_length(self@);
        }
        let length: u32 = payload.len() as u32;
        let mut checked: Vec<u8> = Vec::new();
        push_le32(&mut checked, kind);
        push_le32(&mut checked, length);
        push_bytes(&mut checked, payload.as_slice(), 0, payload.len());
        assert(payload@.subrange(0, payload@.len() as int) =~= payload@);
        assert(checked@ =~= covered(kind, payload@));
        let mut record: Vec<u8> = Vec::new();
        push_le32(&mut record, kind);
        push_le32(&mut record, length);
        push_le32(&mut record, crc32c(checked.as_slice()));
        push_bytes(&mut record, payload.as_slice(), 0, payload.len());
        assert(record@ =~= self@.encoded());
        record
    }
}

impl Clone for JournalRecord {
    fn clone(&self) -> (copy: Self)
        ensures
            copy@ == self@,
    {
        match self {
            JournalRecord::Begin { generation } => JournalRecord::Begin { generation: *generation },
            JournalRecord::Promote { staged, destination } => JournalRecord::Promote {
                staged: staged.clone(),
                destination: destination.clone(),
            },
            JournalRecord::Remove { path } => JournalRecord::Remove { path: path.clone() },
            JournalRecord::Commit => JournalRecord::Commit,
        }
    }
}

proof fn payload_length(record: RecordModel)
    requires
        record.fits(),
    ensures
        record.payload().len() <= u32::MAX,
{
}

/// A reading position in a payload.
struct Cursor<'a> {
    bytes: &'a [u8],
    at: usize,
}

impl<'a> Cursor<'a> {
    spec fn within(&self) -> bool {
        self.at <= self.bytes@.len()
    }

    fn string(&mut self) -> (text: Option<String>)
        requires
            old(self).within(),
        ensures
            final(self).within(),
            final(self).bytes == old(self).bytes,
            match text {
                Some(found) => string_at(old(self).bytes@, old(self).at as int) == Some(
                    (found@, final(self).at as int),
                ),
                None => string_at(old(self).bytes@, old(self).at as int) is None,
            },
    {
        let total: usize = self.bytes.len();
        if total - self.at < 4 {
            return None;
        }
        let length: usize = read_le32(self.bytes, self.at) as usize;
        let start: usize = self.at + 4;
        if total - start < length {
            return None;
        }
        let end: usize = start + length;
        match read_text(self.bytes, start, end) {
            None => None,
            Some(text) => {
                self.at = end;
                Some(text)
            }
        }
    }
}

fn decode_payload(kind: u32, payload: &[u8]) -> (record: Option<JournalRecord>)
    ensures
        match record {
            Some(found) => record_of(kind, payload@) == Some(found@),
            None => record_of(kind, payload@) is None,
        },
{
    let total: usize = payload.len();
    let mut cursor = Cursor { bytes: payload, at: 0 };
    if kind == KIND_BEGIN {
        if total != 8 {
            return None;
        }
        assert(payload@.subrange(0, 8) =~= payload@);
        Some(JournalRecord::Begin { generation: Generation::from_raw(read_le64(payload, 0)) })
    } else if kind == KIND_PROMOTE {
        match cursor.string() {
            None => None,
            Some(staged) => match cursor.string() {
                None => None,
                Some(destination) => if cursor.at == total {
                    Some(JournalRecord::Promote { staged, destination })
                } else {
                    None
                },
            },
        }
    } else if kind == KIND_REMOVE {
        match cursor.string() {
            None => None,
            Some(path) => if cursor.at == total {
                Some(JournalRecord::Remove { path })
            } else {
                None
            },
        }
    } else if kind == KIND_COMMIT && total == 0 {
        Some(JournalRecord::Commit)
    } else {
        None
    }
}

/// Reads the record that starts at `at`, and says where it ends.
fn read_record(bytes: &[u8], at: usize) -> (read: Option<(JournalRecord, usize)>)
    requires
        at <= bytes@.len(),
    ensures
        match read {
            Some((record, end)) => record_at(bytes@, at as int) == Some((record@, end as int)) && at
                < end <= bytes@.len(),
            None => record_at(bytes@, at as int) is None,
        },
{
    let total: usize = bytes.len();
    if total - at < RECORD_HEADER_LENGTH {
        return None;
    }
    let kind = read_le32(bytes, at);
    let length = read_le32(bytes, at + 4);
    let stored = read_le32(bytes, at + 8);
    let start: usize = at + RECORD_HEADER_LENGTH;
    if total - start < length as usize {
        return None;
    }
    let end: usize = start + length as usize;
    let mut payload: Vec<u8> = Vec::new();
    push_bytes(&mut payload, bytes, start, end);
    assert(payload@ =~= bytes@.subrange(at + 12, end as int));
    let mut checked: Vec<u8> = Vec::new();
    push_le32(&mut checked, kind);
    push_le32(&mut checked, length);
    push_bytes(&mut checked, bytes, start, end);
    assert(checked@ =~= covered(kind, payload@));
    if crc32c(checked.as_slice()) != stored {
        return None;
    }
    match decode_payload(kind, payload.as_slice()) {
        None => None,
        Some(record) => Some((record, end)),
    }
}

/// What a journal says should happen.
#[derive(Clone, Debug, PartialEq, Eq)]
pub struct Recovery {
    /// Actions from the last committed transaction, to be re-applied.
    pub committed: Vec<JournalRecord>,
    /// Staged files from an uncommitted tail, to be discarded.
    pub abandoned_staged: Vec<String>,
    /// Whether a trailing record was discarded as torn or unreadable.
    pub truncated: bool,
}

/// The texts of a list of strings.
pub open spec fn texts(strings: Seq<String>) -> Seq<Seq<char>> {
    strings.map_values(|text: String| text@)
}

impl View for Recovery {
    type V = RecoveryModel;

    open spec fn view(&self) -> RecoveryModel {
        RecoveryModel {
            committed: record_models(self.committed@),
            abandoned_staged: texts(self.abandoned_staged@),
            truncated: self.truncated,
        }
    }
}

impl Recovery {
    /// The generation the last committed transaction produced, when there was one.
    pub fn committed_generation(&self) -> (generation: Option<Generation>)
        ensures
            match generation {
                Some(found) => first_generation(self@.committed, 0) == Some(found@),
                None => first_generation(self@.committed, 0) is None,
            },
    {
        let ghost records = self@.committed;
        let mut at: usize = 0;
        while at < self.committed.len()
            invariant
                at <= self.committed@.len(),
                records == record_models(self.committed@),
                records == self@.committed,
                first_generation(records, 0) == first_generation(records, at as int),
            decreases self.committed@.len() - at,
        {
            assert(records[at as int] == self.committed@[at as int]@);
            match &self.committed[at] {
                JournalRecord::Begin { generation } => {
                    return Some(*generation);
                }
                _ => {}
            }
            at = at + 1;
        }
        None
    }
}

proof fn opened_bounds(records: Seq<RecordModel>, upto: int)
    requires
        0 <= upto <= records.len(),
    ensures
        opened(records, upto) matches Some(begin) ==> 0 <= begin < upto && records[begin] is Begin
            && forall|i: int|
            begin < i < upto ==> !(#[trigger] records[i] is Begin) && !(records[i] is Commit),
    decreases upto,
{
    if upto > 0 {
        opened_bounds(records, upto - 1);
    }
}

proof fn closed_bounds(records: Seq<RecordModel>, upto: int)
    requires
        0 <= upto <= records.len(),
    ensures
        last_closed(records, upto) matches Some((begin, commit)) ==> 0 <= begin < commit < upto
            && opened(records, commit) == Some(begin) && records[commit] is Commit,
    decreases upto,
{
    if upto > 0 {
        opened_bounds(records, upto - 1);
        closed_bounds(records, upto - 1);
    }
}

/// Copies `records[from..to]`.
fn copy_records(records: &Vec<JournalRecord>, from: usize, to: usize) -> (copied: Vec<
    JournalRecord,
>)
    requires
        from <= to <= records@.len(),
    ensures
        record_models(copied@) == record_models(records@).subrange(from as int, to as int),
{
    let mut copied: Vec<JournalRecord> = Vec::new();
    let mut at: usize = from;
    while at < to
        invariant
            from <= at <= to <= records@.len(),
            record_models(copied@) =~= record_models(records@).subrange(from as int, at as int),
        decreases to - at,
    {
        let copy = records[at].clone();
        let ghost before = record_models(copied@);
        copied.push(copy);
        assert(record_models(copied@) =~= before.push(record_models(records@)[at as int]));
        at = at + 1;
    }
    copied
}

/// The staged files of the promotions in `records[from..]`.
fn staged_from(records: &Vec<JournalRecord>, from: usize) -> (staged: Vec<String>)
    requires
        from <= records@.len(),
    ensures
        texts(staged@) == staged_files(record_models(records@).skip(from as int)),
{
    let ghost tail = record_models(records@).skip(from as int);
    let mut staged: Vec<String> = Vec::new();
    let mut at: usize = from;
    assert(tail.take(0) =~= Seq::empty());
    assert(texts(staged@) =~= Seq::empty());
    while at < records.len()
        invariant
            from <= at <= records@.len(),
            tail == record_models(records@).skip(from as int),
            texts(staged@) == staged_files(tail.take(at - from)),
        decreases records@.len() - at,
    {
        let ghost before = texts(staged@);
        assert(tail.take(at - from + 1).drop_last() =~= tail.take(at - from));
        assert(tail.take(at - from + 1).last() == records@[at as int]@);
        match &records[at] {
            JournalRecord::Promote { staged: file, .. } => {
                staged.push(file.clone());
                assert(texts(staged@) =~= before.push(file@));
            }
            _ => {}
        }
        at = at + 1;
    }
    assert(tail.take(tail.len() as int) =~= tail);
    staged
}

/// The record that opened the transaction which is open behind `records[..upto]`.
fn find_opened(records: &Vec<JournalRecord>, upto: usize) -> (found: Option<usize>)
    requires
        upto <= records@.len(),
    ensures
        match found {
            Some(begin) => opened(record_models(records@), upto as int) == Some(begin as int),
            None => opened(record_models(records@), upto as int) is None,
        },
{
    let ghost models = record_models(records@);
    let mut at: usize = upto;
    while at > 0
        invariant
            at <= upto <= records@.len(),
            models == record_models(records@),
            opened(models, upto as int) == opened(models, at as int),
        decreases at,
    {
        at = at - 1;
        assert(models[at as int] == records@[at as int]@);
        match &records[at] {
            JournalRecord::Begin { .. } => {
                return Some(at);
            }
            JournalRecord::Commit => {
                return None;
            }
            _ => {}
        }
    }
    None
}

/// Reads a journal and decides what recovery requires.
///
/// Records are read until one cannot be trusted; that record and everything after it are
/// discarded, and [`Recovery::truncated`] reports it. `committed` is the last committed
/// transaction only: earlier ones are already durable. Where no `Begin` has its `Commit`,
/// nothing is committed.
pub fn replay(bytes: &[u8]) -> (recovery: Recovery)
    ensures
        recovery@ == replayed(bytes@),
{
    let mut records: Vec<JournalRecord> = Vec::new();
    let mut at: usize = 0;
    let mut truncated = false;
    let ghost whole = read_from(bytes@, 0);
    assert(record_models(records@) + whole.0 =~= whole.0);
    while at < bytes.len()
        invariant_except_break
            !truncated,
            record_models(records@) + read_from(bytes@, at as int).0 == whole.0,
        invariant
            at <= bytes@.len(),
            whole == read_from(bytes@, 0),
            !truncated ==> read_from(bytes@, at as int).1 == whole.1,
        ensures
            record_models(records@) == whole.0,
            truncated == whole.1,
        decreases bytes@.len() - at,
    {
        match read_record(bytes, at) {
            None => {
                assert(record_models(records@) =~= whole.0);
                truncated = true;
                break;
            }
            Some((record, end)) => {
                let ghost before = record_models(records@);
                let ghost model = record@;
                let ghost rest = read_from(bytes@, end as int).0;
                records.push(record);
                at = end;
                assert(record_models(records@) =~= before.push(model));
                assert(before + (seq![model] + rest) =~= before.push(model) + rest);
            }
        }
    }
    let ghost models = record_models(records@);
    assert(models =~= whole.0);
    let mut commit: usize = records.len();
    while commit > 0
        invariant
            commit <= records@.len(),
            models == record_models(records@),
            whole == read_from(bytes@, 0),
            models == whole.0,
            truncated == whole.1,
            last_closed(models, models.len() as int) == last_closed(models, commit as int),
        decreases commit,
    {
        assert(models[commit - 1] == records@[commit - 1]@);
        commit = commit - 1;
        match &records[commit] {
            JournalRecord::Commit => match find_opened(&records, commit) {
                Some(begin) => {
                    proof {
                        opened_bounds(models, commit as int);
                    }
                    return Recovery {
                        committed: copy_records(&records, begin, commit + 1),
                        abandoned_staged: staged_from(&records, commit + 1),
                        truncated,
                    };
                }
                None => {}
            },
            _ => {}
        }
    }
    let abandoned_staged = staged_from(&records, 0);
    assert(models.skip(0) =~= models);
    let committed: Vec<JournalRecord> = Vec::new();
    assert(record_models(committed@) =~= Seq::empty());
    Recovery { committed, abandoned_staged, truncated }
}

/// The records of a whole transaction: a `Begin`, the actions, then a `Commit`.
pub open spec fn transaction(generation: u64, actions: Seq<RecordModel>) -> Seq<RecordModel> {
    (seq![RecordModel::Begin { generation }] + actions).push(RecordModel::Commit)
}

/// Encodes a whole transaction: a `Begin`, the actions, then a `Commit`.
pub fn encode_transaction(generation: Generation, actions: &[JournalRecord]) -> (bytes: Vec<u8>)
    requires
        all_fit(record_models(actions@)),
    ensures
        bytes@ == encoded_all(transaction(generation@, record_models(actions@))),
{
    let begin = JournalRecord::Begin { generation };
    let mut bytes = begin.encode();
    let ghost all = record_models(actions@);
    let mut at: usize = 0;
    proof {
        let opened = seq![RecordModel::Begin { generation: generation@ }];
        assert(opened + all.take(0) =~= opened);
        encoded_all_push(Seq::empty(), opened[0]);
        assert(Seq::empty().push(opened[0]) =~= opened);
        assert(encoded_all(opened) =~= opened[0].encoded());
    }
    while at < actions.len()
        invariant
            at <= actions@.len(),
            all == record_models(actions@),
            all_fit(all),
            bytes@ == encoded_all(
                seq![RecordModel::Begin { generation: generation@ }] + all.take(at as int),
            ),
        decreases actions@.len() - at,
    {
        assert(all[at as int] == actions@[at as int]@);
        let record = actions[at].encode();
        let ghost before = seq![RecordModel::Begin { generation: generation@ }] + all.take(
            at as int,
        );
        let ghost old_bytes = bytes@;
        push_bytes(&mut bytes, record.as_slice(), 0, record.len());
        proof {
            assert(record@.subrange(0, record@.len() as int) =~= record@);
            encoded_all_push(before, all[at as int]);
            assert(before.push(all[at as int]) =~= seq![
                RecordModel::Begin { generation: generation@ },
            ] + all.take(at + 1));
        }
        at = at + 1;
    }
    let commit = JournalRecord::Commit.encode();
    let ghost before = seq![RecordModel::Begin { generation: generation@ }] + all;
    push_bytes(&mut bytes, commit.as_slice(), 0, commit.len());
    proof {
        assert(all.take(all.len() as int) =~= all);
        assert(commit@.subrange(0, commit@.len() as int) =~= commit@);
        encoded_all_push(before, RecordModel::Commit);
    }
    bytes
}

// -- File transactions -------------------------------------------------------------

/// Why a journal could not be used.
#[derive(Clone, Copy, Debug, PartialEq, Eq, Structural)]
pub enum JournalError {
    /// A path was not valid UTF-8, so it cannot be journalled.
    ///
    /// The journal has to be readable by any implementation, so it stores paths as UTF-8
    /// rather than as platform-specific bytes.
    NonUtf8Path,
}

impl JournalError {
    /// The message this error is shown with.
    pub fn message(&self) -> (text: String)
        ensures
            text@ == "a journalled path must be valid UTF-8"@,
    {
        "a journalled path must be valid UTF-8".to_owned()
    }
}

/// A change spanning several files, staged and then promoted as one.
///
/// This holds what the change consists of. Writing the staged files, writing the journal
/// and carrying the actions out is done around it, in that order: before the journal is
/// written nothing has moved, and after it is written every action is recorded.
#[derive(Debug)]
pub struct FileTransaction {
    journal_path: String,
    generation: Generation,
    actions: Vec<JournalRecord>,
}

impl FileTransaction {
    /// Where the journal lives.
    pub closed spec fn path(&self) -> Seq<char> {
        self.journal_path@
    }

    /// The generation this transaction will produce.
    pub closed spec fn target(&self) -> u64 {
        self.generation@
    }

    /// The actions recorded so far.
    pub closed spec fn recorded(&self) -> Seq<RecordModel> {
        record_models(self.actions@)
    }

    /// Opens a transaction whose journal lives at `journal_path`.
    pub fn begin(journal_path: &str, generation: Generation) -> (transaction: Self)
        ensures
            transaction.path() == journal_path@,
            transaction.target() == generation@,
            transaction.recorded() == Seq::<RecordModel>::empty(),
    {
        let transaction = FileTransaction {
            journal_path: journal_path.to_owned(),
            generation,
            actions: Vec::new(),
        };
        assert(transaction.recorded() =~= Seq::<RecordModel>::empty());
        transaction
    }

    /// Records that the file at `staged` replaces `destination` on commit.
    pub fn stage(&mut self, staged: &str, destination: &str)
        ensures
            final(self).path() == old(self).path(),
            final(self).target() == old(self).target(),
            final(self).recorded() == old(self).recorded().push(
                RecordModel::Promote { staged: staged@, destination: destination@ },
            ),
    {
        self.actions.push(
            JournalRecord::Promote {
                staged: staged.to_owned(),
                destination: destination.to_owned(),
            },
        );
        assert(self.recorded() =~= old(self).recorded().push(
            RecordModel::Promote { staged: staged@, destination: destination@ },
        ));
    }

    /// Records that `path` is removed on commit.
    pub fn remove(&mut self, path: &str)
        ensures
            final(self).path() == old(self).path(),
            final(self).target() == old(self).target(),
            final(self).recorded() == old(self).recorded().push(
                RecordModel::Remove { path: path@ },
            ),
    {
        self.actions.push(JournalRecord::Remove { path: path.to_owned() });
        assert(self.recorded() =~= old(self).recorded().push(RecordModel::Remove { path: path@ }));
    }

    /// Reports whether anything was staged.
    pub fn is_empty(&self) -> (answer: bool)
        ensures
            answer == (self.recorded().len() == 0),
    {
        self.actions.len() == 0
    }

    /// Where the journal lives.
    pub fn journal_path(&self) -> (path: &str)
        ensures
            path@ == self.path(),
    {
        self.journal_path.as_str()
    }

    /// The actions recorded so far.
    pub fn actions(&self) -> (actions: &Vec<JournalRecord>)
        ensures
            record_models(actions@) == self.recorded(),
    {
        &self.actions
    }

    /// The bytes of the journal that makes this transaction durable.
    pub fn journal(&self) -> (bytes: Vec<u8>)
        requires
            all_fit(self.recorded()),
        ensures
            bytes@ == encoded_all(transaction(self.target(), self.recorded())),
    {
        encode_transaction(self.generation, self.actions.as_slice())
    }
}

/// The name of the staging file that stands beside a destination.
pub fn staging_name(name: &str) -> (staged: String)
    ensures
        staged@ == name@ + ".staged"@,
{
    joined(name, ".staged")
}

/// One change to the files.
#[derive(Clone, Debug, PartialEq, Eq)]
pub enum FileStep {
    /// Rename a file over another.
    Rename {
        /// The file that moves.
        from: String,
        /// What it replaces.
        to: String,
    },
    /// Delete a file.
    Delete {
        /// The file.
        path: String,
    },
    /// Nothing is left to do.
    Nothing,
}

/// The file whose presence decides whether an action has anything left to do.
pub open spec fn subject_of(action: RecordModel) -> Option<Seq<char>> {
    match action {
        RecordModel::Promote { staged, .. } => Some(staged),
        RecordModel::Remove { path } => Some(path),
        _ => None,
    }
}

/// The file whose presence decides whether an action has anything left to do.
pub fn subject(action: &JournalRecord) -> (file: Option<String>)
    ensures
        match file {
            Some(path) => subject_of(action@) == Some(path@),
            None => subject_of(action@) is None,
        },
{
    match action {
        JournalRecord::Promote { staged, .. } => Some(staged.clone()),
        JournalRecord::Remove { path } => Some(path.clone()),
        _ => None,
    }
}

/// The change that carries out one action, given whether its subject exists.
///
/// Promoting a file that was already promoted finds no staging file and does nothing, and
/// removing a file that is already gone does nothing.
pub fn step(action: &JournalRecord, present: bool) -> (step: FileStep)
    ensures
        match step {
            FileStep::Rename { from, to } => present && action@ == (RecordModel::Promote {
                staged: from@,
                destination: to@,
            }),
            FileStep::Delete { path } => present && action@ == (RecordModel::Remove { path: path@ }),
            FileStep::Nothing => !present || subject_of(action@) is None,
        },
{
    if !present {
        return FileStep::Nothing;
    }
    match action {
        JournalRecord::Promote { staged, destination } => FileStep::Rename {
            from: staged.clone(),
            to: destination.clone(),
        },
        JournalRecord::Remove { path } => FileStep::Delete { path: path.clone() },
        _ => FileStep::Nothing,
    }
}

// -- Laws --------------------------------------------------------------------------

/// The files after one action, where `files` maps each path to its contents.
pub open spec fn applied(files: Map<Seq<char>, Seq<u8>>, action: RecordModel) -> Map<
    Seq<char>,
    Seq<u8>,
> {
    match action {
        RecordModel::Promote { staged, destination } => if files.contains_key(staged) {
            files.remove(staged).insert(destination, files[staged])
        } else {
            files
        },
        RecordModel::Remove { path } => files.remove(path),
        _ => files,
    }
}

/// The files after a list of actions.
pub open spec fn applied_all(
    files: Map<Seq<char>, Seq<u8>>,
    actions: Seq<RecordModel>,
) -> Map<Seq<char>, Seq<u8>>
    decreases actions.len(),
{
    if actions.len() == 0 {
        files
    } else {
        applied(applied_all(files, actions.drop_last()), actions.last())
    }
}

/// Whether no destination is also a staged file, or a file that is removed.
pub open spec fn keeps_apart(actions: Seq<RecordModel>) -> bool {
    forall|i: int, j: int|
        0 <= i < actions.len() && 0 <= j < actions.len() ==> (#[trigger] actions[i] matches RecordModel::Promote {
            destination,
            ..
        } ==> subject_of(#[trigger] actions[j]) != Some(destination))
}

proof fn subjects_are_gone(files: Map<Seq<char>, Seq<u8>>, actions: Seq<RecordModel>, index: int)
    requires
        keeps_apart(actions),
        0 <= index < actions.len(),
    ensures
        subject_of(actions[index]) matches Some(path) ==> !applied_all(
            files,
            actions,
        ).contains_key(path),
    decreases actions.len(),
{
    let before = applied_all(files, actions.drop_last());
    assert(keeps_apart(actions.drop_last())) by {
        let shorter = actions.drop_last();
        assert forall|i: int, j: int|
            0 <= i < shorter.len() && 0 <= j < shorter.len() implies (
            #[trigger] shorter[i] matches RecordModel::Promote { destination, .. } ==> subject_of(
                #[trigger] shorter[j],
            ) != Some(destination)) by {
            assert(shorter[i] == actions[i] && shorter[j] == actions[j]);
        }
    }
    let last = actions.last();
    assert(last == actions[actions.len() - 1]);
    if index < actions.len() - 1 {
        subjects_are_gone(files, actions.drop_last(), index);
        assert(actions.drop_last()[index] == actions[index]);
    }
}

proof fn nothing_left(
    files: Map<Seq<char>, Seq<u8>>,
    actions: Seq<RecordModel>,
    again: Seq<RecordModel>,
)
    requires
        forall|i: int|
            0 <= i < again.len() ==> (subject_of(#[trigger] again[i]) matches Some(path)
                ==> !files.contains_key(path)),
    ensures
        applied_all(files, again) == files,
    decreases again.len(),
{
    if again.len() > 0 {
        let shorter = again.drop_last();
        assert forall|i: int| 0 <= i < shorter.len() implies (subject_of(
            #[trigger] shorter[i],
        ) matches Some(path) ==> !files.contains_key(path)) by {
            assert(shorter[i] == again[i]);
        }
        nothing_left(files, actions, shorter);
        assert(again.last() == again[again.len() - 1]);
        assert(applied(files, again.last()) =~= files);
    }
}

/// Applying a transaction a second time changes nothing, where no destination is itself
/// staged or removed.
pub proof fn replay_twice_is_once(files: Map<Seq<char>, Seq<u8>>, actions: Seq<RecordModel>)
    requires
        keeps_apart(actions),
    ensures
        applied_all(applied_all(files, actions), actions) == applied_all(files, actions),
{
    let done = applied_all(files, actions);
    assert forall|i: int| 0 <= i < actions.len() implies (subject_of(
        #[trigger] actions[i],
    ) matches Some(path) ==> !done.contains_key(path)) by {
        subjects_are_gone(files, actions, i);
    }
    nothing_left(done, actions, actions);
}

proof fn encoded_all_push(records: Seq<RecordModel>, record: RecordModel)
    ensures
        encoded_all(records.push(record)) == encoded_all(records) + record.encoded(),
    decreases records.len(),
{
    let longer = records.push(record);
    if records.len() == 0 {
        assert(longer.drop_first() =~= records);
        concat_empty(record.encoded());
        assert(encoded_all(longer) == record.encoded() + encoded_all(records));
    } else {
        assert(longer.drop_first() =~= records.drop_first().push(record));
        encoded_all_push(records.drop_first(), record);
        assert(longer[0] == records[0]);
        concat_associates(
            records[0].encoded(),
            encoded_all(records.drop_first()),
            record.encoded(),
        );
    }
}

proof fn concat_empty(bytes: Seq<u8>)
    ensures
        bytes + Seq::<u8>::empty() == Seq::<u8>::empty() + bytes,
{
    assert(bytes + Seq::<u8>::empty() =~= Seq::<u8>::empty() + bytes);
}

proof fn concat_associates(a: Seq<u8>, b: Seq<u8>, c: Seq<u8>)
    ensures
        (a + b) + c == a + (b + c),
{
    assert((a + b) + c =~= a + (b + c));
}

proof fn string_reads_back(payload: Seq<u8>, at: int, text: Seq<char>)
    requires
        0 <= at,
        at + string_bytes(text).len() <= payload.len(),
        payload.subrange(at, at + string_bytes(text).len()) == string_bytes(text),
        encode_utf8(text).len() <= u32::MAX,
    ensures
        string_at(payload, at) == Some((text, at + string_bytes(text).len())),
{
    let bytes = encode_utf8(text);
    let length = bytes.len() as u32;
    le32_reads_back(length);
    let whole = string_bytes(text);
    assert(payload.subrange(at, at + 4) =~= le32(length)) by {
        assert forall|i: int| 0 <= i < 4 implies payload.subrange(at, at + 4)[i] == le32(
            length,
        )[i] by {
            assert(payload.subrange(at, at + whole.len())[i] == whole[i]);
        }
    }
    assert(payload.subrange(at + 4, at + 4 + length) =~= bytes) by {
        assert forall|i: int| 0 <= i < length implies payload.subrange(
            at + 4,
            at + 4 + length,
        )[i] == bytes[i] by {
            assert(payload.subrange(at, at + whole.len())[i + 4] == whole[i + 4]);
        }
    }
    encode_utf8_valid_utf8(text);
    encode_utf8_decode_utf8(text);
}

proof fn payload_reads_back(record: RecordModel)
    requires
        record.fits(),
    ensures
        record_of(record.kind(), record.payload()) == Some(record),
{
    let payload = record.payload();
    match record {
        RecordModel::Begin { generation } => {
            le64_reads_back(generation);
        },
        RecordModel::Promote { staged, destination } => {
            let first = string_bytes(staged);
            let second = string_bytes(destination);
            assert(payload.subrange(0, first.len() as int) =~= first);
            assert(payload.subrange(first.len() as int, first.len() as int + second.len())
                =~= second);
            string_reads_back(payload, 0, staged);
            string_reads_back(payload, first.len() as int, destination);
        },
        RecordModel::Remove { path } => {
            assert(payload.subrange(0, payload.len() as int) =~= payload);
            string_reads_back(payload, 0, path);
        },
        RecordModel::Commit => {},
    }
}

proof fn header_of(record: RecordModel, bytes: Seq<u8>, at: int)
    requires
        record.fits(),
        0 <= at,
        at + 12 <= bytes.len(),
        bytes.subrange(at, at + 12) == record.encoded().take(12),
    ensures
        from_le32(bytes.subrange(at, at + 4)) == record.kind(),
        from_le32(bytes.subrange(at + 4, at + 8)) == record.payload().len(),
        from_le32(bytes.subrange(at + 8, at + 12)) == crc_of(
            covered(record.kind(), record.payload()),
        ),
{
    let length = record.payload().len() as u32;
    let checksum = crc_of(covered(record.kind(), record.payload()));
    payload_length(record);
    le32_reads_back(record.kind());
    le32_reads_back(length);
    le32_reads_back(checksum);
    let head = bytes.subrange(at, at + 12);
    assert(bytes.subrange(at, at + 4) =~= le32(record.kind())) by {
        assert forall|i: int| 0 <= i < 4 implies bytes.subrange(at, at + 4)[i] == le32(
            record.kind(),
        )[i] by {
            assert(head[i] == record.encoded()[i]);
        }
    }
    assert(bytes.subrange(at + 4, at + 8) =~= le32(length)) by {
        assert forall|i: int| 0 <= i < 4 implies bytes.subrange(at + 4, at + 8)[i] == le32(
            length,
        )[i] by {
            assert(head[i + 4] == record.encoded()[i + 4]);
        }
    }
    assert(bytes.subrange(at + 8, at + 12) =~= le32(checksum)) by {
        assert forall|i: int| 0 <= i < 4 implies bytes.subrange(at + 8, at + 12)[i] == le32(
            checksum,
        )[i] by {
            assert(head[i + 8] == record.encoded()[i + 8]);
        }
    }
}

proof fn record_reads_back(record: RecordModel, bytes: Seq<u8>, at: int)
    requires
        record.fits(),
        0 <= at,
        at + record.encoded().len() <= bytes.len(),
        bytes.subrange(at, at + record.encoded().len()) == record.encoded(),
    ensures
        record_at(bytes, at) == Some((record, at + record.encoded().len())),
{
    let whole = record.encoded();
    payload_length(record);
    le32_reads_back(record.kind());
    assert(whole.len() == 12 + record.payload().len());
    assert(bytes.subrange(at, at + 12) =~= whole.take(12)) by {
        assert forall|i: int| 0 <= i < 12 implies bytes.subrange(at, at + 12)[i] == whole[i] by {
            assert(bytes.subrange(at, at + whole.len())[i] == whole[i]);
        }
    }
    header_of(record, bytes, at);
    let end = at + whole.len();
    assert(bytes.subrange(at + 12, end) =~= record.payload()) by {
        assert forall|i: int| 0 <= i < record.payload().len() implies bytes.subrange(at + 12, end)[i]
            == record.payload()[i] by {
            assert(bytes.subrange(at, end)[i + 12] == whole[i + 12]);
        }
    }
    payload_reads_back(record);
}

/// Whether a part of a record cannot be read as a record: any part that is not the whole.
proof fn torn_record_is_refused(record: RecordModel, bytes: Seq<u8>, at: int)
    requires
        record.fits(),
        0 <= at < bytes.len(),
        bytes.len() - at < record.encoded().len(),
        bytes.skip(at) == record.encoded().take(bytes.len() - at),
    ensures
        record_at(bytes, at) is None,
{
    let whole = record.encoded();
    payload_length(record);
    le32_reads_back(record.kind());
    assert(whole.len() == 12 + record.payload().len());
    if at + 12 <= bytes.len() {
        assert(bytes.subrange(at, at + 12) =~= whole.take(12)) by {
            assert forall|i: int| 0 <= i < 12 implies bytes.subrange(at, at + 12)[i] == whole[i] by {
                assert(bytes.skip(at)[i] == whole.take(bytes.len() - at)[i]);
            }
        }
        header_of(record, bytes, at);
    }
}

proof fn records_read_back_from(records: Seq<RecordModel>, bytes: Seq<u8>, at: int)
    requires
        all_fit(records),
        0 <= at,
        at + encoded_all(records).len() <= bytes.len(),
        bytes.subrange(at, at + encoded_all(records).len()) == encoded_all(records),
    ensures
        read_from(bytes, at) == ({
            let rest = read_from(bytes, at + encoded_all(records).len());
            (records + rest.0, rest.1)
        }),
    decreases records.len(),
{
    let rest = read_from(bytes, at + encoded_all(records).len());
    if records.len() == 0 {
        assert(records + rest.0 =~= rest.0);
    } else {
        let first = records[0].encoded();
        let others = records.drop_first();
        let tail = encoded_all(others);
        let all = encoded_all(records);
        le32_reads_back(records[0].kind());
        assert(all.len() == first.len() + tail.len());
        assert(bytes.subrange(at, at + first.len()) =~= first) by {
            assert forall|i: int| 0 <= i < first.len() implies bytes.subrange(
                at,
                at + first.len(),
            )[i] == first[i] by {
                assert(bytes.subrange(at, at + all.len())[i] == all[i]);
            }
        }
        record_reads_back(records[0], bytes, at);
        let next = at + first.len();
        assert(bytes.subrange(next, next + tail.len()) =~= tail) by {
            assert forall|i: int| 0 <= i < tail.len() implies bytes.subrange(
                next,
                next + tail.len(),
            )[i] == tail[i] by {
                assert(bytes.subrange(at, at + all.len())[i + first.len()] == all[i + first.len()]);
            }
        }
        assert(all_fit(others)) by {
            assert forall|i: int| 0 <= i < others.len() implies (#[trigger] others[i]).fits() by {
                assert(others[i] == records[i + 1]);
            }
        }
        records_read_back_from(others, bytes, next);
        assert(first.len() > 0);
        assert(seq![records[0]] + (others + rest.0) =~= records + rest.0);
    }
}

/// What was written is what is read: a journal of whole records replays as those records,
/// with nothing discarded.
pub proof fn written_records_are_read(records: Seq<RecordModel>)
    requires
        all_fit(records),
    ensures
        replayed(encoded_all(records)) == recovery_of(records, false),
{
    let bytes = encoded_all(records);
    assert(bytes.subrange(0, bytes.len() as int) =~= bytes);
    records_read_back_from(records, bytes, 0);
    assert(read_from(bytes, bytes.len() as int).0 =~= Seq::empty());
    assert(records + Seq::empty() =~= records);
}

/// A torn tail is discarded at every point where a record can be cut, and reported.
pub proof fn torn_tail_is_discarded(records: Seq<RecordModel>, torn: RecordModel, kept: int)
    requires
        all_fit(records),
        torn.fits(),
        0 < kept < torn.encoded().len(),
    ensures
        replayed(encoded_all(records) + torn.encoded().take(kept)) == recovery_of(records, true),
{
    let whole = encoded_all(records);
    let bytes = whole + torn.encoded().take(kept);
    assert(bytes.subrange(0, whole.len() as int) =~= whole);
    records_read_back_from(records, bytes, 0);
    let at = whole.len() as int;
    assert(bytes.skip(at) =~= torn.encoded().take(kept));
    torn_record_is_refused(torn, bytes, at);
    assert(records + Seq::empty() =~= records);
}

/// A committed transaction is recovered whole, with its generation, and nothing of it is
/// abandoned, whatever complete records stand before it.
pub proof fn committed_transaction_is_recovered(
    earlier: Seq<RecordModel>,
    generation: u64,
    actions: Seq<RecordModel>,
)
    requires
        forall|i: int|
            0 <= i < actions.len() ==> !(#[trigger] actions[i] is Begin) && !(actions[i] is Commit),
    ensures
        ({
            let recovery = recovery_of(earlier + transaction(generation, actions), false);
            &&& recovery.committed == transaction(generation, actions)
            &&& recovery.abandoned_staged == Seq::<Seq<char>>::empty()
            &&& first_generation(recovery.committed, 0) == Some(generation)
        }),
{
    let group = transaction(generation, actions);
    let records = earlier + group;
    let commit = records.len() - 1;
    assert(records[commit] == group[group.len() - 1]);
    let begin = earlier.len() as int;
    assert forall|i: int| begin < i < commit implies !(#[trigger] records[i] is Begin) && !(
    records[i] is Commit) by {
        assert(records[i] == group[i - begin]);
        assert(group[i - begin] == actions[i - begin - 1]);
    }
    assert(records[begin] == group[0]);
    opened_is(records, commit, begin);
    assert(records.subrange(begin, commit + 1) =~= group);
    assert(records.skip(commit + 1) =~= Seq::empty());
}

proof fn opened_is(records: Seq<RecordModel>, upto: int, begin: int)
    requires
        0 <= begin < upto <= records.len(),
        records[begin] is Begin,
        forall|i: int|
            begin < i < upto ==> !(#[trigger] records[i] is Begin) && !(records[i] is Commit),
    ensures
        opened(records, upto) == Some(begin),
    decreases upto,
{
    if upto - 1 != begin {
        opened_is(records, upto - 1, begin);
    }
}

proof fn last_closed_ignores(records: Seq<RecordModel>, tail: Seq<RecordModel>, upto: int)
    requires
        records.len() <= upto <= records.len() + tail.len(),
        forall|i: int| 0 <= i < tail.len() ==> !(#[trigger] tail[i] is Commit),
    ensures
        last_closed(records + tail, upto) == last_closed(records, records.len() as int),
    decreases upto,
{
    if upto > records.len() {
        assert((records + tail)[upto - 1] == tail[upto - 1 - records.len()]);
        last_closed_ignores(records, tail, upto - 1);
    } else {
        prefix_agrees(records, tail, upto);
    }
}

proof fn prefix_agrees(records: Seq<RecordModel>, tail: Seq<RecordModel>, upto: int)
    requires
        0 <= upto <= records.len(),
    ensures
        last_closed(records + tail, upto) == last_closed(records, upto),
        opened(records + tail, upto) == opened(records, upto),
    decreases upto,
{
    if upto > 0 {
        assert((records + tail)[upto - 1] == records[upto - 1]);
        prefix_agrees(records, tail, upto - 1);
    }
}

/// An uncommitted tail is rolled back: what is committed stays what it was, and the staged
/// files of the tail are abandoned with those that were.
pub proof fn uncommitted_tail_is_rolled_back(
    records: Seq<RecordModel>,
    tail: Seq<RecordModel>,
    truncated: bool,
)
    requires
        forall|i: int| 0 <= i < tail.len() ==> !(#[trigger] tail[i] is Commit),
    ensures
        ({
            let before = recovery_of(records, truncated);
            let recovery = recovery_of(records + tail, truncated);
            &&& recovery.committed == before.committed
            &&& recovery.abandoned_staged == before.abandoned_staged + staged_files(tail)
        }),
{
    let all = records + tail;
    last_closed_ignores(records, tail, all.len() as int);
    closed_bounds(records, records.len() as int);
    match last_closed(records, records.len() as int) {
        None => {
            staged_files_join(records, tail);
        },
        Some((begin, commit)) => {
            assert(all.subrange(begin, commit + 1) =~= records.subrange(begin, commit + 1));
            assert(all.skip(commit + 1) =~= records.skip(commit + 1) + tail);
            staged_files_join(records.skip(commit + 1), tail);
        },
    }
}

proof fn staged_files_join(first: Seq<RecordModel>, second: Seq<RecordModel>)
    ensures
        staged_files(first + second) == staged_files(first) + staged_files(second),
    decreases second.len(),
{
    if second.len() == 0 {
        assert(first + second =~= first);
        assert(staged_files(first) + staged_files(second) =~= staged_files(first));
    } else {
        staged_files_join(first, second.drop_last());
        assert((first + second).drop_last() =~= first + second.drop_last());
        assert((first + second).last() == second.last());
        match second.last() {
            RecordModel::Promote { staged, .. } => {
                assert((staged_files(first) + staged_files(second.drop_last())).push(staged)
                    =~= staged_files(first) + staged_files(second.drop_last()).push(staged));
            },
            _ => {},
        }
    }
}

/// Only what lies between a `Begin` and its matching `Commit` is replayed: whatever the
/// records, what recovery applies is nothing, or one `Begin`, actions, and one `Commit`.
pub proof fn only_a_whole_transaction_is_replayed(records: Seq<RecordModel>, truncated: bool)
    ensures
        ({
            let committed = recovery_of(records, truncated).committed;
            committed.len() > 0 ==> {
                &&& committed.len() > 1
                &&& committed[0] is Begin
                &&& committed.last() is Commit
                &&& forall|i: int|
                    0 < i < committed.len() - 1 ==> !(#[trigger] committed[i] is Begin) && !(
                    committed[i] is Commit)
            }
        }),
        (forall|i: int| 0 <= i < records.len() ==> !(#[trigger] records[i] is Begin))
            ==> recovery_of(records, truncated).committed == Seq::<RecordModel>::empty(),
{
    closed_bounds(records, records.len() as int);
    if let Some((begin, commit)) = last_closed(records, records.len() as int) {
        opened_bounds(records, commit);
        let committed = records.subrange(begin, commit + 1);
        assert(committed[0] == records[begin]);
        assert(committed.last() == records[commit]);
        assert forall|i: int| 0 < i < committed.len() - 1 implies !(#[trigger] committed[i] is Begin)
            && !(committed[i] is Commit) by {
            assert(committed[i] == records[begin + i]);
        }
    }
}

/// Without a commit nothing is applied.
pub proof fn nothing_committed_nothing_applied(records: Seq<RecordModel>, truncated: bool)
    requires
        forall|i: int| 0 <= i < records.len() ==> !(#[trigger] records[i] is Commit),
    ensures
        recovery_of(records, truncated).committed == Seq::<RecordModel>::empty(),
        first_generation(recovery_of(records, truncated).committed, 0) is None,
{
    last_closed_ignores(Seq::empty(), records, records.len() as int);
    assert(Seq::empty() + records =~= records);
}

} // verus!
