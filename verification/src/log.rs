//! The record log: the byte format of a record, an append-only log image,
//! and the reader that turns an image back into its records.
//!
//! A record is laid out as follows, every length little-endian:
//!
//! ```text
//! tag        : 1 byte   (0 = put, 1 = delete)
//! key_len    : 4 bytes
//! key        : key_len bytes
//! value_len  : 4 bytes  (put only)
//! value      : value_len bytes  (put only)
//! ```
//!
//! A log is the concatenation of its records, with nothing before, between
//! or after them. The reader is strict: an image that ends inside a record
//! is an error, not a shorter log.

use vstd::prelude::*;
use vstd::slice::slice_to_vec;

verus! {

/// Tag byte of a put record.
pub const RECORD_PUT: u8 = 0;

/// Tag byte of a delete record.
pub const RECORD_DELETE: u8 = 1;

/// One logged mutation, as a mathematical value.
pub enum Record {
    /// Store `value` under `key`.
    Put { key: Seq<u8>, value: Seq<u8> },
    /// Remove `key`.
    Delete { key: Seq<u8> },
}

/// One logged mutation.
#[derive(Debug, PartialEq, Eq)]
pub enum LogRecord {
    /// Put operation: store a key-value pair.
    Put { key: Vec<u8>, value: Vec<u8> },
    /// Delete operation: remove a key.
    Delete { key: Vec<u8> },
}

/// Why a log operation failed.
#[derive(Debug, Clone, Copy, PartialEq, Eq)]
pub enum LogError {
    /// The image ends inside a record.
    UnexpectedEof,
    /// A record starts with a tag byte that is neither put nor delete.
    UnknownRecordType(u8),
    /// A key or value is longer than a 32-bit length field can say.
    FieldTooLong,
}

impl View for LogRecord {
    type V = Record;

    open spec fn view(&self) -> Record {
        match *self {
            LogRecord::Put { key, value } => Record::Put { key: key@, value: value@ },
            LogRecord::Delete { key } => Record::Delete { key: key@ },
        }
    }
}

impl Clone for LogRecord {
    fn clone(&self) -> (copy: Self)
        ensures
            copy@ == self@,
    {
        match self {
            LogRecord::Put { key, value } => LogRecord::Put {
                key: slice_to_vec(key.as_slice()),
                value: slice_to_vec(value.as_slice()),
            },
            LogRecord::Delete { key } => LogRecord::Delete { key: slice_to_vec(key.as_slice()) },
        }
    }
}

impl DeepView for LogRecord {
    type V = Record;

    open spec fn deep_view(&self) -> Record {
        self@
    }
}

/// The four bytes of a length field that says `n`: the base-256 digits of
/// `n`, lowest first.
pub open spec fn length_bytes(n: nat) -> Seq<u8> {
    seq![
        (n % 256) as u8,
        (n / 256 % 256) as u8,
        (n / 65536 % 256) as u8,
        (n / 16777216 % 256) as u8,
    ]
}

/// The length that the four bytes of a length field say.
pub open spec fn length_value(field: Seq<u8>) -> nat
    recommends
        field.len() == 4,
{
    (field[0] + 256 * field[1] + 65536 * field[2] + 16777216 * field[3]) as nat
}

impl Record {
    /// The key that the record names.
    pub open spec fn key(self) -> Seq<u8> {
        match self {
            Record::Put { key, .. } => key,
            Record::Delete { key } => key,
        }
    }

    /// Whether the length fields can say how long the key and the value are.
    pub open spec fn encodable(self) -> bool {
        match self {
            Record::Put { key, value } => key.len() <= u32::MAX && value.len() <= u32::MAX,
            Record::Delete { key } => key.len() <= u32::MAX,
        }
    }

    /// The bytes of the record in the log.
    pub open spec fn encoding(self) -> Seq<u8> {
        match self {
            Record::Put { key, value } => seq![RECORD_PUT] + length_bytes(key.len()) + key
                + length_bytes(value.len()) + value,
            Record::Delete { key } => seq![RECORD_DELETE] + length_bytes(key.len()) + key,
        }
    }
}

/// Whether every record of `records` can be encoded.
pub open spec fn all_encodable(records: Seq<Record>) -> bool {
    forall|i: int| 0 <= i < records.len() ==> (#[trigger] records[i]).encodable()
}

/// The image of a log that holds `records` in this order.
pub open spec fn encode_log(records: Seq<Record>) -> Seq<u8>
    decreases records.len(),
{
    if records.len() == 0 {
        Seq::empty()
    } else {
        encode_log(records.drop_last()) + records.last().encoding()
    }
}

/// What a reader finds at the front of `bytes`: the first record and the
/// number of bytes it takes, or the reason why there is none.
///
/// The key is read before the tag is judged, so an unknown tag is reported
/// only when a whole key follows it.
pub open spec fn decode_record(bytes: Seq<u8>) -> Result<(Record, int), LogError> {
    if bytes.len() < 5 {
        Err(LogError::UnexpectedEof)
    } else {
        let key_len = length_value(bytes.subrange(1, 5)) as int;
        if bytes.len() < 5 + key_len {
            Err(LogError::UnexpectedEof)
        } else {
            let key = bytes.subrange(5, 5 + key_len);
            if bytes[0] == RECORD_PUT {
                if bytes.len() < 9 + key_len {
                    Err(LogError::UnexpectedEof)
                } else {
                    let value_len = length_value(
                        bytes.subrange(5 + key_len, 9 + key_len),
                    ) as int;
                    if bytes.len() < 9 + key_len + value_len {
                        Err(LogError::UnexpectedEof)
                    } else {
                        let value = bytes.subrange(9 + key_len, 9 + key_len + value_len);
                        Ok((Record::Put { key, value }, 9 + key_len + value_len))
                    }
                }
            } else if bytes[0] == RECORD_DELETE {
                Ok((Record::Delete { key }, 5 + key_len))
            } else {
                Err(LogError::UnknownRecordType(bytes[0]))
            }
        }
    }
}

/// What a reader makes of a whole image: its records in order, or the first
/// error. An empty image is an empty log.
pub open spec fn decode_log(bytes: Seq<u8>) -> Result<Seq<Record>, LogError>
    decreases bytes.len(),
{
    if bytes.len() == 0 {
        Ok(Seq::empty())
    } else {
        match decode_record(bytes) {
            Err(e) => Err(e),
            Ok((record, n)) => match decode_log(bytes.skip(n)) {
                Ok(rest) => Ok(seq![record] + rest),
                Err(e) => Err(e),
            },
        }
    }
}

/// Appends `bytes` to `out`.
fn append_bytes(out: &mut Vec<u8>, bytes: &[u8])
    ensures
        final(out)@ == old(out)@ + bytes@,
{
    out.extend_from_slice(bytes);
    assert(out@ =~= old(out)@ + bytes@);
}

/// Appends the length field that says `n` to `out`.
fn append_length(out: &mut Vec<u8>, n: u32)
    ensures
        final(out)@ == old(out)@ + length_bytes(n as nat),
{
    out.push((n % 256) as u8);
    out.push((n / 256 % 256) as u8);
    out.push((n / 65536 % 256) as u8);
    out.push((n / 16777216 % 256) as u8);
    assert(out@ =~= old(out)@ + length_bytes(n as nat));
}

/// Appends the encoding of a put record to `out`, or leaves `out` alone
/// where a field is too long.
fn append_put(out: &mut Vec<u8>, key: &[u8], value: &[u8]) -> (r: Result<(), LogError>)
    ensures
        (Record::Put { key: key@, value: value@ }).encodable() <==> r is Ok,
        r is Ok ==> final(out)@ == old(out)@ + (Record::Put {
            key: key@,
            value: value@,
        }).encoding(),
        r is Err ==> r == Err::<(), LogError>(LogError::FieldTooLong) && final(out)@ == old(out)@,
{
    if key.len() > u32::MAX as usize || value.len() > u32::MAX as usize {
        return Err(LogError::FieldTooLong);
    }
    out.push(RECORD_PUT);
    append_length(out, key.len() as u32);
    append_bytes(out, key);
    append_length(out, value.len() as u32);
    append_bytes(out, value);
    assert(out@ =~= old(out)@ + (Record::Put { key: key@, value: value@ }).encoding());
    Ok(())
}

/// Appends the encoding of a delete record to `out`, or leaves `out` alone
/// where the key is too long.
fn append_delete(out: &mut Vec<u8>, key: &[u8]) -> (r: Result<(), LogError>)
    ensures
        (Record::Delete { key: key@ }).encodable() <==> r is Ok,
        r is Ok ==> final(out)@ == old(out)@ + (Record::Delete { key: key@ }).encoding(),
        r is Err ==> r == Err::<(), LogError>(LogError::FieldTooLong) && final(out)@ == old(out)@,
{
    if key.len() > u32::MAX as usize {
        return Err(LogError::FieldTooLong);
    }
    out.push(RECORD_DELETE);
    append_length(out, key.len() as u32);
    append_bytes(out, key);
    assert(out@ =~= old(out)@ + (Record::Delete { key: key@ }).encoding());
    Ok(())
}

impl LogRecord {
    /// The key that the record names.
    pub fn key(&self) -> (k: &[u8])
        ensures
            k@ == self@.key(),
    {
        match self {
            LogRecord::Put { key, .. } => key.as_slice(),
            LogRecord::Delete { key } => key.as_slice(),
        }
    }

    /// The value that the record stores, if it is a put.
    pub fn value(&self) -> (v: Option<&[u8]>)
        ensures
            match v {
                Some(bytes) => self@ is Put && bytes@ == self@->value,
                None => self@ is Delete,
            },
    {
        match self {
            LogRecord::Put { value, .. } => Some(value.as_slice()),
            LogRecord::Delete { .. } => None,
        }
    }

    /// The bytes of the record in the log.
    ///
    /// Fails with `FieldTooLong`, and only then, where a length field cannot
    /// say how long the key or the value is.
    pub fn encode(&self) -> (r: Result<Vec<u8>, LogError>)
        ensures
            match r {
                Ok(bytes) => self@.encodable() && bytes@ == self@.encoding(),
                Err(e) => !self@.encodable() && e == LogError::FieldTooLong,
            },
    {
        let mut out: Vec<u8> = Vec::new();
        let appended = match self {
            LogRecord::Put { key, value } => append_put(&mut out, key.as_slice(), value.as_slice()),
            LogRecord::Delete { key } => append_delete(&mut out, key.as_slice()),
        };
        match appended {
            Ok(()) => Ok(out),
            Err(e) => Err(e),
        }
    }
}

/// Reads the length field that starts at `pos`.
fn read_length(bytes: &[u8], pos: usize) -> (n: u32)
    requires
        pos + 4 <= bytes@.len(),
    ensures
        n == length_value(bytes@.subrange(pos as int, pos + 4)),
{
    let b0 = bytes[pos] as u32;
    let b1 = bytes[pos + 1] as u32;
    let b2 = bytes[pos + 2] as u32;
    let b3 = bytes[pos + 3] as u32;
    b0 + 256 * b1 + 65536 * b2 + 16777216 * b3
}

/// Copies `bytes[from..to]` into a vector of its own.
fn copy_range(bytes: &[u8], from: usize, to: usize) -> (out: Vec<u8>)
    requires
        from <= to <= bytes@.len(),
    ensures
        out@ == bytes@.subrange(from as int, to as int),
{
    slice_to_vec(&bytes[from..to])
}

/// Reads the record that starts at `pos`, and says where the next one
/// starts.
fn read_record(bytes: &[u8], pos: usize) -> (r: Result<(LogRecord, usize), LogError>)
    requires
        pos < bytes@.len(),
    ensures
        match r {
            Ok((record, next)) => pos < next <= bytes@.len() && decode_record(
                bytes@.skip(pos as int),
            ) == Ok::<(Record, int), LogError>((record@, next - pos)),
            Err(e) => decode_record(bytes@.skip(pos as int)) == Err::<(Record, int), LogError>(e),
        },
{
    let ghost rest = bytes@.skip(pos as int);
    let left = bytes.len() - pos;
    if left < 5 {
        return Err(LogError::UnexpectedEof);
    }
    let tag = bytes[pos];
    let key_len = read_length(bytes, pos + 1) as usize;
    assert(rest.subrange(1, 5) =~= bytes@.subrange(pos + 1, pos + 5));
    if left - 5 < key_len {
        return Err(LogError::UnexpectedEof);
    }
    let key_start = pos + 5;
    let key_end = key_start + key_len;
    let key = copy_range(bytes, key_start, key_end);
    assert(rest.subrange(5, 5 + key_len) =~= key@);
    if tag == RECORD_PUT {
        if left - 5 - key_len < 4 {
            return Err(LogError::UnexpectedEof);
        }
        let value_len = read_length(bytes, key_end) as usize;
        assert(rest.subrange(5 + key_len, 9 + key_len) =~= bytes@.subrange(
            key_end as int,
            key_end + 4,
        ));
        if left - 9 - key_len < value_len {
            return Err(LogError::UnexpectedEof);
        }
        let value_start = key_end + 4;
        let value_end = value_start + value_len;
        let value = copy_range(bytes, value_start, value_end);
        assert(rest.subrange(9 + key_len, 9 + key_len + value_len) =~= value@);
        Ok((LogRecord::Put { key, value }, value_end))
    } else if tag == RECORD_DELETE {
        Ok((LogRecord::Delete { key }, key_end))
    } else {
        Err(LogError::UnknownRecordType(tag))
    }
}

/// An append-only log, held as the bytes of its image.
///
/// The image only grows, and only by whole records: `put` and `delete` add
/// the encoding of one record after everything that is there.
pub struct Log {
    image: Vec<u8>,
}

impl View for Log {
    type V = Seq<u8>;

    /// The image of the log.
    closed spec fn view(&self) -> Seq<u8> {
        self.image@
    }
}

impl Log {
    /// Opens a log on an existing image; an empty image is a new log.
    /// Whatever is appended later comes after `image`.
    pub fn open(image: Vec<u8>) -> (log: Log)
        ensures
            log@ == image@,
    {
        Log { image }
    }

    /// Appends a put record.
    ///
    /// Fails with `FieldTooLong`, and only then, where the key or the value
    /// is longer than a length field can say; the log is then unchanged.
    pub fn put(&mut self, key: &[u8], value: &[u8]) -> (r: Result<(), LogError>)
        ensures
            match r {
                Ok(()) => key@.len() <= u32::MAX && value@.len() <= u32::MAX && final(self)@
                    == old(self)@ + (Record::Put { key: key@, value: value@ }).encoding(),
                Err(e) => (key@.len() > u32::MAX || value@.len() > u32::MAX) && e
                    == LogError::FieldTooLong && final(self)@ == old(self)@,
            },
    {
        append_put(&mut self.image, key, value)
    }

    /// Appends a delete record.
    ///
    /// Fails with `FieldTooLong`, and only then, where the key is longer
    /// than a length field can say; the log is then unchanged.
    pub fn delete(&mut self, key: &[u8]) -> (r: Result<(), LogError>)
        ensures
            match r {
                Ok(()) => key@.len() <= u32::MAX && final(self)@ == old(self)@ + (Record::Delete {
                    key: key@,
                }).encoding(),
                Err(e) => key@.len() > u32::MAX && e == LogError::FieldTooLong && final(self)@
                    == old(self)@,
            },
    {
        append_delete(&mut self.image, key)
    }

    /// Reads every record of an image, from its first byte to its last.
    ///
    /// Succeeds exactly on the images that are a sequence of whole records,
    /// and then returns those records in order. Otherwise returns the first
    /// error that a reader going front to back meets: `UnexpectedEof` where
    /// the image ends inside a record, `UnknownRecordType` where a record
    /// with a whole key has a tag that is neither put nor delete.
    pub fn read_all(image: &[u8]) -> (r: Result<Vec<LogRecord>, LogError>)
        ensures
            match r {
                Ok(records) => {
                    &&& decode_log(image@) == Ok::<Seq<Record>, LogError>(records.deep_view())
                    &&& all_encodable(records.deep_view())
                    &&& encode_log(records.deep_view()) == image@
                },
                Err(e) => decode_log(image@) == Err::<Seq<Record>, LogError>(e),
            },
    {
        let mut records: Vec<LogRecord> = Vec::new();
        let mut pos: usize = 0;
        proof {
            assert(image@.skip(0) =~= image@);
            assert forall|rest: Seq<Record>| records.deep_view() + rest == rest by {
                assert(records.deep_view() + rest =~= rest);
            }
        }
        while pos < image.len()
            invariant
                pos <= image@.len(),
                decode_log(image@) == match decode_log(image@.skip(pos as int)) {
                    Ok(rest) => Ok::<Seq<Record>, LogError>(records.deep_view() + rest),
                    Err(e) => Err(e),
                },
            decreases image@.len() - pos,
        {
            let ghost before = records.deep_view();
            let ghost rest = image@.skip(pos as int);
            match read_record(image, pos) {
                Err(e) => {
                    return Err(e);
                },
                Ok((record, next)) => {
                    assert(rest.skip(next - pos) =~= image@.skip(next as int));
                    records.push(record);
                    assert forall|tail: Seq<Record>|
                        before + (seq![record@] + tail) == records.deep_view()
                            + tail by {
                        assert(before + (seq![record@] + tail) =~= records.deep_view() + tail);
                    }
                    pos = next;
                },
            }
        }
        assert(image@.skip(pos as int) =~= Seq::<u8>::empty());
        assert(records.deep_view() + Seq::<Record>::empty() =~= records.deep_view());
        proof {
            lemma_decode_then_encode(image@);
        }
        Ok(records)
    }

    /// The image of the log.
    pub fn as_bytes(&self) -> (bytes: &[u8])
        ensures
            bytes@ == self@,
    {
        self.image.as_slice()
    }

    /// Gives up the log for its image.
    pub fn into_bytes(self) -> (bytes: Vec<u8>)
        ensures
            bytes@ == self@,
    {
        self.image
    }

    /// The length of the image in bytes.
    pub fn len(&self) -> (n: usize)
        ensures
            n == self@.len(),
    {
        self.image.len()
    }
}

/// A length field says what was put into it.
pub proof fn lemma_length_round_trip(n: nat)
    requires
        n <= u32::MAX,
    ensures
        length_bytes(n).len() == 4,
        length_value(length_bytes(n)) == n,
{
}

/// Four bytes are the length field of the length they say, which fits in 32
/// bits.
pub proof fn lemma_length_bytes_of_value(field: Seq<u8>)
    requires
        field.len() == 4,
    ensures
        length_value(field) <= u32::MAX,
        length_bytes(length_value(field)) == field,
{
    let b0 = field[0] as int;
    let b1 = field[1] as int;
    let b2 = field[2] as int;
    let b3 = field[3] as int;
    let n = length_value(field) as int;
    assert(n == b0 + 256 * (b1 + 256 * (b2 + 256 * b3)));
    assert(n % 256 == b0 && n / 256 == b1 + 256 * (b2 + 256 * b3));
    assert(n / 256 % 256 == b1);
    assert(n == (b0 + 256 * b1) + 65536 * (b2 + 256 * b3));
    assert(n / 65536 == b2 + 256 * b3);
    assert(n / 65536 % 256 == b2);
    assert(n == (b0 + 256 * b1 + 65536 * b2) + 16777216 * b3);
    assert(n / 16777216 == b3);
    assert(length_bytes(n as nat) =~= field);
}

/// A reader that meets the encoding of a record finds that record, whatever
/// follows it.
pub proof fn lemma_decode_record_of_encoding(record: Record, tail: Seq<u8>)
    requires
        record.encodable(),
    ensures
        decode_record(record.encoding() + tail) == Ok::<(Record, int), LogError>(
            (record, record.encoding().len() as int),
        ),
{
    let bytes = record.encoding() + tail;
    let key = record.key();
    let k = key.len() as int;
    lemma_length_round_trip(key.len());
    assert(bytes.subrange(1, 5) =~= length_bytes(key.len()));
    assert(bytes.subrange(5, 5 + k) =~= key);
    match record {
        Record::Put { key, value } => {
            let v = value.len() as int;
            lemma_length_round_trip(value.len());
            assert(bytes.subrange(5 + k, 9 + k) =~= length_bytes(value.len()));
            assert(bytes.subrange(9 + k, 9 + k + v) =~= value);
        },
        Record::Delete { key } => {},
    }
}

/// What a reader finds at the front of an image is a record that can be
/// encoded, and the bytes it was read from are its encoding.
pub proof fn lemma_decode_record_is_encoding(bytes: Seq<u8>)
    requires
        decode_record(bytes) is Ok,
    ensures
        ({
            let (record, n) = decode_record(bytes)->Ok_0;
            &&& record.encodable()
            &&& 0 < n <= bytes.len()
            &&& n == record.encoding().len()
            &&& bytes.subrange(0, n) == record.encoding()
        }),
{
    let (record, n) = decode_record(bytes)->Ok_0;
    let key_len = length_value(bytes.subrange(1, 5)) as int;
    lemma_length_bytes_of_value(bytes.subrange(1, 5));
    if bytes[0] == RECORD_PUT {
        let value_field = bytes.subrange(5 + key_len, 9 + key_len);
        lemma_length_bytes_of_value(value_field);
    }
    assert(bytes.subrange(0, n) =~= record.encoding());
}

/// The image of two logs one after the other is the two images one after
/// the other.
pub proof fn lemma_encode_log_concat(first: Seq<Record>, second: Seq<Record>)
    ensures
        encode_log(first + second) == encode_log(first) + encode_log(second),
    decreases second.len(),
{
    if second.len() == 0 {
        assert(first + second =~= first);
        assert(encode_log(first) + encode_log(second) =~= encode_log(first));
    } else {
        lemma_encode_log_concat(first, second.drop_last());
        assert((first + second).drop_last() =~= first + second.drop_last());
        assert(encode_log(first + second) =~= encode_log(first) + encode_log(second));
    }
}

/// Reading an image that continues: where `first` is a whole log, a reader
/// of `first + second` finds the records of `first` and then whatever it
/// finds in `second`.
pub proof fn lemma_decode_log_concat(first: Seq<u8>, second: Seq<u8>)
    requires
        decode_log(first) is Ok,
    ensures
        decode_log(first + second) == match decode_log(second) {
            Ok(rest) => Ok::<Seq<Record>, LogError>(decode_log(first)->Ok_0 + rest),
            Err(e) => Err(e),
        },
    decreases first.len(),
{
    if first.len() == 0 {
        assert(first + second =~= second);
        if let Ok(rest) = decode_log(second) {
            assert(decode_log(first)->Ok_0 + rest =~= rest);
        }
    } else {
        let (record, n) = decode_record(first)->Ok_0;
        lemma_decode_record_is_encoding(first);
        let whole = first + second;
        assert(whole =~= record.encoding() + (first.skip(n) + second));
        lemma_decode_record_of_encoding(record, first.skip(n) + second);
        assert(whole.skip(n) =~= first.skip(n) + second);
        lemma_decode_log_concat(first.skip(n), second);
        if let Ok(rest) = decode_log(second) {
            let mid = decode_log(first.skip(n))->Ok_0;
            assert(seq![record] + (mid + rest) =~= (seq![record] + mid) + rest);
        }
    }
}

/// A reader of the encoding of one record finds that record and no other.
pub proof fn lemma_decode_log_of_one(record: Record)
    requires
        record.encodable(),
    ensures
        decode_log(record.encoding()) == Ok::<Seq<Record>, LogError>(seq![record]),
{
    let bytes = record.encoding();
    assert(bytes + Seq::<u8>::empty() =~= bytes);
    lemma_decode_record_of_encoding(record, Seq::empty());
    assert(bytes.skip(bytes.len() as int) =~= Seq::<u8>::empty());
    assert(decode_log(Seq::<u8>::empty()) == Ok::<Seq<Record>, LogError>(Seq::empty()));
    assert(seq![record] + Seq::<Record>::empty() =~= seq![record]);
}

/// Reading after appending: where `image` is a whole log, a reader of
/// `image` with the encoding of `record` after it finds the records of
/// `image` and then `record`.
pub proof fn lemma_decode_log_append(image: Seq<u8>, record: Record)
    requires
        decode_log(image) is Ok,
        record.encodable(),
    ensures
        decode_log(image + record.encoding()) == Ok::<Seq<Record>, LogError>(
            decode_log(image)->Ok_0.push(record),
        ),
{
    lemma_decode_log_of_one(record);
    lemma_decode_log_concat(image, record.encoding());
    let records = decode_log(image)->Ok_0;
    assert(records + seq![record] =~= records.push(record));
}

/// Encoding then decoding gives back the records: a reader of the image of
/// `records` finds exactly `records`, whatever the tags, and whether keys
/// and values are empty or long, as long as the length fields can say their
/// lengths.
pub proof fn lemma_encode_then_decode(records: Seq<Record>)
    requires
        all_encodable(records),
    ensures
        decode_log(encode_log(records)) == Ok::<Seq<Record>, LogError>(records),
    decreases records.len(),
{
    if records.len() == 0 {
        assert(records =~= Seq::<Record>::empty());
    } else {
        let front = records.drop_last();
        lemma_encode_then_decode(front);
        lemma_decode_log_append(encode_log(front), records.last());
        assert(front.push(records.last()) =~= records);
    }
}

/// Decoding then encoding gives back the image: the records that a reader
/// finds can all be encoded, and their image is the image that was read.
pub proof fn lemma_decode_then_encode(image: Seq<u8>)
    requires
        decode_log(image) is Ok,
    ensures
        all_encodable(decode_log(image)->Ok_0),
        encode_log(decode_log(image)->Ok_0) == image,
    decreases image.len(),
{
    let records = decode_log(image)->Ok_0;
    if image.len() == 0 {
        assert(image =~= Seq::<u8>::empty());
    } else {
        let (record, n) = decode_record(image)->Ok_0;
        lemma_decode_record_is_encoding(image);
        let rest = decode_log(image.skip(n))->Ok_0;
        lemma_decode_then_encode(image.skip(n));
        assert(records == seq![record] + rest);
        lemma_encode_log_concat(seq![record], rest);
        assert(seq![record].drop_last() =~= Seq::<Record>::empty());
        assert(encode_log(Seq::<Record>::empty()) =~= Seq::<u8>::empty());
        assert(encode_log(seq![record]) =~= record.encoding());
        assert(image =~= image.subrange(0, n) + image.skip(n));
    }
}

/// A torn append is an error: where a whole log is followed by the first
/// `cut` bytes of a record, some but not all of them, the reader fails with
/// `UnexpectedEof`. Such is the image that a writer leaves who was stopped
/// in the middle of a record.
pub proof fn lemma_torn_append_is_eof(image: Seq<u8>, record: Record, cut: int)
    requires
        decode_log(image) is Ok,
        record.encodable(),
        0 < cut < record.encoding().len(),
    ensures
        decode_log(image + record.encoding().take(cut)) == Err::<Seq<Record>, LogError>(
            LogError::UnexpectedEof,
        ),
{
    let torn = record.encoding().take(cut);
    let key = record.key();
    let k = key.len() as int;
    lemma_length_round_trip(key.len());
    if cut >= 5 {
        assert(torn.subrange(1, 5) =~= length_bytes(key.len()));
    }
    match record {
        Record::Put { key, value } => {
            lemma_length_round_trip(value.len());
            if cut >= 9 + k {
                assert(torn.subrange(5 + k, 9 + k) =~= length_bytes(value.len()));
            }
        },
        Record::Delete { key } => {},
    }
    assert(decode_record(torn) == Err::<(Record, int), LogError>(LogError::UnexpectedEof));
    lemma_decode_log_concat(image, torn);
}

/// The reader accepts the images of logs and nothing else: an image can be
/// read to its end exactly if it is the image of some sequence of records.
pub proof fn lemma_decodable_iff_image(image: Seq<u8>)
    ensures
        decode_log(image) is Ok <==> exists|records: Seq<Record>|
            all_encodable(records) && #[trigger] encode_log(records) == image,
{
    if decode_log(image) is Ok {
        lemma_decode_then_encode(image);
        assert(encode_log(decode_log(image)->Ok_0) == image);
    }
    if exists|records: Seq<Record>|
        all_encodable(records) && #[trigger] encode_log(records) == image {
        let records = choose|records: Seq<Record>|
            all_encodable(records) && #[trigger] encode_log(records) == image;
        lemma_encode_then_decode(records);
    }
}

/// Two logs with the same image hold the same records.
pub proof fn lemma_encode_log_injective(first: Seq<Record>, second: Seq<Record>)
    requires
        all_encodable(first),
        all_encodable(second),
        encode_log(first) == encode_log(second),
    ensures
        first == second,
{
    lemma_encode_then_decode(first);
    lemma_encode_then_decode(second);
}

} // verus!
