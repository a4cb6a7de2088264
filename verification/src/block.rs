//! Blocks of records: where a record lies, how a block frames it, the
//! writer that packs records into blocks and the reader that takes one out.
//!
//! A block is a run of frames, each the varint of a record's length and then
//! the record. It has no header and no footer; a record is found by the
//! offset of its frame.
use crate::blob::{fetched, got, lookup, stored, Blobstore};
use crate::error::Error;
use crate::varint::{
    decode_var, encode_var_vec, lemma_parse_varint, lemma_parse_varint_prefix, lemma_read_varint,
    lemma_read_varint_within, lemma_varint_len, read_varint, required_space, varint,
};
use std::borrow::Cow;
use vstd::prelude::*;
use vstd::slice::{slice_subrange, slice_to_vec};

verus! {

/// Where a record lies: the block that holds it and the byte at which its
/// framing starts in that block's uncompressed payload.
#[derive(PartialEq, Eq, Structural, Debug, Clone, Copy)]
pub struct Location {
    pub block_id: usize,
    pub offset: usize,
}

impl Default for Location {
    /// The start of block 0.
    fn default() -> (loc: Location)
        ensures
            loc == (Location { block_id: 0, offset: 0 }),
    {
        Location { block_id: 0, offset: 0 }
    }
}

impl Location {
    /// The wire form of a location: its two fields as varints, block first.
    pub open spec fn encoding(self) -> Seq<u8> {
        varint(self.block_id as nat) + varint(self.offset as nat)
    }

    /// What `decode` makes of `bytes`: two varints and nothing after them.
    pub open spec fn decoding(bytes: Seq<u8>) -> Result<Location, Error> {
        match read_varint(bytes) {
            Some((block_id, k)) => match read_varint(bytes.skip(k as int)) {
                Some((offset, j)) => if k + j == bytes.len() {
                    Ok(Location { block_id, offset })
                } else {
                    Err(Error::Codec)
                },
                None => Err(Error::Codec),
            },
            None => Err(Error::Codec),
        }
    }

    /// The wire form of the location.
    pub fn encode(&self) -> (buf: Vec<u8>)
        ensures
            buf@ == self.encoding(),
            2 <= buf@.len() <= 20,
    {
        let mut buf = encode_var_vec(self.block_id);
        let tail = encode_var_vec(self.offset);
        buf.extend_from_slice(tail.as_slice());
        proof {
            lemma_varint_len(self.block_id as nat);
            lemma_varint_len(self.offset as nat);
        }
        buf
    }

    /// The location whose wire form `buf` is, or `Error::Codec` where `buf`
    /// is not two varints that fit a `usize` each, with nothing after them.
    pub fn decode(buf: &[u8]) -> (r: Result<Location, Error>)
        ensures
            r == Location::decoding(buf@),
    {
        match decode_var(buf) {
            None => Err(Error::Codec),
            Some((block_id, k)) => {
                proof {
                    lemma_read_varint_within(buf@);
                }
                let rest = slice_subrange(buf, k, buf.len());
                assert(rest@ == buf@.skip(k as int));
                match decode_var(rest) {
                    None => Err(Error::Codec),
                    Some((offset, j)) => {
                        proof {
                            lemma_read_varint_within(rest@);
                        }
                        if j == rest.len() {
                            Ok(Location { block_id, offset })
                        } else {
                            Err(Error::Codec)
                        }
                    },
                }
            },
        }
    }
}

/// Decoding what `encode` wrote gives the location back.
pub proof fn lemma_decode_encode(loc: Location)
    ensures
        Location::decoding(loc.encoding()) == Ok::<Location, Error>(loc),
{
    let head = varint(loc.block_id as nat);
    let tail = varint(loc.offset as nat);
    lemma_read_varint(loc.block_id, tail);
    lemma_varint_len(loc.block_id as nat);
    assert((head + tail).skip(head.len() as int) =~= tail);
    assert(tail =~= tail + Seq::<u8>::empty());
    lemma_read_varint(loc.offset, Seq::<u8>::empty());
    lemma_varint_len(loc.offset as nat);
}

/// The lower-case hex digit of `d`, for `d` from 0 to 15.
pub open spec fn hex_digit(d: int) -> char {
    seq!['0', '1', '2', '3', '4', '5', '6', '7', '8', '9', 'a', 'b', 'c', 'd', 'e', 'f'][d]
}

/// `bytes` in lower-case hex, two digits a byte, the high one first.
pub open spec fn hex(bytes: Seq<u8>) -> Seq<char> {
    Seq::new(
        2 * bytes.len(),
        |i: int|
            hex_digit(
                if i % 2 == 0 {
                    bytes[i / 2] as int / 16
                } else {
                    bytes[i / 2] as int % 16
                },
            ),
    )
}

/// The key under which block `block_id` is stored: the hex of its varint.
pub open spec fn block_key(block_id: usize) -> Seq<char> {
    hex(varint(block_id as nat))
}

/// `bytes` in lower-case hex.
///
/// Trusted: calls `hex::encode`, which maps each byte to the two characters
/// of `0123456789abcdef` at its high and its low four bits. The contract
/// states that string as `hex(bytes)`.
#[verifier::external_body]
fn hex_encode(bytes: &[u8]) -> (text: String)
    ensures
        text@ == hex(bytes@),
{
    hex::encode(bytes)
}

/// The key under which block `block_id` is stored.
pub fn block_name(block_id: usize) -> (name: String)
    ensures
        name@ == block_key(block_id),
{
    let id = encode_var_vec(block_id);
    hex_encode(id.as_slice())
}

/// Different bytes have different hex.
pub proof fn lemma_hex_injective(a: Seq<u8>, b: Seq<u8>)
    requires
        hex(a) == hex(b),
    ensures
        a == b,
{
    assert(hex(a).len() == 2 * a.len());
    assert(hex(b).len() == 2 * b.len());
    assert forall|i: int| 0 <= i < a.len() implies a[i] == b[i] by {
        let x = a[i] as int;
        let y = b[i] as int;
        assert(hex(a)[2 * i] == hex_digit(x / 16));
        assert(hex(b)[2 * i] == hex_digit(y / 16));
        assert(hex(a)[2 * i + 1] == hex_digit(x % 16));
        assert(hex(b)[2 * i + 1] == hex_digit(y % 16));
        lemma_hex_digit_injective(x / 16, y / 16);
        lemma_hex_digit_injective(x % 16, y % 16);
    }
    assert(a =~= b);
}

/// The sixteen hex digits are sixteen different characters.
pub proof fn lemma_hex_digit_injective(c: int, d: int)
    requires
        0 <= c < 16,
        0 <= d < 16,
        hex_digit(c) == hex_digit(d),
    ensures
        c == d,
{
}

/// Different integers have different varints.
pub proof fn lemma_varint_injective(a: nat, b: nat)
    requires
        varint(a) == varint(b),
    ensures
        a == b,
{
    lemma_parse_varint(a, Seq::<u8>::empty());
    lemma_parse_varint(b, Seq::<u8>::empty());
}

/// Different blocks have different keys.
pub proof fn lemma_block_key_injective(a: usize, b: usize)
    requires
        block_key(a) == block_key(b),
    ensures
        a == b,
{
    lemma_hex_injective(varint(a as nat), varint(b as nat));
    lemma_varint_injective(a as nat, b as nat);
}

/// A record as a block holds it: the varint of its length, then its bytes.
pub open spec fn frame(record: Seq<u8>) -> Seq<u8> {
    varint(record.len()) + record
}

/// The record whose frame starts at `offset` in `block`, or `None` where no
/// whole frame starts there.
pub open spec fn record_at(block: Seq<u8>, offset: int) -> Option<Seq<u8>> {
    if 0 <= offset <= block.len() {
        match read_varint(block.skip(offset)) {
            Some((len, k)) => if offset + k + len <= block.len() {
                Some(block.subrange(offset + k, offset + k + len))
            } else {
                None
            },
            None => None,
        }
    } else {
        None
    }
}

/// What reading at `offset` in `block` returns: the record there, or
/// `Error::Codec` where there is none.
pub open spec fn extracted(block: Seq<u8>, offset: int) -> Result<Seq<u8>, Error> {
    match record_at(block, offset) {
        Some(record) => Ok(record),
        None => Err(Error::Codec),
    }
}

/// A result that holds bytes, with the bytes as a sequence.
pub open spec fn bytes_of(r: Result<Vec<u8>, Error>) -> Result<Seq<u8>, Error> {
    match r {
        Ok(bytes) => Ok(bytes@),
        Err(e) => Err(e),
    }
}

/// Reads the record whose frame starts at `offset` in `block`.
pub fn read_record(block: &[u8], offset: usize) -> (r: Result<Vec<u8>, Error>)
    ensures
        bytes_of(r) == extracted(block@, offset as int),
{
    if offset > block.len() {
        return Err(Error::Codec);
    }
    let rest = slice_subrange(block, offset, block.len());
    assert(rest@ == block@.skip(offset as int));
    match decode_var(rest) {
        None => Err(Error::Codec),
        Some((len, k)) => {
            proof {
                lemma_read_varint_within(rest@);
            }
            let start = offset + k;
            if len > block.len() - start {
                Err(Error::Codec)
            } else {
                let record = slice_to_vec(slice_subrange(block, start, start + len));
                Ok(record)
            }
        },
    }
}

/// A frame is read back as its record, whatever stands before and after it.
pub proof fn lemma_record_at_frame(before: Seq<u8>, record: Seq<u8>, after: Seq<u8>)
    requires
        record.len() <= usize::MAX,
    ensures
        record_at(before + frame(record) + after, before.len() as int) == Some(record),
{
    let block = before + frame(record) + after;
    let head = varint(record.len());
    lemma_varint_len(record.len());
    assert(block.skip(before.len() as int) =~= head + (record + after));
    lemma_read_varint(record.len() as usize, record + after);
    let start = (before.len() + head.len()) as int;
    assert(block.subrange(start, start + record.len()) =~= record);
}

/// A record that a block holds is still there when the block grows.
pub proof fn lemma_record_at_extended(block: Seq<u8>, more: Seq<u8>, offset: int)
    requires
        record_at(block, offset) is Some,
    ensures
        record_at(block + more, offset) == record_at(block, offset),
{
    let rest = block.skip(offset);
    lemma_parse_varint_prefix(rest, more);
    assert((block + more).skip(offset) =~= rest + more);
    let (len, k) = read_varint(rest).unwrap();
    assert((block + more).subrange(offset + k, offset + k + len) =~= block.subrange(
        offset + k,
        offset + k + len,
    ));
}

/// Packs records into blocks and publishes each block when it is sealed.
pub trait BlockWriter: Sized {
    /// The writer is in a state that its methods can work from.
    open spec fn inv(&self) -> bool {
        false
    }

    /// An `append` of `item` on `self` may leave the writer as `post` and
    /// return `outcome`.
    open spec fn appended(
        &self,
        item: Seq<u8>,
        post: &Self,
        outcome: Result<Location, Error>,
    ) -> bool {
        true
    }

    /// A `flush` on `self` may leave the writer as `post` and return
    /// `outcome`.
    open spec fn flushed(&self, post: &Self, outcome: Result<(), Error>) -> bool {
        true
    }

    /// Adds `item` to the block in progress, sealing the block first where
    /// the record would take it past its size, and returns where the record
    /// lies.
    fn append(&mut self, item: &[u8]) -> (r: Result<Location, Error>)
        requires
            old(self).inv(),
        ensures
            final(self).inv(),
            old(self).appended(item@, final(self), r),
    ;

    /// Seals the block in progress and publishes it.
    fn flush(&mut self) -> (r: Result<(), Error>)
        requires
            old(self).inv(),
        ensures
            final(self).inv(),
            old(self).flushed(final(self), r),
    ;
}

/// Reads single records out of published blocks.
pub trait BlockReader: Sized {
    /// The reader is in a state that its methods can work from.
    open spec fn inv(&self) -> bool {
        false
    }

    /// A `fetch` at `loc` on `self` may leave the reader as `post` and
    /// return `outcome`.
    open spec fn read(&self, loc: Location, post: &Self, outcome: Result<Seq<u8>, Error>) -> bool {
        true
    }

    /// The record at `loc`.
    fn fetch(&mut self, loc: &Location) -> (r: Result<Vec<u8>, Error>)
        requires
            old(self).inv(),
        ensures
            final(self).inv(),
            old(self).read(*loc, final(self), bytes_of(r)),
    ;
}

/// A writer of blocks into a blob store.
pub struct S3BlockWriter<B: Blobstore> {
    pub underlying: B,
    pub buf: Vec<u8>,
    pub block_size: usize,
    pub cur: Location,
}

/// What a writer is made of.
pub struct S3BlockWriterArgs<B: Blobstore> {
    pub client: B,
    pub block_size: usize,
}

impl<B: Blobstore> S3BlockWriter<B> {
    /// A writer with nothing buffered, whose first block is block 0.
    pub fn new(args: S3BlockWriterArgs<B>) -> (writer: Self)
        ensures
            writer.underlying == args.client,
            writer.block_size == args.block_size,
            writer.buf@ == Seq::<u8>::empty(),
            writer.cur == (Location { block_id: 0, offset: 0 }),
    {
        Self {
            underlying: args.client,
            buf: Vec::with_capacity(args.block_size),
            block_size: args.block_size,
            cur: Location::default(),
        }
    }

    /// Whether `item` has to wait for the block in progress to be sealed:
    /// the block holds something, and would grow past its size.
    pub open spec fn rolls(&self, item: Seq<u8>) -> bool {
        self.buf@.len() > 0 && self.cur.offset + frame(item).len() > self.block_size
    }

    /// The first half of an `append`: a flush with the outcome `sealed` takes
    /// the writer to `mid` where `item` `rolls`; else the writer stays.
    pub open spec fn made_room(&self, item: Seq<u8>, mid: &Self, sealed: Result<(), Error>) -> bool {
        if self.rolls(item) {
            self.flushed(mid, sealed)
        } else {
            *mid == *self && sealed is Ok
        }
    }

    /// The second half of an `append`, from the writer `self` that the first
    /// half left: the error of a flush that failed and nothing more, or the
    /// frame of `item` added to the buffer and the place where it starts.
    pub open spec fn added(
        &self,
        item: Seq<u8>,
        sealed: Result<(), Error>,
        post: &Self,
        outcome: Result<Location, Error>,
    ) -> bool {
        match sealed {
            Ok(_) => {
                &&& outcome == Ok::<Location, Error>(self.cur)
                &&& post.underlying == self.underlying
                &&& post.block_size == self.block_size
                &&& post.buf@ == self.buf@ + frame(item)
                &&& post.cur.block_id == self.cur.block_id
                &&& post.cur.offset == post.buf@.len()
            },
            Err(e) => outcome == Err::<Location, Error>(e) && *post == *self,
        }
    }
}

impl<B: Blobstore> BlockWriter for S3BlockWriter<B> {
    open spec fn inv(&self) -> bool {
        &&& self.underlying.inv()
        &&& self.cur.offset == self.buf@.len()
    }

    /// With nothing buffered, nothing happens. Else the buffer is put under
    /// the key of the block in progress: after success the buffer is empty
    /// and the next block is in progress, after a failure both are as they
    /// were. A writer at its last block id refuses before it calls the store.
    open spec fn flushed(&self, post: &Self, outcome: Result<(), Error>) -> bool {
        if self.buf@.len() == 0 {
            *post == *self && outcome is Ok
        } else if self.cur.block_id == usize::MAX {
            *post == *self && outcome == Err::<(), Error>(Error::Usage)
        } else {
            &&& post.block_size == self.block_size
            &&& stored(
                &self.underlying,
                block_key(self.cur.block_id),
                self.buf@,
                &post.underlying,
                outcome,
            )
            &&& match outcome {
                Ok(_) => {
                    &&& post.buf@ == Seq::<u8>::empty()
                    &&& post.cur == (Location {
                        block_id: (self.cur.block_id + 1) as usize,
                        offset: 0,
                    })
                },
                Err(_) => post.buf == self.buf && post.cur == self.cur,
            }
        }
    }

    /// A flush first, where the record `rolls`. Where that fails, its error
    /// and nothing more. Else the record's frame is added to the buffer, and
    /// the place where it starts is returned.
    open spec fn appended(&self, item: Seq<u8>, post: &Self, outcome: Result<Location, Error>) -> bool {
        exists|mid: Self, sealed: Result<(), Error>| #[trigger]
            self.made_room(item, &mid, sealed) && mid.added(item, sealed, post, outcome)
    }

    fn append(&mut self, item: &[u8]) -> (r: Result<Location, Error>) {
        let size = required_space(item.len());
        let exceeds = match self.cur.offset.checked_add(size) {
            Some(with_head) => match with_head.checked_add(item.len()) {
                Some(end) => end > self.block_size,
                None => true,
            },
            None => true,
        };
        let ghost sealed: Result<(), Error> = Ok(());
        if exceeds && self.buf.len() > 0 {
            let flushed = self.flush();
            proof {
                sealed = flushed;
            }
            match flushed {
                Ok(_) => {},
                Err(e) => {
                    proof {
                        let mid = *self;
                        assert(old(self).made_room(item@, &mid, sealed));
                        assert(mid.added(item@, sealed, self, Err::<Location, Error>(e)));
                    }
                    return Err(e);
                },
            }
        }
        let ghost mid = *self;
        let loc = self.cur;
        let head = encode_var_vec(item.len());
        self.buf.extend_from_slice(head.as_slice());
        self.buf.extend_from_slice(item);
        self.cur.offset = self.buf.len();
        let r = Ok(loc);
        proof {
            assert(self.buf@ =~= mid.buf@ + frame(item@));
            assert(old(self).made_room(item@, &mid, sealed));
            assert(mid.added(item@, sealed, self, r));
        }
        r
    }

    fn flush(&mut self) -> (r: Result<(), Error>) {
        if self.buf.len() == 0 {
            return Ok(());
        }
        let next = match self.cur.block_id.checked_add(1) {
            Some(next) => next,
            None => {
                return Err(Error::Usage);
            },
        };
        let name = block_name(self.cur.block_id);
        let r = self.underlying.put(name.as_str(), self.buf.as_slice());
        if r.is_ok() {
            self.buf.clear();
            self.cur = Location { block_id: next, offset: 0 };
        }
        proof {
            assert(stored(
                &old(self).underlying,
                block_key(old(self).cur.block_id),
                old(self).buf@,
                &self.underlying,
                r,
            ));
            assert(old(self).flushed(self, r));
        }
        r
    }
}

/// A reader of records out of the blocks in a blob store.
pub struct S3BlockReader<B: Blobstore> {
    pub underlying: B,
}

/// What a reader is made of.
pub struct S3BlockReaderArgs<B: Blobstore> {
    pub client: B,
}

impl<B: Blobstore> S3BlockReader<B> {
    /// A reader of the blocks in `args.client`.
    pub fn new(args: S3BlockReaderArgs<B>) -> (reader: Self)
        ensures
            reader.underlying == args.client,
    {
        Self { underlying: args.client }
    }
}

/// What a `fetch` at `offset` makes of the outcome of the `get` of the block.
pub open spec fn picked(block: Result<Option<Seq<u8>>, Error>, offset: int) -> Result<
    Seq<u8>,
    Error,
> {
    match block {
        Ok(Some(bytes)) => extracted(bytes, offset),
        Ok(None) => Err(Error::NotFound),
        Err(e) => Err(e),
    }
}

impl<B: Blobstore> BlockReader for S3BlockReader<B> {
    open spec fn inv(&self) -> bool {
        self.underlying.inv()
    }

    /// One `get` of the block's key on the store, and the record read out of
    /// what it returned.
    open spec fn read(&self, loc: Location, post: &Self, outcome: Result<Seq<u8>, Error>) -> bool {
        exists|block: Result<Option<Seq<u8>>, Error>|
            #[trigger] got(&self.underlying, block_key(loc.block_id), &post.underlying, block)
                && outcome == picked(block, loc.offset as int)
    }

    fn fetch(&mut self, loc: &Location) -> (r: Result<Vec<u8>, Error>) {
        let name = block_name(loc.block_id);
        let block = self.underlying.get(name.as_str());
        let ghost outcome = fetched(block);
        let r = match block {
            Ok(Some(bytes)) => {
                let slice: &[u8] = match &bytes {
                    Cow::Borrowed(lent) => lent,
                    Cow::Owned(owned) => owned.as_slice(),
                };
                read_record(slice, loc.offset)
            },
            Ok(None) => Err(Error::NotFound),
            Err(e) => Err(e),
        };
        proof {
            assert(got(&old(self).underlying, block_key(loc.block_id), &self.underlying, outcome));
        }
        r
    }
}

/// `blobs` holds a block in which `record` lies at `loc`.
pub open spec fn published(blobs: Map<Seq<char>, Seq<u8>>, loc: Location, record: Seq<u8>) -> bool {
    lookup(blobs, block_key(loc.block_id)) matches Some(block) && record_at(
        block,
        loc.offset as int,
    ) == Some(record)
}

/// `record` lies at `loc` for `writer`: in a block that it has published,
/// or in the block in progress.
pub open spec fn written<B: Blobstore>(
    writer: &S3BlockWriter<B>,
    loc: Location,
    record: Seq<u8>,
) -> bool {
    ||| loc.block_id < writer.cur.block_id && published(writer.underlying@, loc, record)
    ||| loc.block_id == writer.cur.block_id && record_at(writer.buf@, loc.offset as int) == Some(
        record,
    )
}

/// A flush loses no record, and after one that succeeds every record that
/// was written lies in a published block.
pub proof fn lemma_flush_keeps_records<B: Blobstore>(
    pre: S3BlockWriter<B>,
    post: S3BlockWriter<B>,
    outcome: Result<(), Error>,
    loc: Location,
    record: Seq<u8>,
)
    requires
        pre.flushed(&post, outcome),
        written(&pre, loc, record),
    ensures
        written(&post, loc, record),
        outcome is Ok ==> published(post.underlying@, loc, record),
{
    if pre.buf@.len() > 0 && pre.cur.block_id < usize::MAX {
        let key = block_key(pre.cur.block_id);
        if loc.block_id < pre.cur.block_id {
            if block_key(loc.block_id) == key {
                lemma_block_key_injective(loc.block_id, pre.cur.block_id);
            }
            assert(lookup(post.underlying@.remove(key), block_key(loc.block_id)) == lookup(
                pre.underlying@.remove(key),
                block_key(loc.block_id),
            ));
        }
    }
}

/// An append that succeeds loses no record.
pub proof fn lemma_append_keeps_records<B: Blobstore>(
    pre: S3BlockWriter<B>,
    item: Seq<u8>,
    post: S3BlockWriter<B>,
    at: Location,
    loc: Location,
    record: Seq<u8>,
)
    requires
        pre.appended(item, &post, Ok(at)),
        written(&pre, loc, record),
    ensures
        written(&post, loc, record),
{
    let (mid, sealed) = choose|mid: S3BlockWriter<B>, sealed: Result<(), Error>| #[trigger]
        pre.made_room(item, &mid, sealed) && mid.added(item, sealed, &post, Ok(at));
    assert(written(&mid, loc, record)) by {
        if pre.rolls(item) {
            lemma_flush_keeps_records(pre, mid, sealed, loc, record);
        }
    }
    assert(written(&post, loc, record)) by {
        if loc.block_id == mid.cur.block_id {
            lemma_record_at_extended(mid.buf@, frame(item), loc.offset as int);
        }
    }
}

/// Every record that one writer was given lies, after a flush, in a
/// published block at the location that its `append` returned.
///
/// `states` are the writer before each append and after the last, `records`
/// what was appended and `locs` what was returned; `done` is the writer
/// after the closing flush.
pub proof fn lemma_written_records_are_published<B: Blobstore>(
    states: Seq<S3BlockWriter<B>>,
    records: Seq<Seq<u8>>,
    locs: Seq<Location>,
    done: S3BlockWriter<B>,
    i: int,
)
    requires
        states.len() == records.len() + 1,
        locs.len() == records.len(),
        states[0].cur.offset == states[0].buf@.len(),
        forall|j: int|
            0 <= j < records.len() ==> (#[trigger] records[j]).len() <= usize::MAX
                && states[j].appended(records[j], &states[j + 1], Ok(locs[j])),
        states[records.len() as int].flushed(&done, Ok(())),
        0 <= i < records.len(),
    ensures
        published(done.underlying@, locs[i], records[i]),
{
    let n = records.len() as int;
    lemma_records_stay_written(states, records, locs, i, n);
    lemma_flush_keeps_records(states[n], done, Ok(()), locs[i], records[i]);
}

/// The record of append `i` is still written after append `upto - 1`.
proof fn lemma_records_stay_written<B: Blobstore>(
    states: Seq<S3BlockWriter<B>>,
    records: Seq<Seq<u8>>,
    locs: Seq<Location>,
    i: int,
    upto: int,
)
    requires
        states.len() == records.len() + 1,
        locs.len() == records.len(),
        states[0].cur.offset == states[0].buf@.len(),
        forall|j: int|
            0 <= j < records.len() ==> (#[trigger] records[j]).len() <= usize::MAX
                && states[j].appended(records[j], &states[j + 1], Ok(locs[j])),
        0 <= i < upto <= records.len(),
    ensures
        states[upto].cur.offset == states[upto].buf@.len(),
        written(&states[upto], locs[i], records[i]),
    decreases upto,
{
    lemma_offsets_stay(states, records, locs, upto - 1);
    assert(records[upto - 1].len() <= usize::MAX);
    if upto == i + 1 {
        lemma_append_adds_record(states[i], records[i], states[i + 1], locs[i]);
    } else {
        lemma_records_stay_written(states, records, locs, i, upto - 1);
        lemma_append_keeps_records(
            states[upto - 1],
            records[upto - 1],
            states[upto],
            locs[upto - 1],
            locs[i],
            records[i],
        );
        lemma_append_adds_record(
            states[upto - 1],
            records[upto - 1],
            states[upto],
            locs[upto - 1],
        );
    }
}

/// Every writer in a run of appends has its offset at the end of its buffer.
proof fn lemma_offsets_stay<B: Blobstore>(
    states: Seq<S3BlockWriter<B>>,
    records: Seq<Seq<u8>>,
    locs: Seq<Location>,
    upto: int,
)
    requires
        states.len() == records.len() + 1,
        locs.len() == records.len(),
        states[0].cur.offset == states[0].buf@.len(),
        forall|j: int|
            0 <= j < records.len() ==> (#[trigger] records[j]).len() <= usize::MAX
                && states[j].appended(records[j], &states[j + 1], Ok(locs[j])),
        0 <= upto <= records.len(),
    ensures
        states[upto].cur.offset == states[upto].buf@.len(),
    decreases upto,
{
    if upto > 0 {
        lemma_offsets_stay(states, records, locs, upto - 1);
        assert(records[upto - 1].len() <= usize::MAX);
        lemma_append_adds_record(
            states[upto - 1],
            records[upto - 1],
            states[upto],
            locs[upto - 1],
        );
    }
}

/// An append that succeeds keeps the writer's offset at the end of its
/// buffer and leaves the new record where it says.
pub proof fn lemma_append_adds_record<B: Blobstore>(
    pre: S3BlockWriter<B>,
    item: Seq<u8>,
    post: S3BlockWriter<B>,
    at: Location,
)
    requires
        pre.cur.offset == pre.buf@.len(),
        item.len() <= usize::MAX,
        pre.appended(item, &post, Ok(at)),
    ensures
        post.cur.offset == post.buf@.len(),
        written(&post, at, item),
{
    let (mid, sealed) = choose|mid: S3BlockWriter<B>, sealed: Result<(), Error>| #[trigger]
        pre.made_room(item, &mid, sealed) && mid.added(item, sealed, &post, Ok(at));
    assert(mid.cur.offset == mid.buf@.len());
    lemma_record_at_frame(mid.buf@, item, Seq::<u8>::empty());
    assert(mid.buf@ + frame(item) + Seq::<u8>::empty() =~= mid.buf@ + frame(item));
}

/// A fetch of a published record returns that record, unless the `get` of
/// its block fails in the store, whose error it then returns.
pub proof fn lemma_fetch_published<B: Blobstore>(
    pre: S3BlockReader<B>,
    loc: Location,
    post: S3BlockReader<B>,
    outcome: Result<Seq<u8>, Error>,
    record: Seq<u8>,
)
    requires
        published(pre.underlying@, loc, record),
        pre.read(loc, &post, outcome),
    ensures
        outcome is Ok ==> outcome == Ok::<Seq<u8>, Error>(record),
        outcome matches Err(e) ==> pre.underlying.get_yields(
            block_key(loc.block_id),
            &post.underlying,
            Err(e),
        ),
        published(post.underlying@, loc, record),
{
}

/// A record that is too large for a block starts a block of its own.
pub proof fn lemma_oversized_record_is_alone<B: Blobstore>(
    pre: S3BlockWriter<B>,
    item: Seq<u8>,
    post: S3BlockWriter<B>,
    at: Location,
)
    requires
        pre.cur.offset == pre.buf@.len(),
        frame(item).len() > pre.block_size,
        pre.appended(item, &post, Ok(at)),
    ensures
        at.offset == 0,
        post.buf@ == frame(item),
{
    let (mid, sealed) = choose|mid: S3BlockWriter<B>, sealed: Result<(), Error>| #[trigger]
        pre.made_room(item, &mid, sealed) && mid.added(item, sealed, &post, Ok(at));
    assert(mid.buf@.len() == 0);
    assert(mid.buf@ + frame(item) =~= frame(item));
}

/// A block in progress stays within the block size, unless it holds a single
/// record that is larger than that by itself.
pub proof fn lemma_block_within_size<B: Blobstore>(
    pre: S3BlockWriter<B>,
    item: Seq<u8>,
    post: S3BlockWriter<B>,
    at: Location,
)
    requires
        pre.cur.offset == pre.buf@.len(),
        pre.appended(item, &post, Ok(at)),
    ensures
        post.buf@.len() <= post.block_size || post.buf@ == frame(item),
{
    let (mid, sealed) = choose|mid: S3BlockWriter<B>, sealed: Result<(), Error>| #[trigger]
        pre.made_room(item, &mid, sealed) && mid.added(item, sealed, &post, Ok(at));
    if mid.buf@.len() == 0 {
        assert(mid.buf@ + frame(item) =~= frame(item));
    }
}

/// What one writer wrote, a reader reads: after a run of appends and a
/// flush, a fetch at the location that an append returned gives the record
/// that was appended, on a store that holds what the writer's store holds.
/// The fetch can fail only where the `get` of the block fails in the store.
pub proof fn lemma_written_records_are_fetched<B: Blobstore>(
    states: Seq<S3BlockWriter<B>>,
    records: Seq<Seq<u8>>,
    locs: Seq<Location>,
    done: S3BlockWriter<B>,
    i: int,
    reader: S3BlockReader<B>,
    after: S3BlockReader<B>,
    outcome: Result<Seq<u8>, Error>,
)
    requires
        states.len() == records.len() + 1,
        locs.len() == records.len(),
        states[0].cur.offset == states[0].buf@.len(),
        forall|j: int|
            0 <= j < records.len() ==> (#[trigger] records[j]).len() <= usize::MAX
                && states[j].appended(records[j], &states[j + 1], Ok(locs[j])),
        states[records.len() as int].flushed(&done, Ok(())),
        0 <= i < records.len(),
        reader.underlying@ == done.underlying@,
        reader.read(locs[i], &after, outcome),
    ensures
        outcome is Ok ==> outcome == Ok::<Seq<u8>, Error>(records[i]),
        outcome matches Err(e) ==> reader.underlying.get_yields(
            block_key(locs[i].block_id),
            &after.underlying,
            Err(e),
        ),
{
    lemma_written_records_are_published(states, records, locs, done, i);
    lemma_fetch_published(reader, locs[i], after, outcome, records[i]);
}

} // verus!
