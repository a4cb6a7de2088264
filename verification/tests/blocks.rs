use s3kv::blob::Blobstore;
use s3kv::block::{
    BlockReader, BlockWriter, Location, S3BlockReader, S3BlockReaderArgs, S3BlockWriter,
    S3BlockWriterArgs,
};
use s3kv::error::Error;
use s3kv::memory::Memory;
use std::borrow::Cow;

#[derive(Default, Debug)]
struct Recording {
    inner: Memory,
    puts: Vec<String>,
    fail: bool,
}

impl Blobstore for Recording {
    fn get<'a>(&'a mut self, key: &str) -> Result<Option<Cow<'a, [u8]>>, Error> {
        self.inner.get(key)
    }

    fn put(&mut self, key: &str, blob: &[u8]) -> Result<(), Error> {
        if self.fail {
            return Err(Error::Transport("refused".to_owned()));
        }
        self.puts.push(key.to_owned());
        self.inner.put(key, blob)
    }
}

fn writer(block_size: usize) -> S3BlockWriter<Recording> {
    S3BlockWriter::new(S3BlockWriterArgs { client: Recording::default(), block_size })
}

fn at(block_id: usize, offset: usize) -> Location {
    Location { block_id, offset }
}

#[test]
fn records_that_fit_share_a_block() {
    let mut w = writer(32);
    assert_eq!(w.append(b"hello"), Ok(at(0, 0)));
    assert_eq!(w.append(b"world"), Ok(at(0, 6)));
    assert_eq!(w.append(b"foo"), Ok(at(0, 12)));
    assert_eq!(w.append(b"barbaz"), Ok(at(0, 16)));
    assert!(w.underlying.puts.is_empty());
    assert_eq!(w.flush(), Ok(()));
    assert_eq!(w.underlying.puts, vec!["00"]);
    assert_eq!(
        w.underlying.inner.blobs,
        vec![("00".to_owned(), b"\x05hello\x05world\x03foo\x06barbaz".to_vec())]
    );

    let mut r = S3BlockReader::new(S3BlockReaderArgs { client: w.underlying });
    assert_eq!(r.fetch(&at(0, 12)), Ok(b"foo".to_vec()));
    assert_eq!(r.fetch(&at(0, 0)), Ok(b"hello".to_vec()));
    assert_eq!(r.fetch(&at(0, 16)), Ok(b"barbaz".to_vec()));
}

#[test]
fn a_record_that_does_not_fit_starts_the_next_block() {
    let mut w = writer(12);
    assert_eq!(w.append(b"hello"), Ok(at(0, 0)));
    assert_eq!(w.append(b"world"), Ok(at(0, 6)));
    assert_eq!(w.append(b"foo"), Ok(at(1, 0)));
    assert_eq!(w.underlying.puts, vec!["00"]);
    assert_eq!(w.append(b"barbaz"), Ok(at(1, 4)));
    assert_eq!(w.flush(), Ok(()));
    assert_eq!(w.underlying.puts, vec!["00", "01"]);
    assert_eq!(w.cur, at(2, 0));
}

#[test]
fn a_block_may_be_filled_to_its_size() {
    let mut w = writer(12);
    assert_eq!(w.append(b"hello"), Ok(at(0, 0)));
    assert_eq!(w.append(b"world"), Ok(at(0, 6)));
    assert_eq!(w.cur, at(0, 12));
    assert!(w.underlying.puts.is_empty());
}

#[test]
fn an_oversized_record_gets_a_block_of_its_own() {
    let mut w = writer(8);
    assert_eq!(w.append(b"0123456789"), Ok(at(0, 0)));
    assert!(w.underlying.puts.is_empty());
    assert_eq!(w.append(b"x"), Ok(at(1, 0)));
    assert_eq!(w.underlying.puts, vec!["00"]);
    assert_eq!(w.flush(), Ok(()));

    let mut r = S3BlockReader::new(S3BlockReaderArgs { client: w.underlying });
    assert_eq!(r.fetch(&at(0, 0)), Ok(b"0123456789".to_vec()));
    assert_eq!(r.fetch(&at(1, 0)), Ok(b"x".to_vec()));
}

#[test]
fn an_oversized_record_after_others_seals_their_block_first() {
    let mut w = writer(8);
    assert_eq!(w.append(b"ab"), Ok(at(0, 0)));
    assert_eq!(w.append(b"0123456789"), Ok(at(1, 0)));
    assert_eq!(w.append(b"cd"), Ok(at(2, 0)));
    assert_eq!(w.underlying.puts, vec!["00", "01"]);
}

#[test]
fn an_empty_record_is_written_and_read() {
    let mut w = writer(16);
    assert_eq!(w.append(b"ab"), Ok(at(0, 0)));
    assert_eq!(w.append(b""), Ok(at(0, 3)));
    assert_eq!(w.append(b"cd"), Ok(at(0, 4)));
    assert_eq!(w.flush(), Ok(()));
    let mut r = S3BlockReader::new(S3BlockReaderArgs { client: w.underlying });
    assert_eq!(r.fetch(&at(0, 3)), Ok(Vec::new()));
    assert_eq!(r.fetch(&at(0, 4)), Ok(b"cd".to_vec()));
}

#[test]
fn an_empty_record_alone() {
    let mut w = writer(0);
    assert_eq!(w.append(b""), Ok(at(0, 0)));
    assert_eq!(w.append(b""), Ok(at(1, 0)));
    assert_eq!(w.flush(), Ok(()));
    let mut r = S3BlockReader::new(S3BlockReaderArgs { client: w.underlying });
    assert_eq!(r.fetch(&at(0, 0)), Ok(Vec::new()));
    assert_eq!(r.fetch(&at(1, 0)), Ok(Vec::new()));
}

#[test]
fn a_long_record_has_a_two_byte_length() {
    let record = vec![9u8; 200];
    let mut w = writer(1000);
    assert_eq!(w.append(&record), Ok(at(0, 0)));
    assert_eq!(w.append(&record), Ok(at(0, 202)));
    assert_eq!(w.cur, at(0, 404));
    assert_eq!(w.flush(), Ok(()));
    let mut r = S3BlockReader::new(S3BlockReaderArgs { client: w.underlying });
    assert_eq!(r.fetch(&at(0, 202)), Ok(record));
}

#[test]
fn flush_of_an_empty_buffer_puts_nothing() {
    let mut w = writer(32);
    assert_eq!(w.flush(), Ok(()));
    assert!(w.underlying.puts.is_empty());
    assert_eq!(w.cur, at(0, 0));
    assert_eq!(w.append(b"a"), Ok(at(0, 0)));
    assert_eq!(w.flush(), Ok(()));
    assert_eq!(w.flush(), Ok(()));
    assert_eq!(w.underlying.puts, vec!["00"]);
    assert_eq!(w.cur, at(1, 0));
}

#[test]
fn a_failed_flush_keeps_the_block_for_a_retry() {
    let mut w = writer(32);
    assert_eq!(w.append(b"abc"), Ok(at(0, 0)));
    w.underlying.fail = true;
    assert_eq!(w.flush(), Err(Error::Transport("refused".to_owned())));
    assert_eq!(w.buf, b"\x03abc".to_vec());
    assert_eq!(w.cur, at(0, 4));
    w.underlying.fail = false;
    assert_eq!(w.flush(), Ok(()));
    assert_eq!(w.underlying.puts, vec!["00"]);
    assert_eq!(w.cur, at(1, 0));
    assert!(w.buf.is_empty());
}

#[test]
fn a_failed_flush_fails_the_append_that_needed_it() {
    let mut w = writer(4);
    assert_eq!(w.append(b"abc"), Ok(at(0, 0)));
    w.underlying.fail = true;
    assert_eq!(w.append(b"d"), Err(Error::Transport("refused".to_owned())));
    assert_eq!(w.buf, b"\x03abc".to_vec());
    assert_eq!(w.cur, at(0, 4));
}

#[test]
fn the_last_block_id_cannot_be_sealed() {
    let mut w = S3BlockWriter {
        underlying: Recording::default(),
        buf: b"\x01a".to_vec(),
        block_size: 8,
        cur: at(usize::MAX, 2),
    };
    assert_eq!(w.flush(), Err(Error::Usage));
    assert!(w.underlying.puts.is_empty());
    assert_eq!(w.buf, b"\x01a".to_vec());
}

#[test]
fn fetch_of_a_missing_block_is_not_found() {
    let mut r = S3BlockReader::new(S3BlockReaderArgs { client: Memory::new() });
    assert_eq!(r.fetch(&at(7, 0)), Err(Error::NotFound));
}

#[test]
fn fetch_past_the_end_of_a_block_is_a_codec_error() {
    let mut store = Memory::new();
    store.put("00", b"\x03abc").unwrap();
    let mut r = S3BlockReader::new(S3BlockReaderArgs { client: store });
    assert_eq!(r.fetch(&at(0, 0)), Ok(b"abc".to_vec()));
    assert_eq!(r.fetch(&at(0, 4)), Err(Error::Codec));
    assert_eq!(r.fetch(&at(0, 9)), Err(Error::Codec));
    assert_eq!(r.fetch(&at(0, 2)), Err(Error::Codec));
}

#[test]
fn fetch_asks_for_the_block_by_its_name() {
    let mut store = Memory::new();
    store.put("ac02", b"\x02hi").unwrap();
    let mut r = S3BlockReader::new(S3BlockReaderArgs { client: store });
    assert_eq!(r.fetch(&at(300, 0)), Ok(b"hi".to_vec()));
}

#[test]
fn every_record_is_read_back_through_compression_and_a_prefix() {
    let records: Vec<Vec<u8>> = (0..200usize)
        .map(|i| format!("record number {} {}", i, "x".repeat(i % 37)).into_bytes())
        .collect();
    let stack = Memory::new().with_prefix("data/block").with_compression();
    let mut w = S3BlockWriter::new(S3BlockWriterArgs { client: stack, block_size: 256 });
    let mut locs = Vec::new();
    for record in &records {
        locs.push(w.append(record).unwrap());
    }
    w.flush().unwrap();
    assert!(w.cur.block_id > 10);

    let store = w.underlying.underlying.underlying;
    assert!(store.blobs.iter().all(|(key, _)| key.starts_with("data/block/")));
    let stack = store.with_prefix("data/block").with_compression().with_caching(4);
    let mut r = S3BlockReader::new(S3BlockReaderArgs { client: stack });
    for (record, loc) in records.iter().zip(&locs) {
        assert_eq!(r.fetch(loc).as_ref(), Ok(record));
    }
}
