use s3kv::blob::{Blobstore, Compressed};
use s3kv::error::Error;
use s3kv::memory::Memory;
use std::borrow::Cow;

#[derive(Default, Clone, Debug)]
struct Spystore {
    fetches: Vec<String>,
    puts: Vec<(String, Vec<u8>)>,
}

impl Blobstore for Spystore {
    fn get<'a>(&'a mut self, key: &str) -> Result<Option<Cow<'a, [u8]>>, Error> {
        self.fetches.push(key.to_owned());
        Ok(None)
    }

    fn put(&mut self, key: &str, blob: &[u8]) -> Result<(), Error> {
        self.puts.push((key.to_owned(), blob.to_vec()));
        Ok(())
    }
}

#[derive(Default, Debug)]
struct Counting {
    inner: Memory,
    fetches: Vec<String>,
}

impl Blobstore for Counting {
    fn get<'a>(&'a mut self, key: &str) -> Result<Option<Cow<'a, [u8]>>, Error> {
        self.fetches.push(key.to_owned());
        self.inner.get(key)
    }

    fn put(&mut self, key: &str, blob: &[u8]) -> Result<(), Error> {
        self.inner.put(key, blob)
    }
}

#[derive(Default, Debug)]
struct Broken;

impl Blobstore for Broken {
    fn get<'a>(&'a mut self, _: &str) -> Result<Option<Cow<'a, [u8]>>, Error> {
        Err(Error::Transport("down".to_owned()))
    }

    fn put(&mut self, _: &str, _: &[u8]) -> Result<(), Error> {
        Err(Error::Transport("down".to_owned()))
    }
}

fn owned(r: Result<Option<Cow<'_, [u8]>>, Error>) -> Result<Option<Vec<u8>>, Error> {
    r.map(|found| found.map(|blob| blob.into_owned()))
}

#[test]
fn caching_prevents_fetches() {
    let blob = Spystore::default();
    let mut cache = blob.with_caching(1);

    let _ = cache.get("foo");
    assert_eq!(cache.underlying.fetches, vec!["foo"]);

    let _ = cache.get("foo");
    assert_eq!(cache.underlying.fetches, vec!["foo"]);

    let _ = cache.get("bar");
    assert_eq!(cache.underlying.fetches, vec!["foo", "bar"]);
}

#[test]
fn prefix_smoke_test() {
    let mut blob = Spystore::default().with_prefix("foo").with_prefix("bar");

    let _ = blob.get("baz");
    assert_eq!(blob.underlying.underlying.fetches, vec!["foo/bar/baz"]);
}

#[test]
fn prefix_rewrites_the_key_of_a_put() {
    let mut blob = Spystore::default().with_prefix("p1").with_prefix("p2");
    blob.put("k", b"v").unwrap();
    assert_eq!(
        blob.underlying.underlying.puts,
        vec![("p1/p2/k".to_owned(), b"v".to_vec())]
    );
}

#[test]
fn full_key_joins_with_a_slash() {
    let blob = Memory::new().with_prefix("data/block");
    assert_eq!(blob.full_key("ac02"), "data/block/ac02");
    assert_eq!(blob.full_key(""), "data/block/");
}

#[test]
fn prefixed_store_sees_only_its_own_keys() {
    let mut inner = Memory::new();
    inner.put("a/k", b"in a").unwrap();
    inner.put("b/k", b"in b").unwrap();
    let mut a = inner.with_prefix("a");
    assert_eq!(owned(a.get("k")), Ok(Some(b"in a".to_vec())));
    assert_eq!(owned(a.get("b/k")), Ok(None));
}

#[test]
fn lru_of_one_fetches_again_after_eviction() {
    let mut cache = Spystore::default().with_caching(1);
    let _ = cache.get("a");
    let _ = cache.get("b");
    let _ = cache.get("a");
    assert_eq!(cache.underlying.fetches, vec!["a", "b", "a"]);
}

#[test]
fn lru_evicts_the_least_recently_used() {
    let mut cache = Spystore::default().with_caching(2);
    let _ = cache.get("a");
    let _ = cache.get("b");
    let _ = cache.get("a");
    let _ = cache.get("c");
    assert_eq!(cache.underlying.fetches, vec!["a", "b", "c"]);
    let _ = cache.get("a");
    assert_eq!(cache.underlying.fetches, vec!["a", "b", "c"]);
    let _ = cache.get("b");
    assert_eq!(cache.underlying.fetches, vec!["a", "b", "c", "b"]);
}

#[test]
fn cache_hit_lends_the_stored_bytes() {
    let mut inner = Counting::default();
    inner.put("k", b"payload").unwrap();
    let mut cache = inner.with_caching(4);
    assert!(matches!(cache.get("k"), Ok(Some(Cow::Borrowed(b))) if b == b"payload"));
    assert!(matches!(cache.get("k"), Ok(Some(Cow::Borrowed(b))) if b == b"payload"));
    assert_eq!(cache.underlying.fetches, vec!["k"]);
}

#[test]
fn cache_keeps_a_miss() {
    let mut cache = Counting::default().with_caching(4);
    assert_eq!(owned(cache.get("k")), Ok(None));
    assert_eq!(owned(cache.get("k")), Ok(None));
    assert_eq!(cache.underlying.fetches, vec!["k"]);
}

#[test]
fn cache_forgets_a_key_that_is_put() {
    let mut cache = Counting::default().with_caching(4);
    assert_eq!(owned(cache.get("k")), Ok(None));
    cache.put("k", b"new").unwrap();
    assert_eq!(owned(cache.get("k")), Ok(Some(b"new".to_vec())));
    cache.put("k", b"newer").unwrap();
    assert_eq!(owned(cache.get("k")), Ok(Some(b"newer".to_vec())));
    assert_eq!(cache.underlying.fetches, vec!["k", "k", "k"]);
}

#[test]
fn cache_does_not_keep_an_error() {
    let mut cache = Broken.with_caching(2);
    assert_eq!(owned(cache.get("k")), Err(Error::Transport("down".to_owned())));
    assert_eq!(owned(cache.get("k")), Err(Error::Transport("down".to_owned())));
    assert_eq!(cache.put("k", b"v"), Err(Error::Transport("down".to_owned())));
}

#[test]
fn compression_round_trip() {
    let v: Vec<u8> = (0..10_240u32).map(|i| (i % 7) as u8).collect();
    let mut stack = Memory::new().with_compression();
    stack.put("k", &v).unwrap();
    assert_eq!(owned(stack.get("k")), Ok(Some(v.clone())));
    let stored = owned(stack.underlying.get("k")).unwrap().unwrap();
    assert_ne!(stored, v);
    assert!(stored.len() < v.len());
    assert_eq!(&stored[..4], &[0x28, 0xb5, 0x2f, 0xfd]);
}

#[test]
fn compression_round_trip_of_bytes_that_do_not_compress() {
    let mut state: u64 = 0x9e37_79b9_7f4a_7c15;
    let v: Vec<u8> = (0..10_240)
        .map(|_| {
            state ^= state << 13;
            state ^= state >> 7;
            state ^= state << 17;
            (state >> 24) as u8
        })
        .collect();
    let mut stack = Memory::new().with_compression();
    stack.put("k", &v).unwrap();
    assert_eq!(owned(stack.get("k")), Ok(Some(v.clone())));
    let stored = owned(stack.underlying.get("k")).unwrap().unwrap();
    assert_ne!(stored, v);
}

#[test]
fn compression_of_nothing() {
    let mut stack = Memory::new().with_compression();
    stack.put("k", b"").unwrap();
    assert_eq!(owned(stack.get("k")), Ok(Some(Vec::new())));
    assert_eq!(owned(stack.get("other")), Ok(None));
}

#[test]
fn pack_then_unpack() {
    let frame = Compressed::<Memory>::pack(b"hello hello hello").unwrap();
    assert_ne!(frame, b"hello hello hello".to_vec());
    let back = Compressed::<Memory>::unpack(Ok(Some(Cow::Owned(frame))));
    assert!(matches!(back, Ok(Some(Cow::Owned(v))) if v == b"hello hello hello"));
}

#[test]
fn unpack_passes_a_miss_and_an_error_on() {
    assert_eq!(owned(Compressed::<Memory>::unpack(Ok(None))), Ok(None));
    assert_eq!(
        owned(Compressed::<Memory>::unpack(Err(Error::Transport("x".to_owned())))),
        Err(Error::Transport("x".to_owned()))
    );
}

#[test]
fn decompressing_garbage_is_a_codec_error() {
    let mut inner = Memory::new();
    inner.put("k", b"not a frame").unwrap();
    let mut stack = inner.with_compression();
    assert_eq!(owned(stack.get("k")), Err(Error::Codec));
}

#[test]
fn get_after_put_through_the_whole_stack() {
    let mut stack = Counting::default()
        .with_compression()
        .with_prefix("p")
        .with_caching(2);
    let v = b"some bytes some bytes some bytes".to_vec();
    stack.put("k", &v).unwrap();
    assert_eq!(owned(stack.get("k")), Ok(Some(v.clone())));
    assert_eq!(owned(stack.get("k")), Ok(Some(v.clone())));
    assert_eq!(owned(stack.get("k")), Ok(Some(v.clone())));
    assert_eq!(stack.underlying.underlying.underlying.fetches, vec!["p/k"]);
    let _ = stack.get("x");
    let _ = stack.get("y");
    assert_eq!(owned(stack.get("k")), Ok(Some(v)));
    assert_eq!(
        stack.underlying.underlying.underlying.fetches,
        vec!["p/k", "p/x", "p/y", "p/k"]
    );
}

#[test]
fn must_get_turns_a_miss_into_not_found() {
    let mut store = Memory::new();
    store.put("k", b"v").unwrap();
    assert_eq!(store.must_get("k").map(|b| b.into_owned()), Ok(b"v".to_vec()));
    assert_eq!(
        store.must_get("missing").map(|b| b.into_owned()),
        Err(Error::NotFound)
    );
}

#[test]
fn must_get_passes_an_error_on() {
    assert_eq!(
        Broken.must_get("k").map(|b| b.into_owned()),
        Err(Error::Transport("down".to_owned()))
    );
}

#[test]
fn memory_holds_the_last_blob_put_under_a_key() {
    let mut store = Memory::new();
    assert_eq!(owned(store.get("a")), Ok(None));
    store.put("a", b"1").unwrap();
    store.put("b", b"2").unwrap();
    store.put("a", b"3").unwrap();
    assert_eq!(owned(store.get("a")), Ok(Some(b"3".to_vec())));
    assert_eq!(owned(store.get("b")), Ok(Some(b"2".to_vec())));
    assert_eq!(store.blobs.len(), 2);
    assert_eq!(store.find("b"), Some(0));
    assert_eq!(store.find("c"), None);
}
