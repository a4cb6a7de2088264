//! Blob stores and the decorators that compose over them.
//!
//! A store maps string keys to byte blobs. What a store holds is its view;
//! what one call may do to it is a relation between the store before, the
//! arguments, the store after and the outcome. Each decorator states its own
//! relation over that of the store it wraps, so a stack's behaviour unfolds
//! down to the calls that reach its innermost store.
use crate::error::Error;
use std::borrow::Cow;
use vstd::prelude::*;
use vstd::slice::slice_to_vec;
use vstd::string::StringExecFns;

verus! {

/// The blob under `key` in `blobs`, if there is one.
pub open spec fn lookup(blobs: Map<Seq<char>, Seq<u8>>, key: Seq<char>) -> Option<Seq<u8>> {
    if blobs.dom().contains(key) {
        Some(blobs[key])
    } else {
        None
    }
}

/// What a `get` returned, with the bytes as a sequence.
pub open spec fn fetched(r: Result<Option<Cow<'_, [u8]>>, Error>) -> Result<
    Option<Seq<u8>>,
    Error,
> {
    match r {
        Ok(Some(blob)) => Ok(Some(blob@)),
        Ok(None) => Ok(None),
        Err(e) => Err(e),
    }
}

/// What a `must_get` returned, with the bytes as a sequence.
pub open spec fn fetched_blob(r: Result<Cow<'_, [u8]>, Error>) -> Result<Seq<u8>, Error> {
    match r {
        Ok(blob) => Ok(blob@),
        Err(e) => Err(e),
    }
}

/// What `must_get` makes of the outcome of a `get`.
pub open spec fn required(outcome: Result<Option<Seq<u8>>, Error>) -> Result<Seq<u8>, Error> {
    match outcome {
        Ok(Some(blob)) => Ok(blob),
        Ok(None) => Err(Error::NotFound),
        Err(e) => Err(e),
    }
}

/// A `get` of `key` took the store from `pre` to `post` with `outcome`, and
/// kept to the rules of a store: the contents are as before, and a blob that
/// is returned is the one the store holds.
pub open spec fn got<B: Blobstore>(
    pre: &B,
    key: Seq<char>,
    post: &B,
    outcome: Result<Option<Seq<u8>>, Error>,
) -> bool {
    &&& pre.get_yields(key, post, outcome)
    &&& post.inv()
    &&& post@ == pre@
    &&& outcome matches Ok(found) ==> found == lookup(pre@, key)
}

/// A `put` of `blob` under `key` took the store from `pre` to `post` with
/// `outcome`, and kept to the rules of a store: no other key is touched, and
/// after success the store holds `blob` under `key`.
pub open spec fn stored<B: Blobstore>(
    pre: &B,
    key: Seq<char>,
    blob: Seq<u8>,
    post: &B,
    outcome: Result<(), Error>,
) -> bool {
    &&& pre.put_yields(key, blob, post, outcome)
    &&& post.inv()
    &&& post@.remove(key) == pre@.remove(key)
    &&& outcome is Ok ==> lookup(post@, key) == Some(blob)
}

/// A store of byte blobs under string keys.
///
/// The ghost members describe an implementation to the verifier. One that
/// leaves them at their defaults makes no claim: its `inv` is false, so
/// verified code cannot be shown to call it, and nothing is concluded of it.
pub trait Blobstore: Sized {
    /// The store is in a state that its methods can work from.
    open spec fn inv(&self) -> bool {
        false
    }

    /// The blobs that the store holds, by key.
    open spec fn view(&self) -> Map<Seq<char>, Seq<u8>> {
        Map::empty()
    }

    /// A `get` of `key` on `self` may leave the store as `post` and return
    /// `outcome`.
    open spec fn get_yields(
        &self,
        key: Seq<char>,
        post: &Self,
        outcome: Result<Option<Seq<u8>>, Error>,
    ) -> bool {
        true
    }

    /// A `put` of `blob` under `key` on `self` may leave the store as `post`
    /// and return `outcome`.
    open spec fn put_yields(
        &self,
        key: Seq<char>,
        blob: Seq<u8>,
        post: &Self,
        outcome: Result<(), Error>,
    ) -> bool {
        true
    }

    /// The blob under `key`, or `None` where the store holds none. The bytes
    /// may be lent out of the store itself.
    fn get<'a>(&'a mut self, key: &str) -> (r: Result<Option<Cow<'a, [u8]>>, Error>)
        requires
            old(self).inv(),
        ensures
            old(self).get_yields(key@, final(self), fetched(r)),
            final(self).inv(),
            final(self)@ == old(self)@,
            fetched(r) matches Ok(found) ==> found == lookup(old(self)@, key@),
    ;

    /// Stores `blob` under `key`, in place of what was there.
    fn put(&mut self, key: &str, blob: &[u8]) -> (r: Result<(), Error>)
        requires
            old(self).inv(),
        ensures
            old(self).put_yields(key@, blob@, final(self), r),
            final(self).inv(),
            final(self)@.remove(key@) == old(self)@.remove(key@),
            r is Ok ==> lookup(final(self)@, key@) == Some(blob@),
    ;

    /// As `get`, with a missing blob turned into `Error::NotFound`.
    fn must_get<'a>(&'a mut self, key: &str) -> (r: Result<Cow<'a, [u8]>, Error>)
        requires
            old(self).inv(),
        ensures
            final(self).inv(),
            final(self)@ == old(self)@,
            fetched_blob(r) matches Ok(blob) ==> lookup(old(self)@, key@) == Some(blob),
            exists|outcome: Result<Option<Seq<u8>>, Error>|
                #[trigger] old(self).get_yields(key@, final(self), outcome) && fetched_blob(r)
                    == required(outcome),
    {
        let r = self.get(key);
        match r {
            Ok(Some(blob)) => Ok(blob),
            Ok(None) => Err(Error::NotFound),
            Err(e) => Err(e),
        }
    }

    /// Wraps the store so that blobs are compressed on their way in and
    /// decompressed on their way out.
    fn with_compression(self) -> (r: Compressed<Self>)
        ensures
            r.underlying == self,
    {
        Compressed { underlying: self }
    }

    /// Wraps the store in a cache of the outcomes of `get`, for at most
    /// `capacity` keys.
    fn with_caching(self, capacity: usize) -> (r: Caching<Self>)
        requires
            capacity >= 1,
        ensures
            r.underlying == self,
            lru_entries(r.cache) == Seq::<(Seq<char>, Option<Seq<u8>>)>::empty(),
            lru_cap(r.cache) == capacity,
    {
        Caching { underlying: self, cache: lru_new(capacity) }
    }

    /// Wraps the store so that every key is looked up under `prefix`.
    fn with_prefix(self, prefix: &str) -> (r: Prefixed<Self>)
        ensures
            r.underlying == self,
            r.prefix@ == prefix@,
    {
        Prefixed { underlying: self, prefix: prefix.to_owned() }
    }
}

/// The key that a store wrapped with `prefix` is asked for in place of `key`.
pub open spec fn prefixed_key(prefix: Seq<char>, key: Seq<char>) -> Seq<char> {
    prefix + seq!['/'] + key
}

/// A store whose keys all lie under one prefix of the store it wraps.
#[derive(Debug)]
pub struct Prefixed<B: Blobstore> {
    pub underlying: B,
    pub prefix: String,
}

impl<B: Blobstore> Prefixed<B> {
    /// The key handed to the wrapped store for `key`.
    pub fn full_key(&self, key: &str) -> (full: String)
        ensures
            full@ == prefixed_key(self.prefix@, key@),
    {
        let mut full = self.prefix.clone();
        proof {
            reveal_strlit("/");
        }
        full.append("/");
        full.append(key);
        assert(full@ =~= prefixed_key(self.prefix@, key@)) by {
            assert("/"@ =~= seq!['/']);
        }
        full
    }
}

/// Keys that differ still differ under one prefix.
pub proof fn lemma_prefixed_key_injective(prefix: Seq<char>, a: Seq<char>, b: Seq<char>)
    requires
        prefixed_key(prefix, a) == prefixed_key(prefix, b),
    ensures
        a == b,
{
    let head = prefix + seq!['/'];
    assert(prefixed_key(prefix, a).skip(head.len() as int) =~= a);
    assert(prefixed_key(prefix, b).skip(head.len() as int) =~= b);
}

impl<B: Blobstore> Blobstore for Prefixed<B> {
    open spec fn inv(&self) -> bool {
        self.underlying.inv()
    }

    /// What the wrapped store holds under the prefix.
    open spec fn view(&self) -> Map<Seq<char>, Seq<u8>> {
        Map::new(
            |key: Seq<char>| self.underlying@.dom().contains(prefixed_key(self.prefix@, key)),
            |key: Seq<char>| self.underlying@[prefixed_key(self.prefix@, key)],
        )
    }

    /// One `get` of the prefixed key on the wrapped store, and nothing else.
    open spec fn get_yields(
        &self,
        key: Seq<char>,
        post: &Self,
        outcome: Result<Option<Seq<u8>>, Error>,
    ) -> bool {
        &&& post.prefix == self.prefix
        &&& got(&self.underlying, prefixed_key(self.prefix@, key), &post.underlying, outcome)
    }

    /// One `put` under the prefixed key on the wrapped store, and nothing
    /// else.
    open spec fn put_yields(
        &self,
        key: Seq<char>,
        blob: Seq<u8>,
        post: &Self,
        outcome: Result<(), Error>,
    ) -> bool {
        &&& post.prefix == self.prefix
        &&& stored(
            &self.underlying,
            prefixed_key(self.prefix@, key),
            blob,
            &post.underlying,
            outcome,
        )
    }

    fn get<'a>(&'a mut self, key: &str) -> (r: Result<Option<Cow<'a, [u8]>>, Error>) {
        let full = self.full_key(key);
        self.underlying.get(full.as_str())
    }

    fn put(&mut self, key: &str, blob: &[u8]) -> (r: Result<(), Error>) {
        let full = self.full_key(key);
        let r = self.underlying.put(full.as_str(), blob);
        proof {
            let pre = old(self);
            assert forall|k: Seq<char>| k != key@ implies lookup(self@, k) == lookup(pre@, k) by {
                let fk = prefixed_key(pre.prefix@, k);
                if fk == full@ {
                    lemma_prefixed_key_injective(pre.prefix@, k, key@);
                }
                assert(lookup(self.underlying@.remove(full@), fk) == lookup(
                    pre.underlying@.remove(full@),
                    fk,
                ));
            }
            lemma_same_but_one(self@, pre@, key@);
        }
        r
    }
}

/// The error of a call into the compression library.
#[verifier::external_type_specification]
#[verifier::external_body]
pub struct ExIoError(std::io::Error);

/// The zstd frame that the compressor makes of `data` at `level`, or `None`
/// where it reports an error.
pub uninterp spec fn zstd_frame(data: Seq<u8>, level: int) -> Option<Seq<u8>>;

/// The data that the decompressor makes of `frame`, or `None` where it
/// reports an error: `frame` is no intact zstd frame.
pub uninterp spec fn zstd_data(frame: Seq<u8>) -> Option<Seq<u8>>;

/// Compresses `data` into one zstd frame at the library's default level.
///
/// Trusted: calls `zstd::encode_all` with level 0. The contract names the
/// frame, or the failure, `zstd_frame(data, 0)`, and states the one thing
/// the format promises of a frame: decompressing it gives `data` back.
#[verifier::external_body]
fn zstd_encode(data: &[u8]) -> (r: Result<Vec<u8>, std::io::Error>)
    ensures
        match r {
            Ok(frame) => zstd_frame(data@, 0) == Some(frame@) && zstd_data(frame@) == Some(data@),
            Err(_) => zstd_frame(data@, 0) is None,
        },
{
    zstd::encode_all(data, 0)
}

/// Decompresses one zstd frame.
///
/// Trusted: calls `zstd::decode_all`. The contract names the data, or the
/// failure, `zstd_data(frame)`.
#[verifier::external_body]
fn zstd_decode(frame: &[u8]) -> (r: Result<Vec<u8>, std::io::Error>)
    ensures
        match r {
            Ok(data) => zstd_data(frame@) == Some(data@),
            Err(_) => zstd_data(frame@) is None,
        },
{
    zstd::decode_all(frame)
}

/// What a store that compresses hands out for what the store it wraps
/// handed it: the blob decompressed, `Error::Codec` where it does not
/// decompress, anything else as it came.
pub open spec fn unpacked(raw: Result<Option<Seq<u8>>, Error>) -> Result<Option<Seq<u8>>, Error> {
    match raw {
        Ok(Some(frame)) => match zstd_data(frame) {
            Some(data) => Ok(Some(data)),
            None => Err(Error::Codec),
        },
        Ok(None) => Ok(None),
        Err(e) => Err(e),
    }
}

/// A store that keeps every blob as a zstd frame in the store it wraps.
#[derive(Debug)]
pub struct Compressed<B: Blobstore> {
    pub underlying: B,
}

impl<B: Blobstore> Compressed<B> {
    /// The frame to store for `blob`.
    pub fn pack(blob: &[u8]) -> (r: Result<Vec<u8>, Error>)
        ensures
            match r {
                Ok(frame) => zstd_frame(blob@, 0) == Some(frame@) && zstd_data(frame@) == Some(
                    blob@,
                ),
                Err(e) => zstd_frame(blob@, 0) is None && e == Error::Codec,
            },
    {
        match zstd_encode(blob) {
            Ok(frame) => Ok(frame),
            Err(_) => Err(Error::Codec),
        }
    }

    /// What to hand out for `raw`, the outcome of a `get` on the wrapped
    /// store.
    pub fn unpack<'a>(raw: Result<Option<Cow<'_, [u8]>>, Error>) -> (r: Result<
        Option<Cow<'a, [u8]>>,
        Error,
    >)
        ensures
            fetched(r) == unpacked(fetched(raw)),
            r matches Ok(Some(blob)) ==> blob is Owned,
    {
        match raw {
            Ok(Some(frame)) => {
                let bytes: &[u8] = match &frame {
                    Cow::Borrowed(b) => b,
                    Cow::Owned(v) => v.as_slice(),
                };
                match zstd_decode(bytes) {
                    Ok(data) => Ok(Some(Cow::Owned(data))),
                    Err(_) => Err(Error::Codec),
                }
            },
            Ok(None) => Ok(None),
            Err(e) => Err(e),
        }
    }
}

impl<B: Blobstore> Blobstore for Compressed<B> {
    open spec fn inv(&self) -> bool {
        self.underlying.inv()
    }

    /// The blobs of the wrapped store that are intact frames, decompressed.
    open spec fn view(&self) -> Map<Seq<char>, Seq<u8>> {
        Map::new(
            |key: Seq<char>|
                self.underlying@.dom().contains(key) && zstd_data(self.underlying@[key]) is Some,
            |key: Seq<char>| zstd_data(self.underlying@[key]).unwrap(),
        )
    }

    /// One `get` of the same key on the wrapped store, its outcome unpacked.
    open spec fn get_yields(
        &self,
        key: Seq<char>,
        post: &Self,
        outcome: Result<Option<Seq<u8>>, Error>,
    ) -> bool {
        exists|raw: Result<Option<Seq<u8>>, Error>|
            #[trigger] got(&self.underlying, key, &post.underlying, raw) && outcome == unpacked(
                raw,
            )
    }

    /// Where the blob compresses, one `put` of its frame under the same key
    /// on the wrapped store; where it does not, `Error::Codec` and no call.
    open spec fn put_yields(
        &self,
        key: Seq<char>,
        blob: Seq<u8>,
        post: &Self,
        outcome: Result<(), Error>,
    ) -> bool {
        match zstd_frame(blob, 0) {
            Some(frame) => stored(&self.underlying, key, frame, &post.underlying, outcome),
            None => post == self && outcome == Err::<(), Error>(Error::Codec),
        }
    }

    fn get<'a>(&'a mut self, key: &str) -> (r: Result<Option<Cow<'a, [u8]>>, Error>) {
        let raw = self.underlying.get(key);
        let ghost outcome = fetched(raw);
        let r = Self::unpack(raw);
        proof {
            assert(got(&old(self).underlying, key@, &self.underlying, outcome));
            assert(self@ =~= old(self)@);
        }
        r
    }

    fn put(&mut self, key: &str, blob: &[u8]) -> (r: Result<(), Error>) {
        match Self::pack(blob) {
            Err(e) => Err(e),
            Ok(frame) => {
                let r = self.underlying.put(key, frame.as_slice());
                proof {
                    let pre = old(self);
                    assert forall|k: Seq<char>| k != key@ implies lookup(self@, k) == lookup(
                        pre@,
                        k,
                    ) by {
                        assert(lookup(self.underlying@.remove(key@), k) == lookup(
                            pre.underlying@.remove(key@),
                            k,
                        ));
                    }
                    lemma_same_but_one(self@, pre@, key@);
                }
                r
            },
        }
    }
}

/// Two maps that agree on every key but `key` are equal once `key` is out.
pub proof fn lemma_same_but_one(
    a: Map<Seq<char>, Seq<u8>>,
    b: Map<Seq<char>, Seq<u8>>,
    key: Seq<char>,
)
    requires
        forall|k: Seq<char>| k != key ==> lookup(a, k) == lookup(b, k),
    ensures
        a.remove(key) == b.remove(key),
{
    assert forall|k: Seq<char>| a.remove(key).dom().contains(k) <==> b.remove(key).dom().contains(
        k,
    ) by {
        if k != key {
            assert(lookup(a, k) == lookup(b, k));
        }
    }
    assert forall|k: Seq<char>| a.remove(key).dom().contains(k) implies a.remove(key)[k]
        == b.remove(key)[k] by {
        assert(lookup(a, k) == lookup(b, k));
    }
    assert(a.remove(key) =~= b.remove(key));
}

/// The cache of the `lru` crate.
#[verifier::external_type_specification]
#[verifier::external_body]
#[verifier::reject_recursive_types(K)]
#[verifier::reject_recursive_types(V)]
#[verifier::reject_recursive_types(S)]
pub struct ExLruCache<K, V, S>(lru::LruCache<K, V, S>);

/// The hasher that the cache of the `lru` crate uses where none is named.
#[verifier::external_type_specification]
#[verifier::external_body]
pub struct ExLruHasher(lru::DefaultHasher);

/// What a cache holds: each key with the outcome kept for it, the most
/// recently used first.
pub uninterp spec fn lru_entries(cache: lru::LruCache<String, Option<Vec<u8>>>) -> Seq<
    (Seq<char>, Option<Seq<u8>>),
>;

/// The number of keys that a cache was made to hold.
pub uninterp spec fn lru_cap(cache: lru::LruCache<String, Option<Vec<u8>>>) -> nat;

/// An outcome as the cache holds it, with the bytes as a sequence.
pub open spec fn kept(outcome: Option<Vec<u8>>) -> Option<Seq<u8>> {
    match outcome {
        Some(bytes) => Some(bytes@),
        None => None,
    }
}

/// `key` has an entry in `entries`.
pub open spec fn cached(entries: Seq<(Seq<char>, Option<Seq<u8>>)>, key: Seq<char>) -> bool {
    exists|i: int| 0 <= i < entries.len() && (#[trigger] entries[i]).0 == key
}

/// The place of an entry of `key` in `entries`, where there is one.
pub open spec fn place(entries: Seq<(Seq<char>, Option<Seq<u8>>)>, key: Seq<char>) -> int {
    choose|i: int| 0 <= i < entries.len() && (#[trigger] entries[i]).0 == key
}

/// `entries` with the entry at `i` moved to the front.
pub open spec fn promoted(entries: Seq<(Seq<char>, Option<Seq<u8>>)>, i: int) -> Seq<
    (Seq<char>, Option<Seq<u8>>),
> {
    seq![entries[i]] + entries.remove(i)
}

/// `entries` without the entry of `key`.
pub open spec fn dropped(entries: Seq<(Seq<char>, Option<Seq<u8>>)>, key: Seq<char>) -> Seq<
    (Seq<char>, Option<Seq<u8>>),
> {
    if cached(entries, key) {
        entries.remove(place(entries, key))
    } else {
        entries
    }
}

/// `entries` of a cache for `cap` keys after `outcome` is put in under
/// `key`: the new entry in front, in place of an older one of the same key;
/// else, where the cache is full, in place of the least recently used.
pub open spec fn admitted(
    entries: Seq<(Seq<char>, Option<Seq<u8>>)>,
    cap: nat,
    key: Seq<char>,
    outcome: Option<Seq<u8>>,
) -> Seq<(Seq<char>, Option<Seq<u8>>)> {
    if cached(entries, key) {
        seq![(key, outcome)] + entries.remove(place(entries, key))
    } else if entries.len() == cap {
        seq![(key, outcome)] + entries.drop_last()
    } else {
        seq![(key, outcome)] + entries
    }
}

/// An empty cache for `capacity` keys.
///
/// Trusted: calls `lru::LruCache::new`, which makes a cache without entries
/// and keeps the capacity it was given.
#[verifier::external_body]
fn lru_new(capacity: usize) -> (cache: lru::LruCache<String, Option<Vec<u8>>>)
    requires
        capacity >= 1,
    ensures
        lru_entries(cache) == Seq::<(Seq<char>, Option<Seq<u8>>)>::empty(),
        lru_cap(cache) == capacity,
{
    lru::LruCache::new(std::num::NonZeroUsize::new(capacity).unwrap())
}

/// Whether the cache has an entry for `key`. The order of use stays.
///
/// Trusted: calls `lru::LruCache::contains`, which looks the key up in the
/// cache's map and touches nothing.
#[verifier::external_body]
fn lru_contains(cache: &lru::LruCache<String, Option<Vec<u8>>>, key: &str) -> (found: bool)
    ensures
        found == cached(lru_entries(*cache), key@),
{
    cache.contains(key)
}

/// The outcome kept for `key`, lent out of the cache; the entry becomes the
/// most recently used.
///
/// Trusted: calls `lru::LruCache::get`, which returns a reference to the
/// value of the key's node and moves that node to the head of its list, or
/// returns `None` and changes nothing where the key has no node.
#[verifier::external_body]
fn lru_get<'a>(cache: &'a mut lru::LruCache<String, Option<Vec<u8>>>, key: &str) -> (r: Option<
    &'a Option<Vec<u8>>,
>)
    ensures
        lru_cap(*final(cache)) == lru_cap(*old(cache)),
        match r {
            Some(outcome) => {
                &&& cached(lru_entries(*old(cache)), key@)
                &&& kept(*outcome) == lru_entries(*old(cache))[place(
                    lru_entries(*old(cache)),
                    key@,
                )].1
                &&& lru_entries(*final(cache)) == promoted(
                    lru_entries(*old(cache)),
                    place(lru_entries(*old(cache)), key@),
                )
            },
            None => {
                &&& !cached(lru_entries(*old(cache)), key@)
                &&& lru_entries(*final(cache)) == lru_entries(*old(cache))
            },
        },
{
    cache.get(key)
}

/// Puts `outcome` in under `key`.
///
/// Trusted: calls `lru::LruCache::put`, which gives a key that has a node
/// the new value and moves the node to the head; for a new key it reuses the
/// node at the tail where the cache holds as many as its capacity, makes a
/// node where it holds fewer, and attaches it at the head.
#[verifier::external_body]
fn lru_put(
    cache: &mut lru::LruCache<String, Option<Vec<u8>>>,
    key: String,
    outcome: Option<Vec<u8>>,
)
    ensures
        lru_cap(*final(cache)) == lru_cap(*old(cache)),
        lru_entries(*final(cache)) == admitted(
            lru_entries(*old(cache)),
            lru_cap(*old(cache)),
            key@,
            kept(outcome),
        ),
{
    let _ = cache.put(key, outcome);
}

/// Takes the entry of `key` out, where there is one.
///
/// Trusted: calls `lru::LruCache::pop`, which removes the key's node from
/// the map and the list, and changes nothing where the key has none.
#[verifier::external_body]
fn lru_pop(cache: &mut lru::LruCache<String, Option<Vec<u8>>>, key: &str)
    ensures
        lru_cap(*final(cache)) == lru_cap(*old(cache)),
        lru_entries(*final(cache)) == dropped(lru_entries(*old(cache)), key@),
{
    let _ = cache.pop(key);
}

/// The bytes of `blob` in a vector of their own.
fn into_vec(blob: Cow<'_, [u8]>) -> (bytes: Vec<u8>)
    ensures
        bytes@ == blob@,
{
    match blob {
        Cow::Borrowed(lent) => slice_to_vec(lent),
        Cow::Owned(owned) => owned,
    }
}

/// A store that remembers the outcomes of `get`, for a bounded number of
/// keys, and answers from memory where it can.
#[derive(Debug)]
pub struct Caching<B: Blobstore> {
    pub underlying: B,
    pub cache: lru::LruCache<String, Option<Vec<u8>>>,
}

/// No key has two entries.
pub open spec fn distinct_keys(entries: Seq<(Seq<char>, Option<Seq<u8>>)>) -> bool {
    forall|i: int, j: int|
        0 <= i < j < entries.len() ==> (#[trigger] entries[i]).0 != (#[trigger] entries[j]).0
}

/// Every entry is what `blobs` has under its key.
pub open spec fn faithful(
    entries: Seq<(Seq<char>, Option<Seq<u8>>)>,
    blobs: Map<Seq<char>, Seq<u8>>,
) -> bool {
    forall|i: int|
        0 <= i < entries.len() ==> (#[trigger] entries[i]).1 == lookup(blobs, entries[i].0)
}

impl<B: Blobstore> Caching<B> {
    /// What the cache holds: each key with the outcome kept for it, the most
    /// recently used first.
    pub open spec fn entries(&self) -> Seq<(Seq<char>, Option<Seq<u8>>)> {
        lru_entries(self.cache)
    }

    /// The number of keys that the cache may hold.
    pub open spec fn capacity(&self) -> nat {
        lru_cap(self.cache)
    }
}

impl<B: Blobstore> Blobstore for Caching<B> {
    /// The cache holds no more than it may, no key twice, and nothing that
    /// the wrapped store would not return.
    open spec fn inv(&self) -> bool {
        &&& self.underlying.inv()
        &&& 1 <= self.capacity()
        &&& self.entries().len() <= self.capacity()
        &&& distinct_keys(self.entries())
        &&& faithful(self.entries(), self.underlying@)
    }

    open spec fn view(&self) -> Map<Seq<char>, Seq<u8>> {
        self.underlying@
    }

    /// For a key in the cache: no call on the wrapped store, the outcome
    /// that was kept, and the entry moved to the front. For another key: one
    /// `get` of it on the wrapped store, whose outcome is returned, and kept
    /// unless it is an error.
    open spec fn get_yields(
        &self,
        key: Seq<char>,
        post: &Self,
        outcome: Result<Option<Seq<u8>>, Error>,
    ) -> bool {
        &&& post.capacity() == self.capacity()
        &&& if cached(self.entries(), key) {
            &&& post.underlying == self.underlying
            &&& outcome == Ok::<Option<Seq<u8>>, Error>(
                self.entries()[place(self.entries(), key)].1,
            )
            &&& post.entries() == promoted(self.entries(), place(self.entries(), key))
        } else {
            &&& got(&self.underlying, key, &post.underlying, outcome)
            &&& post.entries() == match outcome {
                Ok(found) => admitted(self.entries(), self.capacity(), key, found),
                Err(_) => self.entries(),
            }
        }
    }

    /// One `put` on the wrapped store, after which the key has no entry.
    open spec fn put_yields(
        &self,
        key: Seq<char>,
        blob: Seq<u8>,
        post: &Self,
        outcome: Result<(), Error>,
    ) -> bool {
        &&& post.capacity() == self.capacity()
        &&& stored(&self.underlying, key, blob, &post.underlying, outcome)
        &&& post.entries() == dropped(self.entries(), key)
    }

    fn get<'a>(&'a mut self, key: &str) -> (r: Result<Option<Cow<'a, [u8]>>, Error>)
        ensures
            r matches Ok(Some(blob)) ==> blob is Borrowed,
    {
        let hit = lru_contains(&self.cache, key);
        if !hit {
            let found = match self.underlying.get(key) {
                Ok(Some(blob)) => Some(into_vec(blob)),
                Ok(None) => None,
                Err(e) => {
                    return Err(e);
                },
            };
            lru_put(&mut self.cache, key.to_owned(), found);
            proof {
                lemma_admitted(old(self).entries(), old(self).capacity(), key@, kept(found));
                assert(faithful(self.entries(), self.underlying@));
            }
        }
        proof {
            let entries = self.entries();
            let i = place(entries, key@);
            lemma_promoted(entries, i);
            if !hit {
                assert(entries[0].0 == key@);
                assert(i == 0);
                assert(promoted(entries, 0) =~= entries);
            }
        }
        match lru_get(&mut self.cache, key) {
            Some(Some(bytes)) => Ok(Some(Cow::Borrowed(bytes.as_slice()))),
            Some(None) => Ok(None),
            None => unreached(),
        }
    }

    fn put(&mut self, key: &str, blob: &[u8]) -> (r: Result<(), Error>) {
        let r = self.underlying.put(key, blob);
        lru_pop(&mut self.cache, key);
        proof {
            lemma_dropped(old(self).entries(), key@);
            assert forall|i: int| 0 <= i < self.entries().len() implies (
            #[trigger] self.entries()[i]).1 == lookup(self.underlying@, self.entries()[i].0) by {
                let k = self.entries()[i].0;
                assert(old(self).entries().contains(self.entries()[i]));
                assert(k != key@);
                assert(lookup(self.underlying@.remove(key@), k) == lookup(
                    old(self).underlying@.remove(key@),
                    k,
                ));
            }
        }
        r
    }
}

/// Moving an entry to the front keeps the keys distinct, the number of
/// entries, and every entry.
pub proof fn lemma_promoted(entries: Seq<(Seq<char>, Option<Seq<u8>>)>, i: int)
    requires
        0 <= i < entries.len(),
        distinct_keys(entries),
    ensures
        distinct_keys(promoted(entries, i)),
        promoted(entries, i).len() == entries.len(),
        forall|blobs: Map<Seq<char>, Seq<u8>>|
            faithful(entries, blobs) ==> #[trigger] faithful(promoted(entries, i), blobs),
        place(entries, entries[i].0) == i,
{
    let after = promoted(entries, i);
    assert forall|a: int| 0 <= a < after.len() implies exists|b: int|
        0 <= b < entries.len() && #[trigger] after[a] == entries[b] && (a == 0 ==> b == i) && (0
            < a <= i ==> b == a - 1) && (a > i ==> b == a) by {
        if a == 0 {
            assert(after[a] == entries[i]);
        } else if a <= i {
            assert(after[a] == entries[a - 1]);
        } else {
            assert(after[a] == entries[a]);
        }
    }
    assert forall|a: int, b: int| 0 <= a < b < after.len() implies (#[trigger] after[a]).0 != (
    #[trigger] after[b]).0 by {
        let ja = if a == 0 {
            i
        } else if a <= i {
            a - 1
        } else {
            a
        };
        let jb = if b <= i {
            b - 1
        } else {
            b
        };
        assert(after[a] == entries[ja]);
        assert(after[b] == entries[jb]);
        assert(ja != jb);
    }
    assert forall|blobs: Map<Seq<char>, Seq<u8>>| faithful(entries, blobs) implies #[trigger] faithful(
        after,
        blobs,
    ) by {
        assert forall|a: int| 0 <= a < after.len() implies (#[trigger] after[a]).1 == lookup(
            blobs,
            after[a].0,
        ) by {
            let ja = if a == 0 {
                i
            } else if a <= i {
                a - 1
            } else {
                a
            };
            assert(after[a] == entries[ja]);
        }
    }
}

/// Taking a key's entry out keeps the keys distinct and the other entries,
/// and leaves the key without one.
pub proof fn lemma_dropped(entries: Seq<(Seq<char>, Option<Seq<u8>>)>, key: Seq<char>)
    requires
        distinct_keys(entries),
    ensures
        distinct_keys(dropped(entries, key)),
        dropped(entries, key).len() <= entries.len(),
        !cached(dropped(entries, key), key),
        forall|a: int|
            0 <= a < dropped(entries, key).len() ==> entries.contains(
                #[trigger] dropped(entries, key)[a],
            ),
{
    let after = dropped(entries, key);
    if cached(entries, key) {
        let i = place(entries, key);
        assert forall|a: int| 0 <= a < after.len() implies entries.contains(#[trigger] after[a]) by {
            if a < i {
                assert(after[a] == entries[a]);
            } else {
                assert(after[a] == entries[a + 1]);
            }
        }
        assert forall|a: int, b: int| 0 <= a < b < after.len() implies (#[trigger] after[a]).0 != (
        #[trigger] after[b]).0 by {
            let ja = if a < i {
                a
            } else {
                a + 1
            };
            let jb = if b < i {
                b
            } else {
                b + 1
            };
            assert(after[a] == entries[ja]);
            assert(after[b] == entries[jb]);
        }
        assert forall|a: int| 0 <= a < after.len() implies (#[trigger] after[a]).0 != key by {
            let ja = if a < i {
                a
            } else {
                a + 1
            };
            assert(after[a] == entries[ja]);
            assert(ja != i);
            if ja < i {
                assert(entries[ja].0 != entries[i].0);
            } else {
                assert(entries[i].0 != entries[ja].0);
            }
        }
    } else {
        assert forall|a: int| 0 <= a < after.len() implies entries.contains(#[trigger] after[a]) by {
            assert(after[a] == entries[a]);
        }
    }
}

/// Putting an outcome in under a key that has no entry keeps the keys
/// distinct and the cache within its capacity, and sets the new entry in
/// front of those that stay.
pub proof fn lemma_admitted(
    entries: Seq<(Seq<char>, Option<Seq<u8>>)>,
    cap: nat,
    key: Seq<char>,
    outcome: Option<Seq<u8>>,
)
    requires
        distinct_keys(entries),
        entries.len() <= cap,
        1 <= cap,
        !cached(entries, key),
    ensures
        distinct_keys(admitted(entries, cap, key, outcome)),
        admitted(entries, cap, key, outcome).len() <= cap,
        admitted(entries, cap, key, outcome)[0] == (key, outcome),
        cached(admitted(entries, cap, key, outcome), key),
        forall|a: int|
            1 <= a < admitted(entries, cap, key, outcome).len() ==> #[trigger] admitted(
                entries,
                cap,
                key,
                outcome,
            )[a] == entries[a - 1],
{
    let after = admitted(entries, cap, key, outcome);
    assert(after[0] == (key, outcome));
    assert forall|a: int| 1 <= a < after.len() implies #[trigger] after[a] == entries[a - 1] by {}
    assert forall|a: int, b: int| 0 <= a < b < after.len() implies (#[trigger] after[a]).0 != (
    #[trigger] after[b]).0 by {
        assert(after[b] == entries[b - 1]);
        if a == 0 {
            assert(entries[b - 1].0 != key);
        } else {
            assert(after[a] == entries[a - 1]);
        }
    }
}

/// What was put is what `get` returns, on the first call and on every call
/// after it, for as long as nothing else is put under the key.
///
/// `states` are the store before each of a run of `get`s of `key` and after
/// the last, `outcomes` what they returned; `before` is the store on which
/// `blob` was put, which left `states[0]`.
pub proof fn lemma_get_after_put<B: Blobstore>(
    before: B,
    key: Seq<char>,
    blob: Seq<u8>,
    states: Seq<B>,
    outcomes: Seq<Result<Option<Seq<u8>>, Error>>,
    i: int,
)
    requires
        states.len() == outcomes.len() + 1,
        stored(&before, key, blob, &states[0], Ok(())),
        forall|j: int|
            0 <= j < outcomes.len() ==> got(&states[j], key, &states[j + 1], #[trigger] outcomes[j]),
        0 <= i < outcomes.len(),
    ensures
        outcomes[i] is Ok ==> outcomes[i] == Ok::<Option<Seq<u8>>, Error>(Some(blob)),
{
    lemma_gets_keep_contents(states, key, outcomes, i);
}

/// A run of `get`s leaves the contents of a store as they were.
proof fn lemma_gets_keep_contents<B: Blobstore>(
    states: Seq<B>,
    key: Seq<char>,
    outcomes: Seq<Result<Option<Seq<u8>>, Error>>,
    upto: int,
)
    requires
        states.len() == outcomes.len() + 1,
        forall|j: int|
            0 <= j < outcomes.len() ==> got(&states[j], key, &states[j + 1], #[trigger] outcomes[j]),
        0 <= upto <= outcomes.len(),
    ensures
        states[upto]@ == states[0]@,
    decreases upto,
{
    if upto > 0 {
        lemma_gets_keep_contents(states, key, outcomes, upto - 1);
        assert(got(&states[upto - 1], key, &states[upto], outcomes[upto - 1]));
    }
}

/// A `get` through two prefixes is one `get` on the innermost store, of the
/// key under the inner prefix, then the outer one.
pub proof fn lemma_prefixes_compose_get<B: Blobstore>(
    pre: Prefixed<Prefixed<B>>,
    key: Seq<char>,
    post: Prefixed<Prefixed<B>>,
    outcome: Result<Option<Seq<u8>>, Error>,
)
    requires
        pre.get_yields(key, &post, outcome),
    ensures
        got(
            &pre.underlying.underlying,
            pre.underlying.prefix@ + seq!['/'] + pre.prefix@ + seq!['/'] + key,
            &post.underlying.underlying,
            outcome,
        ),
        post.prefix == pre.prefix,
        post.underlying.prefix == pre.underlying.prefix,
{
    assert(prefixed_key(pre.underlying.prefix@, prefixed_key(pre.prefix@, key))
        =~= pre.underlying.prefix@ + seq!['/'] + pre.prefix@ + seq!['/'] + key);
}

/// A `put` through two prefixes is one `put` on the innermost store, under
/// the key under the inner prefix, then the outer one.
pub proof fn lemma_prefixes_compose_put<B: Blobstore>(
    pre: Prefixed<Prefixed<B>>,
    key: Seq<char>,
    blob: Seq<u8>,
    post: Prefixed<Prefixed<B>>,
    outcome: Result<(), Error>,
)
    requires
        pre.put_yields(key, blob, &post, outcome),
    ensures
        stored(
            &pre.underlying.underlying,
            pre.underlying.prefix@ + seq!['/'] + pre.prefix@ + seq!['/'] + key,
            blob,
            &post.underlying.underlying,
            outcome,
        ),
        post.prefix == pre.prefix,
        post.underlying.prefix == pre.underlying.prefix,
{
    assert(prefixed_key(pre.underlying.prefix@, prefixed_key(pre.prefix@, key))
        =~= pre.underlying.prefix@ + seq!['/'] + pre.prefix@ + seq!['/'] + key);
}

/// A `get` of a key that the cache holds does not reach the wrapped store,
/// and returns what the cache holds.
pub proof fn lemma_cache_hit<B: Blobstore>(
    pre: Caching<B>,
    key: Seq<char>,
    post: Caching<B>,
    outcome: Result<Option<Seq<u8>>, Error>,
    i: int,
)
    requires
        distinct_keys(pre.entries()),
        0 <= i < pre.entries().len(),
        pre.entries()[i].0 == key,
        pre.get_yields(key, &post, outcome),
    ensures
        post.underlying == pre.underlying,
        outcome == Ok::<Option<Seq<u8>>, Error>(pre.entries()[i].1),
        post.entries() == promoted(pre.entries(), i),
{
    let j = place(pre.entries(), key);
    if i < j {
        assert(pre.entries()[i].0 != pre.entries()[j].0);
    } else if j < i {
        assert(pre.entries()[j].0 != pre.entries()[i].0);
    }
}

/// What a compressing store over a prefixed one holds depends on the prefix
/// and on what the innermost store holds, and on nothing else: two such
/// stacks over equal contents hold the same.
pub proof fn lemma_stack_contents<B: Blobstore>(
    a: Compressed<Prefixed<B>>,
    b: Compressed<Prefixed<B>>,
)
    requires
        a.underlying.prefix@ == b.underlying.prefix@,
        a.underlying.underlying@ == b.underlying.underlying@,
    ensures
        a@ == b@,
{
    assert(a.underlying@ =~= b.underlying@);
    assert(a@ =~= b@);
}

/// A prefixed store keeps the rules of a store where the store it wraps
/// does: what its relations allow leaves it in order, with the contents
/// that a store must have.
pub proof fn lemma_prefixed_keeps_rules<B: Blobstore>(
    pre: Prefixed<B>,
    key: Seq<char>,
    blob: Seq<u8>,
    post: Prefixed<B>,
    found: Result<Option<Seq<u8>>, Error>,
    done: Result<(), Error>,
)
    ensures
        pre.get_yields(key, &post, found) ==> got(&pre, key, &post, found),
        pre.put_yields(key, blob, &post, done) ==> stored(&pre, key, blob, &post, done),
{
    let full = prefixed_key(pre.prefix@, key);
    if pre.get_yields(key, &post, found) {
        assert(post@ =~= pre@);
    }
    if pre.put_yields(key, blob, &post, done) {
        assert forall|k: Seq<char>| k != key implies lookup(post@, k) == lookup(pre@, k) by {
            let fk = prefixed_key(pre.prefix@, k);
            if fk == full {
                lemma_prefixed_key_injective(pre.prefix@, k, key);
            }
            assert(lookup(post.underlying@.remove(full), fk) == lookup(
                pre.underlying@.remove(full),
                fk,
            ));
        }
        lemma_same_but_one(post@, pre@, key);
    }
}

/// A compressing store keeps the rules of a store where the store it wraps
/// does, for a blob that its frame gives back.
pub proof fn lemma_compressed_keeps_rules<B: Blobstore>(
    pre: Compressed<B>,
    key: Seq<char>,
    blob: Seq<u8>,
    post: Compressed<B>,
    found: Result<Option<Seq<u8>>, Error>,
    done: Result<(), Error>,
)
    requires
        pre.inv(),
        zstd_frame(blob, 0) matches Some(frame) ==> zstd_data(frame) == Some(blob),
    ensures
        pre.get_yields(key, &post, found) ==> got(&pre, key, &post, found),
        pre.put_yields(key, blob, &post, done) ==> stored(&pre, key, blob, &post, done),
{
    if pre.get_yields(key, &post, found) {
        assert(post@ =~= pre@);
    }
    if pre.put_yields(key, blob, &post, done) {
        if zstd_frame(blob, 0) is Some {
            assert forall|k: Seq<char>| k != key implies lookup(post@, k) == lookup(pre@, k) by {
                assert(lookup(post.underlying@.remove(key), k) == lookup(
                    pre.underlying@.remove(key),
                    k,
                ));
            }
            lemma_same_but_one(post@, pre@, key);
        }
    }
}

/// A caching store keeps the rules of a store where the store it wraps
/// does.
pub proof fn lemma_caching_keeps_rules<B: Blobstore>(
    pre: Caching<B>,
    key: Seq<char>,
    blob: Seq<u8>,
    post: Caching<B>,
    found: Result<Option<Seq<u8>>, Error>,
    done: Result<(), Error>,
)
    requires
        pre.inv(),
    ensures
        pre.get_yields(key, &post, found) ==> got(&pre, key, &post, found),
        pre.put_yields(key, blob, &post, done) ==> stored(&pre, key, blob, &post, done),
{
    let entries = pre.entries();
    if pre.get_yields(key, &post, found) {
        if cached(entries, key) {
            lemma_promoted(entries, place(entries, key));
        } else if found is Ok {
            lemma_admitted(entries, pre.capacity(), key, found->Ok_0);
            assert(faithful(post.entries(), post.underlying@));
        }
    }
    if pre.put_yields(key, blob, &post, done) {
        lemma_dropped(entries, key);
        assert forall|i: int| 0 <= i < post.entries().len() implies (#[trigger] post.entries()[i]).1
            == lookup(post.underlying@, post.entries()[i].0) by {
            let k = post.entries()[i].0;
            assert(entries.contains(post.entries()[i]));
            assert(k != key);
            assert(lookup(post.underlying@.remove(key), k) == lookup(
                pre.underlying@.remove(key),
                k,
            ));
        }
    }
}

} // verus!
