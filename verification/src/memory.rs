//! A blob store in memory, for tests and for stacks that need no service.
use crate::blob::{lemma_same_but_one, lookup, Blobstore};
use crate::error::Error;
use std::borrow::Cow;
use vstd::prelude::*;
use vstd::slice::slice_to_vec;

verus! {

/// `blobs` has an entry for `key`.
pub open spec fn held(blobs: Seq<(String, Vec<u8>)>, key: Seq<char>) -> bool {
    exists|i: int| 0 <= i < blobs.len() && (#[trigger] blobs[i]).0@ == key
}

/// The place of an entry for `key` in `blobs`, where there is one.
pub open spec fn slot(blobs: Seq<(String, Vec<u8>)>, key: Seq<char>) -> int {
    choose|i: int| 0 <= i < blobs.len() && (#[trigger] blobs[i]).0@ == key
}

/// A blob store that keeps its blobs in a vector, each with its key.
#[derive(Debug)]
pub struct Memory {
    pub blobs: Vec<(String, Vec<u8>)>,
}

impl Default for Memory {
    fn default() -> (store: Self)
        ensures
            store.inv(),
            store@ == Map::<Seq<char>, Seq<u8>>::empty(),
    {
        Memory::new()
    }
}

impl Memory {
    /// A store that holds nothing.
    pub fn new() -> (store: Self)
        ensures
            store.inv(),
            store@ == Map::<Seq<char>, Seq<u8>>::empty(),
    {
        let store = Memory { blobs: Vec::new() };
        assert(store@ =~= Map::<Seq<char>, Seq<u8>>::empty());
        store
    }

    /// The place of the entry for `key`, if there is one.
    pub fn find(&self, key: &str) -> (r: Option<usize>)
        ensures
            match r {
                Some(i) => i < self.blobs@.len() && self.blobs@[i as int].0@ == key@,
                None => !held(self.blobs@, key@),
            },
    {
        let wanted = key.to_owned();
        let mut i: usize = 0;
        while i < self.blobs.len()
            invariant
                i <= self.blobs@.len(),
                wanted@ == key@,
                forall|j: int| 0 <= j < i ==> (#[trigger] self.blobs@[j]).0@ != key@,
            decreases self.blobs@.len() - i,
        {
            if self.blobs[i].0 == wanted {
                return Some(i);
            }
            i += 1;
        }
        None
    }
}

impl Blobstore for Memory {
    /// No key has two entries.
    open spec fn inv(&self) -> bool {
        forall|i: int, j: int|
            0 <= i < j < self.blobs@.len() ==> (#[trigger] self.blobs@[i]).0@ != (
            #[trigger] self.blobs@[j]).0@
    }

    open spec fn view(&self) -> Map<Seq<char>, Seq<u8>> {
        Map::new(
            |key: Seq<char>| held(self.blobs@, key),
            |key: Seq<char>| self.blobs@[slot(self.blobs@, key)].1@,
        )
    }

    /// The blob that the store holds, and no change.
    open spec fn get_yields(
        &self,
        key: Seq<char>,
        post: &Self,
        outcome: Result<Option<Seq<u8>>, Error>,
    ) -> bool {
        *post == *self && outcome == Ok::<Option<Seq<u8>>, Error>(lookup(self@, key))
    }

    /// Success, after which the store holds the blob under the key.
    open spec fn put_yields(
        &self,
        key: Seq<char>,
        blob: Seq<u8>,
        post: &Self,
        outcome: Result<(), Error>,
    ) -> bool {
        outcome is Ok && post@ == self@.insert(key, blob)
    }

    fn get<'a>(&'a mut self, key: &str) -> (r: Result<Option<Cow<'a, [u8]>>, Error>)
        ensures
            r matches Ok(Some(blob)) ==> blob is Borrowed,
    {
        match self.find(key) {
            Some(i) => {
                proof {
                    let at = slot(self.blobs@, key@);
                    if at < i {
                        assert(self.blobs@[at].0@ != self.blobs@[i as int].0@);
                    } else if i < at {
                        assert(self.blobs@[i as int].0@ != self.blobs@[at].0@);
                    }
                }
                let entry = &self.blobs[i];
                Ok(Some(Cow::Borrowed(entry.1.as_slice())))
            },
            None => Ok(None),
        }
    }

    fn put(&mut self, key: &str, blob: &[u8]) -> (r: Result<(), Error>) {
        let found = self.find(key);
        match found {
            Some(i) => {
                self.blobs.remove(i);
            },
            None => {},
        }
        let ghost before = old(self).blobs@;
        let ghost rest = self.blobs@;
        proof {
            assert forall|j: int| 0 <= j < rest.len() implies (#[trigger] rest[j]).0@ != key@
                && before.contains(rest[j]) by {
                match found {
                    Some(i) => {
                        let k = if j < i {
                            j
                        } else {
                            j + 1
                        };
                        assert(rest[j] == before[k]);
                        if k < i {
                            assert(before[k].0@ != before[i as int].0@);
                        } else {
                            assert(before[i as int].0@ != before[k].0@);
                        }
                    },
                    None => {
                        assert(rest[j] == before[j]);
                    },
                }
            }
            assert forall|j: int| 0 <= j < before.len() && before[j].0@ != key@ implies rest.contains(
                #[trigger] before[j],
            ) by {
                match found {
                    Some(i) => {
                        if j < i {
                            assert(rest[j] == before[j]);
                        } else {
                            assert(rest[j - 1] == before[j]);
                        }
                    },
                    None => {
                        assert(rest[j] == before[j]);
                    },
                }
            }
            assert forall|a: int, b: int| 0 <= a < b < rest.len() implies (#[trigger] rest[a]).0@ != (
            #[trigger] rest[b]).0@ by {
                match found {
                    Some(i) => {
                        let ka = if a < i {
                            a
                        } else {
                            a + 1
                        };
                        let kb = if b < i {
                            b
                        } else {
                            b + 1
                        };
                        assert(rest[a] == before[ka]);
                        assert(rest[b] == before[kb]);
                    },
                    None => {},
                }
            }
        }
        self.blobs.push((key.to_owned(), slice_to_vec(blob)));
        proof {
            let n = rest.len() as int;
            assert(self.blobs@[n].0@ == key@);
            assert(held(self.blobs@, key@));
            assert(slot(self.blobs@, key@) == n);
            assert forall|k: Seq<char>| k != key@ implies lookup(self@, k) == lookup(
                old(self)@,
                k,
            ) by {
                lemma_entries_kept(before, rest, self.blobs@, key@, k);
            }
            lemma_same_but_one(self@, old(self)@, key@);
            assert(self@ =~= old(self)@.insert(key@, blob@)) by {
                assert(self@.remove(key@).insert(key@, blob@) =~= self@);
                assert(old(self)@.remove(key@).insert(key@, blob@) =~= old(self)@.insert(
                    key@,
                    blob@,
                ));
            }
        }
        Ok(())
    }
}

/// Taking the entry of `key` out of `before` and adding a new one for it at
/// the end leaves every other key with the blob it had.
proof fn lemma_entries_kept(
    before: Seq<(String, Vec<u8>)>,
    rest: Seq<(String, Vec<u8>)>,
    after: Seq<(String, Vec<u8>)>,
    key: Seq<char>,
    other: Seq<char>,
)
    requires
        other != key,
        after.len() == rest.len() + 1,
        after[rest.len() as int].0@ == key,
        forall|j: int| 0 <= j < rest.len() ==> after[j] == #[trigger] rest[j],
        forall|j: int|
            0 <= j < rest.len() ==> (#[trigger] rest[j]).0@ != key && before.contains(rest[j]),
        forall|j: int|
            0 <= j < before.len() && before[j].0@ != key ==> rest.contains(#[trigger] before[j]),
        forall|i: int, j: int|
            0 <= i < j < before.len() ==> (#[trigger] before[i]).0@ != (#[trigger] before[j]).0@,
        forall|i: int, j: int|
            0 <= i < j < after.len() ==> (#[trigger] after[i]).0@ != (#[trigger] after[j]).0@,
    ensures
        held(after, other) == held(before, other),
        held(before, other) ==> after[slot(after, other)].1@ == before[slot(before, other)].1@,
{
    if held(before, other) {
        let b = slot(before, other);
        assert(rest.contains(before[b]));
        let j = choose|j: int| 0 <= j < rest.len() && rest[j] == before[b];
        assert(after[j] == rest[j]);
        assert(held(after, other));
        let a = slot(after, other);
        if a < j {
            assert(after[a].0@ != after[j].0@);
        } else if j < a {
            assert(after[j].0@ != after[a].0@);
        }
    }
    if held(after, other) {
        let a = slot(after, other);
        assert(a < rest.len());
        assert(after[a] == rest[a]);
        assert(before.contains(rest[a]));
        let k = choose|k: int| 0 <= k < before.len() && before[k] == rest[a];
        assert(held(before, other));
        let b = slot(before, other);
        if b < k {
            assert(before[b].0@ != before[k].0@);
        } else if k < b {
            assert(before[k].0@ != before[b].0@);
        }
    }
}

} // verus!
