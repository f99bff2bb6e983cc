//! Blob stores: keys to byte buffers.

use crate::error::TurboError;
use crate::payload::{bytes_of, share};
use crate::text::{same, starts_with};
use bytes::Bytes;
use vstd::prelude::*;

verus! {

/// A blob store in memory.
pub struct InMemoryBackend {
    entries: Vec<(String, Bytes)>,
}

/// Whether an entry has the given key.
pub open spec fn has_key(entries: Seq<(String, Bytes)>, key: Seq<char>) -> bool {
    exists|i: int| 0 <= i < entries.len() && (#[trigger] entries[i]).0@ == key
}

/// The entry of a key.
pub open spec fn entry_of(entries: Seq<(String, Bytes)>, key: Seq<char>) -> int {
    choose|i: int| 0 <= i < entries.len() && (#[trigger] entries[i]).0@ == key
}

impl View for InMemoryBackend {
    type V = Map<Seq<char>, Seq<u8>>;

    closed spec fn view(&self) -> Map<Seq<char>, Seq<u8>> {
        Map::new(
            |key: Seq<char>| has_key(self.entries@, key),
            |key: Seq<char>| bytes_of(self.entries@[entry_of(self.entries@, key)].1),
        )
    }
}

/// The texts of strings.
pub open spec fn key_texts(keys: Seq<String>) -> Seq<Seq<char>> {
    keys.map_values(|k: String| k@)
}

impl InMemoryBackend {
    /// No key has two entries.
    #[verifier::type_invariant]
    spec fn wf(self) -> bool {
        forall|i: int, j: int|
            #![trigger self.entries@[i], self.entries@[j]]
            0 <= i < j < self.entries@.len() ==> self.entries@[i].0@ != self.entries@[j].0@
    }

    /// An empty store.
    pub fn new() -> (store: Self)
        ensures
            store@ == Map::<Seq<char>, Seq<u8>>::empty(),
    {
        let store = InMemoryBackend { entries: Vec::new() };
        proof {
            assert(store@ =~= Map::<Seq<char>, Seq<u8>>::empty());
        }
        store
    }

    fn find(&self, key: &str) -> (r: Option<usize>)
        ensures
            r matches Some(i) ==> i < self.entries@.len() && self.entries@[i as int].0@ == key@
                && entry_of(self.entries@, key@) == i,
            r is None ==> !has_key(self.entries@, key@),
    {
        proof {
            use_type_invariant(self);
        }
        let mut i: usize = 0;
        while i < self.entries.len()
            invariant
                self.wf(),
                i <= self.entries@.len(),
                forall|j: int| 0 <= j < i ==> (#[trigger] self.entries@[j]).0@ != key@,
            decreases self.entries@.len() - i,
        {
            if same(self.entries[i].0.as_str(), key) {
                proof {
                    assert(self.entries@[i as int].0@ == key@);
                    let j = entry_of(self.entries@, key@);
                    assert(self.entries@[j].0@ == key@);
                }
                return Some(i);
            }
            i = i + 1;
        }
        None
    }

    /// Stores a blob, in place of an earlier one of the key.
    pub fn put(&mut self, key: &str, data: Bytes) -> (r: Result<(), TurboError>)
        ensures
            r is Ok,
            final(self)@ == old(self)@.insert(key@, bytes_of(data)),
    {
        proof {
            use_type_invariant(&*self);
        }
        let ghost before = self.entries@;
        let key_text = key.to_string();
        let found = self.find(key);
        let mut entries: Vec<(String, Bytes)> = Vec::new();
        std::mem::swap(&mut entries, &mut self.entries);
        match found {
            Some(at) => {
                entries.set(at, (key_text, data));
                proof {
                    lemma_put_known(before, entries@, at as int);
                }
            },
            None => {
                entries.push((key_text, data));
                proof {
                    assert(entries@.drop_last() =~= before);
                    lemma_put_new(before, entries@);
                }
            },
        }
        self.entries = entries;
        proof {
            assert(self@ =~= old(self)@.insert(key@, bytes_of(data)));
        }
        Ok(())
    }

    /// The blob of a key.
    pub fn get(&self, key: &str) -> (r: Result<Bytes, TurboError>)
        ensures
            r is Ok <==> self@.contains_key(key@),
            r matches Ok(data) ==> bytes_of(data) == self@[key@],
            r matches Err(e) ==> e is NotFound && e.detail() == key@,
    {
        match self.find(key) {
            Some(at) => Ok(share(&self.entries[at].1)),
            None => Err(TurboError::NotFound(key.to_string())),
        }
    }

    /// Drops the blob of a key, if there is one.
    pub fn delete(&mut self, key: &str) -> (r: Result<(), TurboError>)
        ensures
            r is Ok,
            final(self)@ == old(self)@.remove(key@),
    {
        proof {
            use_type_invariant(&*self);
        }
        let ghost before = self.entries@;
        match self.find(key) {
            Some(at) => {
                let mut entries: Vec<(String, Bytes)> = Vec::new();
                std::mem::swap(&mut entries, &mut self.entries);
                let _ = entries.remove(at);
                proof {
                    lemma_delete_known(before, entries@, at as int);
                }
                self.entries = entries;
                proof {
                    assert(self@ =~= old(self)@.remove(key@));
                }
            },
            None => {
                proof {
                    assert(self@ =~= old(self)@.remove(key@));
                }
            },
        }
        Ok(())
    }

    /// The keys that begin with a prefix, each once, in no particular order.
    pub fn list_prefix(&self, prefix: &str) -> (r: Result<Vec<String>, TurboError>)
        ensures
            r matches Ok(keys) && key_texts(keys@).no_duplicates() && forall|key: Seq<char>|
                #[trigger] key_texts(keys@).contains(key) <==> self@.contains_key(key)
                    && prefix@.is_prefix_of(key),
    {
        proof {
            use_type_invariant(self);
        }
        let mut keys: Vec<String> = Vec::new();
        let mut i: usize = 0;
        while i < self.entries.len()
            invariant
                self.wf(),
                i <= self.entries@.len(),
                forall|m: int|
                    0 <= m < keys@.len() ==> exists|j: int|
                        0 <= j < i && (#[trigger] self.entries@[j]).0@ == (#[trigger] keys@[m])@
                            && prefix@.is_prefix_of(keys@[m]@),
                forall|j: int|
                    0 <= j < i && prefix@.is_prefix_of(self.entries@[j].0@) ==> exists|m: int|
                        0 <= m < keys@.len() && (#[trigger] keys@[m])@
                            == (#[trigger] self.entries@[j]).0@,
                forall|m: int, n: int|
                    #![trigger keys@[m], keys@[n]]
                    0 <= m < n < keys@.len() ==> keys@[m]@ != keys@[n]@,
            decreases self.entries@.len() - i,
        {
            let key = &self.entries[i].0;
            if starts_with(key.as_str(), prefix) {
                let ghost before = keys@;
                keys.push(key.clone());
                proof {
                    assert(keys@[before.len() as int]@ == self.entries@[i as int].0@);
                    assert forall|j: int|
                        0 <= j < i + 1 && prefix@.is_prefix_of(
                            self.entries@[j].0@,
                        ) implies exists|m: int|
                        0 <= m < keys@.len() && (#[trigger] keys@[m])@ == (
                        #[trigger] self.entries@[j]).0@ by {
                        if j < i {
                            let m = choose|m: int|
                                0 <= m < before.len() && (#[trigger] before[m])@
                                    == self.entries@[j].0@;
                            assert(keys@[m] == before[m]);
                        }
                    }
                }
            }
            i = i + 1;
        }
        proof {
            let texts = key_texts(keys@);
            assert forall|key: Seq<char>| #[trigger] texts.contains(key) <==> self@.contains_key(
                key,
            ) && prefix@.is_prefix_of(key) by {
                if texts.contains(key) {
                    let m = choose|m: int| 0 <= m < texts.len() && texts[m] == key;
                    assert(keys@[m]@ == key);
                }
                if self@.contains_key(key) && prefix@.is_prefix_of(key) {
                    let j = entry_of(self.entries@, key);
                    assert(self.entries@[j].0@ == key);
                    let m = choose|m: int|
                        0 <= m < keys@.len() && (#[trigger] keys@[m])@ == self.entries@[j].0@;
                    assert(texts[m] == key);
                }
            }
        }
        Ok(keys)
    }

    /// Whether a key has a blob.
    pub fn key_exists(&self, key: &str) -> (r: Result<bool, TurboError>)
        ensures
            r == Ok::<bool, TurboError>(self@.contains_key(key@)),
    {
        exists_from(self.get(key))
    }
}

impl Default for InMemoryBackend {
    /// An empty store.
    fn default() -> (store: Self)
        ensures
            store@ == Map::<Seq<char>, Seq<u8>>::empty(),
    {
        InMemoryBackend::new()
    }
}

proof fn lemma_put_known(before: Seq<(String, Bytes)>, after: Seq<(String, Bytes)>, at: int)
    requires
        0 <= at < before.len(),
        after.len() == before.len(),
        forall|i: int| 0 <= i < before.len() && i != at ==> after[i] == before[i],
        after[at].0@ == before[at].0@,
        forall|i: int, j: int|
            #![trigger before[i], before[j]]
            0 <= i < j < before.len() ==> before[i].0@ != before[j].0@,
    ensures
        forall|i: int, j: int|
            #![trigger after[i], after[j]]
            0 <= i < j < after.len() ==> after[i].0@ != after[j].0@,
        forall|key: Seq<char>| #[trigger] has_key(after, key) == has_key(before, key),
        forall|key: Seq<char>|
            has_key(before, key) ==> #[trigger] entry_of(after, key) == entry_of(before, key),
        entry_of(after, before[at].0@) == at,
{
    assert forall|i: int| 0 <= i < after.len() implies (#[trigger] after[i]).0@ == before[i].0@ by {
        if i != at {
            assert(after[i] == before[i]);
        }
    }
    assert forall|i: int, j: int| 0 <= i < j < after.len() implies (#[trigger] after[i]).0@ != (
    #[trigger] after[j]).0@ by {
        assert(before[i].0@ != before[j].0@);
    }
    assert forall|key: Seq<char>| #[trigger] has_key(after, key) == has_key(before, key) by {
        if has_key(before, key) {
            let i = entry_of(before, key);
            assert(before[i].0@ == key);
            assert(after[i].0@ == key);
        }
        if has_key(after, key) {
            let i = entry_of(after, key);
            assert(after[i].0@ == key);
            assert(before[i].0@ == key);
        }
    }
    assert forall|key: Seq<char>| has_key(before, key) implies #[trigger] entry_of(after, key)
        == entry_of(before, key) by {
        let i = entry_of(before, key);
        let j = entry_of(after, key);
        assert(before[i].0@ == key && after[i].0@ == key);
        assert(after[j].0@ == key && before[j].0@ == key);
    }
    assert(before[at].0@ == before[at].0@);
    assert(has_key(before, before[at].0@));
    let j = entry_of(after, before[at].0@);
    assert(after[at].0@ == before[at].0@ && after[j].0@ == before[at].0@);
}

proof fn lemma_put_new(before: Seq<(String, Bytes)>, after: Seq<(String, Bytes)>)
    requires
        after.len() == before.len() + 1,
        after.drop_last() == before,
        !has_key(before, after.last().0@),
        forall|i: int, j: int|
            #![trigger before[i], before[j]]
            0 <= i < j < before.len() ==> before[i].0@ != before[j].0@,
    ensures
        forall|i: int, j: int|
            #![trigger after[i], after[j]]
            0 <= i < j < after.len() ==> after[i].0@ != after[j].0@,
        forall|key: Seq<char>| #[trigger]
            has_key(after, key) == (has_key(before, key) || key == after.last().0@),
        forall|key: Seq<char>|
            has_key(before, key) ==> #[trigger] entry_of(after, key) == entry_of(before, key),
        entry_of(after, after.last().0@) == before.len(),
{
    let last = after.last().0@;
    assert forall|i: int| 0 <= i < before.len() implies #[trigger] before[i] == after[i] by {
        assert(after.drop_last()[i] == after[i]);
    }
    assert forall|i: int| 0 <= i < before.len() implies (#[trigger] after[i]).0@ != last by {
        assert(before[i] == after[i]);
    }
    assert forall|i: int, j: int| 0 <= i < j < after.len() implies (#[trigger] after[i]).0@ != (
    #[trigger] after[j]).0@ by {
        if j < before.len() {
            assert(before[i] == after[i] && before[j] == after[j]);
        }
    }
    assert(after[before.len() as int].0@ == last);
    assert forall|key: Seq<char>| #[trigger] has_key(after, key) == (has_key(before, key) || key
        == last) by {
        if has_key(before, key) {
            let i = entry_of(before, key);
            assert(before[i] == after[i]);
        }
        if has_key(after, key) && key != last {
            let i = entry_of(after, key);
            assert(after[i].0@ == key);
            assert(before[i] == after[i]);
        }
    }
    assert forall|key: Seq<char>| has_key(before, key) implies #[trigger] entry_of(after, key)
        == entry_of(before, key) by {
        let i = entry_of(before, key);
        let j = entry_of(after, key);
        assert(before[i] == after[i]);
        assert(after[i].0@ == key && after[j].0@ == key);
    }
    let j = entry_of(after, last);
    assert(after[j].0@ == last);
}

proof fn lemma_delete_known(before: Seq<(String, Bytes)>, after: Seq<(String, Bytes)>, at: int)
    requires
        0 <= at < before.len(),
        after == before.remove(at),
        forall|i: int, j: int|
            #![trigger before[i], before[j]]
            0 <= i < j < before.len() ==> before[i].0@ != before[j].0@,
    ensures
        forall|i: int, j: int|
            #![trigger after[i], after[j]]
            0 <= i < j < after.len() ==> after[i].0@ != after[j].0@,
        forall|key: Seq<char>| #[trigger]
            has_key(after, key) == (has_key(before, key) && key != before[at].0@),
        forall|key: Seq<char>| #[trigger]
            has_key(after, key) ==> after[entry_of(after, key)] == before[entry_of(before, key)],
{
    let gone = before[at].0@;
    assert forall|i: int| 0 <= i < after.len() implies #[trigger] after[i] == before[if i < at {
        i
    } else {
        i + 1
    }] by {}
    assert forall|i: int, j: int| 0 <= i < j < after.len() implies (#[trigger] after[i]).0@ != (
    #[trigger] after[j]).0@ by {
        let bi = if i < at {
            i
        } else {
            i + 1
        };
        let bj = if j < at {
            j
        } else {
            j + 1
        };
        assert(before[bi].0@ != before[bj].0@);
    }
    assert forall|key: Seq<char>| #[trigger] has_key(after, key) == (has_key(before, key) && key
        != gone) by {
        if has_key(before, key) && key != gone {
            let i = entry_of(before, key);
            assert(before[i].0@ == key);
            let a = if i < at {
                i
            } else {
                i - 1
            };
            assert(after[a] == before[i]);
        }
        if has_key(after, key) {
            let a = entry_of(after, key);
            assert(after[a].0@ == key);
            let i = if a < at {
                a
            } else {
                a + 1
            };
            assert(before[i].0@ == key);
            assert(before[i].0@ != before[at].0@);
        }
    }
    assert forall|key: Seq<char>| #[trigger] has_key(after, key) implies after[entry_of(after, key)]
        == before[entry_of(before, key)] by {
        let a = entry_of(after, key);
        assert(after[a].0@ == key);
        let i = if a < at {
            a
        } else {
            a + 1
        };
        let j = entry_of(before, key);
        assert(before[i].0@ == key && before[j].0@ == key);
        assert(i == j);
    }
}

/// Whether a key has a blob, from what reading it gave: a missing key is an
/// answer, any other error stays one.
pub fn exists_from(got: Result<Bytes, TurboError>) -> (r: Result<bool, TurboError>)
    ensures
        match got {
            Ok(_) => r == Ok::<bool, TurboError>(true),
            Err(TurboError::NotFound(_)) => r == Ok::<bool, TurboError>(false),
            Err(e) => r == Err::<bool, TurboError>(e),
        },
{
    match got {
        Ok(_) => Ok(true),
        Err(TurboError::NotFound(_)) => Ok(false),
        Err(e) => Err(e),
    }
}

/// What was put is got back, whatever was stored before, and no other key is
/// touched.
pub proof fn law_put_get(
    before: Map<Seq<char>, Seq<u8>>,
    after: Map<Seq<char>, Seq<u8>>,
    key: Seq<char>,
    data: Seq<u8>,
    other: Seq<char>,
)
    requires
        after == before.insert(key, data),
        other != key,
    ensures
        after.contains_key(key),
        after[key] == data,
        after.contains_key(other) == before.contains_key(other),
        before.contains_key(other) ==> after[other] == before[other],
{
}

/// A dropped key is gone, and no other key is touched.
pub proof fn law_delete_get(
    before: Map<Seq<char>, Seq<u8>>,
    after: Map<Seq<char>, Seq<u8>>,
    key: Seq<char>,
    other: Seq<char>,
)
    requires
        after == before.remove(key),
        other != key,
    ensures
        !after.contains_key(key),
        after.contains_key(other) == before.contains_key(other),
        before.contains_key(other) ==> after[other] == before[other],
{
}

/// What a store holds after a row of writes, of which each puts a blob under a key or,
/// without one, drops it.
pub open spec fn after_writes(
    before: Map<Seq<char>, Seq<u8>>,
    writes: Seq<(Seq<char>, Option<Seq<u8>>)>,
) -> Map<Seq<char>, Seq<u8>>
    decreases writes.len(),
{
    if writes.len() == 0 {
        before
    } else {
        let rest = after_writes(before, writes.drop_last());
        match writes.last().1 {
            Some(data) => rest.insert(writes.last().0, data),
            None => rest.remove(writes.last().0),
        }
    }
}

/// After any row of writes a key has what the last write to it left: the blob that was
/// put, or nothing. A key without a write has what it had.
pub proof fn law_last_write_counts(
    before: Map<Seq<char>, Seq<u8>>,
    writes: Seq<(Seq<char>, Option<Seq<u8>>)>,
    key: Seq<char>,
)
    ensures
        forall|i: int|
            0 <= i < writes.len() && (#[trigger] writes[i]).0 == key && (forall|j: int|
                i < j < writes.len() ==> (#[trigger] writes[j]).0 != key) ==> {
                &&& after_writes(before, writes).contains_key(key) == (writes[i].1 is Some)
                &&& writes[i].1 matches Some(data) ==> after_writes(before, writes)[key] == data
            },
        (forall|j: int| 0 <= j < writes.len() ==> (#[trigger] writes[j]).0 != key) ==> {
            &&& after_writes(before, writes).contains_key(key) == before.contains_key(key)
            &&& before.contains_key(key) ==> after_writes(before, writes)[key] == before[key]
        },
    decreases writes.len(),
{
    if writes.len() > 0 {
        let rest = writes.drop_last();
        let last = writes.len() - 1;
        law_last_write_counts(before, rest, key);
        assert forall|i: int|
            0 <= i < writes.len() && (#[trigger] writes[i]).0 == key && (forall|j: int|
                i < j < writes.len() ==> (#[trigger] writes[j]).0 != key) implies {
            &&& after_writes(before, writes).contains_key(key) == (writes[i].1 is Some)
            &&& writes[i].1 matches Some(data) ==> after_writes(before, writes)[key] == data
        } by {
            if i < last {
                assert(rest[i] == writes[i]);
                assert(writes[last].0 != key);
                assert forall|j: int| i < j < rest.len() implies (#[trigger] rest[j]).0 != key by {
                    assert(rest[j] == writes[j]);
                }
            }
        }
        if forall|j: int| 0 <= j < writes.len() ==> (#[trigger] writes[j]).0 != key {
            assert(writes[last].0 != key);
            assert forall|j: int| 0 <= j < rest.len() implies (#[trigger] rest[j]).0 != key by {
                assert(rest[j] == writes[j]);
            }
        }
    }
}

/// Why a blob could not be read.
#[derive(Debug, Clone)]
pub enum ReadFault {
    /// There is none.
    Missing,
    /// Something went wrong, with the words that say what.
    Failed(String),
}

/// A blob store in a directory: a key is the path of a file below it.
#[derive(Debug, Clone)]
pub struct LocalFsBackend {
    pub base_dir: String,
}

impl LocalFsBackend {
    /// A store in the given directory.
    pub fn new(base_dir: &str) -> (store: Self)
        ensures
            store.base_dir@ == base_dir@,
    {
        LocalFsBackend { base_dir: base_dir.to_string() }
    }

    /// What a read of a key's file amounts to.
    pub fn read_outcome(&self, key: &str, outcome: Result<Bytes, ReadFault>) -> (r: Result<
        Bytes,
        TurboError,
    >)
        ensures
            match outcome {
                Ok(data) => r == Ok::<Bytes, TurboError>(data),
                Err(ReadFault::Missing) => r matches Err(e) && e is NotFound && e.detail() == key@,
                Err(ReadFault::Failed(reason)) => r == Err::<Bytes, TurboError>(
                    TurboError::Io(reason),
                ),
            },
    {
        match outcome {
            Ok(data) => Ok(data),
            Err(ReadFault::Missing) => Err(TurboError::NotFound(key.to_string())),
            Err(ReadFault::Failed(reason)) => Err(TurboError::Io(reason)),
        }
    }

    /// The names in the directory that begin with a prefix, in their order.
    pub fn matching(&self, names: Vec<String>, prefix: &str) -> (keys: Vec<String>)
        ensures
            key_texts(keys@) == key_texts(names@).filter(
                |name: Seq<char>| prefix@.is_prefix_of(name),
            ),
    {
        let ghost all = names@;
        let ghost pred = |name: Seq<char>| prefix@.is_prefix_of(name);
        let mut keys: Vec<String> = Vec::new();
        proof {
            reveal(Seq::filter);
            assert(key_texts(all.take(0)).filter(pred) =~= Seq::empty());
            assert(key_texts(keys@) =~= Seq::empty());
        }
        for name in it: names
            invariant
                it.seq() == all,
                pred == (|name: Seq<char>| prefix@.is_prefix_of(name)),
                key_texts(keys@) == key_texts(all.take(it.index())).filter(pred),
        {
            proof {
                let now = key_texts(all.take(it.index() + 1));
                assert(now.drop_last() =~= key_texts(all.take(it.index())));
                assert(now.last() == name@);
                reveal(Seq::filter);
            }
            let ghost before = keys@;
            if starts_with(name.as_str(), prefix) {
                keys.push(name);
                proof {
                    assert(key_texts(keys@) =~= key_texts(before).push(name@));
                }
            }
        }
        proof {
            assert(all.take(all.len() as int) =~= all);
        }
        keys
    }
}

/// What a read of a key from an object store amounts to.
pub fn remote_read_outcome(key: &str, outcome: Result<Bytes, ReadFault>) -> (r: Result<
    Bytes,
    TurboError,
>)
    ensures
        match outcome {
            Ok(data) => r == Ok::<Bytes, TurboError>(data),
            Err(ReadFault::Missing) => r matches Err(e) && e is NotFound && e.detail() == key@,
            Err(ReadFault::Failed(reason)) => r == Err::<Bytes, TurboError>(
                TurboError::Blob(reason),
            ),
        },
{
    match outcome {
        Ok(data) => Ok(data),
        Err(ReadFault::Missing) => Err(TurboError::NotFound(key.to_string())),
        Err(ReadFault::Failed(reason)) => Err(TurboError::Blob(reason)),
    }
}

/// The texts of keys are the keys' own, one for one and whole.
pub proof fn law_texts_of_keys(keys: Seq<String>, i: int)
    requires
        0 <= i < keys.len(),
    ensures
        key_texts(keys).len() == keys.len(),
        key_texts(keys)[i] == keys[i]@,
{
}

} // verus!
