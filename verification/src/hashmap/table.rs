//! The table that the writes build.
use vstd::prelude::*;
use crate::hashmap::formatter::{from_bytes, lemma_format_roundtrip, message_bytes, parsed, readable, FormatError};

verus! {

/// The value that the first entry of `key` holds.
pub open spec fn table_lookup(entries: Seq<(String, String)>, key: Seq<char>) -> Option<Seq<char>>
    decreases entries.len(),
{
    if entries.len() == 0 {
        None
    } else if entries[0].0@ == key {
        Some(entries[0].1@)
    } else {
        table_lookup(entries.drop_first(), key)
    }
}

proof fn lemma_table_update(entries: Seq<(String, String)>, idx: int, e: (String, String), k: Seq<char>)
    requires
        0 <= idx < entries.len(),
        e.0@ == entries[idx].0@,
        forall|j: int| 0 <= j < idx ==> entries[j].0@ != entries[idx].0@,
    ensures
        table_lookup(entries.update(idx, e), k) == if k == e.0@ {
            Some(e.1@)
        } else {
            table_lookup(entries, k)
        },
    decreases entries.len(),
{
    let e2 = entries.update(idx, e);
    if idx == 0 {
        assert(e2.drop_first() =~= entries.drop_first());
    } else {
        assert(e2[0] == entries[0]);
        assert(entries[0].0@ != entries[idx].0@);
        assert(e2.drop_first() =~= entries.drop_first().update(idx - 1, e));
        assert forall|j: int| 0 <= j < idx - 1 implies #[trigger] entries.drop_first()[j].0@
            != entries.drop_first()[idx - 1].0@ by {
            assert(entries.drop_first()[j] == entries[j + 1]);
        }
        lemma_table_update(entries.drop_first(), idx - 1, e, k);
    }
}

proof fn lemma_table_push(entries: Seq<(String, String)>, e: (String, String), k: Seq<char>)
    requires
        forall|j: int| 0 <= j < entries.len() ==> entries[j].0@ != e.0@,
    ensures
        table_lookup(entries.push(e), k) == if k == e.0@ {
            Some(e.1@)
        } else {
            table_lookup(entries, k)
        },
    decreases entries.len(),
{
    if entries.len() == 0 {
        assert(entries.push(e)[0] == e);
        assert(entries.push(e).drop_first() =~= Seq::<(String, String)>::empty());
        assert(table_lookup(entries.push(e).drop_first(), k) is None);
    } else {
        assert(entries.push(e)[0] == entries[0]);
        assert(entries.push(e).drop_first() =~= entries.drop_first().push(e));
        if entries[0].0@ != k {
            assert forall|j: int| 0 <= j < entries.drop_first().len() implies #[trigger] entries.drop_first()[j].0@
                != e.0@ by {
                assert(entries.drop_first()[j] == entries[j + 1]);
            }
            lemma_table_push(entries.drop_first(), e, k);
        }
    }
}

proof fn lemma_table_absent(entries: Seq<(String, String)>, k: Seq<char>)
    requires
        forall|j: int| 0 <= j < entries.len() ==> entries[j].0@ != k,
    ensures
        table_lookup(entries, k) is None,
    decreases entries.len(),
{
    if entries.len() > 0 {
        assert forall|j: int| 0 <= j < entries.drop_first().len() implies #[trigger] entries.drop_first()[j].0@ != k by {
            assert(entries.drop_first()[j] == entries[j + 1]);
        }
        lemma_table_absent(entries.drop_first(), k);
    }
}

/// A string table: each key holds the value last written under it.
pub struct HashTable {
    pub entries: Vec<(String, String)>,
}

impl HashTable {
    /// The value under `key`.
    pub open spec fn value(&self, key: Seq<char>) -> Option<Seq<char>> {
        table_lookup(self.entries@, key)
    }

    pub fn new() -> (res: HashTable)
        ensures
            forall|k: Seq<char>| #[trigger] res.value(k) is None,
    {
        HashTable { entries: Vec::new() }
    }

    fn find(&self, key: &String) -> (idx: usize)
        ensures
            idx <= self.entries@.len(),
            forall|j: int| 0 <= j < idx ==> self.entries@[j].0@ != key@,
            idx < self.entries@.len() ==> self.entries@[idx as int].0@ == key@,
    {
        let mut idx: usize = 0;
        while idx < self.entries.len()
            invariant
                idx <= self.entries@.len(),
                forall|j: int| 0 <= j < idx ==> self.entries@[j].0@ != key@,
            decreases self.entries@.len() - idx,
        {
            if self.entries[idx].0 == *key {
                return idx;
            }
            idx = idx + 1;
        }
        idx
    }

    /// The value under `key`, if any.
    pub fn read(&self, key: &String) -> (res: Option<String>)
        ensures
            res is Some == self.value(key@) is Some,
            res matches Some(v) ==> Some(v@) == self.value(key@),
    {
        let idx = self.find(key);
        if idx < self.entries.len() {
            proof {
                lemma_table_update(self.entries@, idx as int, self.entries@[idx as int], key@);
                assert(self.entries@.update(idx as int, self.entries@[idx as int]) =~= self.entries@);
            }
            Some(self.entries[idx].1.clone())
        } else {
            proof {
                lemma_table_absent(self.entries@, key@);
            }
            None
        }
    }

    /// Writes `value` under `key`; every other key keeps its value.
    pub fn insert(&mut self, key: String, value: String)
        ensures
            final(self).value(key@) == Some(value@),
            forall|k: Seq<char>| k != key@ ==> #[trigger] final(self).value(k) == old(self).value(k),
    {
        let idx = self.find(&key);
        let ghost e = (key, value);
        if idx < self.entries.len() {
            proof {
                assert forall|k: Seq<char>| true implies table_lookup(self.entries@.update(idx as int, e), k)
                    == if k == e.0@ { Some(e.1@) } else { table_lookup(self.entries@, k) } by {
                    lemma_table_update(self.entries@, idx as int, e, k);
                }
            }
            self.entries.set(idx, (key, value));
        } else {
            proof {
                assert forall|k: Seq<char>| true implies table_lookup(self.entries@.push(e), k)
                    == if k == e.0@ { Some(e.1@) } else { table_lookup(self.entries@, k) } by {
                    lemma_table_push(self.entries@, e, k);
                }
            }
            self.entries.push((key, value));
        }
    }

    /// Applies a received write: reads the message and stores its value under
    /// its key; a message without a colon changes nothing.
    pub fn apply(&mut self, msg: Vec<u8>) -> (res: Result<(), FormatError>)
        requires
            readable(msg@),
        ensures
            match parsed(msg@) {
                Ok((k, v)) => res is Ok && final(self).value(k) == Some(v) && forall|o: Seq<char>|
                    o != k ==> #[trigger] final(self).value(o) == old(self).value(o),
                Err(e) => res == Err::<(), FormatError>(e) && forall|o: Seq<char>| #[trigger] final(self).value(o) == old(self).value(o),
            },
            // a write built by `to_bytes` is read back: its key then holds its value
            forall|k: Seq<char>, v: Seq<char>|
                !k.contains(':') && msg@ == #[trigger] message_bytes(k, v) ==> final(self).value(k) == Some(v),
    {
        proof {
            assert forall|k: Seq<char>, v: Seq<char>|
                !k.contains(':') && msg@ == #[trigger] message_bytes(k, v) implies parsed(msg@) == Ok::<(Seq<char>, Seq<char>), FormatError>((k, v)) by {
                lemma_format_roundtrip(k, v);
            }
        }
        match from_bytes(msg) {
            Ok((key, value)) => {
                self.insert(key, value);
                Ok(())
            },
            Err(e) => Err(e),
        }
    }
}

} // verus!
