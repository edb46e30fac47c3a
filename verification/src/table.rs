//! A small table keyed by text.
//!
//! Entries keep the order in which their keys first came in, so walking a table
//! is the same walk every time.

use vstd::prelude::*;

use crate::text;
use crate::text::text_eq;

verus! {

pub struct Table<V> {
    pub entries: Vec<(String, V)>,
}

/// Where a key stands from position `i` on; the length where it stands nowhere.
pub open spec fn position<V>(entries: Seq<(String, V)>, key: Seq<char>, i: int) -> int
    decreases entries.len() - i,
{
    if i < 0 || i >= entries.len() {
        entries.len() as int
    } else if entries[i].0@ == key {
        i
    } else {
        position(entries, key, i + 1)
    }
}

/// No key stands twice.
pub open spec fn distinct<V>(entries: Seq<(String, V)>) -> bool {
    forall|i: int, j: int|
        0 <= i < j < entries.len() ==> (#[trigger] entries[i]).0@ != (#[trigger] entries[j]).0@
}

/// What the entries hold, key by key.
pub open spec fn contents<V>(entries: Seq<(String, V)>) -> Map<Seq<char>, V> {
    Map::new(
        |k: Seq<char>| position(entries, k, 0) < entries.len(),
        |k: Seq<char>| entries[position(entries, k, 0)].1,
    )
}

impl<V> View for Table<V> {
    type V = Map<Seq<char>, V>;

    open spec fn view(&self) -> Map<Seq<char>, V> {
        contents(self.entries@)
    }
}

proof fn lemma_position<V>(entries: Seq<(String, V)>, key: Seq<char>, i: int)
    requires
        0 <= i <= entries.len(),
    ensures
        i <= position(entries, key, i) <= entries.len(),
        position(entries, key, i) < entries.len() ==> entries[position(entries, key, i)].0@ == key,
        forall|k: int|
            i <= k < position(entries, key, i) ==> (#[trigger] entries[k]).0@ != key,
    decreases entries.len() - i,
{
    if i < entries.len() && entries[i].0@ != key {
        lemma_position(entries, key, i + 1);
    }
}

/// In a table without repeated keys, an entry is found where it stands.
pub proof fn lemma_found<V>(entries: Seq<(String, V)>, n: int)
    requires
        distinct(entries),
        0 <= n < entries.len(),
    ensures
        position(entries, entries[n].0@, 0) == n,
        contents(entries).dom().contains(entries[n].0@),
        contents(entries)[entries[n].0@] == entries[n].1,
{
    lemma_position(entries, entries[n].0@, 0);
}

/// A key that the table holds stands at some entry.
pub proof fn lemma_holds<V>(entries: Seq<(String, V)>, key: Seq<char>)
    ensures
        contents(entries).dom().contains(key) <==> exists|n: int|
            0 <= n < entries.len() && (#[trigger] entries[n]).0@ == key,
{
    lemma_position(entries, key, 0);
    if exists|n: int| 0 <= n < entries.len() && (#[trigger] entries[n]).0@ == key {
        let n = choose|n: int| 0 <= n < entries.len() && (#[trigger] entries[n]).0@ == key;
        assert(entries[n].0@ == key);
    }
}

proof fn lemma_push<V>(entries: Seq<(String, V)>, e: (String, V))
    requires
        distinct(entries),
        !contents(entries).dom().contains(e.0@),
    ensures
        distinct(entries.push(e)),
        contents(entries.push(e)) == contents(entries).insert(e.0@, e.1),
{
    let after = entries.push(e);
    lemma_position(entries, e.0@, 0);
    assert forall|k: Seq<char>| #[trigger] contents(after).dom().contains(k) == contents(entries).insert(
        e.0@,
        e.1,
    ).dom().contains(k) && (contents(after).dom().contains(k) ==> contents(after)[k] == contents(
        entries,
    ).insert(e.0@, e.1)[k]) by {
        lemma_position(entries, k, 0);
        lemma_position(after, k, 0);
        let p = position(entries, k, 0);
        let q = position(after, k, 0);
        if p < entries.len() {
            assert(after[p].0@ == k);
        } else if q < entries.len() {
            assert(entries[q].0@ == k);
        }
        if k == e.0@ {
            assert(after[entries.len() as int].0@ == k);
        }
        if p < entries.len() && q < entries.len() {
            assert(entries[q] == after[q]);
            assert(after[p] == entries[p]);
        }
    }
    assert(contents(after) =~= contents(entries).insert(e.0@, e.1));
}

proof fn lemma_update<V>(entries: Seq<(String, V)>, n: int, v: V)
    requires
        distinct(entries),
        0 <= n < entries.len(),
    ensures
        distinct(entries.update(n, (entries[n].0, v))),
        contents(entries.update(n, (entries[n].0, v))) == contents(entries).insert(
            entries[n].0@,
            v,
        ),
{
    let after = entries.update(n, (entries[n].0, v));
    assert forall|i: int, j: int| 0 <= i < j < after.len() implies (#[trigger] after[i]).0@ != (
    #[trigger] after[j]).0@ by {
        assert(entries[i].0@ != entries[j].0@);
    }
    assert forall|k: Seq<char>| #[trigger] contents(after).dom().contains(k) == contents(entries).insert(
        entries[n].0@,
        v,
    ).dom().contains(k) && (contents(after).dom().contains(k) ==> contents(after)[k] == contents(
        entries,
    ).insert(entries[n].0@, v)[k]) by {
        lemma_position(entries, k, 0);
        lemma_position(after, k, 0);
        let p = position(entries, k, 0);
        let q = position(after, k, 0);
        if p < entries.len() {
            assert(after[p].0@ == k);
        }
        if q < entries.len() {
            assert(entries[q].0@ == k);
        }
        if p < entries.len() && q < entries.len() && p != q {
            assert(entries[p].0@ == entries[q].0@);
        }
        if k == entries[n].0@ {
            lemma_found(entries, n);
        }
    }
    assert(contents(after) =~= contents(entries).insert(entries[n].0@, v));
}

proof fn lemma_remove<V>(entries: Seq<(String, V)>, n: int)
    requires
        distinct(entries),
        0 <= n < entries.len(),
    ensures
        distinct(entries.remove(n)),
        contents(entries.remove(n)) == contents(entries).remove(entries[n].0@),
{
    let after = entries.remove(n);
    assert forall|i: int, j: int| 0 <= i < j < after.len() implies (#[trigger] after[i]).0@ != (
    #[trigger] after[j]).0@ by {
        let a = if i < n { i } else { i + 1 };
        let b = if j < n { j } else { j + 1 };
        assert(after[i] == entries[a]);
        assert(after[j] == entries[b]);
    }
    assert forall|k: Seq<char>| #[trigger] contents(after).dom().contains(k) == contents(entries).remove(
        entries[n].0@,
    ).dom().contains(k) && (contents(after).dom().contains(k) ==> contents(after)[k] == contents(
        entries,
    ).remove(entries[n].0@)[k]) by {
        lemma_position(entries, k, 0);
        lemma_position(after, k, 0);
        let p = position(entries, k, 0);
        let q = position(after, k, 0);
        let p_after = if p < n { p } else { p - 1 };
        let q_before = if q < n { q } else { q + 1 };
        if p < entries.len() && p != n {
            assert(after[p_after] == entries[p]);
            lemma_found(after, p_after);
        }
        if q < after.len() {
            assert(after[q] == entries[q_before]);
            lemma_found(entries, q_before);
        }
        if k == entries[n].0@ {
            lemma_found(entries, n);
        }
    }
    assert(contents(after) =~= contents(entries).remove(entries[n].0@));
}

/// There are as many keys as entries.
pub proof fn lemma_size<V>(entries: Seq<(String, V)>)
    requires
        distinct(entries),
    ensures
        contents(entries).dom().finite(),
        contents(entries).dom().len() == entries.len(),
    decreases entries.len(),
{
    if entries.len() == 0 {
        assert(contents(entries).dom() =~= Set::<Seq<char>>::empty());
    } else {
        let rest = entries.drop_last();
        assert forall|i: int, j: int| 0 <= i < j < rest.len() implies (#[trigger] rest[i]).0@ != (
        #[trigger] rest[j]).0@ by {
            assert(entries[i].0@ != entries[j].0@);
        }
        lemma_size(rest);
        lemma_holds(rest, entries.last().0@);
        if contents(rest).dom().contains(entries.last().0@) {
            let n = choose|n: int|
                0 <= n < rest.len() && (#[trigger] rest[n]).0@ == entries.last().0@;
            assert(entries[n].0@ == entries[entries.len() - 1].0@);
        }
        lemma_push(rest, entries.last());
        assert(rest.push(entries.last()) =~= entries);
    }
}

impl<V> Table<V> {
    pub open spec fn wf(self) -> bool {
        distinct(self.entries@)
    }

    pub fn new() -> (out: Table<V>)
        ensures
            out.wf(),
            out@ == Map::<Seq<char>, V>::empty(),
            out.entries@.len() == 0,
    {
        let out = Table { entries: Vec::new() };
        assert(out@ =~= Map::<Seq<char>, V>::empty());
        out
    }

    /// Where the entry with this key stands.
    pub fn find(&self, key: &str) -> (out: Option<usize>)
        ensures
            match out {
                Some(n) => n == position(self.entries@, key@, 0) && n < self.entries@.len()
                    && self@.dom().contains(key@) && self.entries@[n as int].0@ == key@
                    && self@[key@] == self.entries@[n as int].1,
                None => !self@.dom().contains(key@) && position(self.entries@, key@, 0)
                    == self.entries@.len(),
            },
    {
        let mut i: usize = 0;
        while i < self.entries.len()
            invariant
                i <= self.entries.len(),
                position(self.entries@, key@, 0) == position(self.entries@, key@, i as int),
            decreases self.entries.len() - i,
        {
            if text_eq(self.entries[i].0.as_str(), key) {
                return Some(i);
            }
            i = i + 1;
        }
        None
    }

    pub fn get(&self, key: &str) -> (out: Option<&V>)
        ensures
            match out {
                Some(v) => self@.dom().contains(key@) && self@[key@] == *v,
                None => !self@.dom().contains(key@),
            },
    {
        match self.find(key) {
            Some(n) => Some(&self.entries[n].1),
            None => None,
        }
    }

    /// Enter a value under a key, in place of the one that stood there.
    pub fn put(&mut self, key: String, value: V)
        requires
            old(self).wf(),
        ensures
            final(self).wf(),
            final(self)@ == old(self)@.insert(key@, value),
    {
        let ghost before = self.entries@;
        match self.find(key.as_str()) {
            Some(n) => {
                proof {
                    lemma_update(before, n as int, value);
                }
                self.entries[n].1 = value;
                assert(self.entries@ =~= before.update(n as int, (before[n as int].0, value)));
            },
            None => {
                proof {
                    lemma_push(before, (key, value));
                }
                self.entries.push((key, value));
            },
        }
    }

    pub fn remove(&mut self, key: &str)
        requires
            old(self).wf(),
        ensures
            final(self).wf(),
            final(self)@ == old(self)@.remove(key@),
    {
        let ghost before = self.entries@;
        match self.find(key) {
            Some(n) => {
                proof {
                    lemma_remove(before, n as int);
                }
                let _ = self.entries.remove(n);
            },
            None => {
                assert(self@ =~= self@.remove(key@));
            },
        }
    }
}

} // verus!
