//! Short-lived store of unspent outputs: (network, transaction id, output
//! index) to (owning address, value). An entry is written when a transaction's
//! outputs are indexed and consumed, at most once, when a later input spends it.

use vstd::prelude::*;
use crate::attribution::Holding;

verus! {

/// Names one output of one transaction on one network.
pub struct UtxoKey {
    pub network_id: u64,
    pub txid: String,
    pub vout: u32,
}

/// The mathematical content of a key.
pub type KeyView = (u64, Seq<char>, u32);

/// The mathematical content of a cached value: owning address and value.
pub type ValueView = (Seq<char>, u64);

pub open spec fn key_view(k: UtxoKey) -> KeyView {
    (k.network_id, k.txid@, k.vout)
}

pub open spec fn value_view(v: Holding) -> ValueView {
    (v.0@, v.1)
}

pub open spec fn entry_key(e: (UtxoKey, Holding)) -> KeyView {
    key_view(e.0)
}

/// The map that a list of entries denotes.
pub open spec fn entries_map(s: Seq<(UtxoKey, Holding)>) -> Map<KeyView, ValueView>
    decreases s.len(),
{
    if s.len() == 0 {
        Map::empty()
    } else {
        entries_map(s.drop_last()).insert(entry_key(s.last()), value_view(s.last().1))
    }
}

pub open spec fn keys_unique(s: Seq<(UtxoKey, Holding)>) -> bool {
    forall|i: int, j: int|
        0 <= i < s.len() && 0 <= j < s.len() && i != j ==> entry_key(#[trigger] s[i]) != entry_key(
            #[trigger] s[j],
        )
}

proof fn lemma_entries_dom(s: Seq<(UtxoKey, Holding)>, k: KeyView)
    ensures
        entries_map(s).dom().contains(k) <==> exists|i: int| 0 <= i < s.len() && entry_key(s[i]) == k,
    decreases s.len(),
{
    if s.len() > 0 {
        let p = s.drop_last();
        lemma_entries_dom(p, k);
        if exists|i: int| 0 <= i < p.len() && entry_key(p[i]) == k {
            let i = choose|i: int| 0 <= i < p.len() && entry_key(p[i]) == k;
            assert(entry_key(s[i]) == k);
        }
        if exists|i: int| 0 <= i < s.len() && entry_key(s[i]) == k {
            let i = choose|i: int| 0 <= i < s.len() && entry_key(s[i]) == k;
            if i < s.len() - 1 {
                assert(entry_key(p[i]) == k);
            }
        }
    }
}

proof fn lemma_entries_value(s: Seq<(UtxoKey, Holding)>, i: int)
    requires
        keys_unique(s),
        0 <= i < s.len(),
    ensures
        entries_map(s).dom().contains(entry_key(s[i])),
        entries_map(s)[entry_key(s[i])] == value_view(s[i].1),
    decreases s.len(),
{
    let p = s.drop_last();
    if i < s.len() - 1 {
        assert(p[i] == s[i]);
        assert(keys_unique(p)) by {
            assert forall|a: int, b: int| 0 <= a < p.len() && 0 <= b < p.len() && a != b implies entry_key(
                #[trigger] p[a],
            ) != entry_key(#[trigger] p[b]) by {
                assert(p[a] == s[a] && p[b] == s[b]);
            }
        }
        lemma_entries_value(p, i);
        assert(entry_key(s[i]) != entry_key(s[s.len() - 1]));
    }
}

proof fn lemma_entries_remove(s: Seq<(UtxoKey, Holding)>, i: int)
    requires
        keys_unique(s),
        0 <= i < s.len(),
    ensures
        entries_map(s.remove(i)) =~= entries_map(s).remove(entry_key(s[i])),
        keys_unique(s.remove(i)),
    decreases s.len(),
{
    let p = s.drop_last();
    let k = entry_key(s[i]);
    assert(keys_unique(p)) by {
        assert forall|a: int, b: int| 0 <= a < p.len() && 0 <= b < p.len() && a != b implies entry_key(
            #[trigger] p[a],
        ) != entry_key(#[trigger] p[b]) by {
            assert(p[a] == s[a] && p[b] == s[b]);
        }
    }
    assert(keys_unique(s.remove(i))) by {
        let r = s.remove(i);
        assert forall|a: int, b: int| 0 <= a < r.len() && 0 <= b < r.len() && a != b implies entry_key(
            #[trigger] r[a],
        ) != entry_key(#[trigger] r[b]) by {
            let a2 = if a < i { a } else { a + 1 };
            let b2 = if b < i { b } else { b + 1 };
            assert(r[a] == s[a2] && r[b] == s[b2]);
        }
    }
    if i == s.len() - 1 {
        assert(s.remove(i) =~= p);
        lemma_entries_dom(p, k);
        if entries_map(p).dom().contains(k) {
            let j = choose|j: int| 0 <= j < p.len() && entry_key(p[j]) == k;
            assert(s[j] == p[j]);
        }
    } else {
        let last = s.last();
        assert(s.remove(i) =~= p.remove(i).push(last));
        assert(p[i] == s[i]);
        lemma_entries_remove(p, i);
        assert(entry_key(last) != k) by {
            assert(last == s[s.len() - 1]);
        }
        assert(s.remove(i).drop_last() =~= p.remove(i));
    }
}

/// An in-memory store of unspent outputs, at most one entry per key.
pub struct UtxoCache {
    entries: Vec<(UtxoKey, Holding)>,
}

impl View for UtxoCache {
    type V = Map<KeyView, ValueView>;

    closed spec fn view(&self) -> Map<KeyView, ValueView> {
        entries_map(self.entries@)
    }
}

impl UtxoCache {
    /// The store holds at most one entry per key.
    pub closed spec fn wf(&self) -> bool {
        keys_unique(self.entries@)
    }

    /// An empty store.
    pub fn new() -> (r: UtxoCache)
        ensures
            r.wf(),
            r@ == Map::<KeyView, ValueView>::empty(),
    {
        UtxoCache { entries: Vec::new() }
    }

    fn find(&self, key: &UtxoKey) -> (r: Option<usize>)
        requires
            self.wf(),
        ensures
            match r {
                Some(i) => i < self.entries@.len() && entry_key(self.entries@[i as int]) == key_view(*key),
                None => !self@.dom().contains(key_view(*key)),
            },
    {
        let mut j: usize = 0;
        while j < self.entries.len()
            invariant
                j <= self.entries@.len(),
                forall|k: int| 0 <= k < j ==> entry_key(#[trigger] self.entries@[k]) != key_view(*key),
            decreases self.entries@.len() - j,
        {
            let e = &self.entries[j].0;
            if e.network_id == key.network_id && e.vout == key.vout && e.txid == key.txid {
                return Some(j);
            }
            j = j + 1;
        }
        proof {
            lemma_entries_dom(self.entries@, key_view(*key));
        }
        None
    }

    /// Whether the store holds an entry under `key`.
    pub fn contains(&self, key: &UtxoKey) -> (r: bool)
        requires
            self.wf(),
        ensures
            r == self@.dom().contains(key_view(*key)),
    {
        match self.find(key) {
            Some(i) => {
                proof {
                    lemma_entries_value(self.entries@, i as int);
                }
                true
            },
            None => false,
        }
    }

    /// Reads and deletes the entry under `key`, if there is one.
    pub fn take(&mut self, key: &UtxoKey) -> (r: Option<Holding>)
        requires
            old(self).wf(),
        ensures
            final(self).wf(),
            final(self)@ == old(self)@.remove(key_view(*key)),
            match r {
                Some(v) => old(self)@.dom().contains(key_view(*key)) && old(self)@[key_view(*key)]
                    == value_view(v),
                None => !old(self)@.dom().contains(key_view(*key)),
            },
    {
        match self.find(key) {
            Some(i) => {
                proof {
                    lemma_entries_value(self.entries@, i as int);
                    lemma_entries_remove(self.entries@, i as int);
                }
                let (_, v) = self.entries.remove(i);
                Some(v)
            },
            None => {
                assert(self@.remove(key_view(*key)) =~= self@);
                None
            },
        }
    }

    /// Stores `value` under `key`, replacing what was there.
    pub fn put(&mut self, key: UtxoKey, value: Holding)
        requires
            old(self).wf(),
        ensures
            final(self).wf(),
            final(self)@ == old(self)@.insert(key_view(key), value_view(value)),
    {
        let _ = self.take(&key);
        let ghost before = self.entries@;
        proof {
            lemma_entries_dom(before, key_view(key));
        }
        self.entries.push((key, value));
        assert(self.entries@.drop_last() =~= before);
        assert(keys_unique(self.entries@)) by {
            let s = self.entries@;
            assert forall|a: int, b: int| 0 <= a < s.len() && 0 <= b < s.len() && a != b implies entry_key(
                #[trigger] s[a],
            ) != entry_key(#[trigger] s[b]) by {
                if a < s.len() - 1 {
                    assert(s[a] == before[a]);
                }
                if b < s.len() - 1 {
                    assert(s[b] == before[b]);
                }
            }
        }
        assert(self@ =~= old(self)@.remove(key_view(key)).insert(key_view(key), value_view(value)));
        assert(self@ =~= old(self)@.insert(key_view(key), value_view(value)));
    }
}

/// Putting a value and then taking it under the same key hands the value back
/// once; a second take under that key finds nothing.
pub proof fn law_put_take_once(m: Map<KeyView, ValueView>, k: KeyView, v: ValueView)
    ensures
        m.insert(k, v).dom().contains(k),
        m.insert(k, v)[k] == v,
        !m.insert(k, v).remove(k).dom().contains(k),
{
}

} // verus!
