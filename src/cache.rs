//! A least-recently-used cache keyed by strings, such as encrypted access
//! tokens. Entries are kept from most to least recently used; a full cache
//! drops its least recently used entry to make room.
use vstd::prelude::*;

verus! {

pub open spec fn keys_unique<V>(s: Seq<(Seq<char>, V)>) -> bool {
    forall|i: int, j: int| 0 <= i < j < s.len() ==> s[i].0 != s[j].0
}

/// Where key `k` stands in `s`, if anywhere.
pub open spec fn find<V>(s: Seq<(Seq<char>, V)>, k: Seq<char>) -> Option<int> {
    if exists|i: int| 0 <= i < s.len() && s[i].0 == k {
        Some(choose|i: int| 0 <= i < s.len() && s[i].0 == k)
    } else {
        None
    }
}

#[derive(Debug)]
pub struct LruCache<V> {
    capacity: usize,
    entries: Vec<(String, V)>,
}

impl<V> LruCache<V> {
    /// The entries, most recently used first.
    pub closed spec fn items(&self) -> Seq<(Seq<char>, V)> {
        self.entries@.map_values(|e: (String, V)| (e.0@, e.1))
    }

    pub closed spec fn cap(&self) -> nat {
        self.capacity as nat
    }

    pub open spec fn wf(&self) -> bool {
        &&& keys_unique(self.items())
        &&& self.items().len() <= self.cap()
        &&& self.cap() > 0
    }

    pub fn new(capacity: usize) -> (r: Self)
        requires
            capacity > 0,
        ensures
            r.wf(),
            r.items() == Seq::<(Seq<char>, V)>::empty(),
            r.cap() == capacity,
    {
        let r = LruCache { capacity, entries: Vec::new() };
        assert(r.items() =~= Seq::<(Seq<char>, V)>::empty());
        r
    }

    pub fn len(&self) -> (r: usize)
        ensures
            r == self.items().len(),
    {
        self.entries.len()
    }

    fn position(&self, key: &String) -> (r: Option<usize>)
        requires
            keys_unique(self.items()),
        ensures
            r matches Some(i) ==> find(self.items(), key@) == Some(i as int),
            r is None ==> find(self.items(), key@) is None,
    {
        let mut i: usize = 0;
        while i < self.entries.len()
            invariant
                i <= self.entries@.len(),
                keys_unique(self.items()),
                forall|j: int| 0 <= j < i ==> self.items()[j].0 != key@,
            decreases self.entries@.len() - i,
        {
            if self.entries[i].0.eq(key) {
                proof {
                    let s = self.items();
                    assert(s[i as int].0 == key@);
                    let c = choose|c: int| 0 <= c < s.len() && s[c].0 == key@;
                    if c < i {
                        assert(s[c].0 != s[i as int].0);
                    } else if c > i {
                        assert(keys_unique(s));
                        assert(0 <= i < c < s.len());
                        assert(s[i as int].0 != s[c].0);
                    }
                }
                return Some(i);
            }
            i = i + 1;
        }
        None
    }

    /// The value under `key`, which becomes the most recently used entry.
    pub fn get(&mut self, key: &str) -> (r: Option<&V>)
        requires
            old(self).wf(),
        ensures
            final(self).wf(),
            final(self).cap() == old(self).cap(),
            match find(old(self).items(), key@) {
                Some(i) => r == Some(&old(self).items()[i].1) && final(self).items() == seq![
                    old(self).items()[i],
                ] + old(self).items().remove(i),
                None => r is None && final(self).items() == old(self).items(),
            },
    {
        let k = key.to_owned();
        match self.position(&k) {
            None => None,
            Some(i) => {
                let ghost s = self.items();
                let e = self.entries.remove(i);
                self.entries.insert(0, e);
                assert(self.items() =~= seq![s[i as int]] + s.remove(i as int));
                assert(keys_unique(self.items())) by {
                    assert forall|a: int, b: int| 0 <= a < b < self.items().len() implies self.items()[a].0
                        != self.items()[b].0 by {
                        if a == 0 {
                            let rb = if b - 1 < i { b - 1 } else { b };
                            assert(self.items()[b] == s[rb]);
                        } else {
                            let ra = if a - 1 < i { a - 1 } else { a };
                            let rb = if b - 1 < i { b - 1 } else { b };
                            assert(self.items()[a] == s[ra]);
                            assert(self.items()[b] == s[rb]);
                        }
                    }
                }
                Some(&self.entries[0].1)
            },
        }
    }

    /// Stores `value` under `key` as the most recently used entry. A new key
    /// in a full cache first drops the least recently used entry.
    pub fn put(&mut self, key: String, value: V)
        requires
            old(self).wf(),
        ensures
            final(self).wf(),
            final(self).cap() == old(self).cap(),
            final(self).items() == seq![(key@, value)] + match find(old(self).items(), key@) {
                Some(i) => old(self).items().remove(i),
                None => if old(self).items().len() == old(self).cap() {
                    old(self).items().drop_last()
                } else {
                    old(self).items()
                },
            },
    {
        let ghost s = self.items();
        let ghost rest: Seq<(Seq<char>, V)>;
        match self.position(&key) {
            Some(i) => {
                self.entries.remove(i);
                proof {
                    rest = s.remove(i as int);
                }
            },
            None => {
                if self.entries.len() == self.capacity {
                    self.entries.pop();
                    proof {
                        rest = s.drop_last();
                    }
                } else {
                    proof {
                        rest = s;
                    }
                }
            },
        }
        assert(self.items() =~= rest);
        self.entries.insert(0, (key, value));
        assert(self.items() =~= seq![(key@, value)] + rest);
        assert(keys_unique(self.items())) by {
            assert forall|a: int, b: int| 0 <= a < b < self.items().len() implies self.items()[a].0
                != self.items()[b].0 by {
                assert(self.items()[b] == rest[b - 1]);
                if a > 0 {
                    assert(self.items()[a] == rest[a - 1]);
                    if find(s, key@) is Some {
                        let i = find(s, key@)->Some_0;
                        let ra = if a - 1 < i { a - 1 } else { a };
                        let rb = if b - 1 < i { b - 1 } else { b };
                        assert(rest[a - 1] == s[ra]);
                        assert(rest[b - 1] == s[rb]);
                    } else {
                        assert(rest[a - 1] == s[a - 1]);
                        assert(rest[b - 1] == s[b - 1]);
                    }
                } else {
                    if find(s, key@) is Some {
                        let i = find(s, key@)->Some_0;
                        let rb = if b - 1 < i { b - 1 } else { b };
                        assert(rest[b - 1] == s[rb]);
                    } else {
                        assert(rest[b - 1] == s[b - 1]);
                    }
                }
            }
        }
    }
}

} // verus!
