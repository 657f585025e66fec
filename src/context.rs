//! An explicit snapshot of the per-thread context store: key to string.
use vstd::prelude::*;

verus! {

/// Associations from context keys to values, each key at most once.
pub struct Context {
    entries: Vec<(String, String)>,
    map: Ghost<Map<Seq<char>, Seq<char>>>,
}

impl View for Context {
    type V = Map<Seq<char>, Seq<char>>;

    closed spec fn view(&self) -> Map<Seq<char>, Seq<char>> {
        self.map@
    }
}

impl Context {
    pub closed spec fn wf(&self) -> bool {
        &&& forall|i: int|
            0 <= i < self.entries.len() ==> {
                &&& #[trigger] self.map@.contains_key(self.entries@[i].0@)
                &&& self.map@[self.entries@[i].0@] == self.entries@[i].1@
            }
        &&& forall|k: Seq<char>|
            #[trigger] self.map@.contains_key(k) ==> exists|i: int|
                0 <= i < self.entries.len() && #[trigger] self.entries@[i].0@ == k
        &&& forall|i: int, j: int|
            0 <= i < self.entries.len() && 0 <= j < self.entries.len() && i != j
                ==> #[trigger] self.entries@[i].0@ != #[trigger] self.entries@[j].0@
    }

    /// An empty context.
    pub fn new() -> (r: Context)
        ensures
            r.wf(),
            r@ == Map::<Seq<char>, Seq<char>>::empty(),
    {
        Context { entries: Vec::new(), map: Ghost(Map::empty()) }
    }

    fn find(&self, key: &String) -> (r: Option<usize>)
        requires
            self.wf(),
        ensures
            match r {
                Some(i) => i < self.entries.len() && self.entries@[i as int].0@ == key@,
                None => !self@.contains_key(key@),
            },
    {
        let mut i: usize = 0;
        while i < self.entries.len()
            invariant
                self.wf(),
                i <= self.entries.len(),
                forall|j: int| 0 <= j < i ==> self.entries@[j].0@ != key@,
            decreases self.entries.len() - i,
        {
            if self.entries[i].0 == *key {
                return Some(i);
            }
            i = i + 1;
        }
        None
    }

    /// The value of `key`, if it is present.
    pub fn get(&self, key: &String) -> (r: Option<&String>)
        requires
            self.wf(),
        ensures
            match r {
                Some(v) => self@.contains_key(key@) && self@[key@] == v@,
                None => !self@.contains_key(key@),
            },
    {
        match self.find(key) {
            Some(i) => {
                assert(self.map@.contains_key(self.entries@[i as int].0@));
                Some(&self.entries[i].1)
            },
            None => None,
        }
    }

    /// Sets `key` to `value`, replacing any earlier value.
    pub fn insert(&mut self, key: String, value: String)
        requires
            old(self).wf(),
        ensures
            final(self).wf(),
            final(self)@ == old(self)@.insert(key@, value@),
    {
        let ghost k = key@;
        let ghost v = value@;
        let ghost m = self.map@.insert(k, v);
        match self.find(&key) {
            Some(i) => {
                self.entries.set(i, (key, value));
                self.map = Ghost(m);
                let ghost oe = old(self).entries@;
                assert forall|j: int| 0 <= j < self.entries.len() implies {
                    &&& #[trigger] self.map@.contains_key(self.entries@[j].0@)
                    &&& self.map@[self.entries@[j].0@] == self.entries@[j].1@
                } by {
                    if j != i {
                        assert(self.entries@[j] == oe[j]);
                        assert(old(self).map@.contains_key(oe[j].0@));
                        assert(oe[j].0@ != oe[i as int].0@);
                    }
                }
                assert forall|a: int, b: int|
                    0 <= a < self.entries.len() && 0 <= b < self.entries.len() && a != b
                    implies #[trigger] self.entries@[a].0@ != #[trigger] self.entries@[b].0@ by {
                    assert(oe[a].0@ != oe[b].0@);
                }
                assert forall|kk: Seq<char>| #[trigger] self.map@.contains_key(kk) implies exists|j: int|
                    0 <= j < self.entries.len() && #[trigger] self.entries@[j].0@ == kk by {
                    if kk != k {
                        let j = choose|j: int| 0 <= j < old(self).entries.len() && #[trigger] old(self).entries@[j].0@ == kk;
                        assert(self.entries@[j].0@ == kk);
                    } else {
                        assert(self.entries@[i as int].0@ == kk);
                    }
                }
            },
            None => {
                self.entries.push((key, value));
                self.map = Ghost(m);
                let ghost oe = old(self).entries@;
                let ghost n = oe.len() as int;
                assert forall|j: int| 0 <= j < self.entries.len() implies {
                    &&& #[trigger] self.map@.contains_key(self.entries@[j].0@)
                    &&& self.map@[self.entries@[j].0@] == self.entries@[j].1@
                } by {
                    if j != n {
                        assert(self.entries@[j] == oe[j]);
                        assert(old(self).map@.contains_key(oe[j].0@));
                    }
                }
                assert forall|a: int, b: int|
                    0 <= a < self.entries.len() && 0 <= b < self.entries.len() && a != b
                    implies #[trigger] self.entries@[a].0@ != #[trigger] self.entries@[b].0@ by {
                    if a != n && b != n {
                        assert(oe[a].0@ != oe[b].0@);
                    } else if a == n {
                        assert(old(self).map@.contains_key(oe[b].0@));
                    } else {
                        assert(old(self).map@.contains_key(oe[a].0@));
                    }
                }
                assert forall|kk: Seq<char>| #[trigger] self.map@.contains_key(kk) implies exists|j: int|
                    0 <= j < self.entries.len() && #[trigger] self.entries@[j].0@ == kk by {
                    if kk != k {
                        let j = choose|j: int| 0 <= j < old(self).entries.len() && #[trigger] old(self).entries@[j].0@ == kk;
                        assert(self.entries@[j].0@ == kk);
                    } else {
                        assert(self.entries@[self.entries.len() - 1].0@ == kk);
                    }
                }
            },
        }
    }

    /// Removes `key`, if it is present.
    pub fn remove(&mut self, key: &String)
        requires
            old(self).wf(),
        ensures
            final(self).wf(),
            final(self)@ == old(self)@.remove(key@),
    {
        let ghost m = self.map@.remove(key@);
        match self.find(key) {
            Some(i) => {
                self.entries.remove(i);
                self.map = Ghost(m);
                let ghost oe = old(self).entries@;
                assert forall|j: int| 0 <= j < self.entries.len() implies {
                    &&& #[trigger] self.map@.contains_key(self.entries@[j].0@)
                    &&& self.map@[self.entries@[j].0@] == self.entries@[j].1@
                } by {
                    let oj = if j < i { j } else { j + 1 };
                    assert(self.entries@[j] == oe[oj]);
                    assert(old(self).map@.contains_key(oe[oj].0@));
                    assert(oe[oj].0@ != oe[i as int].0@);
                }
                assert forall|a: int, b: int|
                    0 <= a < self.entries.len() && 0 <= b < self.entries.len() && a != b
                    implies #[trigger] self.entries@[a].0@ != #[trigger] self.entries@[b].0@ by {
                    let oa = if a < i { a } else { a + 1 };
                    let ob = if b < i { b } else { b + 1 };
                    assert(self.entries@[a] == oe[oa]);
                    assert(self.entries@[b] == oe[ob]);
                }
                assert forall|kk: Seq<char>| #[trigger] self.map@.contains_key(kk) implies exists|j: int|
                    0 <= j < self.entries.len() && #[trigger] self.entries@[j].0@ == kk by {
                    let j = choose|j: int| 0 <= j < old(self).entries.len() && #[trigger] old(self).entries@[j].0@ == kk;
                    if j < i {
                        assert(self.entries@[j].0@ == kk);
                    } else {
                        assert(self.entries@[j - 1].0@ == kk);
                    }
                }
            },
            None => {
                assert(self.map@ =~= m);
            },
        }
    }
}

} // verus!
