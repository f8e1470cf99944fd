use vstd::prelude::*;

verus! {

/// The abstract content of a list of entries: later entries win on equal keys.
pub open spec fn entries_map(s: Seq<(Seq<char>, Seq<char>)>) -> Map<Seq<char>, Seq<char>>
    decreases s.len(),
{
    if s.len() == 0 {
        Map::empty()
    } else {
        entries_map(s.drop_last()).insert(s.last().0, s.last().1)
    }
}

pub open spec fn keys_unique(s: Seq<(Seq<char>, Seq<char>)>) -> bool {
    forall|i: int, j: int| 0 <= i < s.len() && 0 <= j < s.len() && i != j ==> s[i].0 != s[j].0
}

proof fn lemma_entries_map_index(s: Seq<(Seq<char>, Seq<char>)>, i: int)
    requires
        keys_unique(s),
        0 <= i < s.len(),
    ensures
        entries_map(s).contains_key(s[i].0),
        entries_map(s)[s[i].0] == s[i].1,
    decreases s.len(),
{
    if i < s.len() - 1 {
        lemma_entries_map_index(s.drop_last(), i);
    }
}

proof fn lemma_entries_map_domain(s: Seq<(Seq<char>, Seq<char>)>, k: Seq<char>)
    ensures
        entries_map(s).contains_key(k) <==> exists|i: int| 0 <= i < s.len() && s[i].0 == k,
    decreases s.len(),
{
    if s.len() > 0 {
        lemma_entries_map_domain(s.drop_last(), k);
        if entries_map(s.drop_last()).contains_key(k) {
            let i = choose|i: int| 0 <= i < s.drop_last().len() && s.drop_last()[i].0 == k;
            assert(s[i].0 == k);
        }
        if exists|i: int| 0 <= i < s.len() && s[i].0 == k {
            let i = choose|i: int| 0 <= i < s.len() && s[i].0 == k;
            if i < s.len() - 1 {
                assert(s.drop_last()[i].0 == k);
            }
        }
    }
}

proof fn lemma_entries_map_update(s: Seq<(Seq<char>, Seq<char>)>, i: int, v: Seq<char>)
    requires
        keys_unique(s),
        0 <= i < s.len(),
    ensures
        keys_unique(s.update(i, (s[i].0, v))),
        entries_map(s.update(i, (s[i].0, v))) == entries_map(s).insert(s[i].0, v),
{
    let t = s.update(i, (s[i].0, v));
    let m = entries_map(s).insert(s[i].0, v);
    assert(keys_unique(t));
    assert forall|k: Seq<char>| #[trigger] entries_map(t).contains_key(k) <==> m.contains_key(k) by {
        lemma_entries_map_domain(s, k);
        lemma_entries_map_domain(t, k);
        if exists|j: int| 0 <= j < s.len() && s[j].0 == k {
            let j = choose|j: int| 0 <= j < s.len() && s[j].0 == k;
            assert(t[j].0 == k);
        }
        if exists|j: int| 0 <= j < t.len() && t[j].0 == k {
            let j = choose|j: int| 0 <= j < t.len() && t[j].0 == k;
            assert(s[j].0 == k);
        }
    }
    assert forall|k: Seq<char>| #[trigger] entries_map(t).contains_key(k) implies entries_map(t)[k]
        == m[k] by {
        lemma_entries_map_domain(t, k);
        let j = choose|j: int| 0 <= j < t.len() && t[j].0 == k;
        lemma_entries_map_index(t, j);
        if j != i {
            lemma_entries_map_index(s, j);
        }
    }
    assert(entries_map(t) =~= m);
}

proof fn lemma_entries_map_push(s: Seq<(Seq<char>, Seq<char>)>, k: Seq<char>, v: Seq<char>)
    requires
        keys_unique(s),
        forall|j: int| 0 <= j < s.len() ==> s[j].0 != k,
    ensures
        keys_unique(s.push((k, v))),
        entries_map(s.push((k, v))) == entries_map(s).insert(k, v),
{
    assert(s.push((k, v)).drop_last() == s);
}

/// A variable document: named values, each key at most once.
///
/// Values are kept as raw text; merging two documents replaces values key by key.
#[derive(Debug)]
pub struct Variables {
    entries: Vec<(String, String)>,
}

impl View for Variables {
    type V = Map<Seq<char>, Seq<char>>;

    open spec fn view(&self) -> Map<Seq<char>, Seq<char>> {
        entries_map(self.entries_view())
    }
}

impl Variables {
    pub closed spec fn entries_view(&self) -> Seq<(Seq<char>, Seq<char>)> {
        self.entries@.map_values(|e: (String, String)| (e.0@, e.1@))
    }

    pub closed spec fn wf(&self) -> bool {
        keys_unique(self.entries_view())
    }

    /// An empty document.
    pub fn new() -> (r: Variables)
        ensures
            r.wf(),
            r@ == Map::<Seq<char>, Seq<char>>::empty(),
    {
        let r = Variables { entries: Vec::new() };
        assert(r.entries_view() =~= Seq::empty());
        r
    }

    /// Number of keys in the document.
    pub fn len(&self) -> (r: usize)
        requires
            self.wf(),
        ensures
            r == self@.dom().len(),
    {
        proof {
            self.lemma_dom_len();
        }
        self.entries.len()
    }

    proof fn lemma_dom_len(&self)
        requires
            self.wf(),
        ensures
            self@.dom().len() == self.entries@.len(),
            self@.dom().finite(),
    {
        let s = self.entries_view();
        let ks = s.map_values(|e: (Seq<char>, Seq<char>)| e.0);
        assert forall|k: Seq<char>| self@.dom().contains(k) <==> ks.contains(k) by {
            lemma_entries_map_domain(s, k);
            if ks.contains(k) {
                let j = choose|j: int| 0 <= j < ks.len() && ks[j] == k;
                assert(s[j].0 == k);
            }
            if self@.dom().contains(k) {
                let j = choose|j: int| 0 <= j < s.len() && s[j].0 == k;
                assert(ks[j] == k);
            }
        }
        assert(self@.dom() =~= ks.to_set());
        assert(ks.no_duplicates());
        ks.unique_seq_to_set();
    }

    fn find(&self, key: &String) -> (r: Option<usize>)
        requires
            self.wf(),
        ensures
            match r {
                Some(i) => i < self.entries@.len() && self.entries@[i as int].0@ == key@,
                None => forall|j: int|
                    0 <= j < self.entries@.len() ==> self.entries@[j].0@ != key@,
            },
    {
        let mut i: usize = 0;
        while i < self.entries.len()
            invariant
                i <= self.entries@.len(),
                forall|j: int| 0 <= j < i ==> self.entries@[j].0@ != key@,
            decreases self.entries@.len() - i,
        {
            if self.entries[i].0.eq(key) {
                return Some(i);
            }
            i = i + 1;
        }
        None
    }

    /// The value stored under `key`, if any.
    pub fn get(&self, key: &String) -> (r: Option<String>)
        requires
            self.wf(),
        ensures
            match r {
                Some(v) => self@.contains_key(key@) && self@[key@] == v@,
                None => !self@.contains_key(key@),
            },
    {
        proof {
            lemma_entries_map_domain(self.entries_view(), key@);
        }
        match self.find(key) {
            Some(i) => {
                proof {
                    lemma_entries_map_index(self.entries_view(), i as int);
                }
                Some(self.entries[i].1.clone())
            },
            None => {
                proof {
                    if self@.contains_key(key@) {
                        let j = choose|j: int|
                            0 <= j < self.entries_view().len() && self.entries_view()[j].0 == key@;
                        assert(self.entries@[j].0@ == key@);
                    }
                }
                None
            },
        }
    }

    /// Stores `value` under `key`, replacing an earlier value.
    pub fn set(&mut self, key: String, value: String)
        requires
            old(self).wf(),
        ensures
            final(self).wf(),
            final(self)@ == old(self)@.insert(key@, value@),
    {
        let ghost s = self.entries_view();
        match self.find(&key) {
            Some(i) => {
                proof {
                    lemma_entries_map_update(s, i as int, value@);
                }
                let k = self.entries[i].0.clone();
                self.entries.set(i, (k, value));
                assert(self.entries_view() =~= s.update(i as int, (s[i as int].0, value@)));
            },
            None => {
                proof {
                    lemma_entries_map_push(s, key@, value@);
                }
                self.entries.push((key, value));
                assert(self.entries_view() =~= s.push((key@, value@)));
            },
        }
    }

    /// Merges `other` into this document: its values win on equal keys.
    pub fn merge_from(&mut self, other: &Variables)
        requires
            old(self).wf(),
            other.wf(),
        ensures
            final(self).wf(),
            final(self)@ == old(self)@.union_prefer_right(other@),
    {
        let ghost start = self@;
        let ghost o = other.entries_view();
        let mut i: usize = 0;
        assert(o.subrange(0, 0) =~= Seq::empty());
        assert(start.union_prefer_right(Map::empty()) =~= start);
        while i < other.entries.len()
            invariant
                self.wf(),
                i <= other.entries@.len(),
                o == other.entries_view(),
                self@ == start.union_prefer_right(entries_map(o.subrange(0, i as int))),
            decreases other.entries@.len() - i,
        {
            let k = other.entries[i].0.clone();
            let v = other.entries[i].1.clone();
            let ghost before = entries_map(o.subrange(0, i as int));
            self.set(k, v);
            proof {
                assert(o.subrange(0, i + 1).drop_last() =~= o.subrange(0, i as int));
                assert(start.union_prefer_right(before.insert(k@, v@)) =~= start.union_prefer_right(
                    before,
                ).insert(k@, v@));
            }
            i = i + 1;
        }
        assert(o.subrange(0, i as int) =~= o);
    }

    /// The entries, each key once, in the order they were first stored.
    pub fn entries(&self) -> (r: Vec<(String, String)>)
        requires
            self.wf(),
        ensures
            r@.map_values(|e: (String, String)| (e.0@, e.1@)) == self.entries_view(),
            entries_map(r@.map_values(|e: (String, String)| (e.0@, e.1@))) == self@,
    {
        let mut r: Vec<(String, String)> = Vec::new();
        let mut i: usize = 0;
        while i < self.entries.len()
            invariant
                i <= self.entries@.len(),
                r@.map_values(|e: (String, String)| (e.0@, e.1@)) == self.entries_view().subrange(
                    0,
                    i as int,
                ),
            decreases self.entries@.len() - i,
        {
            let k = self.entries[i].0.clone();
            let v = self.entries[i].1.clone();
            let ghost prev = r@;
            r.push((k, v));
            assert(r@ == prev.push((k, v)));
            assert(prev.map_values(|e: (String, String)| (e.0@, e.1@)).push((k@, v@)) =~= r@.map_values(
                |e: (String, String)| (e.0@, e.1@),
            ));
            assert(r@.map_values(|e: (String, String)| (e.0@, e.1@)) =~= self.entries_view().subrange(
                0,
                i + 1,
            ));
            i = i + 1;
        }
        assert(self.entries_view().subrange(0, i as int) =~= self.entries_view());
        r
    }
}

} // verus!
