//! A table from names to values: what was put in last under a name is what is found.

use vstd::prelude::*;
use vstd::string::*;

use crate::text::same_text;

verus! {

#[derive(Debug)]
pub struct Entry<T> {
    pub name: String,
    pub value: T,
}

/// A table from names to values.
#[derive(Debug)]
pub struct Table<T> {
    pub entries: Vec<Entry<T>>,
}

/// What the first `n` entries hold: under each name, the last value that came.
pub open spec fn entries_map<T>(es: Seq<Entry<T>>, n: nat) -> Map<Seq<char>, T>
    decreases n,
{
    if n == 0 || n > es.len() {
        Map::empty()
    } else {
        entries_map(es, (n - 1) as nat).insert(es[n - 1].name@, es[n - 1].value)
    }
}

proof fn lemma_found<T>(es: Seq<Entry<T>>, n: nat, i: int)
    requires
        0 <= i < n <= es.len(),
        forall|j: int| i < j < n ==> es[j].name@ != es[i].name@,
    ensures
        entries_map(es, n).dom().contains(es[i].name@),
        entries_map(es, n)[es[i].name@] == es[i].value,
    decreases n,
{
    if i < n - 1 {
        lemma_found(es, (n - 1) as nat, i);
    }
}

proof fn lemma_missing<T>(es: Seq<Entry<T>>, n: nat, key: Seq<char>)
    requires
        n <= es.len(),
        forall|i: int| 0 <= i < n ==> es[i].name@ != key,
    ensures
        !entries_map(es, n).dom().contains(key),
    decreases n,
{
    if n > 0 {
        lemma_missing(es, (n - 1) as nat, key);
    }
}

proof fn lemma_same_entries<T>(es: Seq<Entry<T>>, fs: Seq<Entry<T>>, n: nat)
    requires
        n <= es.len(),
        n <= fs.len(),
        forall|i: int| 0 <= i < n ==> es[i] == fs[i],
    ensures
        entries_map(es, n) == entries_map(fs, n),
    decreases n,
{
    if n > 0 {
        lemma_same_entries(es, fs, (n - 1) as nat);
    }
}

proof fn lemma_update<T>(es: Seq<Entry<T>>, n: nat, i: int, e: Entry<T>)
    requires
        0 <= i < n <= es.len(),
        forall|j: int| i < j < n ==> es[j].name@ != es[i].name@,
        e.name@ == es[i].name@,
    ensures
        entries_map(es.update(i, e), n) =~= entries_map(es, n).insert(e.name@, e.value),
    decreases n,
{
    if i == n - 1 {
        lemma_same_entries(es, es.update(i, e), (n - 1) as nat);
    } else {
        lemma_update(es, (n - 1) as nat, i, e);
    }
}

proof fn lemma_present<T>(es: Seq<Entry<T>>, n: nat, i: int)
    requires
        0 <= i < n <= es.len(),
    ensures
        entries_map(es, n).dom().contains(es[i].name@),
    decreases n,
{
    if i < n - 1 {
        lemma_present(es, (n - 1) as nat, i);
    }
}

impl<T> Table<T> {
    /// What the table holds.
    pub open spec fn map(&self) -> Map<Seq<char>, T> {
        entries_map(self.entries@, self.entries.len() as nat)
    }

    pub fn new() -> (r: Table<T>)
        ensures
            r.map() == Map::<Seq<char>, T>::empty(),
    {
        Table { entries: Vec::new() }
    }

    /// Where a name last stands.
    fn find(&self, name: &str) -> (r: Option<usize>)
        ensures
            match r {
                Some(i) => {
                    &&& i < self.entries.len()
                    &&& self.entries@[i as int].name@ == name@
                    &&& forall|j: int| i < j < self.entries.len() ==> self.entries@[j].name@ != name@
                },
                None => forall|j: int| 0 <= j < self.entries.len() ==> self.entries@[j].name@ != name@,
            },
    {
        let mut i: usize = self.entries.len();
        while i > 0
            invariant
                i <= self.entries.len(),
                forall|j: int| i <= j < self.entries.len() ==> self.entries@[j].name@ != name@,
            decreases i,
        {
            i = i - 1;
            if same_text(self.entries[i].name.as_str(), name) {
                return Some(i);
            }
        }
        None
    }

    pub fn get(&self, name: &str) -> (r: Option<&T>)
        ensures
            match r {
                Some(v) => self.map().dom().contains(name@) && self.map()[name@] == *v,
                None => !self.map().dom().contains(name@),
            },
    {
        match self.find(name) {
            Some(i) => {
                proof {
                    lemma_found(self.entries@, self.entries.len() as nat, i as int);
                }
                Some(&self.entries[i].value)
            },
            None => {
                proof {
                    lemma_missing(self.entries@, self.entries.len() as nat, name@);
                }
                None
            },
        }
    }

    /// Put a value under a name, in place of what was there.
    pub fn insert(&mut self, name: &str, value: T)
        ensures
            final(self).map() == old(self).map().insert(name@, value),
    {
        let at: Option<usize> = self.find(name);
        let e: Entry<T> = Entry { name: name.to_owned(), value };
        match at {
            Some(i) => {
                proof {
                    lemma_update(self.entries@, self.entries.len() as nat, i as int, e);
                }
                self.entries.set(i, e);
            },
            None => {
                proof {
                    lemma_same_entries(self.entries@, self.entries@.push(e), self.entries.len() as nat);
                }
                self.entries.push(e);
            },
        }
    }

    /// Every entry's name is in the table.
    pub proof fn lemma_has(&self, i: int)
        requires
            0 <= i < self.entries.len(),
        ensures
            self.map().dom().contains(self.entries@[i].name@),
    {
        lemma_present(self.entries@, self.entries.len() as nat, i);
    }

    /// Every name in the table is that of an entry.
    pub proof fn lemma_named(&self, name: Seq<char>)
        requires
            self.map().dom().contains(name),
        ensures
            exists|i: int| 0 <= i < self.entries.len() && #[trigger] self.entries@[i].name@ == name,
    {
        if forall|i: int| 0 <= i < self.entries.len() ==> #[trigger] self.entries@[i].name@ != name {
            lemma_missing(self.entries@, self.entries.len() as nat, name);
        }
    }

    /// Take a name out of the table.
    pub fn remove(&mut self, name: &str)
        ensures
            final(self).map() == old(self).map().remove(name@),
    {
        let mut kept: Vec<Entry<T>> = Vec::new();
        let ghost all = self.entries@;
        let mut rest: Vec<Entry<T>> = Vec::new();
        core::mem::swap(&mut rest, &mut self.entries);
        // Taken from the back, then put back in order.
        let mut back: Vec<Entry<T>> = Vec::new();
        while rest.len() > 0
            invariant
                rest@ == all.take(rest@.len() as int),
                rest@.len() + back@.len() == all.len(),
                forall|j: int| 0 <= j < back@.len() ==> back@[j] == all[all.len() - 1 - j],
            decreases rest.len(),
        {
            if let Some(e) = rest.pop() {
                back.push(e);
            }
            assert(rest@ =~= all.take(rest@.len() as int));
        }
        while back.len() > 0
            invariant
                back@.len() <= all.len(),
                forall|j: int| 0 <= j < back@.len() ==> back@[j] == all[all.len() - 1 - j],
                entries_map(kept@, kept@.len()) == entries_map(all, (all.len() - back@.len()) as nat).remove(name@),
            decreases back.len(),
        {
            let ghost n = (all.len() - back@.len()) as nat;
            if let Some(e) = back.pop() {
                assert(e == all[n as int]);
                if !same_text(e.name.as_str(), name) {
                    proof {
                        lemma_same_entries(kept@, kept@.push(e), kept@.len());
                    }
                    let ghost before = kept@;
                    kept.push(e);
                    assert(entries_map(kept@, kept@.len()) =~= entries_map(all, n + 1).remove(name@));
                } else {
                    assert(entries_map(kept@, kept@.len()) =~= entries_map(all, n + 1).remove(name@));
                }
            }
        }
        self.entries = kept;
    }
}

} // verus!
