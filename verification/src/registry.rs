use vstd::prelude::*;
use vstd::pervasive::VecAdditionalExecFns;
use crate::types::{
    InstalledEntry, EntryV, name_in, names_distinct, reg_has, reg_idx, reg_at, files_disjoint,
};

verus! {

/// The names of the registry's entries, in registry order.
pub open spec fn reg_names(s: Seq<EntryV>) -> Seq<Seq<char>> {
    s.map_values(|e: EntryV| e.name)
}

/// Every owned destination path belongs to at most one installed package.
pub open spec fn ownership_unique(s: Seq<EntryV>) -> bool {
    forall|i: int, j: int|
        0 <= i < j < s.len() ==> files_disjoint(#[trigger] s[i].files, #[trigger] s[j].files)
}

/// Durable record of the installed packages and the files each one owns.
pub struct Registry {
    entries: Vec<InstalledEntry>,
}

impl View for Registry {
    type V = Seq<EntryV>;

    closed spec fn view(&self) -> Seq<EntryV> {
        self.entries.deep_view()
    }
}

impl Registry {
    /// Entry names are distinct and no two entries claim the same file.
    pub open spec fn wf(&self) -> bool {
        names_distinct(reg_names(self@)) && ownership_unique(self@)
    }

    pub fn new() -> (r: Registry)
        ensures
            r@ == Seq::<EntryV>::empty(),
            r.wf(),
    {
        let r = Registry { entries: Vec::new() };
        proof {
            assert(r@ =~= Seq::<EntryV>::empty());
        }
        r
    }

    /// Index of the entry of this name, if installed.
    fn position(&self, name: &String) -> (r: Option<usize>)
        requires
            self.wf(),
        ensures
            match r {
                Some(i) => i < self@.len() && self@[i as int].name == name@ && i as int == reg_idx(
                    self@,
                    name@,
                ),
                None => !reg_has(self@, name@),
            },
    {
        let mut i: usize = 0;
        while i < self.entries.len()
            invariant
                self.wf(),
                0 <= i <= self.entries.len(),
                forall|j: int| 0 <= j < i ==> self@[j].name != name@,
            decreases self.entries.len() - i,
        {
            if self.entries[i].name == *name {
                proof {
                    assert(self@[i as int].name == name@);
                    assert(reg_has(self@, name@));
                    let k = reg_idx(self@, name@);
                    assert(0 <= k < self@.len() && self@[k].name == name@);
                    assert(reg_names(self@).len() == self@.len());
                    assert(reg_names(self@)[k] == self@[k].name);
                    assert(reg_names(self@)[i as int] == self@[i as int].name);
                    crate::strutil::lemma_distinct_name_index(reg_names(self@), k, i as int);
                    assert(k == i as int);
                }
                return Some(i);
            }
            i = i + 1;
        }
        None
    }

    /// The entry of this name, if installed.
    pub fn get(&self, name: &String) -> (r: Option<&InstalledEntry>)
        requires
            self.wf(),
        ensures
            match r {
                Some(e) => reg_has(self@, name@) && e@ == reg_at(self@, name@),
                None => !reg_has(self@, name@),
            },
    {
        match self.position(name) {
            Some(i) => Some(&self.entries[i]),
            None => None,
        }
    }

    /// Records an entry, replacing any entry of the same name. Requires the
    /// entry's files not to collide with any other installed package's files.
    pub fn put(&mut self, e: InstalledEntry) -> (r: ())
        requires
            old(self).wf(),
            forall|j: int|
                0 <= j < old(self)@.len() && old(self)@[j].name != e@.name ==> files_disjoint(
                    e@.files,
                    #[trigger] old(self)@[j].files,
                ),
        ensures
            final(self).wf(),
            reg_has(old(self)@, e@.name) ==> final(self)@ == old(self)@.update(
                reg_idx(old(self)@, e@.name),
                e@,
            ),
            !reg_has(old(self)@, e@.name) ==> final(self)@ == old(self)@.push(e@),
            reg_has(final(self)@, e@.name) && reg_at(final(self)@, e@.name) == e@,
    {
        let ghost pre = self@;
        match self.position(&e.name) {
            Some(i) => {
                self.entries.set(i, e);
                proof {
                    assert(self@ =~= pre.update(i as int, e@));
                    self.lemma_after_write(pre, i as int, e@);
                }
            },
            None => {
                self.entries.push(e);
                proof {
                    assert(self@ =~= pre.push(e@));
                    self.lemma_after_write(pre, pre.len() as int, e@);
                }
            },
        }
    }

    proof fn lemma_after_write(&self, pre: Seq<EntryV>, k: int, e: EntryV)
        requires
            names_distinct(reg_names(pre)),
            ownership_unique(pre),
            0 <= k <= pre.len(),
            k < pre.len() ==> self@ == pre.update(k, e) && pre[k].name == e.name,
            k == pre.len() ==> self@ == pre.push(e) && !reg_has(pre, e.name),
            forall|j: int|
                0 <= j < pre.len() && pre[j].name != e.name ==> files_disjoint(
                    e.files,
                    #[trigger] pre[j].files,
                ),
        ensures
            self.wf(),
            reg_has(self@, e.name),
            reg_at(self@, e.name) == e,
    {
        assert forall|a: int, b: int|
            0 <= a < b < reg_names(self@).len() implies reg_names(self@)[a] != reg_names(
            self@,
        )[b] by {
            assert(reg_names(self@)[a] == self@[a].name);
            assert(reg_names(self@)[b] == self@[b].name);
            if a < pre.len() && b < pre.len() {
                assert(reg_names(pre)[a] == pre[a].name);
                assert(reg_names(pre)[b] == pre[b].name);
            } else {
                assert(b == pre.len());
                assert(self@[b].name == e.name);
                assert(reg_names(pre)[a] == pre[a].name);
            }
        }
        assert forall|a: int, b: int|
            0 <= a < b < self@.len() implies files_disjoint(
            #[trigger] self@[a].files,
            #[trigger] self@[b].files,
        ) by {
            if a != k && b != k {
                assert(files_disjoint(pre[a].files, pre[b].files));
            } else if a == k {
                assert(pre[b].name != e.name) by {
                    if b < pre.len() && pre[b].name == e.name && k < pre.len() {
                        assert(reg_names(pre)[k] == pre[k].name);
                        assert(reg_names(pre)[b] == pre[b].name);
                    }
                }
                assert(files_disjoint(e.files, pre[b].files));
                assert forall|f: Seq<char>| name_in(self@[a].files, f) implies !name_in(
                    self@[b].files,
                    f,
                ) by {}
            } else {
                assert(pre[a].name != e.name) by {
                    if pre[a].name == e.name && k < pre.len() {
                        assert(reg_names(pre)[k] == pre[k].name);
                        assert(reg_names(pre)[a] == pre[a].name);
                    }
                }
                assert(files_disjoint(e.files, pre[a].files));
                assert forall|f: Seq<char>| name_in(self@[a].files, f) implies !name_in(
                    self@[b].files,
                    f,
                ) by {
                    assert(name_in(e.files, f) ==> !name_in(pre[a].files, f));
                }
            }
        }
        assert(self@[k].name == e.name);
        let i = reg_idx(self@, e.name);
        assert(reg_names(self@)[i] == self@[i].name);
        assert(reg_names(self@)[k] == self@[k].name);
        assert(i == k);
    }

    /// Deletes the entry of this name; the registry is unchanged when the name
    /// is not installed.
    pub fn delete(&mut self, name: &String) -> (r: bool)
        requires
            old(self).wf(),
        ensures
            final(self).wf(),
            r == reg_has(old(self)@, name@),
            r ==> final(self)@ == old(self)@.remove(reg_idx(old(self)@, name@)),
            !r ==> final(self)@ == old(self)@,
            !reg_has(final(self)@, name@),
    {
        let ghost pre = self@;
        match self.position(name) {
            Some(i) => {
                self.entries.remove(i);
                proof {
                    assert(self@ =~= pre.remove(i as int));
                    assert forall|a: int, b: int|
                        0 <= a < b < reg_names(self@).len() implies reg_names(self@)[a]
                        != reg_names(self@)[b] by {
                        let a0 = if a < i as int { a } else { a + 1 };
                        let b0 = if b < i as int { b } else { b + 1 };
                        assert(self@[a] == pre[a0]);
                        assert(self@[b] == pre[b0]);
                        assert(reg_names(pre)[a0] == pre[a0].name);
                        assert(reg_names(pre)[b0] == pre[b0].name);
                        assert(reg_names(self@)[a] == self@[a].name);
                        assert(reg_names(self@)[b] == self@[b].name);
                    }
                    assert forall|a: int, b: int|
                        0 <= a < b < self@.len() implies files_disjoint(
                        #[trigger] self@[a].files,
                        #[trigger] self@[b].files,
                    ) by {
                        let a0 = if a < i as int { a } else { a + 1 };
                        let b0 = if b < i as int { b } else { b + 1 };
                        assert(self@[a] == pre[a0]);
                        assert(self@[b] == pre[b0]);
                        assert(files_disjoint(pre[a0].files, pre[b0].files));
                    }
                    assert forall|j: int| 0 <= j < self@.len() implies self@[j].name != name@ by {
                        let j0 = if j < i as int { j } else { j + 1 };
                        assert(self@[j] == pre[j0]);
                        assert(reg_names(pre)[j0] == pre[j0].name);
                        assert(reg_names(pre)[i as int] == pre[i as int].name);
                    }
                }
                true
            },
            None => false,
        }
    }

    /// All entries, in registry order.
    pub fn list(&self) -> (r: Vec<InstalledEntry>)
        ensures
            r.deep_view() == self@,
    {
        let mut out: Vec<InstalledEntry> = Vec::new();
        let mut i: usize = 0;
        while i < self.entries.len()
            invariant
                0 <= i <= self.entries.len(),
                out.deep_view() =~= self@.subrange(0, i as int),
            decreases self.entries.len() - i,
        {
            let ghost pre = out.deep_view();
            let c = self.entries[i].clone();
            proof {
                assert(c@ == self@[i as int]);
            }
            out.push(c);
            proof {
                assert(out.deep_view() =~= pre.push(self@[i as int]));
                assert(out.deep_view() =~= self@.subrange(0, i + 1 as int));
            }
            i = i + 1;
        }
        proof {
            assert(out.deep_view() =~= self@);
        }
        out
    }

    /// How many packages are installed.
    pub fn len(&self) -> (r: usize)
        ensures
            r == self@.len(),
    {
        self.entries.len()
    }

    /// A copy for the transaction engine to fall back on.
    pub fn snapshot(&self) -> (r: Registry)
        ensures
            r@ == self@,
    {
        Registry { entries: self.list() }
    }

    /// Replaces the whole state with a snapshot.
    pub fn restore(&mut self, snap: Registry) -> (r: ())
        ensures
            final(self)@ == snap@,
    {
        self.entries = snap.entries;
    }
}

} // verus!
