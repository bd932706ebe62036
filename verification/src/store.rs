use vstd::prelude::*;
use crate::types::{Package, PackageV, name_in, names_distinct, store_has, store_idx, store_at};

verus! {

/// The names of the store's packages, in store order.
pub open spec fn store_names(s: Seq<PackageV>) -> Seq<Seq<char>> {
    s.map_values(|p: PackageV| p.name)
}

/// Read-only lookup from package name to package metadata.
pub struct MetadataStore {
    packages: Vec<Package>,
}

impl View for MetadataStore {
    type V = Seq<PackageV>;

    closed spec fn view(&self) -> Seq<PackageV> {
        self.packages.deep_view()
    }
}

impl MetadataStore {
    /// No two packages of the store share a name.
    pub open spec fn wf(&self) -> bool {
        names_distinct(store_names(self@))
    }

    pub fn new() -> (r: MetadataStore)
        ensures
            r@ == Seq::<PackageV>::empty(),
            r.wf(),
    {
        let r = MetadataStore { packages: Vec::new() };
        proof {
            assert(r@ =~= Seq::<PackageV>::empty());
        }
        r
    }

    /// Adds a package; refused (and the store left unchanged) when the name is
    /// already present.
    pub fn add(&mut self, p: Package) -> (r: bool)
        requires
            old(self).wf(),
        ensures
            final(self).wf(),
            r == !store_has(old(self)@, p@.name),
            r ==> final(self)@ == old(self)@.push(p@),
            !r ==> final(self)@ == old(self)@,
    {
        if self.lookup(&p.name).is_some() {
            return false;
        }
        let ghost pre = self@;
        self.packages.push(p);
        proof {
            assert(self@ =~= pre.push(p@));
            assert forall|a: int, b: int|
                0 <= a < b < store_names(self@).len() implies store_names(self@)[a] != store_names(
                self@,
            )[b] by {
                if b < pre.len() {
                    assert(store_names(pre)[a] != store_names(pre)[b]);
                } else {
                    assert(self@[b].name == p@.name);
                    assert(self@[a] == pre[a]);
                }
            }
        }
        true
    }

    /// Pure lookup: the package of this name, if the store holds one.
    pub fn lookup(&self, name: &String) -> (r: Option<&Package>)
        requires
            self.wf(),
        ensures
            match r {
                Some(p) => store_has(self@, name@) && p@ == store_at(self@, name@),
                None => !store_has(self@, name@),
            },
    {
        let mut i: usize = 0;
        while i < self.packages.len()
            invariant
                self.wf(),
                0 <= i <= self.packages.len(),
                forall|j: int| 0 <= j < i ==> self@[j].name != name@,
            decreases self.packages.len() - i,
        {
            if self.packages[i].name == *name {
                proof {
                    assert(self@[i as int].name == name@);
                    assert(store_has(self@, name@));
                    let k = store_idx(self@, name@);
                    assert(0 <= k < self@.len() && self@[k].name == name@);
                    assert(store_names(self@).len() == self@.len());
                    assert(store_names(self@)[k] == self@[k].name);
                    assert(store_names(self@)[i as int] == self@[i as int].name);
                    crate::strutil::lemma_distinct_name_index(store_names(self@), k, i as int);
                    assert(k == i as int);
                }
                return Some(&self.packages[i]);
            }
            i = i + 1;
        }
        None
    }

    /// How many packages the store holds.
    pub fn len(&self) -> (r: usize)
        ensures
            r == self@.len(),
    {
        self.packages.len()
    }
}

} // verus!
