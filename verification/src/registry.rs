//! The link registry: the durable record of every symlink this tool has
//! created. It is an ordered collection of records, each naming the
//! owning package, the origin the link points at, and the link location.
//! The link location is unique across the registry; a package may own
//! many links.

use vstd::prelude::*;

verus! {

/// One symlink this tool created.
pub struct LinkRecord {
    /// The name of the package directory the link mirrors.
    pub package: String,
    /// The absolute path of the real file or directory being linked.
    pub origin: String,
    /// The absolute path of the symlink inside the target tree.
    pub symlink: String,
}

/// The mathematical content of a record: its three strings.
pub struct LinkRecordV {
    pub package: Seq<char>,
    pub origin: Seq<char>,
    pub symlink: Seq<char>,
}

impl View for LinkRecord {
    type V = LinkRecordV;

    open spec fn view(&self) -> LinkRecordV {
        LinkRecordV { package: self.package@, origin: self.origin@, symlink: self.symlink@ }
    }
}

impl DeepView for LinkRecord {
    type V = LinkRecordV;

    open spec fn deep_view(&self) -> LinkRecordV {
        self.view()
    }
}

impl LinkRecord {
    /// Builds a record from its three parts.
    pub fn new(package: &str, origin: &str, symlink: &str) -> (r: LinkRecord)
        ensures
            r@.package == package@,
            r@.origin == origin@,
            r@.symlink == symlink@,
    {
        LinkRecord {
            package: package.to_owned(),
            origin: origin.to_owned(),
            symlink: symlink.to_owned(),
        }
    }

    /// An identical copy of the record.
    pub fn duplicate(&self) -> (r: LinkRecord)
        ensures
            r@ == self@,
    {
        LinkRecord {
            package: self.package.clone(),
            origin: self.origin.clone(),
            symlink: self.symlink.clone(),
        }
    }
}

/// Dropping records cannot make two remaining records track one symlink.
proof fn lemma_filter_keeps_unique_symlinks(s: Seq<LinkRecordV>, pred: spec_fn(LinkRecordV) -> bool)
    requires
        forall|i: int, j: int| 0 <= i < j < s.len() ==> s[i].symlink != s[j].symlink,
    ensures
        forall|i: int, j: int|
            0 <= i < j < s.filter(pred).len() ==> s.filter(pred)[i].symlink != s.filter(
                pred,
            )[j].symlink,
    decreases s.len(),
{
    reveal(Seq::filter);
    if s.len() == 0 {
    } else {
        let dl = s.drop_last();
        let last = s.last();
        assert(forall|i: int, j: int| 0 <= i < j < dl.len() ==> dl[i].symlink != dl[j].symlink);
        lemma_filter_keeps_unique_symlinks(dl, pred);
        let f = s.filter(pred);
        if pred(last) {
            assert(f == dl.filter(pred).push(last));
            assert forall|i: int, j: int|
                0 <= i < j < f.len() implies f[i].symlink != f[j].symlink by {
                if j < f.len() - 1 {
                    assert(f[i] == dl.filter(pred)[i]);
                    assert(f[j] == dl.filter(pred)[j]);
                } else {
                    assert(f[j] == last);
                    assert(f[i] == dl.filter(pred)[i]);
                    assert(dl.filter(pred).contains(f[i]));
                    dl.lemma_filter_contains_rev(pred, f[i]);
                    let t = choose|t: int| 0 <= t < dl.len() && dl[t] == f[i];
                    assert(s[t].symlink != s[s.len() - 1].symlink);
                }
            }
        }
    }
}

/// Whether some record of `s` belongs to package `pkg`.
pub open spec fn has_package(s: Seq<LinkRecordV>, pkg: Seq<char>) -> bool {
    exists|i: int| 0 <= i < s.len() && s[i].package == pkg
}

/// The registry: an ordered collection of link records, rewritten
/// wholesale after every mutation.
pub struct LinkRegistry {
    records: Vec<LinkRecord>,
}

impl View for LinkRegistry {
    type V = Seq<LinkRecordV>;

    closed spec fn view(&self) -> Seq<LinkRecordV> {
        self.records.deep_view()
    }
}

impl LinkRegistry {
    /// No two records track the same symlink location.
    pub open spec fn wf(self) -> bool {
        forall|i: int, j: int|
            0 <= i < j < self@.len() ==> self@[i].symlink != self@[j].symlink
    }

    /// An empty registry, the state before any link was ever recorded.
    pub fn new() -> (r: LinkRegistry)
        ensures
            r@ == Seq::<LinkRecordV>::empty(),
            r.wf(),
    {
        let r = LinkRegistry { records: Vec::new() };
        proof {
            assert(r@ =~= Seq::<LinkRecordV>::empty());
        }
        r
    }

    /// Wraps a loaded sequence of records.
    pub fn from_records(records: Vec<LinkRecord>) -> (r: LinkRegistry)
        ensures
            r@ == records.deep_view(),
    {
        LinkRegistry { records }
    }

    /// The records, in the order they were added, for display.
    pub fn list_records(&self) -> (r: &Vec<LinkRecord>)
        ensures
            r.deep_view() == self@,
    {
        &self.records
    }

    /// How many links are tracked.
    pub fn len(&self) -> (n: usize)
        ensures
            n == self@.len(),
    {
        self.records.len()
    }

    /// Drops every record whose symlink is `symlink`, keeping order.
    fn retain_other_symlinks(&mut self, symlink: &str)
        ensures
            final(self)@ == old(self)@.filter(|r: LinkRecordV| r.symlink != symlink@),
    {
        broadcast use vstd::prelude::Seq::lemma_filter_push;

        let ghost orig = self.records.deep_view();
        let mut out: Vec<LinkRecord> = Vec::new();
        let mut i: usize = 0;
        proof {
            assert(orig.subrange(0, 0).filter(|r: LinkRecordV| r.symlink != symlink@)
                =~= Seq::<LinkRecordV>::empty());
            assert(out.deep_view() =~= Seq::<LinkRecordV>::empty());
        }
        while i < self.records.len()
            invariant
                i <= self.records.len(),
                self.records.deep_view() == orig,
                out.deep_view() == orig.subrange(0, i as int).filter(
                    |r: LinkRecordV| r.symlink != symlink@,
                ),
            decreases self.records.len() - i,
        {
            let ghost pred = |r: LinkRecordV| r.symlink != symlink@;
            let ghost pre = orig.subrange(0, i as int);
            let ghost pre1 = orig.subrange(0, i as int + 1);
            proof {
                assert(pre1 =~= pre.push(orig[i as int]));
                assert(orig[i as int] == self.records@[i as int]@);
                pre.lemma_filter_push(orig[i as int], pred);
            }
            let keep = !crate::str_eq(self.records[i].symlink.as_str(), symlink);
            assert(keep == pred(orig[i as int]));
            if keep {
                let copy = self.records[i].duplicate();
                assert(out.deep_view().len() == out@.len());
                let ghost out0 = out@;
                out.push(copy);
                proof {
                    assert(out@ == out0.push(copy));
                    assert(out.deep_view() =~= pre.filter(pred).push(orig[i as int]));
                }
            }
            i = i + 1;
        }
        proof {
            assert(orig.subrange(0, self.records.deep_view().len() as int) =~= orig);
        }
        self.records = out;
    }

    /// Records a freshly created symlink: any stale record of the same
    /// link location gives way, and the new record is appended.
    pub fn add_package(&mut self, package: &str, origin: &str, symlink: &str)
        ensures
            final(self)@ == old(self)@.filter(|r: LinkRecordV| r.symlink != symlink@).push(
                LinkRecordV { package: package@, origin: origin@, symlink: symlink@ },
            ),
            old(self).wf() ==> final(self).wf(),
    {
        broadcast use vstd::seq_lib::group_filter_ensures;

        self.retain_other_symlinks(symlink);
        let rec = LinkRecord::new(package, origin, symlink);
        let ghost kept = self@;
        let ghost r0 = self.records.deep_view();
        assert(self.records.deep_view().len() == self.records@.len());
        self.records.push(rec);
        proof {
            assert(self@ =~= kept.push(rec@));
            if old(self).wf() {
                let pred = |r: LinkRecordV| r.symlink != symlink@;
                lemma_filter_keeps_unique_symlinks(old(self)@, pred);
                assert forall|i: int, j: int|
                    0 <= i < j < self@.len() implies self@[i].symlink != self@[j].symlink by {
                    if j < self@.len() - 1 {
                        assert(kept[i].symlink != kept[j].symlink);
                    } else {
                        assert(self@[i] == old(self)@.filter(pred)[i]);
                        assert(pred(old(self)@.filter(pred)[i]));
                    }
                }
            }
        }
    }

    /// Drops every record owned by `package`, keeping order.
    pub fn remove_package(&mut self, package: &str)
        ensures
            final(self)@ == old(self)@.filter(|r: LinkRecordV| r.package != package@),
            old(self).wf() ==> final(self).wf(),
    {
        broadcast use vstd::prelude::Seq::lemma_filter_push;

        let ghost orig = self.records.deep_view();
        let mut out: Vec<LinkRecord> = Vec::new();
        let mut i: usize = 0;
        proof {
            assert(orig.subrange(0, 0).filter(|r: LinkRecordV| r.package != package@)
                =~= Seq::<LinkRecordV>::empty());
            assert(out.deep_view() =~= Seq::<LinkRecordV>::empty());
        }
        while i < self.records.len()
            invariant
                i <= self.records.len(),
                self.records.deep_view() == orig,
                out.deep_view() == orig.subrange(0, i as int).filter(
                    |r: LinkRecordV| r.package != package@,
                ),
            decreases self.records.len() - i,
        {
            let ghost pred = |r: LinkRecordV| r.package != package@;
            let ghost pre = orig.subrange(0, i as int);
            let ghost pre1 = orig.subrange(0, i as int + 1);
            proof {
                assert(pre1 =~= pre.push(orig[i as int]));
                assert(orig[i as int] == self.records@[i as int]@);
                pre.lemma_filter_push(orig[i as int], pred);
            }
            let keep = !crate::str_eq(self.records[i].package.as_str(), package);
            assert(keep == pred(orig[i as int]));
            if keep {
                let copy = self.records[i].duplicate();
                assert(out.deep_view().len() == out@.len());
                let ghost out0 = out@;
                out.push(copy);
                proof {
                    assert(out@ == out0.push(copy));
                    assert(out.deep_view() =~= pre.filter(pred).push(orig[i as int]));
                }
            }
            i = i + 1;
        }
        proof {
            assert(orig.subrange(0, self.records.deep_view().len() as int) =~= orig);
        }
        self.records = out;
        proof {
            if old(self).wf() {
                assert forall|a: int, b: int|
                    0 <= a < b < orig.len() implies orig[a].symlink != orig[b].symlink by {
                    assert(old(self)@[a].symlink != old(self)@[b].symlink);
                }
                lemma_filter_keeps_unique_symlinks(orig, |r: LinkRecordV| r.package != package@);
            }
        }
    }

    /// The first record owned by `package`, if the package owns any.
    pub fn find_package(&self, package: &str) -> (r: Option<&LinkRecord>)
        ensures
            r is Some <==> has_package(self@, package@),
            r is Some ==> exists|i: int|
                0 <= i < self@.len() && r.unwrap()@ == self@[i] && self@[i].package == package@
                    && (forall|j: int| 0 <= j < i ==> self@[j].package != package@),
    {
        let mut i: usize = 0;
        while i < self.records.len()
            invariant
                i <= self.records.len(),
                forall|j: int| 0 <= j < i ==> self@[j].package != package@,
            decreases self.records.len() - i,
        {
            if crate::str_eq(self.records[i].package.as_str(), package) {
                assert(self@[i as int].package == package@);
                return Some(&self.records[i]);
            }
            i = i + 1;
        }
        proof {
            assert(!has_package(self@, package@));
        }
        None
    }

    /// Every record owned by `package`, in registry order: the links
    /// that unlinking that package must consider.
    pub fn records_for_package(&self, package: &str) -> (r: Vec<LinkRecord>)
        ensures
            r.deep_view() == self@.filter(|rec: LinkRecordV| rec.package == package@),
    {
        let mut r: Vec<LinkRecord> = Vec::new();
        let mut i: usize = 0;
        proof {
            assert(self@.subrange(0, 0).filter(|rec: LinkRecordV| rec.package == package@)
                =~= Seq::<LinkRecordV>::empty());
            assert(r.deep_view() =~= Seq::<LinkRecordV>::empty());
        }
        while i < self.records.len()
            invariant
                i <= self.records.len(),
                r.deep_view() == self@.subrange(0, i as int).filter(
                    |rec: LinkRecordV| rec.package == package@,
                ),
            decreases self.records.len() - i,
        {
            let ghost pred = |rec: LinkRecordV| rec.package == package@;
            let ghost pre = self@.subrange(0, i as int);
            let ghost pre1 = self@.subrange(0, i as int + 1);
            proof {
                assert(pre1 =~= pre.push(self@[i as int]));
                assert(self@[i as int] == self.records@[i as int]@);
                pre.lemma_filter_push(self@[i as int], pred);
            }
            let keep = crate::str_eq(self.records[i].package.as_str(), package);
            assert(keep == pred(self@[i as int]));
            if keep {
                let copy = self.records[i].duplicate();
                assert(r.deep_view().len() == r@.len());
                let ghost r0 = r@;
                r.push(copy);
                proof {
                    assert(r@ == r0.push(copy));
                    assert(r.deep_view() =~= pre.filter(pred).push(self@[i as int]));
                }
            }
            i = i + 1;
        }
        proof {
            assert(self@.subrange(0, self@.len() as int) =~= self@);
        }
        r
    }

    /// Every tracked symlink location, in registry order: the deletion
    /// plan that `prune` carries out.
    pub fn prune_plan(&self) -> (r: Vec<String>)
        ensures
            r.deep_view() == self@.map_values(|rec: LinkRecordV| rec.symlink),
    {
        let mut r: Vec<String> = Vec::new();
        let mut i: usize = 0;
        while i < self.records.len()
            invariant
                i <= self.records.len(),
                r@.len() == i,
                forall|t: int| 0 <= t < i ==> r@[t]@ == self@[t].symlink,
            decreases self.records.len() - i,
        {
            let s = self.records[i].symlink.clone();
            let ghost r0 = r@;
            r.push(s);
            proof {
                assert(r@ == r0.push(s));
                assert(self@[i as int] == self.records@[i as int]@);
                assert forall|t: int| 0 <= t < i + 1 implies r@[t]@ == self@[t].symlink by {
                    if t < i {
                        assert(r@[t] == r0[t]);
                    }
                }
            }
            i = i + 1;
        }
        proof {
            let m = self@.map_values(|rec: LinkRecordV| rec.symlink);
            assert(m.len() == self@.len());
            assert forall|t: int| 0 <= t < r@.len() implies r.deep_view()[t] == m[t] by {
                assert(r.deep_view()[t] == r@[t]@);
                assert(m[t] == self@[t].symlink);
            }
            assert(r.deep_view().len() == r@.len());
            assert(r.deep_view() =~= m);
        }
        r
    }
}

/// The filesystem locations left after each path of `plan` is deleted.
pub open spec fn remove_paths(fs: Set<Seq<char>>, plan: Seq<Seq<char>>) -> Set<Seq<char>>
    decreases plan.len(),
{
    if plan.len() == 0 {
        fs
    } else {
        remove_paths(fs.remove(plan[0]), plan.drop_first())
    }
}

proof fn lemma_remove_paths_subset(fs: Set<Seq<char>>, plan: Seq<Seq<char>>)
    ensures
        forall|p: Seq<char>| remove_paths(fs, plan).contains(p) ==> fs.contains(p),
    decreases plan.len(),
{
    if plan.len() == 0 {
    } else {
        lemma_remove_paths_subset(fs.remove(plan[0]), plan.drop_first());
        assert forall|p: Seq<char>|
            remove_paths(fs, plan).contains(p) implies fs.contains(p) by {
            assert(remove_paths(fs.remove(plan[0]), plan.drop_first()).contains(p));
            assert(fs.remove(plan[0]).contains(p));
        }
    }
}

proof fn lemma_remove_paths_removes(fs: Set<Seq<char>>, plan: Seq<Seq<char>>)
    ensures
        forall|i: int| 0 <= i < plan.len() ==> !remove_paths(fs, plan).contains(plan[i]),
    decreases plan.len(),
{
    if plan.len() == 0 {
    } else {
        let rest = plan.drop_first();
        lemma_remove_paths_removes(fs.remove(plan[0]), rest);
        lemma_remove_paths_subset(fs.remove(plan[0]), rest);
        assert forall|i: int|
            0 <= i < plan.len() implies !remove_paths(fs, plan).contains(plan[i]) by {
            if i == 0 {
                assert(!fs.remove(plan[0]).contains(plan[0]));
            } else {
                assert(plan[i] == rest[i - 1]);
            }
        }
    }
}

/// Law: pruning removes every registry-tracked symlink. Once the
/// deletion plan of `prune_plan` has been carried out on any filesystem,
/// no location the registry tracks remains; the registry itself is then
/// discarded whole.
pub proof fn lemma_prune_removes_all(reg: Seq<LinkRecordV>, fs: Set<Seq<char>>)
    ensures
        forall|i: int|
            0 <= i < reg.len() ==> !remove_paths(
                fs,
                reg.map_values(|rec: LinkRecordV| rec.symlink),
            ).contains(reg[i].symlink),
{
    let plan = reg.map_values(|rec: LinkRecordV| rec.symlink);
    lemma_remove_paths_removes(fs, plan);
    assert forall|i: int|
        0 <= i < reg.len() implies !remove_paths(fs, plan).contains(reg[i].symlink) by {
        assert(plan[i] == reg[i].symlink);
    }
}

} // verus!
