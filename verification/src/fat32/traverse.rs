//! Directories.
use vstd::prelude::*;
use crate::types;
use crate::bytes::write_at;
use crate::error::Error;
use crate::path;
use crate::path::Path;
use crate::text::eq_ignore_ascii_case;
use crate::types::FileTime;
use super::driver;
use super::driver::Fatfs;
use super::entry;
use super::entry::{DirectoryEntry, EntryView};
use super::model;
use super::model::{Change, Scan};
use super::structures::FatVariant;

verus! {

/// A result whose entries are seen through their views.
pub open spec fn entries_of(r: Result<Vec<DirectoryEntry>, Error>) -> Result<
    Seq<EntryView>,
    Error,
> {
    match r {
        Ok(v) => Ok(entry::entry_views(v@)),
        Err(e) => Err(e),
    }
}

/// Whether every entry has a name of the right size.
pub open spec fn all_wf(es: Seq<DirectoryEntry>) -> bool {
    forall|i: int| 0 <= i < es.len() ==> (#[trigger] es[i]).wf()
}

/// A found entry with its position.
pub type Found = (DirectoryEntry, u32, usize);

/// A result whose entry is seen through its view.
pub open spec fn found_of(r: Result<Option<Found>, Error>) -> Result<
    Option<(EntryView, u32, int)>,
    Error,
> {
    match r {
        Ok(Some(f)) => Ok(Some((f.0@, f.1, f.2 as int))),
        Ok(None) => Ok(None),
        Err(e) => Err(e),
    }
}

/// Lists the live entries of `d` from the start up to `end`. Returns whether the end
/// of the directory was met.
fn list_chunk(d: &[u8], end: usize, out: &mut Vec<DirectoryEntry>) -> (ended: bool)
    requires
        end <= d.len(),
        d.len() % 32 == 0,
        end % 32 == 0,
        all_wf(old(out)@),
    ensures
        all_wf(final(out)@),
        entry::entry_views(final(out)@) == entry::entry_views(old(out)@) + model::listed(
            d@,
            0,
            end as int,
        ).0,
        ended == model::listed(d@, 0, end as int).1,
{
    let ghost o0 = entry::entry_views(out@);
    let ghost whole = model::listed(d@, 0, end as int);
    let mut off: usize = 0;
    while off < end
        invariant
            off <= end <= d.len(),
            off % 32 == 0,
            end % 32 == 0,
            d.len() % 32 == 0,
            all_wf(out@),
            o0 + whole.0 == entry::entry_views(out@) + model::listed(
                d@,
                off as int,
                end as int,
            ).0,
            whole.1 == model::listed(d@, off as int, end as int).1,
            o0 == entry::entry_views(old(out)@),
            whole == model::listed(d@, 0, end as int),
        decreases end - off,
    {
        let first: u8 = d[off];
        if first == 0 {
            assert(entry::entry_views(out@) + Seq::<EntryView>::empty()
                =~= entry::entry_views(out@));
            return true;
        }
        let e = DirectoryEntry::decode(d, off);
        if first != 0xE5 && !e.is_volume_label() {
            let ghost before = entry::entry_views(out@);
            let ghost ev = e@;
            let ghost rest = model::listed(d@, off + 32, end as int).0;
            out.push(e);
            proof {
                assert(entry::entry_views(out@) =~= before.push(ev));
                assert(before + (seq![ev] + rest) =~= before.push(ev) + rest);
            }
        }
        off = off + 32;
    }
    assert(entry::entry_views(out@) + Seq::<EntryView>::empty() =~= entry::entry_views(out@));
    false
}

/// Finds the first live entry that is shown under `name`.
fn scan_chunk(d: &[u8], name: &str) -> (r: (bool, Option<usize>))
    requires
        d.len() % 32 == 0,
    ensures
        match model::scan(d@, 0, name@) {
            Scan::Hit(off) => r == (true, Some(off as usize)) && 0 <= off && off + 32 <= d@.len(),
            Scan::Stop => r == (true, None::<usize>),
            Scan::Past => r == (false, None::<usize>),
        },
{
    let mut off: usize = 0;
    while d.len() - off >= 32
        invariant
            off <= d.len(),
            model::scan(d@, 0, name@) == model::scan(d@, off as int, name@),
        decreases d.len() - off,
    {
        let first: u8 = d[off];
        if first == 0 {
            return (true, None);
        }
        if first != 0xE5 {
            let e = DirectoryEntry::decode(d, off);
            let shown = e.fat_name_to_string();
            if eq_ignore_ascii_case(shown.as_str(), name) {
                return (true, Some(off));
            }
        }
        off = off + 32;
    }
    (false, None)
}

/// What one sector adds to a listing of the fixed root directory.
proof fn lemma_root_step(
    st: model::FatState,
    s: int,
    r: Result<Seq<u8>, Error>,
    before: Seq<EntryView>,
)
    requires
        0 <= s < model::root_len(st),
        r == model::read(st, model::root_lba(st) + s, 1),
    ensures
        match r {
            Err(e) => front(before, model::root_from(st, s)) == Err::<Seq<EntryView>, Error>(e),
            Ok(d) => {
                let (es, ended) = model::listed(d, 0, d.len() as int);
                front(before, model::root_from(st, s)) == (if ended {
                    Ok::<Seq<EntryView>, Error>(before + es)
                } else {
                    front(before + es, model::root_from(st, s + 1))
                })
            },
        },
{
    reveal(model::root_from);
    if let Ok(d) = r {
        let es = model::listed(d, 0, d.len() as int).0;
        let rest = model::root_from(st, s + 1);
        if rest is Ok {
            assert(before + (es + rest->Ok_0) =~= (before + es) + rest->Ok_0);
        }
    }
}

impl Fatfs {
    /// Reads directory cluster `c`.
    fn read_dir_cluster(&mut self, c: u32) -> (r: Result<Vec<u8>, Error>)
        requires
            old(self).wf(),
        ensures
            final(self).wf(),
            final(self)@ == old(self)@,
            types::bytes_of(r) == model::dir_data(old(self)@, c),
            r matches Ok(d) ==> d@.len() == model::region(old(self)@, c).1 * 512,
    {
        let (lba, n) = self.dir_entry_region(c);
        self.read_disk_sectors(lba, n)
    }

    /// The live entries of the directory that starts at a cluster.
    #[verifier::spinoff_prover]
    #[verifier::rlimit(60)]
    pub fn get_dir_entries(&mut self, start: u32) -> (r: Result<Vec<DirectoryEntry>, Error>)
        requires
            old(self).wf(),
        ensures
            final(self).wf(),
            final(self)@ == old(self)@,
            entries_of(r) == model::cluster_entries(
                old(self)@,
                start,
                model::chain_limit(old(self)@),
            ),
            r matches Ok(v) ==> all_wf(v@),
    {
        let ghost st = self@;
        let spc: u16 = self.boot_info.sectors_per_cluster as u16;
        let limit: u64 = self.chain_limit();
        let mut fuel: u64 = limit;
        let mut cur: u32 = start;
        let mut out: Vec<DirectoryEntry> = Vec::new();
        let ghost whole = model::cluster_entries(st, start, limit as int);
        assert(front(entry::entry_views(out@), whole) == whole) by {
            if whole is Ok {
                assert(entry::entry_views(out@) + whole->Ok_0 =~= whole->Ok_0);
            }
        }
        while fuel > 0
            invariant
                self.wf(),
                self@ == st,
                st == old(self)@,
                spc == model::spc(st),
                1 <= spc <= 128,
                limit == model::chain_limit(st),
                all_wf(out@),
                whole == model::cluster_entries(st, start, limit as int),
                whole == front(
                    entry::entry_views(out@),
                    model::cluster_entries(st, cur, fuel as int),
                ),
            decreases fuel,
        {
            let lba: u64 = self.cluster_to_lba(cur);
            let d = match self.read_disk_sectors(lba, spc) {
                Ok(d) => d,
                Err(e) => {
                    return Err(e);
                },
            };
            let ghost before = entry::entry_views(out@);
            let ended: bool = list_chunk(d.as_slice(), d.len(), &mut out);
            if ended {
                return Ok(out);
            }
            let next: Option<u32> = match self.get_fat_entry(cur) {
                Ok(x) => x,
                Err(e) => {
                    return Err(e);
                },
            };
            match next {
                None => {
                    return Ok(out);
                },
                Some(n) => {
                    proof {
                        let es = model::listed(d@, 0, d@.len() as int).0;
                        let rest = model::cluster_entries(st, n, fuel - 1);
                        if rest is Ok {
                            assert(before + (es + rest->Ok_0) =~= (before + es) + rest->Ok_0);
                        }
                    }
                    cur = n;
                },
            }
            fuel = fuel - 1;
        }
        Err(Error::Corrupted)
    }

    /// The live entries of the fixed root directory.
    #[verifier::spinoff_prover]
    #[verifier::rlimit(60)]
    pub fn get_root_dir_entries(&mut self) -> (r: Result<Vec<DirectoryEntry>, Error>)
        requires
            old(self).wf(),
        ensures
            final(self).wf(),
            final(self)@ == old(self)@,
            entries_of(r) == model::root_entries(old(self)@),
            r matches Ok(v) ==> all_wf(v@),
    {
        if self.variant == FatVariant::Fat32 {
            return Err(Error::IoError);
        }
        proof {
            driver::lemma_geometry(self@, 0);
        }
        let lba: u64 = self.root_dir_lba();
        let n: u64 = self.root_dir_sectors();
        if n == 0 || lba - self.starting_lba >= self.size_sectors {
            return Err(Error::Corrupted);
        }
        let ghost st = self@;
        let ghost whole = model::root_from(st, 0);
        let mut out: Vec<DirectoryEntry> = Vec::new();
        let mut s: u64 = 0;
        proof {
            assert(entry::entry_views(out@) =~= Seq::<EntryView>::empty());
            if whole is Ok {
                assert(Seq::<EntryView>::empty() + whole->Ok_0 =~= whole->Ok_0);
            }
        }
        while s < n
            invariant
                self.wf(),
                self@ == st,
                s <= n,
                n == model::root_len(st),
                lba == model::root_lba(st),
                lba + n <= u64::MAX,
                st == old(self)@,
                whole == model::root_entries(st),
                all_wf(out@),
                whole == front(entry::entry_views(out@), model::root_from(st, s as int)),
            decreases n - s,
        {
            let r = self.read_disk_sectors(lba + s, 1);
            proof {
                lemma_root_step(st, s as int, types::bytes_of(r), entry::entry_views(out@));
            }
            let d = match r {
                Ok(d) => d,
                Err(e) => {
                    return Err(e);
                },
            };
            let ended: bool = list_chunk(d.as_slice(), d.len(), &mut out);
            if ended {
                return Ok(out);
            }
            s = s + 1;
        }
        proof {
            reveal(model::root_from);
            assert(entry::entry_views(out@) + Seq::<EntryView>::empty() =~= entry::entry_views(
                out@,
            ));
        }
        Ok(out)
    }

    /// The live entries of a directory.
    pub fn list_dir(&mut self, c: u32) -> (r: Result<Vec<DirectoryEntry>, Error>)
        requires
            old(self).wf(),
        ensures
            final(self).wf(),
            final(self)@ == old(self)@,
            entries_of(r) == model::dir_entries(old(self)@, c),
            r matches Ok(v) ==> all_wf(v@),
    {
        if self.is_fixed_root(c) {
            self.get_root_dir_entries()
        } else {
            self.get_dir_entries(c)
        }
    }

    /// The entry shown under `name` in the directory from cluster `start` on.
    fn find_in_dir(&mut self, start: u32, name: &str) -> (r: Result<Option<Found>, Error>)
        requires
            old(self).wf(),
        ensures
            final(self).wf(),
            final(self)@ == old(self)@,
            found_of(r) == model::find_slot(
                old(self)@,
                start,
                name@,
                model::chain_limit(old(self)@),
            ),
            r matches Ok(Some(f)) ==> f.0.wf() && f.2 < 0x20_0000,
    {
        let ghost st = self@;
        let limit: u64 = self.chain_limit();
        let mut fuel: u64 = limit;
        let mut cur: u32 = start;
        while fuel > 0
            invariant
                self.wf(),
                self@ == st,
                st == old(self)@,
                limit == model::chain_limit(st),
                model::find_slot(st, start, name@, limit as int) == model::find_slot(
                    st,
                    cur,
                    name@,
                    fuel as int,
                ),
            decreases fuel,
        {
            let d = match self.read_dir_cluster(cur) {
                Ok(d) => d,
                Err(e) => {
                    return Err(e);
                },
            };
            proof {
                driver::lemma_geometry(st, cur);
            }
            let (done, hit) = scan_chunk(d.as_slice(), name);
            match hit {
                Some(off) => {
                    return Ok(Some((DirectoryEntry::decode(d.as_slice(), off), cur, off)));
                },
                None => {},
            }
            if done || self.is_fixed_root(cur) {
                return Ok(None);
            }
            let next: Option<u32> = match self.get_fat_entry(cur) {
                Ok(x) => x,
                Err(e) => {
                    return Err(e);
                },
            };
            match next {
                None => {
                    return Ok(None);
                },
                Some(n) => {
                    cur = n;
                },
            }
            fuel = fuel - 1;
        }
        Err(Error::Corrupted)
    }

    /// The directory that the first `n` components lead to.
    fn walk_dirs(&mut self, cs: &[String], n: usize) -> (r: Result<Option<u32>, Error>)
        requires
            old(self).wf(),
            n <= cs.len(),
        ensures
            final(self).wf(),
            final(self)@ == old(self)@,
            r == model::walk(
                old(self)@,
                path::names(cs@),
                0,
                n as int,
                model::root_cluster(old(self)@),
            ),
    {
        let ghost st = self@;
        let ghost ns = path::names(cs@);
        let mut c: u32 = self.root_dir_cluster();
        let mut i: usize = 0;
        while i < n
            invariant
                i <= n <= cs.len(),
                self.wf(),
                self@ == st,
                st == old(self)@,
                ns == path::names(cs@),
                model::walk(st, ns, 0, n as int, model::root_cluster(st)) == model::walk(
                    st,
                    ns,
                    i as int,
                    n as int,
                    c,
                ),
            decreases n - i,
        {
            let es = match self.list_dir(c) {
                Ok(v) => v,
                Err(e) => {
                    return Err(e);
                },
            };
            match find_subdir(&es, cs[i].as_str()) {
                Some(d) => {
                    c = d;
                },
                None => {
                    return Ok(None);
                },
            }
            i = i + 1;
        }
        Ok(Some(c))
    }

    /// The entry that a path leads to, with the cluster and the offset it lies at.
    pub fn find_dir_entry(&mut self, p: &Path) -> (r: Result<Option<Found>, Error>)
        requires
            old(self).wf(),
        ensures
            final(self).wf(),
            final(self)@ == old(self)@,
            found_of(r) == model::find(old(self)@, path::normalized(p@)),
            r matches Ok(Some(f)) ==> f.0.wf() && f.2 < 0x20_0000,
    {
        reveal(model::find);
        let q = p.normalize();
        let cs = q.components();
        let n: usize = cs.len();
        if n == 0 {
            return Ok(None);
        }
        match self.walk_dirs(cs, n - 1) {
            Ok(Some(c)) => self.find_in_dir(c, cs[n - 1].as_str()),
            Ok(None) => Ok(None),
            Err(e) => Err(e),
        }
    }

    /// The directory that holds the last component of a path, and that component.
    pub fn resolve_parent_and_name(&mut self, p: &Path) -> (r: Result<(u32, String), Error>)
        requires
            old(self).wf(),
        ensures
            final(self).wf(),
            final(self)@ == old(self)@,
            match r {
                Ok(x) => model::parent(old(self)@, path::normalized(p@)) == Ok::<u32, Error>(x.0)
                    && x.1@ == path::normalized(p@).last(),
                Err(e) => model::parent(old(self)@, path::normalized(p@)) == Err::<u32, Error>(e),
            },
    {
        let q = p.normalize();
        let cs = q.components();
        let n: usize = cs.len();
        if n == 0 {
            return Err(Error::NotADir);
        }
        match self.walk_dirs(cs, n - 1) {
            Ok(Some(c)) => Ok((c, cs[n - 1].clone())),
            Ok(None) => Err(Error::FileNotFound),
            Err(e) => Err(e),
        }
    }

    /// Changes the entry at an offset of a directory cluster.
    pub fn patch_dir_entry_at(&mut self, cluster: u32, offset: usize, change: EntryChange) -> (r:
        Result<(), Error>)
        requires
            old(self).wf(),
            change.wf(),
        ensures
            final(self).wf(),
            (final(self)@, r) == model::patch(old(self)@, cluster, offset as int, change@),
            final(self).staged_since(old(self)),
            driver::same_layout(final(self)@, old(self)@),
            final(self)@.info == old(self)@.info,
            final(self)@.inodes == old(self)@.inodes,
    {
        reveal(model::patch);
        broadcast use crate::block_device::staging;

        let (lba, n) = self.dir_entry_region(cluster);
        let mut d = match self.read_disk_sectors(lba, n) {
            Ok(d) => d,
            Err(e) => {
                return Err(e);
            },
        };
        if d.len() < 32 || offset > d.len() - 32 {
            return Err(Error::Corrupted);
        }
        let mut e = DirectoryEntry::decode(d.as_slice(), offset);
        change.apply(&mut e);
        let b = e.encode();
        write_at(&mut d, offset, b.as_slice());
        self.write_disk_sectors(lba, d.as_slice())
    }

    /// Marks the entry at an offset of a directory cluster deleted.
    pub fn mark_entry_deleted(&mut self, cluster: u32, offset: usize) -> (r: Result<(), Error>)
        requires
            old(self).wf(),
        ensures
            final(self).wf(),
            (final(self)@, r) == model::mark_deleted(old(self)@, cluster, offset as int),
            driver::same_layout(final(self)@, old(self)@),
            final(self)@.info == old(self)@.info,
            final(self)@.inodes == old(self)@.inodes,
    {
        reveal(model::mark_deleted);
        let (lba, n) = self.dir_entry_region(cluster);
        let mut d = match self.read_disk_sectors(lba, n) {
            Ok(d) => d,
            Err(e) => {
                return Err(e);
            },
        };
        if d.len() < 32 || offset > d.len() - 32 {
            return Err(Error::Corrupted);
        }
        d[offset] = 0xE5;
        self.write_disk_sectors(lba, d.as_slice())
    }
}

/// How a directory entry is changed.
pub enum EntryChange {
    /// The first cluster is set.
    Cluster(u32),
    /// The size is set.
    Size(u32),
    /// The size is set after a write at a time.
    Grown(u32, FileTime),
    /// The file is left without data.
    Emptied,
    /// The short name is set.
    Name(Vec<u8>),
}

impl View for EntryChange {
    type V = Change;

    open spec fn view(&self) -> Change {
        match self {
            EntryChange::Cluster(c) => Change::Cluster(*c),
            EntryChange::Size(n) => Change::Size(*n),
            EntryChange::Grown(n, t) => Change::Grown(*n, *t),
            EntryChange::Emptied => Change::Emptied,
            EntryChange::Name(n) => Change::Name(n@),
        }
    }
}

impl EntryChange {
    /// A name has its size.
    pub open spec fn wf(&self) -> bool {
        self is Name ==> self->Name_0@.len() == 11
    }

    /// Changes an entry.
    pub fn apply(self, e: &mut DirectoryEntry)
        requires
            self.wf(),
            old(e).wf(),
        ensures
            final(e).wf(),
            final(e)@ == model::changed(old(e)@, self@),
    {
        match self {
            EntryChange::Cluster(c) => {
                e.set_first_cluster(c);
            },
            EntryChange::Size(n) => {
                e.file_size = n;
            },
            EntryChange::Grown(n, t) => {
                e.file_size = n;
                e.attributes = e.attributes | 0x20;
                e.write_date = t.date;
                e.write_time = t.time;
            },
            EntryChange::Emptied => {
                e.file_size = 0;
                e.first_cluster_high = 0;
                e.first_cluster_low = 0;
            },
            EntryChange::Name(n) => {
                e.name = n;
            },
        }
    }
}

fn find_subdir(es: &Vec<DirectoryEntry>, name: &str) -> (r: Option<u32>)
    requires
        all_wf(es@),
    ensures
        r == model::subdir(entry::entry_views(es@), name@),
{
    let ghost v = entry::entry_views(es@);
    let mut i: usize = 0;
    assert(v.skip(0) =~= v);
    while i < es.len()
        invariant
            i <= es.len(),
            all_wf(es@),
            v == entry::entry_views(es@),
            model::subdir(v, name@) == model::subdir(v.skip(i as int), name@),
        decreases es.len() - i,
    {
        let e = &es[i];
        assert(v.skip(i as int)[0] == e@);
        assert(v.skip(i as int).skip(1) =~= v.skip(i + 1));
        if e.is_directory() {
            let shown = e.fat_name_to_string();
            if eq_ignore_ascii_case(shown.as_str(), name) {
                return Some(e.first_cluster());
            }
        }
        i = i + 1;
    }
    None
}

/// Entries put in front of a result.
pub open spec fn front(done: Seq<EntryView>, r: Result<Seq<EntryView>, Error>) -> Result<
    Seq<EntryView>,
    Error,
> {
    match r {
        Ok(rest) => Ok::<Seq<EntryView>, Error>(done + rest),
        Err(e) => Err::<Seq<EntryView>, Error>(e),
    }
}

} // verus!
