//! The registry of devices, as a file system.
use vstd::prelude::*;
use crate::bytes;
use crate::bytes::zero_vec;
use crate::error::Error;
use crate::filesystem::FileSystem;
use crate::order;
use crate::order::path_less;
use crate::path;
use crate::path::Path;
use crate::types;
use crate::types::{File, FileAttrs, FileKind, FileView, MmapRegion, PollState, StatFs};
use super::device;
use super::device::{pass_on, DevFsDevice, DevFsError};

verus! {

/// A registered device.
pub struct DeviceNode<D> {
    pub path: Path,
    pub device: D,
}

/// The registered devices and the directories they stand in, both in path order.
pub struct DevFs<D> {
    pub directories: Vec<Path>,
    pub devices: Vec<DeviceNode<D>>,
}

/// The registry seen mathematically: the directories, the paths of the devices, and the
/// devices themselves, in the order of their paths.
#[verifier::ext_equal]
pub struct DevState<D> {
    pub dirs: Seq<Seq<Seq<char>>>,
    pub paths: Seq<Seq<Seq<char>>>,
    pub devices: Seq<D>,
}

/// Paths seen through their views.
pub open spec fn path_views(v: Seq<Path>) -> Seq<Seq<Seq<char>>> {
    v.map_values(|p: Path| p@)
}

impl<D> View for DevFs<D> {
    type V = DevState<D>;

    open spec fn view(&self) -> DevState<D> {
        DevState {
            dirs: path_views(self.directories@),
            paths: self.devices@.map_values(|n: DeviceNode<D>| n.path@),
            devices: self.devices@.map_values(|n: DeviceNode<D>| n.device),
        }
    }
}

// ---- What the operations do ---------------------------------------------------------

/// Where the device at path `p` stands in the registry.
pub open spec fn slot<D>(st: DevState<D>, p: Seq<Seq<char>>) -> Option<int> {
    if st.paths.contains(p) {
        Some(order::place(st.paths, p, 0))
    } else {
        None
    }
}

/// The device at path `p`.
pub open spec fn lookup<D>(st: DevState<D>, p: Seq<Seq<char>>) -> Option<D> {
    match slot(st, p) {
        Some(i) => Some(st.devices[i]),
        None => None,
    }
}

/// The directories with `p` among them.
pub open spec fn with_dir(dirs: Seq<Seq<Seq<char>>>, p: Seq<Seq<char>>) -> Seq<Seq<Seq<char>>> {
    if dirs.contains(p) {
        dirs
    } else {
        dirs.insert(order::place(dirs, p, 0), p)
    }
}

/// The directories with every directory on the way down the components of `cs` from `k`
/// on, starting in `at`.
pub open spec fn with_dirs(
    dirs: Seq<Seq<Seq<char>>>,
    cs: Seq<Seq<char>>,
    k: int,
    at: Seq<Seq<char>>,
) -> Seq<Seq<Seq<char>>>
    decreases cs.len() - k,
{
    if k >= cs.len() {
        dirs
    } else {
        let next = path::normalized(at + path::split(cs[k]));
        with_dirs(with_dir(dirs, next), cs, k + 1, next)
    }
}

/// The device `d` registered at path `p`, with the directories above it.
pub open spec fn registered<D>(st: DevState<D>, p: Seq<Seq<char>>, d: D) -> (
    DevState<D>,
    Result<(), DevFsError>,
) {
    if path::root_path(p) {
        (st, Err(DevFsError::InvalidPath))
    } else if st.paths.contains(p) || st.dirs.contains(p) {
        (st, Err(DevFsError::AlreadyExists))
    } else {
        let i = order::place(st.paths, p, 0);
        (
            DevState {
                dirs: with_dirs(with_dir(st.dirs, Seq::empty()), p.drop_last(), 0, Seq::empty()),
                paths: st.paths.insert(i, p),
                devices: st.devices.insert(i, d),
            },
            Ok(()),
        )
    }
}

/// The device at path `p` taken out. Its directories stay.
pub open spec fn unregistered<D>(st: DevState<D>, p: Seq<Seq<char>>) -> (
    DevState<D>,
    Result<(), DevFsError>,
) {
    match slot(st, p) {
        None => (st, Err(DevFsError::NotFound)),
        Some(i) => (
            DevState { paths: st.paths.remove(i), devices: st.devices.remove(i), ..st },
            Ok(()),
        ),
    }
}

/// Whether `p` lies directly in `base`.
pub open spec fn directly_in(base: Seq<Seq<char>>, p: Seq<Seq<char>>) -> bool {
    path::has_prefix(p, base) && p.len() == base.len() + 1
}

/// The last component of a path.
pub open spec fn last_name(p: Seq<Seq<char>>) -> Seq<char> {
    if path::root_path(p) {
        Seq::empty()
    } else {
        p.last()
    }
}

/// The name a directory is shown under.
pub open spec fn dir_name(p: Seq<Seq<char>>) -> Seq<char> {
    if last_name(p).len() == 0 {
        seq!['/']
    } else {
        last_name(p)
    }
}

/// What is said of a device.
pub open spec fn device_file<D: DevFsDevice>(p: Seq<Seq<char>>, d: D) -> FileView {
    FileView {
        name: last_name(p),
        kind: FileKind::Special,
        size: d.shown_size(),
        attrs: types::no_attrs(),
        created: None,
        accessed: None,
        modified: None,
    }
}

/// The directories directly in `base`, among the first `n`.
pub open spec fn sub_dirs(dirs: Seq<Seq<Seq<char>>>, base: Seq<Seq<char>>, n: int) -> Seq<FileView>
    decreases n,
{
    if n <= 0 {
        Seq::empty()
    } else if directly_in(base, dirs[n - 1]) {
        sub_dirs(dirs, base, n - 1).push(types::synthetic_dir_view(dir_name(dirs[n - 1])))
    } else {
        sub_dirs(dirs, base, n - 1)
    }
}

/// The devices directly in `base`, among the first `n`.
pub open spec fn sub_devices<D: DevFsDevice>(st: DevState<D>, base: Seq<Seq<char>>, n: int) -> Seq<
    FileView,
>
    decreases n,
{
    if n <= 0 {
        Seq::empty()
    } else if directly_in(base, st.paths[n - 1]) {
        sub_devices(st, base, n - 1).push(device_file(st.paths[n - 1], st.devices[n - 1]))
    } else {
        sub_devices(st, base, n - 1)
    }
}

/// What a directory holds: directories first, then devices.
pub open spec fn listed<D: DevFsDevice>(st: DevState<D>, base: Seq<Seq<char>>) -> Result<
    Seq<FileView>,
    Error,
> {
    if !st.dirs.contains(base) {
        Err(Error::NotADir)
    } else {
        Ok(
            sub_dirs(st.dirs, base, st.dirs.len() as int) + sub_devices(
                st,
                base,
                st.paths.len() as int,
            ),
        )
    }
}

/// Why there is no device at `p`.
pub open spec fn no_device<D>(st: DevState<D>, p: Seq<Seq<char>>) -> Error {
    if st.dirs.contains(p) {
        Error::NotAFile
    } else {
        Error::FileNotFound
    }
}

/// Whether `b` is `a` but for the device at position `i`.
pub open spec fn same_but<D>(a: DevState<D>, b: DevState<D>, i: int) -> bool {
    &&& b.dirs == a.dirs
    &&& b.paths == a.paths
    &&& b.devices == a.devices.update(i, b.devices[i])
}

/// How many devices and directories there are, as far as 64 bits can say.
pub open spec fn entry_count<D>(st: DevState<D>) -> nat {
    if st.paths.len() + st.dirs.len() > u64::MAX {
        u64::MAX as nat
    } else {
        st.paths.len() + st.dirs.len()
    }
}

/// The label of the registry: `dev`, then zeros.
pub open spec fn label() -> Seq<u8> {
    seq![100u8, 101u8, 118u8] + bytes::zeros(61)
}

// ---- Laws ---------------------------------------------------------------------------

/// What holds of the registry: both lists are in path order, every device is sound,
/// there is a root, and no device stands at it.
pub open spec fn valid<D: DevFsDevice>(st: DevState<D>) -> bool {
    &&& order::ascending(st.dirs)
    &&& order::ascending(st.paths)
    &&& st.paths.len() == st.devices.len()
    &&& st.dirs.contains(Seq::empty())
    &&& forall|i: int| 0 <= i < st.paths.len() ==> !path::root_path(#[trigger] st.paths[i])
    &&& forall|i: int| 0 <= i < st.devices.len() ==> (#[trigger] st.devices[i]).device_inv()
}

proof fn lemma_with_dir(dirs: Seq<Seq<Seq<char>>>, p: Seq<Seq<char>>)
    requires
        order::ascending(dirs),
    ensures
        order::ascending(with_dir(dirs, p)),
        with_dir(dirs, p).contains(p),
        forall|q: Seq<Seq<char>>| #[trigger] dirs.contains(q) ==> with_dir(dirs, p).contains(q),
{
    order::place_is_right(dirs, p);
    if !dirs.contains(p) {
        let n = order::place(dirs, p, 0);
        let t = dirs.insert(n, p);
        assert(t[n] == p);
        assert forall|q: Seq<Seq<char>>| #[trigger] dirs.contains(q) implies t.contains(q) by {
            let j = choose|j: int| 0 <= j < dirs.len() && dirs[j] == q;
            assert(t[if j < n { j } else { j + 1 }] == q);
        }
    }
}

proof fn lemma_with_dirs(
    dirs: Seq<Seq<Seq<char>>>,
    cs: Seq<Seq<char>>,
    k: int,
    at: Seq<Seq<char>>,
)
    requires
        order::ascending(dirs),
        0 <= k,
    ensures
        order::ascending(with_dirs(dirs, cs, k, at)),
        forall|q: Seq<Seq<char>>| #[trigger]
            dirs.contains(q) ==> with_dirs(dirs, cs, k, at).contains(q),
    decreases cs.len() - k,
{
    if k < cs.len() {
        let next = path::normalized(at + path::split(cs[k]));
        lemma_with_dir(dirs, next);
        lemma_with_dirs(with_dir(dirs, next), cs, k + 1, next);
    }
}

/// A registration that succeeds is found by its path, leaves every other device where it
/// was, and keeps the registry sound; registering the same path again is refused.
pub proof fn registered_is_found<D: DevFsDevice>(st: DevState<D>, p: Seq<Seq<char>>, d: D, e: D)
    requires
        valid(st),
        d.device_inv(),
        registered(st, p, d).1 is Ok,
    ensures
        ({
            let s = registered(st, p, d).0;
            &&& valid(s)
            &&& lookup(s, p) == Some(d)
            &&& forall|q: Seq<Seq<char>>| q != p ==> #[trigger] lookup(s, q) == lookup(st, q)
            &&& registered(s, p, e) == (s, Err::<(), DevFsError>(DevFsError::AlreadyExists))
        }),
{
    let s = registered(st, p, d).0;
    let n = order::place(st.paths, p, 0);
    order::place_is_right(st.paths, p);
    lemma_with_dir(st.dirs, Seq::empty());
    lemma_with_dirs(with_dir(st.dirs, Seq::empty()), p.drop_last(), 0, Seq::empty());
    assert(s.paths[n] == p);
    assert(s.paths.contains(p));
    order::place_is_right(s.paths, p);
    lemma_one_place(s.paths, p, n);
    assert forall|i: int| 0 <= i < s.paths.len() implies !path::root_path(
        #[trigger] s.paths[i],
    ) by {
        if i < n {
            assert(s.paths[i] == st.paths[i]);
        } else if i > n {
            assert(s.paths[i] == st.paths[i - 1]);
        }
    }
    assert forall|i: int| 0 <= i < s.devices.len() implies (
    #[trigger] s.devices[i]).device_inv() by {
        if i < n {
            assert(s.devices[i] == st.devices[i]);
        } else if i > n {
            assert(s.devices[i] == st.devices[i - 1]);
        }
    }
    assert forall|q: Seq<Seq<char>>| q != p implies #[trigger] lookup(s, q) == lookup(st, q) by {
        order::place_is_right(s.paths, q);
        order::place_is_right(st.paths, q);
        if st.paths.contains(q) {
            let i = order::place(st.paths, q, 0);
            let j = if i < n {
                i
            } else {
                i + 1
            };
            assert(s.paths[j] == q);
            lemma_one_place(s.paths, q, j);
        } else if s.paths.contains(q) {
            let j = choose|j: int| 0 <= j < s.paths.len() && s.paths[j] == q;
            assert(st.paths[if j < n { j } else { j - 1 }] == q);
        }
    }
}

proof fn lemma_one_place(s: Seq<Seq<Seq<char>>>, p: Seq<Seq<char>>, i: int)
    requires
        order::ascending(s),
        0 <= i < s.len(),
        s[i] == p,
    ensures
        order::place(s, p, 0) == i,
        s.contains(p),
{
    assert(s.contains(s[i]));
    order::place_is_right(s, p);
    let n = order::place(s, p, 0);
    order::paths_are_ordered(p, p, p);
    if n < i {
        assert(order::before(s[n], s[i]));
    } else if i < n {
        assert(order::before(s[i], s[n]));
    }
}

/// A device taken out is not found any more; the others are, as before.
pub proof fn unregistered_is_gone<D: DevFsDevice>(st: DevState<D>, p: Seq<Seq<char>>)
    requires
        valid(st),
        unregistered(st, p).1 is Ok,
    ensures
        ({
            let s = unregistered(st, p).0;
            &&& valid(s)
            &&& lookup(s, p) is None
            &&& forall|q: Seq<Seq<char>>| q != p ==> #[trigger] lookup(s, q) == lookup(st, q)
        }),
{
    let s = unregistered(st, p).0;
    order::place_is_right(st.paths, p);
    let n = order::place(st.paths, p, 0);
    order::removal_is_right(st.paths, n);
    assert forall|i: int| 0 <= i < s.paths.len() implies !path::root_path(
        #[trigger] s.paths[i],
    ) by {
        if i < n {
            assert(s.paths[i] == st.paths[i]);
        } else {
            assert(s.paths[i] == st.paths[i + 1]);
        }
    }
    assert forall|i: int| 0 <= i < s.devices.len() implies (
    #[trigger] s.devices[i]).device_inv() by {
        if i < n {
            assert(s.devices[i] == st.devices[i]);
        } else {
            assert(s.devices[i] == st.devices[i + 1]);
        }
    }
    assert forall|q: Seq<Seq<char>>| q != p implies #[trigger] lookup(s, q) == lookup(st, q) by {
        order::place_is_right(s.paths, q);
        order::place_is_right(st.paths, q);
        if st.paths.contains(q) {
            let i = order::place(st.paths, q, 0);
            let j = if i < n {
                i
            } else {
                i - 1
            };
            assert(s.paths[j] == q);
            lemma_one_place(s.paths, q, j);
        } else if s.paths.contains(q) {
            let j = choose|j: int| 0 <= j < s.paths.len() && s.paths[j] == q;
            assert(st.paths[if j < n { j } else { j + 1 }] == q);
        }
    }
}

proof fn lemma_split_one(c: Seq<char>, i: int)
    requires
        path::slash_free(c),
        0 <= i <= c.len(),
    ensures
        path::split_from(c, 0, i, Seq::empty()) == seq![c],
    decreases c.len() - i,
{
    if i < c.len() {
        assert(c[i] != '/');
        lemma_split_one(c, i + 1);
    } else {
        assert(c.subrange(0, i) =~= c);
        assert(Seq::<Seq<char>>::empty().push(c) =~= seq![c]);
    }
}

proof fn lemma_prefixes(dirs: Seq<Seq<Seq<char>>>, cs: Seq<Seq<char>>, k: int)
    requires
        order::ascending(dirs),
        0 <= k <= cs.len(),
        path::all_plain(cs),
        forall|i: int| 0 <= i < cs.len() ==> path::slash_free(#[trigger] cs[i]),
    ensures
        forall|n: int|
            k < n <= cs.len() ==> with_dirs(dirs, cs, k, cs.take(k)).contains(#[trigger] cs.take(n)),
    decreases cs.len() - k,
{
    if k < cs.len() {
        let at = cs.take(k);
        assert(path::slash_free(cs[k]));
        lemma_split_one(cs[k], 0);
        let next = cs.take(k + 1);
        assert(at + seq![cs[k]] =~= next);
        assert(path::all_plain(next)) by {
            assert forall|i: int| 0 <= i < next.len() implies path::plain(#[trigger] next[i]) by {
                assert(next[i] == cs[i]);
            }
        }
        path::plain_is_normal(next);
        lemma_with_dir(dirs, next);
        lemma_with_dirs(with_dir(dirs, next), cs, k + 1, next);
        lemma_prefixes(with_dir(dirs, next), cs, k + 1);
        assert(with_dir(dirs, next).contains(next));
    }
}

/// Every directory on the way to a registered device exists.
pub proof fn parents_are_directories<D: DevFsDevice>(
    st: DevState<D>,
    p: Seq<Seq<char>>,
    d: D,
    n: int,
)
    requires
        valid(st),
        registered(st, p, d).1 is Ok,
        path::all_plain(p),
        forall|i: int| 0 <= i < p.len() ==> path::slash_free(#[trigger] p[i]),
        0 <= n < p.len(),
    ensures
        registered(st, p, d).0.dirs.contains(p.take(n)),
{
    let cs = p.drop_last();
    let dirs = with_dir(st.dirs, Seq::empty());
    lemma_with_dir(st.dirs, Seq::empty());
    assert(cs.take(0) =~= Seq::empty());
    assert(path::all_plain(cs)) by {
        assert forall|i: int| 0 <= i < cs.len() implies path::plain(#[trigger] cs[i]) by {
            assert(cs[i] == p[i]);
        }
    }
    assert forall|i: int| 0 <= i < cs.len() implies path::slash_free(#[trigger] cs[i]) by {
        assert(cs[i] == p[i]);
    }
    lemma_prefixes(dirs, cs, 0);
    lemma_with_dirs(dirs, cs, 0, Seq::empty());
    assert(p.take(n) =~= cs.take(n));
    if n == 0 {
        assert(dirs.contains(Seq::empty()));
    }
}

/// Whether every component of a path is an ordinary name.
pub open spec fn well_named(p: Seq<Seq<char>>) -> bool {
    forall|i: int| 0 <= i < p.len() ==> path::plain(#[trigger] p[i]) && path::slash_free(p[i])
}

proof fn lemma_directly(base: Seq<Seq<char>>, q: Seq<Seq<char>>)
    requires
        well_named(q),
    ensures
        directly_in(base, q) <==> q.len() == base.len() + 1 && q.drop_last() == base,
        q.len() > 0 ==> last_name(q) == q.last() && dir_name(q) == q.last(),
{
    if q.len() == base.len() + 1 {
        assert(q.take(base.len() as int) =~= q.drop_last());
    }
    if q.len() > 0 {
        let c = q[q.len() - 1];
        assert(path::plain(c) && path::slash_free(c));
        if q.len() == 1 && c == seq!['/'] {
            assert(c[0] == '/');
        }
    }
}

proof fn lemma_sub_dirs(dirs: Seq<Seq<Seq<char>>>, base: Seq<Seq<char>>, n: int)
    requires
        0 <= n <= dirs.len(),
        forall|i: int| 0 <= i < dirs.len() ==> well_named(#[trigger] dirs[i]),
    ensures
        sub_dirs(dirs, base, n) == dirs.take(n).filter(
            |q: Seq<Seq<char>>| q.len() == base.len() + 1 && q.drop_last() == base,
        ).map_values(|q: Seq<Seq<char>>| types::synthetic_dir_view(q.last())),
    decreases n,
{
    let inside = |q: Seq<Seq<char>>| q.len() == base.len() + 1 && q.drop_last() == base;
    let shown = |q: Seq<Seq<char>>| types::synthetic_dir_view(q.last());
    let t = dirs.take(n);
    reveal(Seq::filter);
    if n > 0 {
        lemma_sub_dirs(dirs, base, n - 1);
        let q = dirs[n - 1];
        assert(t.drop_last() =~= dirs.take(n - 1));
        assert(t.last() == q);
        lemma_directly(base, q);
        let f = dirs.take(n - 1).filter(inside);
        assert(f.push(q).map_values(shown) =~= f.map_values(shown).push(shown(q)));
    }
    assert(sub_dirs(dirs, base, n) =~= t.filter(inside).map_values(shown));
}

proof fn lemma_sub_devices<D: DevFsDevice>(st: DevState<D>, base: Seq<Seq<char>>, n: int)
    requires
        0 <= n <= st.paths.len(),
        st.paths.len() == st.devices.len(),
        forall|i: int| 0 <= i < st.paths.len() ==> well_named(#[trigger] st.paths[i]),
    ensures
        sub_devices(st, base, n) == st.paths.zip_with(st.devices).take(n).filter(
            |e: (Seq<Seq<char>>, D)| e.0.len() == base.len() + 1 && e.0.drop_last() == base,
        ).map_values(
            |e: (Seq<Seq<char>>, D)|
                FileView {
                    kind: FileKind::Special,
                    size: e.1.shown_size(),
                    ..types::synthetic_dir_view(e.0.last())
                },
        ),
    decreases n,
{
    let inside = |e: (Seq<Seq<char>>, D)|
        e.0.len() == base.len() + 1 && e.0.drop_last() == base;
    let shown = |e: (Seq<Seq<char>>, D)|
        FileView {
            kind: FileKind::Special,
            size: e.1.shown_size(),
            ..types::synthetic_dir_view(e.0.last())
        };
    let all = st.paths.zip_with(st.devices);
    let t = all.take(n);
    reveal(Seq::filter);
    if n > 0 {
        lemma_sub_devices(st, base, n - 1);
        let e = all[n - 1];
        assert(e == (st.paths[n - 1], st.devices[n - 1]));
        assert(t.drop_last() =~= all.take(n - 1));
        assert(t.last() == e);
        lemma_directly(base, e.0);
        let f = all.take(n - 1).filter(inside);
        assert(f.push(e).map_values(shown) =~= f.map_values(shown).push(shown(e)));
    }
    assert(sub_devices(st, base, n) =~= t.filter(inside).map_values(shown));
}

/// A directory lists the directories that lie in it, and behind them the devices that lie in
/// it with their sizes, each under its last name and in path order: nothing is passed over
/// and nothing deeper or elsewhere is shown. What is no directory is not listed.
pub proof fn directory_lists_what_lies_in_it<D: DevFsDevice>(
    st: DevState<D>,
    base: Seq<Seq<char>>,
)
    requires
        valid(st),
        forall|i: int| 0 <= i < st.dirs.len() ==> well_named(#[trigger] st.dirs[i]),
        forall|i: int| 0 <= i < st.paths.len() ==> well_named(#[trigger] st.paths[i]),
    ensures
        !st.dirs.contains(base) ==> listed(st, base) == Err::<Seq<FileView>, Error>(
            Error::NotADir,
        ),
        st.dirs.contains(base) ==> listed(st, base) == Ok::<Seq<FileView>, Error>(
            st.dirs.filter(
                |q: Seq<Seq<char>>| q.len() == base.len() + 1 && q.drop_last() == base,
            ).map_values(|q: Seq<Seq<char>>| types::synthetic_dir_view(q.last()))
                + st.paths.zip_with(st.devices).filter(
                |e: (Seq<Seq<char>>, D)| e.0.len() == base.len() + 1 && e.0.drop_last() == base,
            ).map_values(
                |e: (Seq<Seq<char>>, D)|
                    FileView {
                        kind: FileKind::Special,
                        size: e.1.shown_size(),
                        ..types::synthetic_dir_view(e.0.last())
                    },
            ),
        ),
{
    let n = st.dirs.len() as int;
    let m = st.paths.len() as int;
    lemma_sub_dirs(st.dirs, base, n);
    lemma_sub_devices(st, base, m);
    assert(st.dirs.take(n) =~= st.dirs);
    assert(st.paths.zip_with(st.devices).take(m) =~= st.paths.zip_with(st.devices));
}

// ---- Doing it -----------------------------------------------------------------------

impl<D: DevFsDevice> DevFs<D> {
    /// What holds between operations.
    pub open spec fn wf(&self) -> bool {
        valid(self@)
    }

    /// An empty registry: nothing but the root directory.
    pub fn new() -> (r: DevFs<D>)
        ensures
            r.wf(),
            r@ == (DevState::<D> {
                dirs: seq![Seq::empty()],
                paths: Seq::empty(),
                devices: Seq::empty(),
            }),
    {
        let root = Path::root();
        let r = DevFs { directories: vec![root], devices: Vec::new() };
        proof {
            assert(r@.dirs =~= seq![Seq::empty()]);
            assert(r@.dirs[0] == Seq::<Seq<char>>::empty());
            assert(r@.paths =~= Seq::empty());
            assert(r@.devices =~= Seq::<D>::empty());
        }
        r
    }

    /// The place of a path among the directories.
    fn dir_place(&self, p: &Path) -> (n: usize)
        ensures
            n == order::place(self@.dirs, p@, 0),
            n <= self.directories@.len(),
    {
        let mut n: usize = 0;
        while n < self.directories.len() && path_less(&self.directories[n], p)
            invariant
                n <= self.directories@.len(),
                order::place(self@.dirs, p@, 0) == order::place(self@.dirs, p@, n as int),
            decreases self.directories@.len() - n,
        {
            n = n + 1;
        }
        n
    }

    /// The place of a path among the devices.
    fn device_place(&self, p: &Path) -> (n: usize)
        ensures
            n == order::place(self@.paths, p@, 0),
            n <= self.devices@.len(),
    {
        let mut n: usize = 0;
        while n < self.devices.len() && path_less(&self.devices[n].path, p)
            invariant
                n <= self.devices@.len(),
                order::place(self@.paths, p@, 0) == order::place(self@.paths, p@, n as int),
            decreases self.devices@.len() - n,
        {
            n = n + 1;
        }
        n
    }

    /// Whether a path is a directory.
    pub fn is_directory(&self, p: &Path) -> (r: bool)
        requires
            self.wf(),
        ensures
            r == self@.dirs.contains(p@),
    {
        proof {
            order::place_is_right(self@.dirs, p@);
        }
        let n: usize = self.dir_place(p);
        n < self.directories.len() && self.directories[n].same(p)
    }

    /// Where the device at a path stands.
    pub fn get_device(&self, p: &Path) -> (r: Option<usize>)
        requires
            self.wf(),
        ensures
            match r {
                Some(i) => slot(self@, p@) == Some(i as int) && i < self.devices@.len(),
                None => slot(self@, p@) is None,
            },
    {
        proof {
            order::place_is_right(self@.paths, p@);
        }
        let n: usize = self.device_place(p);
        if n < self.devices.len() && self.devices[n].path.same(p) {
            Some(n)
        } else {
            None
        }
    }

    fn add_directory(&mut self, p: Path)
        requires
            old(self).wf(),
        ensures
            final(self).wf(),
            final(self)@ == (DevState { dirs: with_dir(old(self)@.dirs, p@), ..old(self)@ }),
    {
        proof {
            order::place_is_right(self@.dirs, p@);
            lemma_with_dir(self@.dirs, p@);
        }
        let n: usize = self.dir_place(&p);
        if n < self.directories.len() && self.directories[n].same(&p) {
            return;
        }
        let ghost d0 = self.directories@;
        self.directories.insert(n, p);
        assert(self@.dirs =~= path_views(d0).insert(n as int, p@));
        assert(self@ =~= (DevState { dirs: with_dir(old(self)@.dirs, p@), ..old(self)@ }));
    }

    /// Makes sure of every directory on the way down a path.
    pub fn ensure_directory(&mut self, p: &Path)
        requires
            old(self).wf(),
        ensures
            final(self).wf(),
            final(self)@ == (DevState {
                dirs: with_dirs(with_dir(old(self)@.dirs, Seq::empty()), p@, 0, Seq::empty()),
                ..old(self)@
            }),
    {
        let ghost st = self@;
        let mut current = Path::root();
        let root = Path::root();
        self.add_directory(root);
        let cs = p.components();
        let mut k: usize = 0;
        while k < cs.len()
            invariant
                k <= cs@.len(),
                p@ == path::names(cs@),
                self.wf(),
                self@.paths == st.paths,
                self@.devices == st.devices,
                with_dirs(with_dir(st.dirs, Seq::empty()), p@, 0, Seq::empty()) == with_dirs(
                    self@.dirs,
                    p@,
                    k as int,
                    current@,
                ),
            decreases cs@.len() - k,
        {
            let next = current.join(cs[k].as_str()).normalize();
            self.add_directory(next.duplicate());
            current = next;
            k = k + 1;
        }
        assert(self@ =~= (DevState {
            dirs: with_dirs(with_dir(st.dirs, Seq::empty()), p@, 0, Seq::empty()),
            ..st
        }));
    }

    /// Registers a device at a normalized path.
    pub fn insert_device(&mut self, p: Path, d: D) -> (r: Result<(), DevFsError>)
        requires
            old(self).wf(),
            d.device_inv(),
        ensures
            final(self).wf(),
            (final(self)@, r) == registered(old(self)@, p@, d),
    {
        if p.is_root() {
            return Err(DevFsError::InvalidPath);
        }
        if self.get_device(&p).is_some() || self.is_directory(&p) {
            return Err(DevFsError::AlreadyExists);
        }
        let ghost st = self@;
        let parent = p.parent_or_root();
        assert(parent@ == p@.drop_last());
        self.ensure_directory(&parent);
        let n: usize = self.device_place(&p);
        let ghost mid = *self;
        proof {
            registered_is_found(st, p@, d, d);
        }
        self.devices.insert(n, DeviceNode { path: p, device: d });
        proof {
            assert(self@.dirs == mid@.dirs);
            assert(self@.paths =~= st.paths.insert(n as int, p@));
            assert(self@.devices =~= st.devices.insert(n as int, d));
            assert(self@ == registered(st, p@, d).0);
        }
        Ok(())
    }

    /// Takes the device at a normalized path out.
    pub fn remove_device(&mut self, p: &Path) -> (r: Result<(), DevFsError>)
        requires
            old(self).wf(),
        ensures
            final(self).wf(),
            (final(self)@, r) == unregistered(old(self)@, p@),
    {
        let ghost st = self@;
        match self.get_device(p) {
            Some(n) => {
                self.devices.remove(n);
                proof {
                    assert(self@.paths =~= st.paths.remove(n as int));
                    assert(self@.devices =~= st.devices.remove(n as int));
                    assert(self@ =~= unregistered(st, p@).0);
                    unregistered_is_gone(st, p@);
                }
                Ok(())
            },
            None => Err(DevFsError::NotFound),
        }
    }
}

/// Registers a device.
pub fn register_device<D: DevFsDevice>(fs: &mut DevFs<D>, p: &Path, d: D) -> (r: Result<
    (),
    DevFsError,
>)
    requires
        old(fs).wf(),
        d.device_inv(),
    ensures
        final(fs).wf(),
        (final(fs)@, r) == registered(old(fs)@, path::normalized(p@), d),
{
    fs.insert_device(p.normalize(), d)
}

/// Registers a device at a path given as text.
pub fn register_device_str<D: DevFsDevice>(fs: &mut DevFs<D>, p: &str, d: D) -> (r: Result<
    (),
    DevFsError,
>)
    requires
        old(fs).wf(),
        d.device_inv(),
    ensures
        final(fs).wf(),
        (final(fs)@, r) == registered(
            old(fs)@,
            path::normalized(path::split(p@)),
            d,
        ),
{
    match Path::parse(p) {
        Ok(q) => register_device(fs, &q, d),
        Err(_) => Err(DevFsError::InvalidPath),
    }
}

/// Where the device at a path inside the registry stands.
pub fn lookup_device<D: DevFsDevice>(fs: &DevFs<D>, p: &Path) -> (r: Option<usize>)
    requires
        fs.wf(),
    ensures
        match r {
            Some(i) => slot(fs@, path::normalized(p@)) == Some(i as int) && i < fs.devices@.len(),
            None => slot(fs@, path::normalized(p@)) is None,
        },
{
    let q = p.normalize();
    fs.get_device(&q)
}

/// The path `/dev`.
pub open spec fn dev_prefix() -> Seq<Seq<char>> {
    seq![seq!['d', 'e', 'v']]
}

/// No device is found at `/dev` itself.
pub proof fn dev_itself_is_no_device<D: DevFsDevice>(st: DevState<D>)
    requires
        valid(st),
    ensures
        slot(st, path::normalized(dev_prefix().skip(1))) is None,
{
    let none = Seq::<Seq<char>>::empty();
    assert(dev_prefix().skip(1) =~= none);
    path::plain_is_normal(none);
    if st.paths.contains(none) {
        let i = choose|i: int| 0 <= i < st.paths.len() && st.paths[i] == none;
        assert(path::root_path(st.paths[i]));
    }
}

/// Where the device at a full path stands, which has to begin with `/dev`.
pub fn try_lookup_from_full_path<D: DevFsDevice>(fs: &DevFs<D>, p: &Path) -> (r: Option<usize>)
    requires
        fs.wf(),
    ensures
        match r {
            Some(i) => path::has_prefix(p@, dev_prefix()) && slot(
                fs@,
                path::normalized(p@.skip(1)),
            ) == Some(i as int) && i < fs.devices@.len(),
            None => !path::has_prefix(p@, dev_prefix()) || slot(
                fs@,
                path::normalized(p@.skip(1)),
            ) is None,
        },
{
    let name = String::from_str("dev");
    let prefix = Path::from_components(vec![name]);
    proof {
        reveal_strlit("dev");
        assert(name@ =~= seq!['d', 'e', 'v']);
        assert(prefix@ =~= dev_prefix());
    }
    if !p.starts_with(&prefix) {
        return None;
    }
    let relative = p.strip_prefix(&prefix);
    assert(relative@ =~= p@.skip(1));
    lookup_device(fs, &relative)
}

/// Takes a device out.
pub fn unregister_device<D: DevFsDevice>(fs: &mut DevFs<D>, p: &Path) -> (r: Result<
    (),
    DevFsError,
>)
    requires
        old(fs).wf(),
    ensures
        final(fs).wf(),
        (final(fs)@, r) == unregistered(old(fs)@, path::normalized(p@)),
{
    let q = p.normalize();
    fs.remove_device(&q)
}

/// Takes out the device at a path given as text.
pub fn unregister_device_str<D: DevFsDevice>(fs: &mut DevFs<D>, p: &str) -> (r: Result<
    (),
    DevFsError,
>)
    requires
        old(fs).wf(),
    ensures
        final(fs).wf(),
        (final(fs)@, r) == unregistered(
            old(fs)@,
            path::normalized(path::split(p@)),
        ),
{
    match Path::parse(p) {
        Ok(q) => unregister_device(fs, &q),
        Err(_) => Err(DevFsError::InvalidPath),
    }
}

// ---- As a file system ---------------------------------------------------------------

/// The name a directory is shown under.
fn shown_dir_name(p: &Path) -> (r: String)
    ensures
        r@ == dir_name(p@),
{
    let name = p.filename();
    if name.as_str().unicode_len() == 0 {
        let r = String::from_str("/");
        proof {
            reveal_strlit("/");
            assert(r@ =~= seq!['/']);
        }
        r
    } else {
        name
    }
}

impl<D: DevFsDevice> DevFs<D> {
    /// What is said of the device at position `i`.
    fn file_entry(&self, i: usize) -> (r: File)
        requires
            self.wf(),
            i < self.devices@.len(),
        ensures
            r@ == device_file(self@.paths[i as int], self@.devices[i as int]),
    {
        assert(self@.devices[i as int].device_inv());
        File {
            name: self.devices[i].path.filename(),
            kind: FileKind::Special,
            size: self.devices[i].device.size(),
            attrs: FileAttrs::none(),
            created: None,
            accessed: None,
            modified: None,
        }
    }

    /// Why there is no device at a path.
    fn missing(&self, p: &Path) -> (r: Error)
        requires
            self.wf(),
        ensures
            r == no_device(self@, p@),
    {
        if self.is_directory(p) {
            Error::NotAFile
        } else {
            Error::FileNotFound
        }
    }
}

/// Whether a read of `count` bytes at `offset` may lead device `i` from `pre` to `post`, with the device's reply
/// passed on as `r`.
pub open spec fn read_through<D: DevFsDevice>(
    pre: DevState<D>,
    i: int,
    offset: usize,
    count: usize,
    post: DevState<D>,
    r: Result<Vec<u8>, Error>,
) -> bool {
    exists|x: Result<Vec<u8>, DevFsError>|
        #[trigger] D::read_step(
            &pre.devices[i],
            offset,
            count,
            &post.devices[i],
            x,
        ) && r == device::passed_on(x)
}

/// Whether a write of `data` at `offset` may lead device `i` from `pre` to `post`, with the device's reply
/// passed on as `r`.
pub open spec fn write_through<D: DevFsDevice>(
    pre: DevState<D>,
    i: int,
    offset: usize,
    data: Seq<u8>,
    post: DevState<D>,
    r: Result<u64, Error>,
) -> bool {
    exists|x: Result<usize, DevFsError>|
        #[trigger] D::write_step(
            &pre.devices[i],
            offset,
            data,
            &post.devices[i],
            x,
        ) && r == device::passed_on_count(x)
}

/// Whether a request may lead device `i` from `pre` to `post`, with the device's reply
/// passed on as `r`.
pub open spec fn ioctl_through<D: DevFsDevice>(
    pre: DevState<D>,
    i: int,
    request: u64,
    arg: u64,
    arg_len: usize,
    post: DevState<D>,
    r: Result<u64, Error>,
) -> bool {
    exists|x: Result<u64, DevFsError>|
        #[trigger] D::ioctl_step(
            &pre.devices[i],
            request,
            arg,
            arg_len,
            &post.devices[i],
            x,
        ) && r == device::passed_on(x)
}

/// Whether asking what the device is ready for may lead device `i` from `pre` to `post`, with the device's reply
/// passed on as `r`.
pub open spec fn poll_through<D: DevFsDevice>(
    pre: DevState<D>,
    i: int,
    post: DevState<D>,
    r: Result<PollState, Error>,
) -> bool {
    exists|x: Result<PollState, DevFsError>|
        #[trigger] D::poll_step(
            &pre.devices[i],
            &post.devices[i],
            x,
        ) && r == device::passed_on(x)
}

/// Whether asking for memory to map may lead device `i` from `pre` to `post`, with the device's reply
/// passed on as `r`.
pub open spec fn mmap_through<D: DevFsDevice>(
    pre: DevState<D>,
    i: int,
    offset: usize,
    length: usize,
    post: DevState<D>,
    r: Result<MmapRegion, Error>,
) -> bool {
    exists|x: Result<MmapRegion, DevFsError>|
        #[trigger] D::mmap_step(
            &pre.devices[i],
            offset,
            length,
            &post.devices[i],
            x,
        ) && r == device::passed_on(x)
}

/// Changing one device leaves the registry sound.
proof fn lemma_same_but<D: DevFsDevice>(a: DevFs<D>, b: DevFs<D>, i: int)
    requires
        a.wf(),
        0 <= i < a.devices@.len(),
        b.directories@ == a.directories@,
        b.devices@.len() == a.devices@.len(),
        b.devices@[i].path == a.devices@[i].path,
        b.devices@[i].device.device_inv(),
        b.devices@ == a.devices@.update(i, b.devices@[i]),
    ensures
        b.wf(),
        same_but(a@, b@, i),
{
    assert(b@.paths =~= a@.paths);
    assert(b@.devices =~= a@.devices.update(i, b@.devices[i]));
    assert forall|j: int| 0 <= j < b@.devices.len() implies (
    #[trigger] b@.devices[j]).device_inv() by {
        if j != i {
            assert(b@.devices[j] == a@.devices[j]);
        }
    }
}

impl<D: DevFsDevice> FileSystem for DevFs<D> {
    open spec fn inv(&self) -> bool {
        self.wf()
    }

    fn list_files(&mut self, path: &Path) -> (r: Result<Vec<File>, Error>)
        ensures
            *final(self) == *old(self),
            types::files_of(r) == listed(old(self)@, path::normalized(path@)),
    {
        let base = path.normalize();
        if !self.is_directory(&base) {
            return Err(Error::NotADir);
        }
        let mut out: Vec<File> = Vec::new();
        let mut i: usize = 0;
        assert(types::file_views(out@) =~= Seq::empty());
        while i < self.directories.len()
            invariant
                i <= self.directories@.len(),
                types::file_views(out@) == sub_dirs(self@.dirs, base@, i as int),
            decreases self.directories@.len() - i,
        {
            let ghost before = types::file_views(out@);
            if base.is_direct_parent(&self.directories[i]) {
                out.push(File::synthetic_dir(shown_dir_name(&self.directories[i])));
                assert(types::file_views(out@) =~= before.push(out@.last()@));
            }
            i = i + 1;
        }
        let ghost dirs = types::file_views(out@);
        let mut j: usize = 0;
        assert(dirs + Seq::<FileView>::empty() =~= dirs);
        while j < self.devices.len()
            invariant
                self.wf(),
                j <= self.devices@.len(),
                types::file_views(out@) == dirs + sub_devices(self@, base@, j as int),
            decreases self.devices@.len() - j,
        {
            let ghost before = types::file_views(out@);
            if base.is_direct_parent(&self.devices[j].path) {
                let f = self.file_entry(j);
                out.push(f);
                assert(types::file_views(out@) =~= before.push(f@));
                assert(before.push(f@) =~= dirs + sub_devices(self@, base@, j as int).push(f@));
            }
            j = j + 1;
        }
        Ok(out)
    }

    fn file_info(&mut self, path: &Path) -> (r: Result<File, Error>)
        ensures
            *final(self) == *old(self),
            types::file_view_of(r) == ({
                let p = path::normalized(path@);
                match slot(old(self)@, p) {
                    Some(i) => Ok(device_file(p, old(self)@.devices[i])),
                    None => if old(self)@.dirs.contains(p) {
                        Ok(types::synthetic_dir_view(dir_name(p)))
                    } else {
                        Err(Error::FileNotFound)
                    },
                }
            }),
    {
        let p = path.normalize();
        match self.get_device(&p) {
            Some(i) => {
                proof {
                    order::place_is_right(self@.paths, p@);
                }
                Ok(self.file_entry(i))
            },
            None => if self.is_directory(&p) {
                Ok(File::synthetic_dir(shown_dir_name(&p)))
            } else {
                Err(Error::FileNotFound)
            },
        }
    }

    fn statfs(&mut self) -> (r: Result<StatFs, Error>)
        ensures
            *final(self) == *old(self),
            r matches Ok(s) && s.fs_type@ == "devfs"@ && s.block_size == 0 && s.total_blocks == 0
                && s.free_blocks == 0 && s.total_inodes == entry_count(old(self)@) && s.free_inodes == 0 && s.volume_name@ == label() && s.version
                == 0 && s.block_groups == 0,
    {
        let mut name: Vec<u8> = vec![100u8, 101u8, 118u8];
        let mut z = zero_vec(61);
        name.append(&mut z);
        assert(name@ =~= label());
        let total: u64 = (self.devices.len() as u64).saturating_add(self.directories.len() as u64);
        Ok(
            StatFs {
                fs_type: "devfs",
                block_size: 0,
                total_blocks: 0,
                free_blocks: 0,
                total_inodes: total,
                free_inodes: 0,
                volume_name: name,
                version: 0,
                block_groups: 0,
            },
        )
    }

    /// Reads from the device at `path`. What the device replies is passed on, and no
    /// other device is touched.
    fn read_bytes(&mut self, path: &Path, offset: usize, count: usize) -> (r: Result<
        Vec<u8>,
        Error,
    >)
        ensures
            match slot(old(self)@, path::normalized(path@)) {
                Some(i) => same_but(old(self)@, final(self)@, i) && read_through(
                    old(self)@,
                    i,
                    offset,
                    count,
                    final(self)@,
                    r,
                ),
                None => *final(self) == *old(self) && r == Err::<Vec<u8>, Error>(
                    no_device(old(self)@, path::normalized(path@)),
                ),
            },
    {
        let p = path.normalize();
        match self.get_device(&p) {
            Some(i) => {
                assert(self@.devices[i as int].device_inv());
                let node = &mut self.devices[i];
                let reply = node.device.read(offset, count);
                proof {
                    lemma_same_but(*old(self), *self, i as int);
                    assert(D::read_step(
                        &old(self)@.devices[i as int],
                        offset,
                        count,
                        &self@.devices[i as int],
                        reply,
                    ));
                }
                let r = pass_on(reply);
                assert(read_through(
                    old(self)@,
                    i as int,
                    offset,
                    count,
                    self@,
                    r,
                ));
                r
            },
            None => Err(self.missing(&p)),
        }
    }

    /// Writes to the device at `path`. What the device replies is passed on, and no
    /// other device is touched.
    fn write_bytes(&mut self, path: &Path, offset: usize, data: &[u8], now: u64) -> (r: Result<u64, Error>)
        ensures
            match slot(old(self)@, path::normalized(path@)) {
                Some(i) => same_but(old(self)@, final(self)@, i) && write_through(
                    old(self)@,
                    i,
                    offset,
                    data@,
                    final(self)@,
                    r,
                ),
                None => *final(self) == *old(self) && r == Err::<u64, Error>(
                    no_device(old(self)@, path::normalized(path@)),
                ),
            },
    {
        let p = path.normalize();
        match self.get_device(&p) {
            Some(i) => {
                assert(self@.devices[i as int].device_inv());
                let node = &mut self.devices[i];
                let reply = node.device.write(offset, data);
                proof {
                    lemma_same_but(*old(self), *self, i as int);
                    assert(D::write_step(
                        &old(self)@.devices[i as int],
                        offset,
                        data@,
                        &self@.devices[i as int],
                        reply,
                    ));
                }
                let r = match reply {
                    Ok(n) => Ok(n as u64),
                    Err(e) => Err(Error::from(e)),
                };
                assert(write_through(
                    old(self)@,
                    i as int,
                    offset,
                    data@,
                    self@,
                    r,
                ));
                r
            },
            None => Err(self.missing(&p)),
        }
    }

    /// Passes a request to the device at `path`. What the device replies is passed on, and no
    /// other device is touched.
    fn ioctl(&mut self, path: &Path, request: u64, arg: u64, arg_len: usize) -> (r: Result<
        u64,
        Error,
    >)
        ensures
            match slot(old(self)@, path::normalized(path@)) {
                Some(i) => same_but(old(self)@, final(self)@, i) && ioctl_through(
                    old(self)@,
                    i,
                    request,
                    arg,
                    arg_len,
                    final(self)@,
                    r,
                ),
                None => *final(self) == *old(self) && r == Err::<u64, Error>(
                    Error::FileNotFound,
                ),
            },
    {
        let p = path.normalize();
        match self.get_device(&p) {
            Some(i) => {
                assert(self@.devices[i as int].device_inv());
                let node = &mut self.devices[i];
                let reply = node.device.ioctl(request, arg, arg_len);
                proof {
                    lemma_same_but(*old(self), *self, i as int);
                    assert(D::ioctl_step(
                        &old(self)@.devices[i as int],
                        request,
                        arg,
                        arg_len,
                        &self@.devices[i as int],
                        reply,
                    ));
                }
                let r = pass_on(reply);
                assert(ioctl_through(
                    old(self)@,
                    i as int,
                    request,
                    arg,
                    arg_len,
                    self@,
                    r,
                ));
                r
            },
            None => Err(Error::FileNotFound),
        }
    }

    fn create_file(&mut self, path: &Path, now: u64) -> (r: Result<(), Error>)
        ensures
            *final(self) == *old(self),
            r == Err::<(), Error>(Error::Unsupported),
    {
        Err(Error::Unsupported)
    }

    fn create_dir(&mut self, path: &Path, now: u64) -> (r: Result<(), Error>)
        ensures
            *final(self) == *old(self),
            r == Err::<(), Error>(Error::Unsupported),
    {
        Err(Error::Unsupported)
    }

    fn remove_dir(&mut self, path: &Path, now: u64) -> (r: Result<(), Error>)
        ensures
            *final(self) == *old(self),
            r == Err::<(), Error>(Error::Unsupported),
    {
        Err(Error::Unsupported)
    }

    fn remove_file(&mut self, path: &Path, now: u64) -> (r: Result<(), Error>)
        ensures
            final(self)@ == unregistered(old(self)@, path::normalized(path@)).0,
            r == device::passed_on(unregistered(old(self)@, path::normalized(path@)).1),
    {
        let p = path.normalize();
        let reply = self.remove_device(&p);
        pass_on(reply)
    }

    fn flush(&mut self) -> (r: Result<(), Error>)
        ensures
            *final(self) == *old(self),
            r == Ok::<(), Error>(()),
    {
        Ok(())
    }

    /// Asks what the device at `path` is ready for. What the device replies is passed on, and no
    /// other device is touched.
    fn poll(&mut self, path: &Path) -> (r: Result<PollState, Error>)
        ensures
            match slot(old(self)@, path::normalized(path@)) {
                Some(i) => same_but(old(self)@, final(self)@, i) && poll_through(
                    old(self)@,
                    i,
                    final(self)@,
                    r,
                ),
                None => *final(self) == *old(self) && r == Err::<PollState, Error>(
                    Error::FileNotFound,
                ),
            },
    {
        let p = path.normalize();
        match self.get_device(&p) {
            Some(i) => {
                assert(self@.devices[i as int].device_inv());
                let node = &mut self.devices[i];
                let reply = node.device.poll();
                proof {
                    lemma_same_but(*old(self), *self, i as int);
                    assert(D::poll_step(
                        &old(self)@.devices[i as int],
                        &self@.devices[i as int],
                        reply,
                    ));
                }
                let r = pass_on(reply);
                assert(poll_through(
                    old(self)@,
                    i as int,
                    self@,
                    r,
                ));
                r
            },
            None => Err(Error::FileNotFound),
        }
    }

    /// Asks the device at `path` for memory to map. What the device replies is passed on, and no
    /// other device is touched.
    fn mmap(&mut self, path: &Path, offset: usize, length: usize) -> (r: Result<MmapRegion, Error>)
        ensures
            match slot(old(self)@, path::normalized(path@)) {
                Some(i) => same_but(old(self)@, final(self)@, i) && mmap_through(
                    old(self)@,
                    i,
                    offset,
                    length,
                    final(self)@,
                    r,
                ),
                None => *final(self) == *old(self) && r == Err::<MmapRegion, Error>(
                    Error::FileNotFound,
                ),
            },
    {
        let p = path.normalize();
        match self.get_device(&p) {
            Some(i) => {
                assert(self@.devices[i as int].device_inv());
                let node = &mut self.devices[i];
                let reply = node.device.mmap(offset, length);
                proof {
                    lemma_same_but(*old(self), *self, i as int);
                    assert(D::mmap_step(
                        &old(self)@.devices[i as int],
                        offset,
                        length,
                        &self@.devices[i as int],
                        reply,
                    ));
                }
                let r = pass_on(reply);
                assert(mmap_through(
                    old(self)@,
                    i as int,
                    offset,
                    length,
                    self@,
                    r,
                ));
                r
            },
            None => Err(Error::FileNotFound),
        }
    }
}

} // verus!
