//! The pages of one file that are held in memory, and what a file system offers to fill
//! and flush them.
use vstd::prelude::*;
use crate::block_device::PAGE_SIZE;
use crate::efs::file::PrefetchPlan;
use crate::error::Error;
use crate::bytes;
use crate::bytes::{copy_vec, write_at, zero_vec};
use crate::sorted;
use crate::sorted::SortedMap;

verus! {

/// A file page to flush: its index and its contents.
pub struct DirtyPage {
    pub index: u64,
    pub data: Vec<u8>,
}

/// The indices of several pages.
pub open spec fn indices(pages: Seq<DirtyPage>) -> Seq<u64> {
    pages.map_values(|p: DirtyPage| p.index)
}

/// The contents of several pages.
pub open spec fn contents(pages: Seq<DirtyPage>) -> Seq<Seq<u8>> {
    pages.map_values(|p: DirtyPage| p.data@)
}

/// Whether every page is a full page.
pub open spec fn whole_pages(pages: Seq<DirtyPage>) -> bool {
    forall|i: int| 0 <= i < pages.len() ==> (#[trigger] pages[i]).data@.len() == PAGE_SIZE
}

/// How the steps that a file system takes for the pages of its files relate its states.
pub trait PageSteps: Sized {
    /// What holds of the file system between operations.
    spec fn ready(&self) -> bool;

    /// Whether flushing page `index` of file `ino` with contents `data` may lead from
    /// `pre` to `post` with result `r`.
    spec fn flush_step(
        pre: &Self,
        ino: u64,
        index: u64,
        data: Seq<u8>,
        post: &Self,
        r: Result<(), Error>,
    ) -> bool;

    /// Whether raising the size of file `ino` to `size` may lead from `pre` to `post`
    /// with result `r`.
    spec fn size_step(
        pre: &Self,
        ino: u64,
        size: u64,
        now: u64,
        post: &Self,
        r: Result<(), Error>,
    ) -> bool;
}

/// Whether flushing the first `n` pages may lead from `pre` to `post`.
pub open spec fn flushed_first<F: PageSteps>(
    pre: &F,
    ino: u64,
    index: Seq<u64>,
    data: Seq<Seq<u8>>,
    n: int,
    post: &F,
) -> bool
    decreases n,
{
    if n <= 0 {
        *post == *pre
    } else {
        exists|mid: F|
            flushed_first(pre, ino, index, data, n - 1, &mid) && #[trigger] F::flush_step(
                &mid,
                ino,
                index[n - 1],
                data[n - 1],
                post,
                Ok(()),
            )
    }
}

proof fn lemma_flushed_next<F: PageSteps>(
    pre: &F,
    ino: u64,
    index: Seq<u64>,
    data: Seq<Seq<u8>>,
    n: int,
    mid: &F,
    post: &F,
)
    requires
        n >= 0,
        flushed_first(pre, ino, index, data, n, mid),
        F::flush_step(mid, ino, index[n], data[n], post, Ok(())),
    ensures
        flushed_first(pre, ino, index, data, n + 1, post),
{
    let m = *mid;
    let k = n + 1;
    assert(flushed_first(pre, ino, index, data, k - 1, &m) && F::flush_step(
        &m,
        ino,
        index[k - 1],
        data[k - 1],
        post,
        Ok(()),
    ));
}

/// Whether flushing pages one by one, up to the first that fails, may lead from `pre` to
/// `post` with result `r`; `n` pages went well.
pub open spec fn flush_outcome<F: PageSteps>(
    pre: &F,
    ino: u64,
    index: Seq<u64>,
    data: Seq<Seq<u8>>,
    n: int,
    post: &F,
    r: Result<(), Error>,
) -> bool {
    match r {
        Ok(_) => n == index.len() && flushed_first(pre, ino, index, data, n, post),
        Err(e) => 0 <= n < index.len() && exists|mid: F|
            flushed_first(pre, ino, index, data, n, &mid) && #[trigger] F::flush_step(
                &mid,
                ino,
                index[n],
                data[n],
                post,
                Err(e),
            ),
    }
}

/// Whether flushing pages one by one and then raising the size may lead from `pre` to
/// `post` with result `r`.
pub open spec fn one_by_one<F: PageSteps>(
    pre: &F,
    ino: u64,
    index: Seq<u64>,
    data: Seq<Seq<u8>>,
    size: Option<u64>,
    now: u64,
    post: &F,
    r: Result<(), Error>,
) -> bool {
    ||| r is Err && exists|n: int| #[trigger] flush_outcome(pre, ino, index, data, n, post, r)
    ||| exists|mid: F|
        {
            &&& #[trigger] flushed_first(pre, ino, index, data, index.len() as int, &mid)
            &&& match size {
                Some(s) => F::size_step(&mid, ino, s, now, post, r),
                None => *post == mid && r == Ok::<(), Error>(()),
            }
        }
}

/// How flushing several pages at once relates the states of a file system.
pub trait BulkSteps: PageSteps {
    /// Whether flushing the pages `index` of file `ino` with contents `data`, and then raising
    /// the file's size if one is given, may lead from `pre` to `post` with result `r`.
    spec fn bulk_step(
        pre: &Self,
        ino: u64,
        index: Seq<u64>,
        data: Seq<Seq<u8>>,
        size: Option<u64>,
        now: u64,
        post: &Self,
        r: Result<(), Error>,
    ) -> bool;
}

/// What a file system does for the pages of its files. Operations that change something
/// take the current time in Unix seconds.
pub trait PageCacheOps: BulkSteps {
    /// Page `page_index` of a file, zero past the end of the file, and how many of its
    /// bytes are the file's.
    fn fill_page(&mut self, ino: u64, page_index: u64) -> (r: Result<(Vec<u8>, usize), Error>)
        requires
            old(self).ready(),
        ensures
            final(self).ready(),
            r is Ok ==> r->Ok_0.0@.len() == PAGE_SIZE && r->Ok_0.1 <= PAGE_SIZE,
    ;

    /// Up to `count` bytes at `offset` of a file in one operation. Whoever is refused
    /// fills page by page.
    fn fill_pages_bulk(&mut self, ino: u64, offset: usize, count: usize) -> (r: Result<
        Vec<u8>,
        Error,
    >)
        requires
            old(self).ready(),
        ensures
            final(self).ready(),
        default_ensures
            r == Err::<Vec<u8>, Error>(Error::Unsupported) && *final(self) == *old(self),
    {
        Err(Error::Unsupported)
    }

    /// Plans the reads that would prefetch `count` bytes at `offset` of a file; nothing
    /// where the file system cannot.
    fn submit_prefetch_pages(&mut self, ino: u64, offset: usize, count: usize) -> (r: Result<
        Option<PrefetchPlan>,
        Error,
    >)
        requires
            old(self).ready(),
        ensures
            final(self).ready(),
        default_ensures
            r == Ok::<Option<PrefetchPlan>, Error>(None) && *final(self) == *old(self),
    {
        Ok(None)
    }

    /// Writes page `page_index` of a file.
    fn flush_page(&mut self, ino: u64, page_index: u64, data: &[u8]) -> (r: Result<(), Error>)
        requires
            old(self).ready(),
            data@.len() == PAGE_SIZE,
        ensures
            final(self).ready(),
            Self::flush_step(old(self), ino, page_index, data@, final(self), r),
    ;

    /// Raises a file's size. Never shrinks it.
    fn update_size(&mut self, ino: u64, new_size: u64, now: u64) -> (r: Result<(), Error>)
        requires
            old(self).ready(),
        ensures
            final(self).ready(),
            Self::size_step(old(self), ino, new_size, now, final(self), r),
    ;

    /// Flushes several pages, then raises the file's size if one is given. A file system that
    /// has nothing better goes page by page.
    fn flush_pages_bulk(
        &mut self,
        ino: u64,
        pages: Vec<DirtyPage>,
        size: Option<u64>,
        now: u64,
    ) -> (r: Result<(), Error>)
        requires
            old(self).ready(),
            whole_pages(pages@),
        ensures
            final(self).ready(),
            Self::bulk_step(
                old(self),
                ino,
                indices(pages@),
                contents(pages@),
                size,
                now,
                final(self),
                r,
            ),
    ;

    /// Flushes several pages one by one, up to the first that fails, then raises the file's
    /// size if one is given.
    fn flush_one_by_one(
        &mut self,
        ino: u64,
        pages: Vec<DirtyPage>,
        size: Option<u64>,
        now: u64,
    ) -> (r: Result<(), Error>)
        requires
            old(self).ready(),
            whole_pages(pages@),
        ensures
            final(self).ready(),
            one_by_one(
                old(self),
                ino,
                indices(pages@),
                contents(pages@),
                size,
                now,
                final(self),
                r,
            ),
    {
        let mut i: usize = 0;
        while i < pages.len()
            invariant
                i <= pages@.len(),
                self.ready(),
                whole_pages(pages@),
                flushed_first(old(self), ino, indices(pages@), contents(pages@), i as int, self),
            decreases pages@.len() - i,
        {
            let ghost mid = *self;
            match self.flush_page(ino, pages[i].index, pages[i].data.as_slice()) {
                Ok(u) => {
                    assert(u == ());
                    proof {
                        lemma_flushed_next(
                            old(self),
                            ino,
                            indices(pages@),
                            contents(pages@),
                            i as int,
                            &mid,
                            self,
                        );
                    }
                },
                Err(e) => {
                    assert(Self::flush_step(
                        &mid,
                        ino,
                        indices(pages@)[i as int],
                        contents(pages@)[i as int],
                        self,
                        Err(e),
                    ));
                    assert(flush_outcome(
                        old(self),
                        ino,
                        indices(pages@),
                        contents(pages@),
                        i as int,
                        self,
                        Err(e),
                    ));
                    return Err(e);
                },
            }
            i = i + 1;
        }
        let ghost mid = *self;
        assert(flushed_first(
            old(self),
            ino,
            indices(pages@),
            contents(pages@),
            indices(pages@).len() as int,
            &mid,
        ));
        match size {
            Some(s) => self.update_size(ino, s, now),
            None => Ok(()),
        }
    }
}


// ---- The pages of one file ------------------------------------------------------------

/// A page held in memory.
pub struct CachedPage {
    pub data: Vec<u8>,
    pub dirty: bool,
    pub pin_count: u32,
}

/// A held page seen mathematically.
#[verifier::ext_equal]
pub struct CachedView {
    pub data: Seq<u8>,
    pub dirty: bool,
    pub pin_count: u32,
}

impl View for CachedPage {
    type V = CachedView;

    open spec fn view(&self) -> CachedView {
        CachedView { data: self.data@, dirty: self.dirty, pin_count: self.pin_count }
    }
}

impl CachedPage {
    /// A clean page that nobody pins.
    pub fn new(data: Vec<u8>) -> (r: CachedPage)
        ensures
            r@ == (CachedView { data: data@, dirty: false, pin_count: 0 }),
    {
        CachedPage { data, dirty: false, pin_count: 0 }
    }

    /// Counts one more user. The count wraps around.
    pub fn pin(&mut self)
        ensures
            final(self)@ == (CachedView {
                pin_count: wrapped_next(old(self).pin_count),
                ..old(self)@
            }),
    {
        self.pin_count = self.pin_count.wrapping_add(1);
    }

    /// Counts one user less. The count wraps around.
    pub fn unpin(&mut self)
        ensures
            final(self)@ == (CachedView {
                pin_count: wrapped_previous(old(self).pin_count),
                ..old(self)@
            }),
    {
        self.pin_count = self.pin_count.wrapping_sub(1);
    }

    /// Notes that the page differs from the file.
    pub fn mark_dirty(&mut self)
        ensures
            final(self)@ == (CachedView { dirty: true, ..old(self)@ }),
    {
        self.dirty = true;
    }

    /// Notes that the page is as the file has it.
    pub fn clear_dirty(&mut self)
        ensures
            final(self)@ == (CachedView { dirty: false, ..old(self)@ }),
    {
        self.dirty = false;
    }

    /// Whether the page differs from the file.
    pub fn is_dirty(&self) -> (r: bool)
        ensures
            r == self.dirty,
    {
        self.dirty
    }

    /// The page's bytes.
    pub fn as_slice(&self) -> (r: &[u8])
        ensures
            r@ == self.data@,
    {
        self.data.as_slice()
    }
}

/// One more, 0 after the largest number.
pub open spec fn wrapped_next(n: u32) -> u32 {
    if n == u32::MAX {
        0
    } else {
        (n + 1) as u32
    }
}

/// One less, the largest number after 0.
pub open spec fn wrapped_previous(n: u32) -> u32 {
    if n == 0 {
        u32::MAX
    } else {
        (n - 1) as u32
    }
}

/// The pages of one file that are held, those that are being filled, each with the
/// number of the fill, and the indices of the dirty ones in the order in which they
/// became so.
pub struct InodePages {
    pub pages: SortedMap<CachedPage>,
    pub in_flight: SortedMap<u64>,
    pub dirty_keys: Vec<u64>,
}

/// The pages of one file seen mathematically.
#[verifier::ext_equal]
pub struct PagesView {
    pub pages: Map<u64, CachedView>,
    pub in_flight: Map<u64, u64>,
    pub dirty: Seq<u64>,
}

/// No page held.
pub open spec fn no_pages() -> PagesView {
    PagesView { pages: Map::empty(), in_flight: Map::empty(), dirty: Seq::empty() }
}

impl View for InodePages {
    type V = PagesView;

    open spec fn view(&self) -> PagesView {
        PagesView {
            pages: self.pages@.map_values(|p: CachedPage| p@),
            in_flight: self.in_flight@,
            dirty: self.dirty_keys@,
        }
    }
}

/// What holds of a file's pages: each is a whole page, no index is listed twice, and no
/// dirty page goes unlisted.
pub open spec fn sound(st: PagesView) -> bool {
    &&& st.dirty.no_duplicates()
    &&& forall|k: u64| #[trigger]
        st.pages.contains_key(k) ==> st.pages[k].data.len() == PAGE_SIZE && (st.pages[k].dirty
            ==> st.dirty.contains(k))
}

/// The page at `k` noted as dirty.
pub open spec fn soiled(st: PagesView, k: u64) -> PagesView {
    PagesView {
        pages: if st.pages.contains_key(k) {
            st.pages.insert(k, CachedView { dirty: true, ..st.pages[k] })
        } else {
            st.pages
        },
        dirty: if st.dirty.contains(k) {
            st.dirty
        } else {
            st.dirty.push(k)
        },
        ..st
    }
}

/// The indices that are to be flushed: those listed, from `i` on, whose page is held.
pub open spec fn to_flush(st: PagesView, i: int) -> Seq<u64>
    decreases st.dirty.len() - i,
{
    if i >= st.dirty.len() {
        Seq::empty()
    } else if st.pages.contains_key(st.dirty[i]) {
        seq![st.dirty[i]] + to_flush(st, i + 1)
    } else {
        to_flush(st, i + 1)
    }
}

/// What is to be flushed for those indices.
pub open spec fn flush_data(st: PagesView, keys: Seq<u64>) -> Seq<Seq<u8>> {
    keys.map_values(|k: u64| st.pages[k].data)
}

/// `s` without the members of `keys`.
pub open spec fn without(s: Seq<u64>, keys: Seq<u64>) -> Seq<u64>
    decreases s.len(),
{
    if s.len() == 0 {
        Seq::empty()
    } else if keys.contains(s.last()) {
        without(s.drop_last(), keys)
    } else {
        without(s.drop_last(), keys).push(s.last())
    }
}

/// The pages at `keys` noted as clean.
pub open spec fn cleaned(st: PagesView, keys: Seq<u64>) -> PagesView {
    PagesView {
        pages: Map::new(
            |k: u64| st.pages.contains_key(k),
            |k: u64|
                if keys.contains(k) {
                    CachedView { dirty: false, ..st.pages[k] }
                } else {
                    st.pages[k]
                },
        ),
        dirty: without(st.dirty, keys),
        ..st
    }
}

/// The held last page with zeros past the end of a file of `size` bytes.
pub open spec fn tail_zeroed(st: PagesView, size: u64) -> PagesView {
    let k = size / 4096;
    let off = size as int % 4096;
    if off == 0 || !st.pages.contains_key(k) {
        st
    } else {
        PagesView {
            pages: st.pages.insert(
                k,
                CachedView {
                    data: bytes::splice(st.pages[k].data, off, bytes::zeros(PAGE_SIZE - off)),
                    ..st.pages[k]
                },
            ),
            ..st
        }
    }
}

/// The members of `s` below `from`.
pub open spec fn lower(s: Seq<u64>, from: u64) -> Seq<u64>
    decreases s.len(),
{
    if s.len() == 0 {
        Seq::empty()
    } else if s.last() < from {
        lower(s.drop_last(), from).push(s.last())
    } else {
        lower(s.drop_last(), from)
    }
}

/// The pages below index `from` alone.
pub open spec fn cut(st: PagesView, from: u64) -> PagesView {
    PagesView {
        pages: st.pages.remove_keys(Set::new(|k: u64| k >= from)),
        dirty: lower(st.dirty, from),
        ..st
    }
}

proof fn lemma_without(s: Seq<u64>, keys: Seq<u64>)
    ensures
        forall|k: u64| #[trigger]
            without(s, keys).contains(k) <==> s.contains(k) && !keys.contains(k),
        s.no_duplicates() ==> without(s, keys).no_duplicates(),
    decreases s.len(),
{
    if s.len() > 0 {
        let t = s.drop_last();
        lemma_without(t, keys);
        let w = without(s, keys);
        let v = without(t, keys);
        assert forall|k: u64| #[trigger] w.contains(k) <==> s.contains(k) && !keys.contains(k) by {
            if w.contains(k) {
                let i = choose|i: int| 0 <= i < w.len() && w[i] == k;
                if i < v.len() {
                    assert(v[i] == k);
                    assert(v.contains(k));
                    let j = choose|j: int| 0 <= j < t.len() && t[j] == k;
                    assert(s[j] == k);
                } else {
                    assert(s[s.len() - 1] == k);
                }
            }
            if s.contains(k) && !keys.contains(k) {
                let j = choose|j: int| 0 <= j < s.len() && s[j] == k;
                if j < t.len() {
                    assert(t[j] == k);
                    assert(v.contains(k));
                    let i = choose|i: int| 0 <= i < v.len() && v[i] == k;
                    assert(w[i] == k);
                } else {
                    assert(w[w.len() - 1] == k);
                }
            }
        }
        if s.no_duplicates() {
            assert(t.no_duplicates());
            assert(!v.contains(s.last())) by {
                if v.contains(s.last()) {
                    assert(t.contains(s.last()));
                    let j = choose|j: int| 0 <= j < t.len() && t[j] == s.last();
                    assert(s[j] == s[s.len() - 1]);
                }
            }
            assert(w.no_duplicates());
        }
    }
}

proof fn lemma_lower(s: Seq<u64>, from: u64)
    ensures
        forall|k: u64| #[trigger] lower(s, from).contains(k) <==> s.contains(k) && k < from,
        s.no_duplicates() ==> lower(s, from).no_duplicates(),
    decreases s.len(),
{
    if s.len() > 0 {
        let t = s.drop_last();
        lemma_lower(t, from);
        let w = lower(s, from);
        let v = lower(t, from);
        assert forall|k: u64| #[trigger] w.contains(k) <==> s.contains(k) && k < from by {
            if w.contains(k) {
                let i = choose|i: int| 0 <= i < w.len() && w[i] == k;
                if i < v.len() {
                    assert(v[i] == k);
                    assert(v.contains(k));
                    let j = choose|j: int| 0 <= j < t.len() && t[j] == k;
                    assert(s[j] == k);
                } else {
                    assert(s[s.len() - 1] == k);
                }
            }
            if s.contains(k) && k < from {
                let j = choose|j: int| 0 <= j < s.len() && s[j] == k;
                if j < t.len() {
                    assert(t[j] == k);
                    assert(v.contains(k));
                    let i = choose|i: int| 0 <= i < v.len() && v[i] == k;
                    assert(w[i] == k);
                } else {
                    assert(w[w.len() - 1] == k);
                }
            }
        }
        if s.no_duplicates() {
            assert(t.no_duplicates());
            assert(!v.contains(s.last())) by {
                if v.contains(s.last()) {
                    assert(t.contains(s.last()));
                    let j = choose|j: int| 0 <= j < t.len() && t[j] == s.last();
                    assert(s[j] == s[s.len() - 1]);
                }
            }
            assert(w.no_duplicates());
        }
    }
}

/// Every operation on a file's pages keeps them sound.
pub proof fn operations_keep_pages_sound(
    st: PagesView,
    k: u64,
    keys: Seq<u64>,
    size: u64,
    from: u64,
)
    requires
        sound(st),
    ensures
        sound(soiled(st, k)),
        sound(cleaned(st, keys)),
        sound(tail_zeroed(st, size)),
        sound(cut(st, from)),
{
    lemma_without(st.dirty, keys);
    lemma_lower(st.dirty, from);
    let a = soiled(st, k);
    assert(a.dirty.no_duplicates());
    assert forall|j: u64| #[trigger] a.pages.contains_key(j) implies a.pages[j].data.len()
        == PAGE_SIZE && (a.pages[j].dirty ==> a.dirty.contains(j)) by {
        if st.dirty.contains(j) {
            let i = choose|i: int| 0 <= i < st.dirty.len() && st.dirty[i] == j;
            assert(a.dirty[i] == j);
        }
        if j == k && !st.dirty.contains(k) {
            assert(a.dirty[st.dirty.len() as int] == k);
        }
        if j != k {
            assert(st.pages.contains_key(j));
        }
    }
    let c = cut(st, from);
    assert forall|j: u64| #[trigger] c.pages.contains_key(j) implies c.pages[j].data.len()
        == PAGE_SIZE && (c.pages[j].dirty ==> c.dirty.contains(j)) by {
        assert(st.pages.contains_key(j));
    }
    let d = cleaned(st, keys);
    assert forall|j: u64| #[trigger] d.pages.contains_key(j) implies d.pages[j].data.len()
        == PAGE_SIZE && (d.pages[j].dirty ==> d.dirty.contains(j)) by {
        assert(st.pages.contains_key(j));
    }
    let t = tail_zeroed(st, size);
    assert forall|j: u64| #[trigger] t.pages.contains_key(j) implies t.pages[j].data.len()
        == PAGE_SIZE && (t.pages[j].dirty ==> t.dirty.contains(j)) by {
        assert(st.pages.contains_key(j));
    }
}

proof fn lemma_to_flush(st: PagesView, i: int)
    requires
        0 <= i <= st.dirty.len(),
        st.dirty.no_duplicates(),
    ensures
        forall|k: u64| #[trigger]
            to_flush(st, i).contains(k) <==> st.pages.contains_key(k) && st.dirty.skip(i).contains(
                k,
            ),
        to_flush(st, i).no_duplicates(),
    decreases st.dirty.len() - i,
{
    let s = st.dirty.skip(i);
    let f = to_flush(st, i);
    if i < st.dirty.len() {
        lemma_to_flush(st, i + 1);
        let t = st.dirty.skip(i + 1);
        let g = to_flush(st, i + 1);
        let d = st.dirty[i];
        assert(s =~= seq![d] + t);
        assert(!t.contains(d)) by {
            if t.contains(d) {
                let j = choose|j: int| 0 <= j < t.len() && t[j] == d;
                assert(st.dirty[i + 1 + j] == st.dirty[i]);
            }
        }
        assert(!g.contains(d));
        assert forall|k: u64| #[trigger] f.contains(k) <==> st.pages.contains_key(k) && s.contains(
            k,
        ) by {
            assert(s.contains(k) <==> k == d || t.contains(k)) by {
                assert(s[0] == d);
                if t.contains(k) {
                    let j = choose|j: int| 0 <= j < t.len() && t[j] == k;
                    assert(s[j + 1] == k);
                }
            }
            if st.pages.contains_key(d) {
                assert(f.contains(k) <==> k == d || g.contains(k)) by {
                    assert(f[0] == d);
                    if g.contains(k) {
                        let j = choose|j: int| 0 <= j < g.len() && g[j] == k;
                        assert(f[j + 1] == k);
                    }
                }
            }
        }
    }
}

/// A flush takes every held page that is noted as dirty, each once and with the bytes it
/// holds, and no other page.
pub proof fn every_dirty_page_is_flushed(st: PagesView, k: u64)
    requires
        sound(st),
    ensures
        ({
            let keys = to_flush(st, 0);
            let data = flush_data(st, keys);
            &&& keys.no_duplicates()
            &&& keys.contains(k) <==> st.pages.contains_key(k) && st.dirty.contains(k)
            &&& st.pages.contains_key(k) && st.pages[k].dirty ==> keys.contains(k)
            &&& data.len() == keys.len()
            &&& forall|i: int|
                0 <= i < keys.len() ==> #[trigger] data[i] == st.pages[keys[i]].data
        }),
{
    lemma_to_flush(st, 0);
    assert(st.dirty.skip(0) =~= st.dirty);
}

/// A page that was flushed stays held with the same bytes and users and is dirty no longer;
/// every other page is as it was. A page that was changed is dirty and will be flushed.
pub proof fn flushed_pages_stay_held(st: PagesView, keys: Seq<u64>, k: u64, j: u64)
    requires
        sound(st),
    ensures
        ({
            let z = cleaned(st, keys);
            &&& z.pages.contains_key(k) <==> st.pages.contains_key(k)
            &&& st.pages.contains_key(k) ==> z.pages[k].data == st.pages[k].data
                && z.pages[k].pin_count == st.pages[k].pin_count && (z.pages[k].dirty
                <==> st.pages[k].dirty && !keys.contains(k))
            &&& z.dirty.contains(k) <==> st.dirty.contains(k) && !keys.contains(k)
            &&& z.in_flight == st.in_flight
        }),
        ({
            let z = soiled(st, j);
            &&& z.dirty.contains(k) <==> st.dirty.contains(k) || k == j
            &&& z.pages.contains_key(k) <==> st.pages.contains_key(k)
            &&& st.pages.contains_key(k) ==> z.pages[k].data == st.pages[k].data
                && z.pages[k].pin_count == st.pages[k].pin_count && (z.pages[k].dirty
                <==> st.pages[k].dirty || k == j)
            &&& z.in_flight == st.in_flight
        }),
{
    lemma_without(st.dirty, keys);
    let z = soiled(st, j);
    if !st.dirty.contains(j) {
        assert(z.dirty[st.dirty.len() as int] == j);
        if st.dirty.contains(k) {
            let i = choose|i: int| 0 <= i < st.dirty.len() && st.dirty[i] == k;
            assert(z.dirty[i] == k);
        }
        if z.dirty.contains(k) && k != j {
            let i = choose|i: int| 0 <= i < z.dirty.len() && z.dirty[i] == k;
            assert(st.dirty[i] == k);
        }
    }
}

/// Once a file has been cut to `size` bytes, its held pages hold its bytes and zeros: the
/// pages that begin before the end stay, with what they held before the end and zeros behind
/// it, and no other page stays.
pub proof fn held_pages_end_with_the_file(st: PagesView, size: u64, from: u64, k: u64, p: int)
    requires
        sound(st),
        size <= from * 4096 < size + 4096,
        0 <= p < 4096,
    ensures
        ({
            let z = cut(tail_zeroed(st, size), from);
            &&& z.pages.contains_key(k) <==> st.pages.contains_key(k) && k * 4096 < size
            &&& z.dirty.contains(k) <==> st.dirty.contains(k) && k * 4096 < size
            &&& z.pages.contains_key(k) ==> z.pages[k].data.len() == 4096 && z.pages[k].data[p] == (
            if k * 4096 + p < size {
                st.pages[k].data[p]
            } else {
                0
            }) && z.pages[k].dirty == st.pages[k].dirty && z.pages[k].pin_count
                == st.pages[k].pin_count
            &&& z.in_flight == st.in_flight
        }),
{
    let t = tail_zeroed(st, size);
    lemma_lower(t.dirty, from);
    let last = size / 4096;
    let off = size as int % 4096;
    assert(size == last * 4096 + off);
    assert(k * 4096 < size <==> k < from);
    if off != 0 && st.pages.contains_key(last) {
        assert(st.pages[last].data.len() == PAGE_SIZE);
    }
    if st.pages.contains_key(k) {
        assert(st.pages[k].data.len() == PAGE_SIZE);
        if k == last && off != 0 {
            assert(t.pages[k].data.len() == PAGE_SIZE);
        } else {
            assert(t.pages[k] == st.pages[k]);
        }
    }
}

proof fn lemma_without_step(s: Seq<u64>, a: Seq<u64>, k: u64)
    ensures
        without(without(s, a), seq![k]) == without(s, a.push(k)),
        without(s, Seq::empty()) == s,
    decreases s.len(),
{
    let b = a.push(k);
    assert forall|x: u64| b.contains(x) <==> a.contains(x) || x == k by {
        if a.contains(x) {
            let i = choose|i: int| 0 <= i < a.len() && a[i] == x;
            assert(b[i] == x);
        }
        assert(b[a.len() as int] == k);
        if b.contains(x) {
            let i = choose|i: int| 0 <= i < b.len() && b[i] == x;
            if i < a.len() {
                assert(a[i] == x);
            }
        }
    }
    assert forall|x: u64| seq![k].contains(x) <==> x == k by {
        assert(seq![k][0] == k);
    }
    if s.len() > 0 {
        let t = s.drop_last();
        lemma_without_step(t, a, k);
        let v = without(t, a);
        let w = without(s, a);
        if !a.contains(s.last()) {
            assert(w == v.push(s.last()));
            assert(w.drop_last() =~= v);
            assert(w.last() == s.last());
        }
        assert(t.push(s.last()) =~= s);
    }
}

proof fn lemma_cleaned_step(st: PagesView, a: Seq<u64>, k: u64)
    ensures
        cleaned(cleaned(st, a), seq![k]) == cleaned(st, a.push(k)),
        cleaned(st, Seq::empty()) == st,
{
    lemma_without_step(st.dirty, a, k);
    let b = a.push(k);
    let x = cleaned(cleaned(st, a), seq![k]);
    let y = cleaned(st, b);
    assert forall|j: u64| b.contains(j) <==> a.contains(j) || j == k by {
        if a.contains(j) {
            let i = choose|i: int| 0 <= i < a.len() && a[i] == j;
            assert(b[i] == j);
        }
        assert(b[a.len() as int] == k);
        if b.contains(j) {
            let i = choose|i: int| 0 <= i < b.len() && b[i] == j;
            if i < a.len() {
                assert(a[i] == j);
            }
        }
    }
    assert forall|j: u64| seq![k].contains(j) <==> j == k by {
        assert(seq![k][0] == k);
    }
    assert(x.pages =~= y.pages);
    assert(cleaned(st, Seq::empty()).pages =~= st.pages);
}

impl InodePages {
    /// What holds between operations.
    pub open spec fn wf(&self) -> bool {
        sound(self@)
    }

    /// No pages.
    pub fn new() -> (r: InodePages)
        ensures
            r.wf(),
            r@ == no_pages(),
    {
        let r = InodePages {
            pages: SortedMap::new(),
            in_flight: SortedMap::new(),
            dirty_keys: Vec::new(),
        };
        assert(r@ =~= (PagesView {
            pages: Map::empty(),
            in_flight: Map::empty(),
            dirty: Seq::empty(),
        }));
        r
    }

    /// Replaces the page at `k`.
    pub(crate) fn put(&mut self, k: u64, p: CachedPage)
        ensures
            final(self)@ == (PagesView { pages: old(self)@.pages.insert(k, p@), ..old(self)@ }),
    {
        self.pages.insert(k, p);
        assert(self@ =~= (PagesView { pages: old(self)@.pages.insert(k, p@), ..old(self)@ }));
    }

    /// Takes the page at `k` out.
    pub(crate) fn take(&mut self, k: u64) -> (r: Option<CachedPage>)
        ensures
            final(self)@ == (PagesView { pages: old(self)@.pages.remove(k), ..old(self)@ }),
            match r {
                Some(p) => old(self)@.pages.contains_key(k) && p@ == old(self)@.pages[k],
                None => !old(self)@.pages.contains_key(k) && final(self)@ == old(self)@,
            },
    {
        let r = self.pages.remove(k);
        assert(self@ =~= (PagesView { pages: old(self)@.pages.remove(k), ..old(self)@ }));
        if r.is_none() {
            assert(self@ =~= old(self)@);
        }
        r
    }

    /// Whether index `k` is listed as dirty.
    fn listed(&self, k: u64) -> (r: bool)
        ensures
            r == self@.dirty.contains(k),
    {
        let mut i: usize = 0;
        while i < self.dirty_keys.len()
            invariant
                i <= self.dirty_keys@.len(),
                forall|j: int| 0 <= j < i ==> self.dirty_keys@[j] != k,
            decreases self.dirty_keys@.len() - i,
        {
            if self.dirty_keys[i] == k {
                assert(self@.dirty[i as int] == k);
                return true;
            }
            i = i + 1;
        }
        false
    }

    /// Notes that the page at `page_index` differs from the file.
    pub fn mark_dirty(&mut self, page_index: u64)
        requires
            old(self).wf(),
        ensures
            final(self).wf(),
            final(self)@ == soiled(old(self)@, page_index),
    {
        let ghost st = self@;
        proof {
            operations_keep_pages_sound(st, page_index, Seq::empty(), 0, 0);
        }
        match self.take(page_index) {
            Some(p) => {
                let mut q = p;
                q.mark_dirty();
                self.put(page_index, q);
                assert(self@.pages =~= st.pages.insert(page_index, q@));
            },
            None => {},
        }
        if !self.listed(page_index) {
            self.dirty_keys.push(page_index);
        }
        assert(self@ =~= soiled(st, page_index));
    }

    /// The indices to flush.
    fn snapshot(&self) -> (r: Vec<u64>)
        ensures
            r@ == to_flush(self@, 0),
            forall|i: int| 0 <= i < r@.len() ==> self@.pages.contains_key(#[trigger] r@[i]),
    {
        let mut out: Vec<u64> = Vec::new();
        let mut i: usize = 0;
        assert(out@ + to_flush(self@, 0) =~= to_flush(self@, 0));
        while i < self.dirty_keys.len()
            invariant
                i <= self.dirty_keys@.len(),
                to_flush(self@, 0) == out@ + to_flush(self@, i as int),
                forall|j: int| 0 <= j < out@.len() ==> self@.pages.contains_key(#[trigger] out@[j]),
            decreases self.dirty_keys@.len() - i,
        {
            let k: u64 = self.dirty_keys[i];
            let ghost before = out@;
            if self.pages.contains_key(k) {
                out.push(k);
                assert(before + (seq![k] + to_flush(self@, i + 1)) =~= out@ + to_flush(
                    self@,
                    i + 1,
                ));
            }
            i = i + 1;
        }
        assert(out@ + Seq::<u64>::empty() =~= out@);
        out
    }

    /// Notes that the page at `k` is as the file has it.
    fn clean(&mut self, k: u64)
        requires
            old(self).wf(),
        ensures
            final(self).wf(),
            final(self)@ == cleaned(old(self)@, seq![k]),
    {
        let ghost st = self@;
        proof {
            operations_keep_pages_sound(st, 0, seq![k], 0, 0);
            assert forall|j: u64| seq![k].contains(j) <==> j == k by {
                assert(seq![k][0] == k);
            }
        }
        match self.take(k) {
            Some(p) => {
                let mut q = p;
                q.clear_dirty();
                self.put(k, q);
            },
            None => {},
        }
        assert(self@.pages =~= cleaned(st, seq![k]).pages);
        let mut kept: Vec<u64> = Vec::new();
        let mut i: usize = 0;
        let ghost mid = self@;
        while i < self.dirty_keys.len()
            invariant
                i <= self.dirty_keys@.len(),
                self@ == mid,
                kept@ == without(self.dirty_keys@.take(i as int), seq![k]),
                forall|j: u64| seq![k].contains(j) <==> j == k,
            decreases self.dirty_keys@.len() - i,
        {
            proof {
                let t = self.dirty_keys@.take(i + 1);
                assert(t.drop_last() =~= self.dirty_keys@.take(i as int));
                assert(t.last() == self.dirty_keys@[i as int]);
            }
            if self.dirty_keys[i] != k {
                kept.push(self.dirty_keys[i]);
            }
            i = i + 1;
        }
        assert(self.dirty_keys@.take(self.dirty_keys@.len() as int) =~= self.dirty_keys@);
        self.dirty_keys = kept;
        assert(self@ =~= cleaned(st, seq![k]));
    }

    /// Flushes the dirty pages one by one, in the order in which they became dirty, and
    /// notes each as clean once it is out. Stops at the first that fails; those before
    /// it stay clean.
    pub fn flush_dirty<F: PageCacheOps>(&mut self, fs: &mut F, ino: u64) -> (r: Result<(), Error>)
        requires
            old(self).wf(),
            old(fs).ready(),
        ensures
            final(self).wf(),
            final(fs).ready(),
            exists|n: int|
                0 <= n <= to_flush(old(self)@, 0).len() && #[trigger] flush_outcome(
                    old(fs),
                    ino,
                    to_flush(old(self)@, 0),
                    flush_data(old(self)@, to_flush(old(self)@, 0)),
                    n,
                    final(fs),
                    r,
                ) && final(self)@ == cleaned(old(self)@, to_flush(old(self)@, 0).take(n)),
    {
        let ghost st = self@;
        let keys = self.snapshot();
        let ghost data = flush_data(st, keys@);
        let mut i: usize = 0;
        proof {
            assert(keys@.take(0) =~= Seq::empty());
            lemma_cleaned_step(st, Seq::empty(), 0);
        }
        while i < keys.len()
            invariant
                i <= keys@.len(),
                sound(st),
                st == old(self)@,
                keys@ == to_flush(st, 0),
                data == flush_data(st, keys@),
                forall|j: int| 0 <= j < keys@.len() ==> st.pages.contains_key(#[trigger] keys@[j]),
                self.wf(),
                fs.ready(),
                self@ == cleaned(st, keys@.take(i as int)),
                flushed_first(old(fs), ino, keys@, data, i as int, fs),
            decreases keys@.len() - i,
        {
            let k: u64 = keys[i];
            let page = match self.pages.get(k) {
                Some(p) => copy_vec(p.as_slice()),
                None => Vec::new(),
            };
            proof {
                assert(st.pages.contains_key(keys@[i as int]));
                assert(self@.pages.contains_key(k));
                assert(page@ == data[i as int]);
                assert(page@.len() == PAGE_SIZE);
            }
            let ghost mid = *fs;
            match fs.flush_page(ino, k, page.as_slice()) {
                Ok(u) => {
                    assert(u == ());
                    proof {
                        lemma_flushed_next(old(fs), ino, keys@, data, i as int, &mid, fs);
                        lemma_cleaned_step(st, keys@.take(i as int), k);
                        assert(keys@.take(i + 1) =~= keys@.take(i as int).push(k));
                    }
                    self.clean(k);
                },
                Err(e) => {
                    assert(F::flush_step(
                        &mid,
                        ino,
                        keys@[i as int],
                        data[i as int],
                        fs,
                        Err(e),
                    ));
                    assert(flush_outcome(old(fs), ino, keys@, data, i as int, fs, Err(e)));
                    return Err(e);
                },
            }
            i = i + 1;
        }
        assert(flush_outcome(old(fs), ino, keys@, data, i as int, fs, Ok(())));
        Ok(())
    }

    /// The dirty pages, in the order in which they became so.
    pub fn dirty_batch(&self) -> (r: Vec<DirtyPage>)
        requires
            self.wf(),
        ensures
            indices(r@) == to_flush(self@, 0),
            contents(r@) == flush_data(self@, to_flush(self@, 0)),
            whole_pages(r@),
    {
        let keys = self.snapshot();
        let mut batch: Vec<DirtyPage> = Vec::new();
        let mut i: usize = 0;
        while i < keys.len()
            invariant
                i <= keys@.len(),
                self.wf(),
                whole_pages(batch@),
                indices(batch@) == keys@.take(i as int),
                contents(batch@) == flush_data(self@, keys@).take(i as int),
                forall|j: int|
                    0 <= j < keys@.len() ==> self@.pages.contains_key(#[trigger] keys@[j]),
            decreases keys@.len() - i,
        {
            let k: u64 = keys[i];
            assert(self@.pages.contains_key(keys@[i as int]));
            let data = match self.pages.get(k) {
                Some(p) => copy_vec(p.as_slice()),
                None => zero_vec(PAGE_SIZE),
            };
            assert(data@.len() == PAGE_SIZE && data@ == self@.pages[k].data) by {
                assert(self@.pages.contains_key(k));
            }
            let ghost before = batch@;
            batch.push(DirtyPage { index: k, data });
            proof {
                assert(indices(batch@) =~= indices(before).push(k));
                assert(contents(batch@) =~= contents(before).push(data@));
                assert(keys@.take(i + 1) =~= keys@.take(i as int).push(k));
                assert(flush_data(self@, keys@).take(i + 1) =~= flush_data(self@, keys@).take(
                    i as int,
                ).push(data@));
            }
            i = i + 1;
        }
        assert(keys@.take(keys@.len() as int) =~= keys@);
        assert(flush_data(self@, keys@).take(keys@.len() as int) =~= flush_data(self@, keys@));
        batch
    }

    /// Flushes the dirty pages in one go, as [`InodePages::dirty_batch`] lists them. All are
    /// noted as clean if that works, none otherwise. Where none is dirty, the file system is not
    /// called.
    pub fn flush_dirty_bulk<F: PageCacheOps>(
        &mut self,
        fs: &mut F,
        ino: u64,
        size: Option<u64>,
        now: u64,
    ) -> (r: Result<(), Error>)
        requires
            old(self).wf(),
            old(fs).ready(),
        ensures
            final(self).wf(),
            final(fs).ready(),
            if to_flush(old(self)@, 0).len() == 0 {
                r is Ok && *final(fs) == *old(fs)
            } else {
                F::bulk_step(
                    old(fs),
                    ino,
                    to_flush(old(self)@, 0),
                    flush_data(old(self)@, to_flush(old(self)@, 0)),
                    size,
                    now,
                    final(fs),
                    r,
                )
            },
            final(self)@ == (match r {
                Ok(_) => cleaned(old(self)@, to_flush(old(self)@, 0)),
                Err(_) => old(self)@,
            }),
    {
        let ghost st = self@;
        let keys = self.snapshot();
        if keys.len() == 0 {
            proof {
                assert(keys@ =~= Seq::empty());
                lemma_cleaned_step(st, Seq::empty(), 0);
            }
            return Ok(());
        }
        let batch = self.dirty_batch();
        match fs.flush_pages_bulk(ino, batch, size, now) {
            Ok(u) => {
                assert(u == ());
            },
            Err(e) => {
                return Err(e);
            },
        }
        let mut n: usize = 0;
        proof {
            assert(keys@.take(0) =~= Seq::empty());
            lemma_cleaned_step(st, Seq::empty(), 0);
        }
        while n < keys.len()
            invariant
                n <= keys@.len(),
                self.wf(),
                self@ == cleaned(st, keys@.take(n as int)),
            decreases keys@.len() - n,
        {
            let k: u64 = keys[n];
            proof {
                lemma_cleaned_step(st, keys@.take(n as int), k);
                assert(keys@.take(n + 1) =~= keys@.take(n as int).push(k));
            }
            self.clean(k);
            n = n + 1;
        }
        assert(keys@.take(keys@.len() as int) =~= keys@);
        Ok(())
    }

    /// Zeroes the part of the held last page that lies past the end of a file of `size`
    /// bytes, so that growing the file again shows zeros. The page does not become dirty
    /// by it.
    pub fn zero_tail(&mut self, size: u64)
        requires
            old(self).wf(),
        ensures
            final(self).wf(),
            final(self)@ == tail_zeroed(old(self)@, size),
    {
        let ghost st = self@;
        proof {
            operations_keep_pages_sound(st, 0, Seq::empty(), size, 0);
        }
        let off: usize = (size % 4096) as usize;
        if off == 0 {
            return;
        }
        let k: u64 = size / 4096;
        match self.take(k) {
            Some(p) => {
                assert(st.pages.contains_key(k));
                let mut q = p;
                let z = zero_vec(PAGE_SIZE - off);
                assert(q.data.len() == PAGE_SIZE);
                write_at(&mut q.data, off, z.as_slice());
                self.put(k, q);
                assert(self@ =~= tail_zeroed(st, size));
            },
            None => {},
        }
    }

    /// Drops the pages from index `from_page` on, as when a file is cut.
    pub fn invalidate_from(&mut self, from_page: u64)
        requires
            old(self).wf(),
        ensures
            final(self).wf(),
            final(self)@ == cut(old(self)@, from_page),
    {
        let ghost st = self@;
        proof {
            operations_keep_pages_sound(st, 0, Seq::empty(), 0, from_page);
        }
        let mut kept: SortedMap<CachedPage> = SortedMap::new();
        std::mem::swap(&mut kept, &mut self.pages);
        let ghost all = kept@;
        let keys = kept.keys();
        let mut at: usize = 0;
        while at < keys.len()
            invariant
                at <= keys@.len(),
                keys@.to_set() == all.dom(),
                sorted::ascending(keys@),
                self.in_flight@ == st.in_flight,
                self.dirty_keys@ == st.dirty,
                forall|k: u64| #[trigger] kept@.contains_key(k) ==> kept@[k] == all[k],
                forall|k: u64| #[trigger]
                    kept@.contains_key(k) <==> exists|q: int|
                        at <= q < keys@.len() && #[trigger] keys@[q] == k,
                forall|k: u64| #[trigger]
                    self.pages@.contains_key(k) <==> all.contains_key(k) && !kept@.contains_key(k)
                        && k < from_page,
                forall|k: u64| #[trigger]
                    self.pages@.contains_key(k) ==> self.pages@[k] == all[k],
            decreases keys@.len() - at,
        {
            let k: u64 = keys[at];
            assert(kept@.contains_key(k));
            assert(keys@.to_set().contains(k));
            match kept.remove(k) {
                Some(p) => {
                    if k < from_page {
                        self.pages.insert(k, p);
                    }
                },
                None => {},
            }
            at = at + 1;
        }
        proof {
            assert(self@.pages =~= cut(st, from_page).pages);
        }
        let mut low: Vec<u64> = Vec::new();
        let mut i: usize = 0;
        let ghost mid = self@;
        while i < self.dirty_keys.len()
            invariant
                i <= self.dirty_keys@.len(),
                self@ == mid,
                low@ == lower(self.dirty_keys@.take(i as int), from_page),
            decreases self.dirty_keys@.len() - i,
        {
            proof {
                let t = self.dirty_keys@.take(i + 1);
                assert(t.drop_last() =~= self.dirty_keys@.take(i as int));
                assert(t.last() == self.dirty_keys@[i as int]);
            }
            if self.dirty_keys[i] < from_page {
                low.push(self.dirty_keys[i]);
            }
            i = i + 1;
        }
        assert(self.dirty_keys@.take(self.dirty_keys@.len() as int) =~= self.dirty_keys@);
        self.dirty_keys = low;
        assert(self@ =~= cut(st, from_page));
    }
}

} // verus!
