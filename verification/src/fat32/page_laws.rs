//! What a page that is filled gives back of one that was flushed.
use vstd::prelude::*;
use crate::bytes;
use crate::error::Error;
use super::chains;
use super::contents;
use super::driver;
use super::entry_laws;
use super::model;
use super::model::{Change, FatInodeEntry, FatState};
use super::page_cache;
use super::read;

verus! {

// ---- Reading pages ----------------------------------------------------------------------------

/// Whether none of the clusters of a chain from `i` on has been passed.
spec fn not_passed(cs: Seq<u32>, i: int, seen: Set<u64>) -> bool {
    forall|j: int| i <= j < cs.len() ==> !seen.contains(#[trigger] cs[j] as u64)
}

proof fn lemma_pass(st: FatState, cs: Seq<u32>, i: int, seen: Set<u64>)
    requires
        contents::holds(st, cs),
        0 <= i < cs.len(),
        not_passed(cs, i, seen),
    ensures
        not_passed(cs, i + 1, seen.insert(cs[i] as u64)),
{
    assert forall|j: int| i + 1 <= j < cs.len() implies !seen.insert(cs[i] as u64).contains(
        #[trigger] cs[j] as u64,
    ) by {
        assert(cs[i] != cs[j]);
    }
}

proof fn lemma_step_guarded(st: FatState, cs: Seq<u32>, i: int, k: int, seen: Set<u64>)
    requires
        contents::holds(st, cs),
        0 <= i,
        0 <= k,
        i + k < cs.len(),
        not_passed(cs, i, seen),
    ensures
        model::step_guarded(st, cs[i], k, seen) == Ok::<Option<u32>, Error>(Some(cs[i + k])),
    decreases k,
{
    if k > 0 {
        assert(contents::follows(st, cs, i));
        lemma_pass(st, cs, i, seen);
        lemma_step_guarded(st, cs, i + 1, k - 1, seen.insert(cs[i] as u64));
    }
}

/// Where a step through a file ends.
proof fn lemma_chunk(pos: int, need: int, len: int, b: int)
    requires
        b >= 1,
        pos >= 0,
        need >= 1,
        pos + need <= len * b,
    ensures
        ({
            let off = pos % b;
            let take = if b - off < need {
                b - off
            } else {
                need
            };
            &&& 0 <= pos / b < len
            &&& 0 <= off < b
            &&& pos == (pos / b) * b + off
            &&& 1 <= take <= need
            &&& off + take <= b
        }),
{
    let t = pos / b;
    let off = pos % b;
    assert(0 <= t < len && 0 <= off < b && pos == t * b + off) by (nonlinear_arith)
        requires
            b >= 1,
            0 <= pos < len * b,
            t == pos / b,
            off == pos % b,
    ;
}

/// Gathering bytes of a file gives those of its chain.
#[verifier::spinoff_prover]
#[verifier::rlimit(40)]
proof fn lemma_gather(st: FatState, cs: Seq<u32>, pos: int, need: int)
    requires
        chains::fats_fit(st),
        contents::holds(st, cs),
        0 <= pos,
        0 <= need,
        pos + need <= cs.len() * model::bpc(st),
    ensures
        page_cache::gather(st, cs[0], pos, need) == Ok::<Seq<u8>, Error>(
            contents::bytes_at(st, cs, pos, need),
        ),
    decreases need,
{
    if need == 0 {
        assert(contents::bytes_at(st, cs, pos, 0) =~= Seq::<u8>::empty());
    } else {
        let b = model::bpc(st);
        assert(contents::used(st, cs[0]));
        lemma_chunk(pos, need, cs.len() as int, b);
        let off = pos % b;
        let t = pos / b;
        let take = page_cache::chunk(st, pos, need);
        lemma_step_guarded(st, cs, 0, t, Set::empty());
        let c = cs[t];
        assert(contents::used(st, c));
        contents::lemma_spot(st, c);
        let (first, n) = page_cache::sectors_of(off, take);
        let l = model::cluster_lba(st, c) + first;
        assert((l + n) * 512 <= contents::spot(st, c) + b);
        let d = st.disk.subrange(l * 512, (l + n) * 512);
        assert(model::read(st, l, n) == Ok::<Seq<u8>, Error>(d));
        lemma_gather(st, cs, pos + take, need - take);
        let got = d.subrange(off % 512, off % 512 + take) + contents::bytes_at(
            st,
            cs,
            pos + take,
            need - take,
        );
        let want = contents::bytes_at(st, cs, pos, need);
        assert forall|o: int| 0 <= o < need implies #[trigger] got[o] == want[o] by {
            if o < take {
                contents::lemma_index(t, off + o, b);
                assert(pos + o == t * b + (off + o));
                assert(got[o] == d[off % 512 + o]);
            }
        }
        assert(got =~= want);
    }
}

// ---- Writing pages ----------------------------------------------------------------------------

/// A chain followed to cluster `i + k` and made longer up to there.
#[verifier::spinoff_prover]
#[verifier::rlimit(40)]
proof fn lemma_ensured_from(st: FatState, cs: Seq<u32>, i: int, k: int, seen: Set<u64>) -> (more:
    Seq<u32>)
    requires
        chains::in_order(st),
        contents::holds(st, cs),
        0 <= i < cs.len(),
        0 <= k,
        not_passed(cs, i, seen),
    ensures
        ({
            let (z, r) = page_cache::ensured_from(st, cs[i], k, seen);
            match r {
                Err(e) => e == Error::NoSpace,
                Ok(c) => contents::lengthened(st, z, cs, more) && i + k < more.len() && c
                    == more[i + k],
            }
        }),
    decreases k,
{
    if k == 0 {
        contents::lemma_lengthened_itself(st, cs);
        cs
    } else {
        assert(contents::follows(st, cs, i));
        if i + 1 < cs.len() {
            lemma_pass(st, cs, i, seen);
            lemma_ensured_from(st, cs, i + 1, k - 1, seen.insert(cs[i] as u64))
        } else {
            entry_laws::lemma_extended(st, cs, k)
        }
    }
}

/// Whole sectors written into a cluster.
proof fn lemma_sectors(st: FatState, c: u32, off: int, part: Seq<u8>)
    requires
        chains::fats_fit(st),
        chains::proper(st, c),
        0 <= off,
        off % 512 == 0,
        off + part.len() <= model::bpc(st),
    ensures
        ({
            let (z, r) = model::write(st, model::cluster_lba(st, c) + off / 512, part);
            &&& r == Ok::<(), Error>(())
            &&& contents::cluster_written(st, z, c, off, part, false)
        }),
{
    contents::lemma_spot(st, c);
    let l = model::cluster_lba(st, c) + off / 512;
    assert(l * 512 == contents::spot(st, c) + off);
    chains::lemma_write(st, l, part);
}

/// Two writes to a chain, one right behind the other.
#[verifier::spinoff_prover]
#[verifier::rlimit(40)]
proof fn lemma_written_twice(
    st: FatState,
    mid: FatState,
    z: FatState,
    cs: Seq<u32>,
    some: Seq<u32>,
    more: Seq<u32>,
    from: int,
    a: Seq<u8>,
    b: Seq<u8>,
)
    requires
        model::spc(st) >= 1,
        contents::chain_written(st, mid, cs, some, from, a, None),
        contents::chain_written(mid, z, some, more, from + a.len(), b, None),
        from >= 0,
    ensures
        contents::chain_written(st, z, cs, more, from, a + b, None),
{
    reveal(contents::chain_written);
    contents::lemma_apart_twice(st, mid, z, cs, some, more);
    assert(more.take(cs.len() as int) =~= more.take(some.len() as int).take(cs.len() as int));
    let n = model::bpc(st);
    contents::lemma_longer(cs.len() as int, some.len() as int, n);
    let all = a + b;
    assert forall|p: int| from <= p < from + all.len() implies #[trigger] contents::byte_at(
        z,
        more,
        p,
    ) == all[p - from] by {
        if p < from + a.len() {
            assert(contents::byte_at(z, more, p) == contents::byte_at(mid, some, p));
        }
    }
    assert forall|p: int|
        0 <= p < cs.len() * n && !(from <= p < from + all.len()) implies #[trigger] contents::byte_at(
        z,
        more,
        p,
    ) == contents::byte_at(st, cs, p) by {
        assert(contents::byte_at(z, more, p) == contents::byte_at(mid, some, p));
    }
}

/// Zeros that fill up the last sector of `n` bytes.
pub open spec fn padding(n: int) -> Seq<u8> {
    bytes::zeros((n + 511) / 512 * 512 - n)
}

/// One step of a flush: the chain reaches a cluster, and sectors of it are written.
#[verifier::spinoff_prover]
#[verifier::rlimit(40)]
proof fn lemma_flush_step(
    st: FatState,
    s1: FatState,
    cs: Seq<u32>,
    some: Seq<u32>,
    pos: int,
    part: Seq<u8>,
)
    requires
        contents::lengthened(st, s1, cs, some),
        chains::in_order(st),
        0 <= pos,
        pos % 512 == 0,
        pos / model::bpc(st) < some.len(),
        part.len() > 0,
        pos % model::bpc(st) + part.len() <= model::bpc(st),
    ensures
        ({
            let c = some[pos / model::bpc(st)];
            let off = pos % model::bpc(st);
            let (s4, r4) = model::write(s1, model::cluster_lba(s1, c) + off / 512, part);
            &&& off % 512 == 0
            &&& r4 == Ok::<(), Error>(())
            &&& chains::in_order(s4)
            &&& contents::holds(s4, some)
            &&& driver::same_layout(s4, st)
            &&& s4.inodes == s1.inodes
            &&& contents::chain_written(st, s4, cs, some, pos, part, None)
        }),
{
    reveal(contents::lengthened);
    let b = model::bpc(st);
    let t = pos / b;
    let off = pos % b;
    let s = model::spc(st);
    assert(0 <= t && 0 <= off < b && pos == t * b + off && off % 512 == 0) by {
        assert(0 <= t && 0 <= off < b && pos == t * b + off) by (nonlinear_arith)
            requires
                b >= 1,
                pos >= 0,
                t == pos / b,
                off == pos % b,
        ;
        assert(t * b == 512 * (t * s)) by (nonlinear_arith)
            requires
                b == 512 * s,
        ;
    }
    let c = some[t];
    assert(contents::used(s1, c));
    lemma_sectors(s1, c, off, part);
    let s4 = model::write(s1, model::cluster_lba(s1, c) + off / 512, part).0;
    contents::lemma_last_written(s1, s4, some, t, off, part, false);
    contents::lemma_lengthened_written(st, s1, s4, cs, some, some, pos, part, None);
    reveal(contents::chain_written);
}

/// The sectors that hold bytes from a sector's start on.
proof fn lemma_padded(off: int, data: Seq<u8>)
    requires
        0 <= off,
        off % 512 == 0,
        data.len() > 0,
    ensures
        ({
            let (first, n) = page_cache::sectors_of(off, data.len() as int);
            &&& first == off / 512
            &&& n * 512 == (data.len() + 511) / 512 * 512
            &&& bytes::splice(bytes::zeros(n * 512), off % 512, data) == data + padding(
                data.len() as int,
            )
        }),
{
    let (first, n) = page_cache::sectors_of(off, data.len() as int);
    assert(bytes::splice(bytes::zeros(n * 512), 0, data) =~= data + padding(data.len() as int));
}

/// Bytes of a page flushed to a file that has data.
#[verifier::spinoff_prover]
#[verifier::rlimit(40)]
proof fn lemma_scattered(
    st: FatState,
    ino: u64,
    e: FatInodeEntry,
    cs: Seq<u32>,
    pos: int,
    buf: Seq<u8>,
) -> (more: Seq<u32>)
    requires
        chains::in_order(st),
        contents::holds(st, cs),
        0 <= pos,
        pos % 512 == 0,
        buf.len() > 0,
    ensures
        ({
            let (z, r) = page_cache::scattered(st, ino, e, Some(cs[0]), pos, buf);
            match r {
                Err(x) => x == Error::NoSpace,
                Ok(_) => contents::chain_written(
                    st,
                    z,
                    cs,
                    more,
                    pos,
                    buf + padding(buf.len() as int),
                    None,
                ),
            }
        }),
    decreases buf.len(),
{
    let take = page_cache::chunk(st, pos, buf.len() as int);
    let (done, some, s4) = lemma_first_chunk(st, ino, e, cs, pos, buf);
    if !done {
        cs
    } else if take == buf.len() {
        assert(buf.take(take) =~= buf);
        some
    } else {
        let rest = buf.skip(take);
        let more = lemma_scattered(s4, ino, e, some, pos + take, rest);
        let (z, r) = page_cache::scattered(s4, ino, e, Some(cs[0]), pos + take, rest);
        if r is Ok {
            let tail = rest + padding(rest.len() as int);
            lemma_written_twice(st, s4, z, cs, some, more, pos, buf.take(take), tail);
            lemma_padding(take, rest.len() as int);
            assert(buf.take(take) + tail =~= buf + padding(buf.len() as int));
        }
        more
    }
}

proof fn lemma_padding(take: int, rest: int)
    requires
        take % 512 == 0,
    ensures
        padding(take + rest) == padding(rest),
{
    assert(padding(take + rest) =~= padding(rest));
}

/// The first step of a flush to a file that has data.
#[verifier::spinoff_prover]
#[verifier::rlimit(40)]
proof fn lemma_first_chunk(
    st: FatState,
    ino: u64,
    e: FatInodeEntry,
    cs: Seq<u32>,
    pos: int,
    buf: Seq<u8>,
) -> (r: (bool, Seq<u32>, FatState))
    requires
        chains::in_order(st),
        contents::holds(st, cs),
        0 <= pos,
        pos % 512 == 0,
        buf.len() > 0,
    ensures
        ({
            let all = page_cache::scattered(st, ino, e, Some(cs[0]), pos, buf);
            let take = page_cache::chunk(st, pos, buf.len() as int);
            let (done, some, s4) = r;
            &&& 1 <= take <= buf.len()
            &&& !done ==> all.1 == Err::<(), Error>(Error::NoSpace)
            &&& done ==> {
                &&& chains::in_order(s4)
                &&& contents::holds(s4, some)
                &&& some[0] == cs[0]
                &&& driver::same_layout(s4, st)
                &&& contents::chain_written(
                    st,
                    s4,
                    cs,
                    some,
                    pos,
                    buf.take(take) + padding(take),
                    None,
                )
                &&& if take == buf.len() {
                    all == (s4, Ok::<(), Error>(()))
                } else {
                    &&& take % 512 == 0
                    &&& buf.take(take) + padding(take) == buf.take(take)
                    &&& all == page_cache::scattered(
                        s4,
                        ino,
                        e,
                        Some(cs[0]),
                        pos + take,
                        buf.skip(take),
                    )
                }
            }
        }),
{
    let b = model::bpc(st);
    let take = page_cache::chunk(st, pos, buf.len() as int);
    let t = pos / b;
    let off = pos % b;
    assert(contents::used(st, cs[0]));
    assert(0 <= t && 0 <= off < b) by (nonlinear_arith)
        requires
            b >= 1,
            pos >= 0,
            t == pos / b,
            off == pos % b,
    ;
    let some = lemma_ensured_from(st, cs, 0, t, Set::empty());
    let (s1, r1) = page_cache::ensured_from(st, cs[0], t, Set::empty());
    lemma_ensured_is(st, cs[0], t);
    if r1 is Ok {
        let part = buf.take(take) + padding(take);
        lemma_aligned(pos, model::spc(st));
        assert(part.len() == (take + 511) / 512 * 512);
        assert(off + part.len() <= b);
        lemma_flush_step(st, s1, cs, some, pos, part);
        let s4 = model::write(s1, model::cluster_lba(s1, some[t]) + off / 512, part).0;
        assert(some[0] == cs[0] && driver::same_layout(s1, st)) by {
            reveal(contents::lengthened);
            assert(some.take(cs.len() as int)[0] == some[0]);
        }
        lemma_unfold(st, s1, s4, ino, e, cs, some, pos, buf);
        if take < buf.len() {
            assert(take == b - off);
            assert(part =~= buf.take(take));
        }
        (true, some, s4)
    } else {
        (false, cs, st)
    }
}

proof fn lemma_ensured_is(st: FatState, head: u32, t: int)
    requires
        head >= 2,
    ensures
        page_cache::ensured(st, Some(head), t) == (
            page_cache::ensured_from(st, head, t, Set::empty()).0,
            match page_cache::ensured_from(st, head, t, Set::empty()).1 {
                Err(x) => Err::<(u32, u32), Error>(x),
                Ok(c) => Ok::<(u32, u32), Error>((head, c)),
            },
        ),
{
    reveal(page_cache::ensured);
}

/// Positions at a sector's start are at one in their cluster too.
#[verifier::spinoff_prover]
#[verifier::rlimit(40)]
proof fn lemma_aligned(pos: int, s: int)
    requires
        pos >= 0,
        pos % 512 == 0,
        s >= 1,
    ensures
        (pos % (512 * s)) % 512 == 0,
{
    let b = 512 * s;
    let t = pos / b;
    assert(pos == t * b + pos % b) by (nonlinear_arith)
        requires
            b >= 1,
            t == pos / b,
    ;
    assert(t * b == 512 * (t * s)) by (nonlinear_arith)
        requires
            b == 512 * s,
    ;
}

/// A flush to a file that has data, after its first step.
#[verifier::spinoff_prover]
#[verifier::rlimit(40)]
proof fn lemma_unfold(
    st: FatState,
    s1: FatState,
    s4: FatState,
    ino: u64,
    e: FatInodeEntry,
    cs: Seq<u32>,
    some: Seq<u32>,
    pos: int,
    buf: Seq<u8>,
)
    requires
        model::spc(st) >= 1,
        0 <= pos,
        pos % 512 == 0,
        buf.len() > 0,
        driver::same_layout(s1, st),
        page_cache::ensured(st, Some(cs[0]), pos / model::bpc(st)) == (
            s1,
            Ok::<(u32, u32), Error>((cs[0], some[pos / model::bpc(st)])),
        ),
        ({
            let take = page_cache::chunk(st, pos, buf.len() as int);
            let off = pos % model::bpc(st);
            model::write(
                s1,
                model::cluster_lba(s1, some[pos / model::bpc(st)]) + off / 512,
                buf.take(take) + padding(take),
            ) == (s4, Ok::<(), Error>(()))
        }),
    ensures
        ({
            let take = page_cache::chunk(st, pos, buf.len() as int);
            let all = page_cache::scattered(st, ino, e, Some(cs[0]), pos, buf);
            if take == buf.len() {
                all == (s4, Ok::<(), Error>(()))
            } else {
                all == page_cache::scattered(s4, ino, e, Some(cs[0]), pos + take, buf.skip(take))
            }
        }),
{
    let b = model::bpc(st);
    let take = page_cache::chunk(st, pos, buf.len() as int);
    let off = pos % b;
    assert(0 <= off < b) by (nonlinear_arith)
        requires
            b >= 1,
            off == pos % b,
    ;
    lemma_aligned(pos, model::spc(st));
    lemma_padded(off, buf.take(take));
    if take == buf.len() {
        assert(buf.skip(take).len() == 0);
        assert(page_cache::scattered(s4, ino, e, Some(cs[0]), pos + take, buf.skip(take)) == (
            s4,
            Ok::<(), Error>(()),
        ));
    }
}

/// The clusters that the first flush of a file takes, and the entry that says so.
#[verifier::spinoff_prover]
#[verifier::rlimit(40)]
proof fn lemma_first_clusters(st: FatState, ino: u64, e: FatInodeEntry, t: int) -> (some: Seq<u32>)
    requires
        chains::in_order(st),
        st.inodes.contains_key(ino),
        !e.orphan ==> entry_in_order(st, e),
        0 <= t,
    ensures
        ({
            let (s1, r1) = page_cache::ensured(st, None, t);
            match r1 {
                Err(x) => x == Error::NoSpace,
                Ok((h, c)) => {
                    let (s2, r2) = if !e.orphan {
                        model::patch(s1, e.dir_cluster, e.entry_offset as int, Change::Cluster(h))
                    } else {
                        (s1, Ok::<(), Error>(()))
                    };
                    let s3 = page_cache::with_head(s2, ino, h);
                    &&& r2 is Ok
                    &&& chains::in_order(s3)
                    &&& contents::holds(s3, some)
                    &&& driver::same_layout(s3, st)
                    &&& s3.inodes == st.inodes.insert(
                        ino,
                        FatInodeEntry { first_cluster: h, ..st.inodes[ino] },
                    )
                    &&& some.len() == t + 1
                    &&& some[0] == h
                    &&& some[t] == c
                },
            }
        }),
{
    reveal(page_cache::ensured);
    chains::take_gives_a_free_cluster(st);
    let (s0, r0) = model::take_cluster(st);
    if r0 is Err {
        seq![]
    } else {
        let h = r0->Ok_0;
        let one = seq![h];
        entry_laws::lemma_chain_of_one(st, s0, h);
        assert(one.last() == h);
        let some = entry_laws::lemma_extended(s0, one, t);
        let (s1, r1) = crate::fat32::write::extended(s0, h, t);
        if r1 is Ok {
            reveal(contents::lengthened);
            assert(some.take(1)[0] == some[0]);
            if e.orphan {
                entry_laws::lemma_remembered(s1, page_cache::with_head(s1, ino, h), some);
            } else {
                let c = e.dir_cluster;
                let off = e.entry_offset as int;
                entry_laws::lemma_dir_kept(st, s0, c, Seq::empty());
                assert(model::fixed_root(st, c) || !one.contains(c));
                entry_laws::lemma_dir_kept(s0, s1, c, one);
                entry_laws::change_is_stored(s1, c, off, Change::Cluster(h));
                let s2 = model::patch(s1, c, off, Change::Cluster(h)).0;
                if !model::fixed_root(st, c) && some.contains(c) {
                    assert(!chains::busy(s0, c));
                }
                entry_laws::lemma_chain_apart(s1, s2, c, off, Change::Cluster(h), some);
                entry_laws::lemma_remembered(s2, page_cache::with_head(s2, ino, h), some);
            }
        }
        some
    }
}

/// Whether the directory entry of a file in use is on the device.
pub open spec fn entry_in_order(st: FatState, e: FatInodeEntry) -> bool {
    &&& entry_laws::dir_in_order(st, e.dir_cluster)
    &&& e.entry_offset + 32 <= model::region(st, e.dir_cluster).1 * 512
}

/// Bytes of a page flushed to a file that has no data yet.
#[verifier::spinoff_prover]
#[verifier::rlimit(40)]
proof fn lemma_first_flush(st: FatState, ino: u64, e: FatInodeEntry, pos: int, buf: Seq<u8>) -> (r: (
    Seq<u32>,
    FatState,
    Seq<u32>,
))
    requires
        chains::in_order(st),
        st.inodes.contains_key(ino),
        !e.orphan ==> entry_in_order(st, e),
        0 <= pos,
        pos % 512 == 0,
        buf.len() > 0,
    ensures
        ({
            let (z, x) = page_cache::scattered(st, ino, e, None, pos, buf);
            let (some, s3, more) = r;
            match x {
                Err(x) => x == Error::NoSpace,
                Ok(_) => {
                    &&& driver::same_layout(s3, st)
                    &&& some.len() > 0
                    &&& s3.inodes == st.inodes.insert(
                        ino,
                        FatInodeEntry { first_cluster: some[0], ..st.inodes[ino] },
                    )
                    &&& contents::chain_written(
                        s3,
                        z,
                        some,
                        more,
                        pos,
                        buf + padding(buf.len() as int),
                        None,
                    )
                },
            }
        }),
{
    let take = page_cache::chunk(st, pos, buf.len() as int);
    let (done, some, s3, s4) = lemma_first_page(st, ino, e, pos, buf);
    let rest = buf.skip(take);
    if !done {
        (some, s3, some)
    } else if take == buf.len() {
        assert(buf.take(take) =~= buf);
        assert(rest.len() == 0);
        (some, s3, some)
    } else {
        let more = lemma_scattered(s4, ino, e, some, pos + take, rest);
        let all = page_cache::scattered(st, ino, e, None, pos, buf);
        if all.1 is Ok {
            let tail = rest + padding(rest.len() as int);
            lemma_written_twice(s3, s4, all.0, some, some, more, pos, buf.take(take), tail);
            lemma_padding(take, rest.len() as int);
            assert(buf.take(take) + tail =~= buf + padding(buf.len() as int));
        }
        (some, s3, more)
    }
}

/// The first step of a flush to a file that has no data yet.
#[verifier::spinoff_prover]
#[verifier::rlimit(40)]
proof fn lemma_first_page(st: FatState, ino: u64, e: FatInodeEntry, pos: int, buf: Seq<u8>) -> (r: (
    bool,
    Seq<u32>,
    FatState,
    FatState,
))
    requires
        chains::in_order(st),
        st.inodes.contains_key(ino),
        !e.orphan ==> entry_in_order(st, e),
        0 <= pos,
        pos % 512 == 0,
        buf.len() > 0,
    ensures
        ({
            let all = page_cache::scattered(st, ino, e, None, pos, buf);
            let take = page_cache::chunk(st, pos, buf.len() as int);
            let (done, some, s3, s4) = r;
            &&& 1 <= take <= buf.len()
            &&& !done ==> all.1 == Err::<(), Error>(Error::NoSpace)
            &&& done ==> {
                &&& driver::same_layout(s3, st)
                &&& s3.inodes == st.inodes.insert(
                    ino,
                    FatInodeEntry { first_cluster: some[0], ..st.inodes[ino] },
                )
                &&& chains::in_order(s4)
                &&& contents::holds(s4, some)
                &&& driver::same_layout(s4, s3)
                &&& contents::chain_written(
                    s3,
                    s4,
                    some,
                    some,
                    pos,
                    buf.take(take) + padding(take),
                    None,
                )
                &&& take < buf.len() ==> take % 512 == 0 && buf.take(take) + padding(take)
                    == buf.take(take)
                &&& all == page_cache::scattered(
                    s4,
                    ino,
                    e,
                    Some(some[0]),
                    pos + take,
                    buf.skip(take),
                )
            }
        }),
{
    let b = model::bpc(st);
    let take = page_cache::chunk(st, pos, buf.len() as int);
    let t = pos / b;
    let off = pos % b;
    assert(0 <= t && 0 <= off < b) by (nonlinear_arith)
        requires
            b >= 1,
            pos >= 0,
            t == pos / b,
            off == pos % b,
    ;
    let some = lemma_first_clusters(st, ino, e, t);
    let (s1, r1) = page_cache::ensured(st, None, t);
    if r1 is Err {
        (false, some, st, st)
    } else {
        let (h, c) = r1->Ok_0;
        let s2 = if !e.orphan {
            model::patch(s1, e.dir_cluster, e.entry_offset as int, Change::Cluster(h)).0
        } else {
            s1
        };
        let s3 = page_cache::with_head(s2, ino, h);
        lemma_part_written(s3, some, pos, buf);
        let part = buf.take(take) + padding(take);
        let s4 = model::write(s3, model::cluster_lba(s3, c) + off / 512, part).0;
        lemma_unfold_first(st, ino, e, pos, buf);
        (true, some, s3, s4)
    }
}

/// A part of a page written to a chain that is long enough for it.
#[verifier::spinoff_prover]
#[verifier::rlimit(40)]
proof fn lemma_part_written(st: FatState, cs: Seq<u32>, pos: int, buf: Seq<u8>)
    requires
        chains::in_order(st),
        contents::holds(st, cs),
        0 <= pos,
        pos % 512 == 0,
        pos / model::bpc(st) < cs.len(),
        buf.len() > 0,
    ensures
        ({
            let take = page_cache::chunk(st, pos, buf.len() as int);
            let off = pos % model::bpc(st);
            let part = buf.take(take) + padding(take);
            let c = cs[pos / model::bpc(st)];
            let (z, r) = model::write(st, model::cluster_lba(st, c) + off / 512, part);
            &&& 1 <= take <= buf.len()
            &&& r is Ok
            &&& chains::in_order(z)
            &&& contents::holds(z, cs)
            &&& driver::same_layout(z, st)
            &&& contents::chain_written(st, z, cs, cs, pos, part, None)
            &&& take < buf.len() ==> take % 512 == 0 && part == buf.take(take)
        }),
{
    let b = model::bpc(st);
    let off = pos % b;
    assert(0 <= off < b) by (nonlinear_arith)
        requires
            b >= 1,
            off == pos % b,
    ;
    let take = page_cache::chunk(st, pos, buf.len() as int);
    let part = buf.take(take) + padding(take);
    lemma_aligned(pos, model::spc(st));
    assert(part.len() == (take + 511) / 512 * 512);
    contents::lemma_lengthened_itself(st, cs);
    lemma_flush_step(st, st, cs, cs, pos, part);
    if take < buf.len() {
        assert(take == b - off);
        assert(part =~= buf.take(take));
    }
}

/// A flush to a file that has no data yet, after its first step.
proof fn lemma_unfold_first(st: FatState, ino: u64, e: FatInodeEntry, pos: int, buf: Seq<u8>)
    requires
        model::spc(st) >= 1,
        0 <= pos,
        pos % 512 == 0,
        buf.len() > 0,
    ensures
        ({
            let take = page_cache::chunk(st, pos, buf.len() as int);
            let off = pos % model::bpc(st);
            let (s1, r1) = page_cache::ensured(st, None, pos / model::bpc(st));
            let (h, c) = r1->Ok_0;
            let (s2, r2) = if !e.orphan {
                model::patch(s1, e.dir_cluster, e.entry_offset as int, Change::Cluster(h))
            } else {
                (s1, Ok::<(), Error>(()))
            };
            let s3 = page_cache::with_head(s2, ino, h);
            let (s4, r4) = model::write(
                s3,
                model::cluster_lba(s3, c) + off / 512,
                buf.take(take) + padding(take),
            );
            r1 is Ok && r2 is Ok && r4 is Ok ==> page_cache::scattered(st, ino, e, None, pos, buf)
                == page_cache::scattered(s4, ino, e, Some(h), pos + take, buf.skip(take))
        }),
{
    let b = model::bpc(st);
    let take = page_cache::chunk(st, pos, buf.len() as int);
    let off = pos % b;
    assert(0 <= off < b) by (nonlinear_arith)
        requires
            b >= 1,
            off == pos % b,
    ;
    lemma_aligned(pos, model::spc(st));
    lemma_padded(off, buf.take(take));
}

/// A page that has been written to a chain is what is gathered from it.
proof fn lemma_page_back(
    st: FatState,
    z: FatState,
    cs: Seq<u32>,
    more: Seq<u32>,
    pos: int,
    data: Seq<u8>,
)
    requires
        pos >= 0,
        contents::chain_written(
            st,
            z,
            cs,
            more,
            pos,
            data + padding(data.len() as int),
            None,
        ),
    ensures
        page_cache::gather(z, more[0], pos, data.len() as int) == Ok::<Seq<u8>, Error>(data),
{
    reveal(contents::chain_written);
    lemma_gather(z, more, pos, data.len() as int);
    assert(contents::bytes_at(z, more, pos, data.len() as int) =~= data);
}

/// A page of a file is filled with the file's bytes, as far as the file goes, and zeros behind
/// them; how many bytes are the file's comes with it. Past the end there are zeros alone.
pub proof fn page_is_the_files_bytes(st: FatState, ino: u64, idx: int, cs: Seq<u32>, p: int)
    requires
        chains::fats_fit(st),
        st.inodes.contains_key(ino),
        st.inodes[ino].first_cluster >= 2,
        contents::holds(st, cs),
        cs[0] == st.inodes[ino].first_cluster,
        st.inodes[ino].file_size <= cs.len() * model::bpc(st),
        0 <= idx,
        0 <= p < 4096,
    ensures
        ({
            let size = st.inodes[ino].file_size as int;
            &&& page_cache::filled(st, ino, idx) is Ok
            &&& page_cache::filled(st, ino, idx)->Ok_0.0.len() == 4096
            &&& page_cache::filled(st, ino, idx)->Ok_0.0[p] == (if idx * 4096 + p < size {
                contents::byte_at(st, cs, idx * 4096 + p)
            } else {
                0
            })
            &&& p < page_cache::filled(st, ino, idx)->Ok_0.1 <==> idx * 4096 + p < size
            &&& 0 <= page_cache::filled(st, ino, idx)->Ok_0.1 <= 4096
        }),
{
    reveal(page_cache::filled);
    let size = st.inodes[ino].file_size as int;
    let n = page_cache::valid_bytes(size, idx);
    if n > 0 {
        lemma_gather(st, cs, idx * 4096, n);
        let d = contents::bytes_at(st, cs, idx * 4096, n);
        let all = d + bytes::zeros(4096 - n);
        assert(d.len() == n);
        if p < n {
            assert(all[p] == d[p]);
        }
    }
}

/// A page that has been flushed is what the page is filled with, as far as the file goes; the
/// other bytes of the file are what they were. A want of space is the only way to fail.
#[verifier::spinoff_prover]
#[verifier::rlimit(40)]
pub proof fn flush_then_fill(st: FatState, ino: u64, idx: int, buf: Seq<u8>, cs: Seq<u32>) -> (more:
    Seq<u32>)
    requires
        chains::in_order(st),
        st.inodes.contains_key(ino),
        0 <= idx,
        idx * 4096 < st.inodes[ino].file_size,
        buf.len() == 4096,
        st.inodes[ino].first_cluster >= 2 ==> contents::holds(st, cs) && cs[0]
            == st.inodes[ino].first_cluster,
        st.inodes[ino].first_cluster < 2 ==> cs.len() == 0 && (st.inodes[ino].orphan
            || entry_in_order(st, st.inodes[ino])),
    ensures
        ({
            let (z, r) = page_cache::flushed(st, ino, idx, buf);
            let size = st.inodes[ino].file_size as int;
            let n = if size - idx * 4096 < 4096 {
                size - idx * 4096
            } else {
                4096
            };
            match r {
                Err(x) => x == Error::NoSpace,
                Ok(_) => {
                    &&& page_cache::filled(z, ino, idx) == Ok::<(Seq<u8>, int), Error>(
                        (buf.take(n) + bytes::zeros(4096 - n), n),
                    )
                    &&& forall|p: int|
                        0 <= p < size && p < cs.len() * model::bpc(st) && p / 4096 != idx
                            ==> #[trigger] contents::byte_at(z, more, p) == contents::byte_at(
                            st,
                            cs,
                            p,
                        )
                },
            }
        }),
{
    let e = st.inodes[ino];
    let n = page_cache::valid_bytes(e.file_size as int, idx);
    let data = buf.take(n);
    let pos = idx * 4096;
    let (z, r) = page_cache::flushed(st, ino, idx, buf);
    let head = if e.first_cluster >= 2 {
        Some(e.first_cluster)
    } else {
        None
    };
    assert((z, r) == page_cache::scattered(st, ino, e, head, pos, data)) by {
        reveal(page_cache::flushed);
    }
    if e.first_cluster >= 2 {
        let more = lemma_scattered(st, ino, e, cs, pos, data);
        if r is Ok {
            lemma_page_back(st, z, cs, more, pos, data);
            lemma_kept_pages(st, z, cs, more, idx, data, e);
            assert(page_cache::filled(z, ino, idx) == Ok::<(Seq<u8>, int), Error>(
                (data + bytes::zeros(4096 - n), n),
            )) by {
                reveal(page_cache::filled);
            }
        }
        more
    } else {
        let (some, s3, more) = lemma_first_flush(st, ino, e, pos, data);
        if r is Ok {
            lemma_page_back(s3, z, some, more, pos, data);
            assert(z.inodes == s3.inodes && more[0] == some[0] && more[0] >= 2) by {
                reveal(contents::chain_written);
                assert(more.take(some.len() as int)[0] == more[0]);
                assert(contents::used(z, more[0]));
            }
            assert(page_cache::filled(z, ino, idx) == Ok::<(Seq<u8>, int), Error>(
                (data + bytes::zeros(4096 - n), n),
            )) by {
                reveal(page_cache::filled);
            }
        }
        more
    }
}

/// Pages other than the one that was flushed.
proof fn lemma_kept_pages(
    st: FatState,
    z: FatState,
    cs: Seq<u32>,
    more: Seq<u32>,
    idx: int,
    data: Seq<u8>,
    e: FatInodeEntry,
)
    requires
        0 <= idx,
        data.len() == page_cache::valid_bytes(e.file_size as int, idx),
        data.len() > 0,
        contents::holds(st, cs),
        contents::chain_written(
            st,
            z,
            cs,
            more,
            idx * 4096,
            data + padding(data.len() as int),
            None,
        ),
    ensures
        z.inodes == st.inodes,
        more[0] == cs[0],
        forall|p: int|
            0 <= p < e.file_size && p < cs.len() * model::bpc(st) && p / 4096 != idx
                ==> #[trigger] contents::byte_at(z, more, p) == contents::byte_at(st, cs, p),
{
    reveal(contents::chain_written);
    assert(more.take(cs.len() as int)[0] == more[0]);
}

} // verus!
