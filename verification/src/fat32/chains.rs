//! Chains of clusters: what the FAT says after it has been changed.
use vstd::prelude::*;
use crate::bytes;
use crate::error::Error;
use super::driver;
use super::model;
use super::model::FatState;
use super::structures::FatVariant;

verus! {

// ---- Volumes in order ---------------------------------------------------------------------

/// First sector past the FATs.
pub open spec fn fat_end(st: FatState) -> int {
    model::fat_lba(st) + st.boot.num_fats * model::fat_size(st)
}

/// Whether cluster `c` lies within the volume and on the device.
pub open spec fn placed(st: FatState, c: u32) -> bool {
    &&& model::data_lba(st) + (c - 2) * model::spc(st) < st.start + st.size
    &&& (model::data_lba(st) + (c - 1) * model::spc(st)) * 512 <= st.disk.len()
}

/// Whether the FATs are on the device.
pub open spec fn fats_fit(st: FatState) -> bool {
    model::valid(st) && fat_end(st) * 512 <= st.disk.len()
}

/// Whether cluster `c` has an entry in the FAT, a number that an entry can hold, and a place
/// on the device.
pub open spec fn proper(st: FatState, c: u32) -> bool {
    2 <= c < model::search_limit(st) && c < model::end_mark(st.variant) - 1 && placed(st, c)
}

/// Whether cluster `c` is in use.
pub open spec fn busy(st: FatState, c: u32) -> bool {
    model::fat_value(st, c) matches Ok(x) && model::masked(st.variant, x) != 0
}

/// Whether a volume is in order: the FATs are on the device, and every cluster that they
/// give as free has a place there too.
pub open spec fn in_order(st: FatState) -> bool {
    &&& fats_fit(st)
    &&& forall|c: u32|
        2 <= c < model::search_limit(st) && !busy(st, c) ==> #[trigger] proper(st, c)
}

/// The FAT entry of cluster `c` in a FAT that starts at byte `base`.
pub open spec fn entry_at(disk: Seq<u8>, base: int, v: FatVariant, c: u32) -> u32 {
    let p = base + model::fat_offset(v, c);
    match v {
        FatVariant::Fat32 => bytes::le32(disk, p),
        FatVariant::Fat16 => bytes::le16(disk, p) as u32,
        FatVariant::Fat12 => if c % 2 == 0 {
            (bytes::le16(disk, p) % 4096) as u32
        } else {
            (bytes::le16(disk, p) / 16) as u32
        },
    }
}

/// What remains of a value that is stored in a FAT entry.
pub open spec fn stored(v: FatVariant, x: u32) -> u32 {
    match v {
        FatVariant::Fat32 => (x % 0x1000_0000) as u32,
        FatVariant::Fat16 => (x % 0x1_0000) as u32,
        FatVariant::Fat12 => (x % 4096) as u32,
    }
}

/// First byte of the FAT.
pub open spec fn fat_base(st: FatState) -> int {
    model::fat_lba(st) * 512
}

/// The entries of clusters below the limit lie within the FAT.
proof fn lemma_entry_range(st: FatState, c: u32)
    requires
        model::valid(st),
        c < model::search_limit(st),
    ensures
        0 <= model::fat_offset(st.variant, c),
        model::fat_offset(st.variant, c) + model::fat_width(st.variant) <= model::fat_size(st)
            * 512,
        model::fat_offset(st.variant, c) / 512 + model::fat_span(st.variant, c)
            <= model::fat_size(st),
        model::fat_size(st) >= 1,
{
}

#[verifier::spinoff_prover]
#[verifier::rlimit(40)]
pub(crate) proof fn lemma_fats(st: FatState)
    requires
        model::valid(st),
    ensures
        0 <= model::fat_size(st),
        model::fat_lba(st) >= 0,
        fat_end(st) >= model::fat_lba(st) + model::fat_size(st),
        st.boot.num_fats > 1 ==> fat_end(st) >= model::backup_lba(st) + model::fat_size(st),
        model::data_lba(st) >= fat_end(st),
        model::spc(st) >= 1,
{
    let n = st.boot.num_fats as int;
    let f = model::fat_size(st);
    assert(n >= 1);
    assert(n * f >= f) by (nonlinear_arith)
        requires
            n >= 1,
            f >= 0,
    ;
    if n > 1 {
        assert(n * f >= 2 * f) by (nonlinear_arith)
            requires
                n >= 2,
                f >= 0,
        ;
    }
}

/// A FAT entry is what the bytes of the FAT say.
#[verifier::spinoff_prover]
#[verifier::rlimit(40)]
proof fn lemma_value(st: FatState, c: u32)
    requires
        fats_fit(st),
        c < model::search_limit(st),
    ensures
        model::fat_value(st, c) == Ok::<u32, Error>(
            entry_at(st.disk, fat_base(st), st.variant, c),
        ),
{
    lemma_entry_range(st, c);
    lemma_fats(st);
    let off = model::fat_offset(st.variant, c);
    let w = off % 512;
    let lba = model::fat_lba(st) + off / 512;
    let n = model::fat_span(st.variant, c);
    let width = model::fat_width(st.variant);
    assert((lba + n) * 512 <= fat_end(st) * 512);
    let sec = st.disk.subrange(lba * 512, (lba + n) * 512);
    let p = fat_base(st) + off;
    assert(p == lba * 512 + w);
    assert(sec.subrange(w, w + width) =~= st.disk.subrange(p, p + width));
    bytes::lemma_le_same(sec, w, st.disk, p, width);
}

// ---- Setting an entry -----------------------------------------------------------------------

proof fn lemma_nibbles(old: u16, x: u32, a: u16, b: u16)
    requires
        a == old / 4096 * 4096 + x % 4096,
        b == old % 16 + x % 4096 * 16,
    ensures
        a % 4096 == x % 4096,
        b / 16 == x % 4096,
        a / 4096 == old / 4096,
        b % 16 == old % 16,
{
}

/// What the FAT's bytes are after an entry has been set.
spec fn fat_after(st: FatState, z: FatState, c: u32, x: u32) -> bool {
    let p = fat_base(st) + model::fat_offset(st.variant, c);
    let width = model::fat_width(st.variant);
    let old = bytes::le16(st.disk, p);
    &&& z.disk.len() == st.disk.len()
    &&& z.disk.subrange(p, p + width) == (match st.variant {
        FatVariant::Fat32 => bytes::bytes32((x % 0x1000_0000) as u32),
        FatVariant::Fat16 => bytes::bytes16((x % 0x1_0000) as u16),
        FatVariant::Fat12 => bytes::bytes16(
            (if c % 2 == 0 {
                old / 4096 * 4096 + x % 4096
            } else {
                old % 16 + x % 4096 * 16
            }) as u16,
        ),
    })
    &&& forall|k: int|
        0 <= k < st.disk.len() && !(p <= k < p + width) && !(model::backup_lba(st) * 512 <= k
            < fat_end(st) * 512) ==> #[trigger] z.disk[k] == st.disk[k]
}

pub(crate) proof fn lemma_write(st: FatState, lba: int, data: Seq<u8>)
    requires
        lba >= 0,
        lba * 512 + data.len() <= st.disk.len(),
    ensures
        model::write(st, lba, data) == (
            FatState { disk: bytes::splice(st.disk, lba * 512, data), ..st },
            Ok::<(), Error>(()),
        ),
{
    assert(data.take(data.len() as int) =~= data);
    if data.len() == 0 {
        assert(bytes::splice(st.disk, lba * 512, data.take(0)) =~= bytes::splice(
            st.disk,
            lba * 512,
            data,
        ));
    }
}

#[verifier::spinoff_prover]
#[verifier::rlimit(40)]
proof fn lemma_set_bytes(st: FatState, c: u32, x: u32)
    requires
        fats_fit(st),
        c < model::search_limit(st),
    ensures
        model::set_fat(st, c, x).1 is Ok,
        driver::same_layout(model::set_fat(st, c, x).0, st),
        model::set_fat(st, c, x).0 == (FatState { disk: model::set_fat(st, c, x).0.disk, ..st }),
        fat_after(st, model::set_fat(st, c, x).0, c, x),
{
    reveal(model::set_fat);
    lemma_entry_range(st, c);
    lemma_fats(st);
    let v = st.variant;
    let off = model::fat_offset(v, c);
    let idx = off / 512;
    let w = off % 512;
    let n = model::fat_span(v, c);
    let width = model::fat_width(v);
    let lba = model::fat_lba(st) + idx;
    assert((lba + n) * 512 <= fat_end(st) * 512);
    let sec = st.disk.subrange(lba * 512, (lba + n) * 512);
    let new = model::entry_set(v, c, sec, x);
    assert(new.len() == sec.len());
    let p = fat_base(st) + off;
    assert(p == lba * 512 + w);
    assert(sec.subrange(w, w + width) =~= st.disk.subrange(p, p + width));
    bytes::lemma_le_same(sec, w, st.disk, p, width);
    lemma_write(st, lba, new);
    let s1 = model::write(st, lba, new).0;
    let part = match v {
        FatVariant::Fat32 => bytes::bytes32((x % 0x1000_0000) as u32),
        FatVariant::Fat16 => bytes::bytes16((x % 0x1_0000) as u16),
        FatVariant::Fat12 => {
            let old = bytes::le16(sec, w);
            bytes::bytes16(
                (if c % 2 == 0 {
                    old / 4096 * 4096 + x % 4096
                } else {
                    old % 16 + x % 4096 * 16
                }) as u16,
            )
        },
    };
    assert(part.len() == width);
    assert(new == bytes::splice(sec, w, part));
    assert(s1.disk.subrange(p, p + width) =~= part);
    assert forall|k: int| 0 <= k < st.disk.len() && !(p <= k < p + width) implies
        #[trigger] s1.disk[k] == st.disk[k] by {
        if lba * 512 <= k < (lba + n) * 512 {
            assert(new[k - lba * 512] == sec[k - lba * 512]);
        }
    }
    let f = model::fat_size(st);
    lemma_copies(st, idx, new, 0);
    let z = model::write_copies(st, idx, new, 0).0;
    assert forall|k: int|
        0 <= k < st.disk.len() && !(model::backup_lba(st) * 512 <= k < fat_end(st)
            * 512) implies #[trigger] z.disk[k] == s1.disk[k] by {
        if fat_base(st) <= k < model::backup_lba(st) * 512 {
            let b = k - fat_base(st);
            assert(copy_pos(st, 0, b) == k);
            assert(z.disk[copy_pos(st, 0, b)] == (if idx * 512 <= b < idx * 512 + new.len() {
                new[b - idx * 512]
            } else {
                st.disk[k]
            }));
        } else {
            assert(copy_pos(st, 0, 0) == fat_base(st));
        }
    }
    assert(p + width <= model::backup_lba(st) * 512);
    assert(z.disk.subrange(p, p + width) =~= s1.disk.subrange(p, p + width));
}

/// Where byte `b` of FAT number `i` lies.
pub open spec fn copy_pos(st: FatState, i: int, b: int) -> int {
    fat_base(st) + i * (model::fat_size(st) * 512) + b
}

/// Writing to every FAT from number `i` on.
#[verifier::spinoff_prover]
#[verifier::rlimit(40)]
proof fn lemma_copies(st: FatState, idx: int, sec: Seq<u8>, i: int)
    requires
        fats_fit(st),
        0 <= idx,
        0 <= i <= st.boot.num_fats,
        idx * 512 + sec.len() <= model::fat_size(st) * 512,
    ensures
        ({
            let (z, r) = model::write_copies(st, idx, sec, i);
            &&& r == Ok::<(), Error>(())
            &&& z == (FatState { disk: z.disk, ..st })
            &&& z.disk.len() == st.disk.len()
            &&& forall|j: int, b: int|
                i <= j < st.boot.num_fats && 0 <= b < model::fat_size(st) * 512
                    ==> #[trigger] z.disk[copy_pos(st, j, b)] == (if idx * 512 <= b < idx * 512
                    + sec.len() {
                    sec[b - idx * 512]
                } else {
                    st.disk[copy_pos(st, j, b)]
                })
            &&& forall|k: int|
                0 <= k < st.disk.len() && !(copy_pos(st, i, 0) <= k < fat_end(st) * 512)
                    ==> #[trigger] z.disk[k] == st.disk[k]
        }),
    decreases st.boot.num_fats - i,
{
    lemma_fats(st);
    let f = model::fat_size(st);
    let n = st.boot.num_fats as int;
    if i < n {
        assert(i * f >= 0 && (i + 1) * f == i * f + f && (i + 1) * f <= n * f)
            by (nonlinear_arith)
            requires
                0 <= i < n,
                f >= 0,
        ;
        assert(i * (f * 512) == i * f * 512) by (nonlinear_arith);
        assert((i + 1) * (f * 512) == (i + 1) * f * 512) by (nonlinear_arith);
        let lba = model::fat_lba(st) + i * f + idx;
        lemma_write(st, lba, sec);
        let s = model::write(st, lba, sec).0;
        lemma_copies(s, idx, sec, i + 1);
        let z = model::write_copies(s, idx, sec, i + 1).0;
        assert(copy_pos(st, i, 0) + idx * 512 == lba * 512);
        assert forall|j: int, b: int|
            i <= j < n && 0 <= b < f * 512 implies #[trigger] z.disk[copy_pos(st, j, b)] == (
        if idx * 512 <= b < idx * 512 + sec.len() {
            sec[b - idx * 512]
        } else {
            st.disk[copy_pos(st, j, b)]
        }) by {
            assert(copy_pos(s, j, b) == copy_pos(st, j, b));
            assert((j + 1) * f <= n * f && j * (f * 512) == j * f * 512 && (j + 1) * f == j * f + f)
                by (nonlinear_arith)
                requires
                    0 <= j < n,
                    f >= 0,
            ;
            if j == i {
                assert(z.disk[copy_pos(st, j, b)] == s.disk[copy_pos(st, j, b)]);
            } else {
                assert(j * f >= (i + 1) * f) by (nonlinear_arith)
                    requires
                        j >= i + 1,
                        f >= 0,
                ;
                assert(z.disk[copy_pos(s, j, b)] == (if idx * 512 <= b < idx * 512 + sec.len() {
                    sec[b - idx * 512]
                } else {
                    s.disk[copy_pos(s, j, b)]
                }));
            }
        }
    }
}

/// Whether all FATs hold the same.
pub open spec fn copies_agree(st: FatState) -> bool {
    forall|i: int, b: int|
        0 <= i < st.boot.num_fats && 0 <= b < model::fat_size(st) * 512 ==> #[trigger] st.disk[copy_pos(
            st,
            i,
            b,
        )] == st.disk[copy_pos(st, 0, b)]
}

/// FATs that agree still do after an entry has been set.
#[verifier::spinoff_prover]
#[verifier::rlimit(40)]
pub proof fn copies_stay_alike(st: FatState, c: u32, x: u32)
    requires
        fats_fit(st),
        c < model::search_limit(st),
        copies_agree(st),
    ensures
        copies_agree(model::set_fat(st, c, x).0),
{
    reveal(model::set_fat);
    lemma_entry_range(st, c);
    lemma_fats(st);
    let off = model::fat_offset(st.variant, c);
    let idx = off / 512;
    let n = model::fat_span(st.variant, c);
    let lba = model::fat_lba(st) + idx;
    assert((lba + n) * 512 <= fat_end(st) * 512);
    let sec = st.disk.subrange(lba * 512, (lba + n) * 512);
    let new = model::entry_set(st.variant, c, sec, x);
    assert(new.len() == sec.len());
    lemma_copies(st, idx, new, 0);
    let z = model::write_copies(st, idx, new, 0).0;
    assert forall|i: int, b: int|
        0 <= i < z.boot.num_fats && 0 <= b < model::fat_size(z)
            * 512 implies #[trigger] z.disk[copy_pos(z, i, b)] == z.disk[copy_pos(z, 0, b)] by {
        assert(copy_pos(z, i, b) == copy_pos(st, i, b));
        assert(copy_pos(z, 0, b) == copy_pos(st, 0, b));
        assert(st.disk[copy_pos(st, i, b)] == st.disk[copy_pos(st, 0, b)]);
    }
}

/// Setting a FAT entry sets that entry in the FAT, leaves every other as it was, and
/// touches nothing outside the FATs.
#[verifier::spinoff_prover]
#[verifier::rlimit(40)]
pub proof fn set_then_get(st: FatState, c: u32, x: u32, d: u32)
    requires
        fats_fit(st),
        c < model::search_limit(st),
        d < model::search_limit(st),
    ensures
        ({
            let z = model::set_fat(st, c, x).0;
            &&& model::set_fat(st, c, x).1 is Ok
            &&& driver::same_layout(z, st)
            &&& fats_fit(z)
            &&& z == (FatState { disk: z.disk, ..st })
            &&& model::fat_value(z, c) == Ok::<u32, Error>(stored(st.variant, x))
            &&& d != c ==> model::fat_value(z, d) == model::fat_value(st, d)
            &&& forall|k: int|
                0 <= k < st.disk.len() && !(fat_base(st) <= k < fat_end(st) * 512)
                    ==> #[trigger] z.disk[k] == st.disk[k]
        }),
{
    lemma_set_bytes(st, c, x);
    let z = model::set_fat(st, c, x).0;
    lemma_fats(st);
    lemma_entry_range(st, c);
    lemma_entry_range(st, d);
    lemma_value(z, c);
    lemma_value(z, d);
    lemma_value(st, d);
    let v = st.variant;
    let b = fat_base(st);
    let p = b + model::fat_offset(v, c);
    let q = b + model::fat_offset(v, d);
    match v {
        FatVariant::Fat32 => {
            bytes::le32_round_trip(z.disk, p, (x % 0x1000_0000) as u32);
            if d != c {
                assert(z.disk.subrange(q, q + 4) =~= st.disk.subrange(q, q + 4));
                bytes::lemma_le_same(z.disk, q, st.disk, q, 4);
            }
        },
        FatVariant::Fat16 => {
            bytes::le16_round_trip(z.disk, p, (x % 0x1_0000) as u16);
            if d != c {
                assert(z.disk.subrange(q, q + 2) =~= st.disk.subrange(q, q + 2));
                bytes::lemma_le_same(z.disk, q, st.disk, q, 2);
            }
        },
        FatVariant::Fat12 => {
            lemma_twelve(st, z, c, x, d);
        },
    }
}

/// Setting the lower of two entries leaves the upper: the high half of the byte between
/// them stays.
proof fn lemma_lower_set(b0: int, b1: int, n0: int, n1: int, y: int, t: int)
    requires
        0 <= b0 < 256,
        0 <= b1 < 256,
        0 <= n0 < 256,
        0 <= n1 < 256,
        0 <= y < 4096,
        n0 + 256 * n1 == (b0 + 256 * b1) / 4096 * 4096 + y,
    ensures
        (n1 + 256 * t) / 16 == (b1 + 256 * t) / 16,
{
    assert(b1 / 16 == (b0 + 256 * b1) / 4096);
    assert(n1 / 16 == (n0 + 256 * n1) / 4096);
    assert((b1 + 256 * t) / 16 == b1 / 16 + 16 * t);
    assert((n1 + 256 * t) / 16 == n1 / 16 + 16 * t);
}

/// Setting the upper of two entries leaves the lower: the low half of the byte between
/// them stays.
proof fn lemma_upper_set(b0: int, b1: int, n0: int, n1: int, y: int, t: int)
    requires
        0 <= b0 < 256,
        0 <= b1 < 256,
        0 <= n0 < 256,
        0 <= n1 < 256,
        0 <= t < 256,
        n0 + 256 * n1 == (b0 + 256 * b1) % 16 + y * 16,
    ensures
        (t + 256 * n0) % 4096 == (t + 256 * b0) % 4096,
{
    assert(b0 % 16 == (b0 + 256 * b1) % 16);
    assert(n0 % 16 == (n0 + 256 * n1) % 16);
    assert((t + 256 * b0) % 4096 == t + 256 * (b0 % 16));
    assert((t + 256 * n0) % 4096 == t + 256 * (n0 % 16));
}

/// The entries of twelve bits, of which two share a byte.
#[verifier::spinoff_prover]
#[verifier::rlimit(40)]
proof fn lemma_twelve(st: FatState, z: FatState, c: u32, x: u32, d: u32)
    requires
        st.variant is Fat12,
        fat_after(st, z, c, x),
        fat_base(st) >= 0,
        fat_base(st) + model::fat_offset(st.variant, c) + 2 <= st.disk.len(),
        fat_base(st) + model::fat_offset(st.variant, d) + 2 <= st.disk.len(),
        fat_base(st) + model::fat_offset(st.variant, c) + 2 <= model::backup_lba(st) * 512,
        fat_base(st) + model::fat_offset(st.variant, d) + 2 <= model::backup_lba(st) * 512,
    ensures
        entry_at(z.disk, fat_base(st), st.variant, c) == x % 4096,
        d != c ==> entry_at(z.disk, fat_base(st), st.variant, d) == entry_at(
            st.disk,
            fat_base(st),
            st.variant,
            d,
        ),
{
    let v = st.variant;
    let b = fat_base(st);
    let p = b + model::fat_offset(v, c);
    let q = b + model::fat_offset(v, d);
    let old = bytes::le16(st.disk, p);
    let a = (old / 4096 * 4096 + x % 4096) as u16;
    let o = (old % 16 + x % 4096 * 16) as u16;
    let new = if c % 2 == 0 {
        a
    } else {
        o
    };
    lemma_nibbles(old, x, a, o);
    assert(z.disk.subrange(p, p + 2) == bytes::bytes16(new));
    bytes::le16_round_trip(z.disk, p, new);
    if d != c {
        lemma_twelve_other(st, z, c, x, d, p, q, new);
    }
}

#[verifier::spinoff_prover]
#[verifier::rlimit(40)]
proof fn lemma_twelve_other(
    st: FatState,
    z: FatState,
    c: u32,
    x: u32,
    d: u32,
    p: int,
    q: int,
    new: u16,
)
    requires
        c != d,
        st.variant is Fat12,
        0 <= fat_base(st),
        p == fat_base(st) + c * 3 / 2,
        q == fat_base(st) + d * 3 / 2,
        p + 2 <= st.disk.len(),
        q + 2 <= st.disk.len(),
        z.disk.len() == st.disk.len(),
        bytes::le16(z.disk, p) == new,
        new == (if c % 2 == 0 {
            bytes::le16(st.disk, p) / 4096 * 4096 + x % 4096
        } else {
            bytes::le16(st.disk, p) % 16 + x % 4096 * 16
        }),
        forall|k: int| q <= k < q + 2 && !(p <= k < p + 2) ==> #[trigger] z.disk[k] == st.disk[k],
    ensures
        entry_at(z.disk, fat_base(st), st.variant, d) == entry_at(
            st.disk,
            fat_base(st),
            st.variant,
            d,
        ),
{
    if q + 2 <= p || p + 2 <= q {
        assert(z.disk.subrange(q, q + 2) =~= st.disk.subrange(q, q + 2));
        bytes::lemma_le_same(z.disk, q, st.disk, q, 2);
    } else if c % 2 == 0 {
        assert(d == c + 1);
        assert(q == p + 1);
        assert(z.disk[q + 1] == st.disk[q + 1]);
        lemma_lower_set(
            st.disk[p] as int,
            st.disk[p + 1] as int,
            z.disk[p] as int,
            z.disk[p + 1] as int,
            x as int % 4096,
            st.disk[q + 1] as int,
        );
    } else {
        assert(d == c - 1);
        assert(p == q + 1);
        assert(z.disk[q] == st.disk[q]);
        lemma_upper_set(
            st.disk[p] as int,
            st.disk[p + 1] as int,
            z.disk[p] as int,
            z.disk[p + 1] as int,
            x as int % 4096,
            st.disk[q] as int,
        );
    }
}

// ---- Taking and linking -----------------------------------------------------------------------

/// Whether two states have the same FAT entries, but for those of some clusters.
pub open spec fn same_but(z: FatState, st: FatState, but: Set<u32>) -> bool {
    &&& driver::same_layout(z, st)
    &&& forall|d: u32|
        d < model::search_limit(st) && !but.contains(d) ==> #[trigger] model::fat_value(z, d)
            == model::fat_value(st, d)
}

/// Whether two states hold the same bytes outside the FATs.
pub open spec fn same_data(z: FatState, st: FatState) -> bool {
    forall|k: int|
        0 <= k < st.disk.len() && !(fat_base(st) <= k < fat_end(st) * 512)
            ==> #[trigger] z.disk[k] == st.disk[k]
}

/// Bytes outside the FATs say nothing of the entries.
#[verifier::spinoff_prover]
#[verifier::rlimit(40)]
pub(crate) proof fn lemma_same_fat(z: FatState, st: FatState)
    requires
        fats_fit(st),
        driver::same_layout(z, st),
        model::valid(z),
        forall|k: int| fat_base(st) <= k < fat_end(st) * 512 ==> #[trigger] z.disk[k] == st.disk[k],
    ensures
        same_but(z, st, Set::empty()),
{
    assert forall|d: u32| d < model::search_limit(st) implies #[trigger] model::fat_value(z, d)
        == model::fat_value(st, d) by {
        lemma_value(z, d);
        lemma_value(st, d);
        lemma_entry_range(st, d);
        lemma_fats(st);
        let q = fat_base(st) + model::fat_offset(st.variant, d);
        let w = model::fat_width(st.variant);
        assert(z.disk.subrange(q, q + w) =~= st.disk.subrange(q, q + w));
        bytes::lemma_le_same(z.disk, q, st.disk, q, w);
    }
}

pub(crate) proof fn lemma_set(st: FatState, c: u32, x: u32)
    requires
        fats_fit(st),
        c < model::search_limit(st),
    ensures
        ({
            let z = model::set_fat(st, c, x).0;
            &&& model::set_fat(st, c, x).1 == Ok::<(), Error>(())
            &&& fats_fit(z)
            &&& z == (FatState { disk: z.disk, ..st })
            &&& model::fat_value(z, c) == Ok::<u32, Error>(stored(st.variant, x))
            &&& same_but(z, st, set![c])
            &&& same_data(z, st)
        }),
{
    set_then_get(st, c, x, c);
    let z = model::set_fat(st, c, x).0;
    assert(model::set_fat(st, c, x).1->Ok_0 == ());
    assert forall|d: u32| d < model::search_limit(st) && !set![c].contains(d) implies
        #[trigger] model::fat_value(z, d) == model::fat_value(st, d) by {
        set_then_get(st, c, x, d);
    }
}

/// What holds after a free cluster has been taken.
pub open spec fn taken(st: FatState, z: FatState, c: u32) -> bool {
    &&& proper(st, c)
    &&& !busy(st, c)
    &&& busy(z, c)
    &&& model::fat_next(z, c) == Ok::<Option<u32>, Error>(None)
    &&& in_order(z)
    &&& same_but(z, st, set![c])
    &&& same_data(z, st)
    &&& z.inodes == st.inodes
}

#[verifier::spinoff_prover]
#[verifier::rlimit(40)]
proof fn lemma_search(st: FatState, from: u32)
    requires
        in_order(st),
        from >= 2,
    ensures
        match model::search(st, from).1 {
            Some(c) => taken(st, model::search(st, from).0, c),
            None => model::search(st, from).0 == st,
        },
    decreases model::search_limit(st) - from,
{
    if from < model::search_limit(st) {
        lemma_value(st, from);
        if !busy(st, from) {
            let e = model::eof_value(st.variant);
            lemma_set(st, from, e);
            let z = model::set_fat(st, from, e).0;
            assert(proper(st, from));
            assert(busy(z, from));
            assert(model::fat_next(z, from) == Ok::<Option<u32>, Error>(None)) by {
                reveal(model::fat_next);
            }
            assert forall|d: u32| 2 <= d < model::search_limit(z) && !busy(z, d) implies
                #[trigger] proper(z, d) by {
                assert(model::fat_value(z, d) == model::fat_value(st, d));
                assert(proper(st, d));
            }
        } else {
            lemma_search(st, (from + 1) as u32);
        }
    }
}

/// A cluster that is taken was free, is proper, and ends a chain; nothing else changes. The
/// only way to fail is to find none.
#[verifier::spinoff_prover]
#[verifier::rlimit(40)]
pub proof fn take_gives_a_free_cluster(st: FatState)
    requires
        in_order(st),
    ensures
        match model::take_cluster(st).1 {
            Ok(c) => taken(st, model::take_cluster(st).0, c),
            Err(e) => e == Error::NoSpace && model::take_cluster(st).0 == st,
        },
{
    reveal(model::take_cluster);
    lemma_search(st, model::hint(st));
    lemma_search(st, 2);
    let (s1, r1) = model::search(st, model::hint(st));
    let (s2, r2) = if r1 is Some {
        (s1, r1)
    } else {
        model::search(s1, 2)
    };
    match r2 {
        Some(c) => {
            let z = model::take_cluster(st).0;
            assert(z.disk == s2.disk);
            lemma_info(s2, z);
            assert(taken(st, z, c)) by {
                assert(model::fat_value(z, c) == model::fat_value(s2, c));
                reveal(model::fat_next);
                assert forall|d: u32| 2 <= d < model::search_limit(z) && !busy(z, d) implies
                    #[trigger] proper(z, d) by {
                    assert(model::fat_value(z, d) == model::fat_value(s2, d));
                    assert(proper(s2, d));
                }
            }
        },
        None => {},
    }
}

/// The FAT does not depend on what is remembered of free clusters or of files.
proof fn lemma_info(a: FatState, b: FatState)
    requires
        b.disk == a.disk,
        driver::same_layout(a, b),
    ensures
        forall|d: u32| #[trigger] model::fat_value(b, d) == model::fat_value(a, d),
{
}

/// What holds after cluster `to` has been made to follow `from`.
pub open spec fn linked(st: FatState, z: FatState, from: u32, to: u32) -> bool {
    &&& model::fat_next(z, from) == Ok::<Option<u32>, Error>(Some(to))
    &&& model::fat_next(z, to) == Ok::<Option<u32>, Error>(None)
    &&& busy(z, from)
    &&& busy(z, to)
    &&& in_order(z)
    &&& same_but(z, st, set![from, to])
    &&& same_data(z, st)
    &&& z == (FatState { disk: z.disk, ..st })
}

/// Where an entry leads.
proof fn lemma_next(z: FatState, c: u32, x: u32)
    requires
        model::fat_value(z, c) == Ok::<u32, Error>(x),
        model::masked(z.variant, x) != 0,
    ensures
        busy(z, c),
        model::masked(z.variant, x) >= model::end_mark(z.variant) ==> model::fat_next(z, c) == Ok::<
            Option<u32>,
            Error,
        >(None),
        model::masked(z.variant, x) < model::end_mark(z.variant) - 1 ==> model::fat_next(z, c)
            == Ok::<Option<u32>, Error>(Some(x)),
{
    reveal(model::fat_next);
}

/// Entries that lead somewhere keep a volume in order.
pub(crate) proof fn lemma_keeps_order(z: FatState, st: FatState, but: Set<u32>)
    requires
        in_order(st),
        fats_fit(z),
        same_but(z, st, but),
        forall|d: u32| but.contains(d) ==> #[trigger] busy(z, d),
    ensures
        in_order(z),
{
    assert forall|d: u32| 2 <= d < model::search_limit(z) && !busy(z, d) implies
        #[trigger] proper(z, d) by {
        assert(!but.contains(d));
        assert(model::fat_value(z, d) == model::fat_value(st, d));
        assert(!busy(st, d));
        assert(proper(st, d));
    }
}

/// Two changes of entries, one after the other.
#[verifier::spinoff_prover]
#[verifier::rlimit(40)]
proof fn lemma_both(z: FatState, s1: FatState, st: FatState, a: u32, b: u32)
    requires
        same_but(s1, st, set![a]),
        same_but(z, s1, set![b]),
        same_data(s1, st),
        same_data(z, s1),
    ensures
        same_but(z, st, set![a, b]),
        same_data(z, st),
{
    assert forall|d: u32| d < model::search_limit(st) && !set![a, b].contains(d) implies
        #[trigger] model::fat_value(z, d) == model::fat_value(st, d) by {
        assert(!set![a].contains(d));
        assert(!set![b].contains(d));
        assert(model::fat_value(s1, d) == model::fat_value(st, d));
    }
    assert forall|k: int|
        0 <= k < st.disk.len() && !(fat_base(st) <= k < fat_end(st) * 512) implies
        #[trigger] z.disk[k] == st.disk[k] by {
        assert(s1.disk[k] == st.disk[k]);
    }
}

/// A cluster that is linked to another follows it and ends the chain; nothing else changes.
pub proof fn link_leads_on(st: FatState, from: u32, to: u32)
    requires
        in_order(st),
        from < model::search_limit(st),
        proper(st, to),
        from != to,
    ensures
        model::link(st, from, to).1 == Ok::<(), Error>(()),
        linked(st, model::link(st, from, to).0, from, to),
{
    lemma_link_values(st, from, to);
    let z = model::link(st, from, to).0;
    let v = st.variant;
    lemma_next(z, from, to);
    lemma_next(z, to, stored(v, model::eof_value(v)));
    assert forall|d: u32| set![from, to].contains(d) implies #[trigger] busy(z, d) by {}
    lemma_keeps_order(z, st, set![from, to]);
}

proof fn lemma_stored(st: FatState, to: u32)
    requires
        proper(st, to),
    ensures
        stored(st.variant, to) == to,
{
}

proof fn lemma_other(z: FatState, st: FatState, but: u32, d: u32)
    requires
        same_but(z, st, set![but]),
        d < model::search_limit(st),
        d != but,
    ensures
        model::fat_value(z, d) == model::fat_value(st, d),
{
    assert(!set![but].contains(d));
}

proof fn lemma_link_values(st: FatState, from: u32, to: u32)
    requires
        fats_fit(st),
        from < model::search_limit(st),
        proper(st, to),
        from != to,
    ensures
        model::link(st, from, to).1 == Ok::<(), Error>(()),
        ({
            let z = model::link(st, from, to).0;
            &&& fats_fit(z)
            &&& z == (FatState { disk: z.disk, ..st })
            &&& model::fat_value(z, from) == Ok::<u32, Error>(to)
            &&& model::fat_value(z, to) == Ok::<u32, Error>(
                stored(st.variant, model::eof_value(st.variant)),
            )
            &&& same_but(z, st, set![from, to])
            &&& same_data(z, st)
        }),
{
    let e = model::eof_value(st.variant);
    let s1 = model::set_fat(st, from, to).0;
    let z = model::set_fat(s1, to, e).0;
    lemma_set(st, from, to);
    lemma_set(s1, to, e);
    lemma_other(z, s1, to, from);
    lemma_stored(st, to);
    lemma_both(z, s1, st, from, to);
    lemma_link_is(st, from, to);
}

proof fn lemma_link_is(st: FatState, from: u32, to: u32)
    requires
        model::set_fat(st, from, to).1 is Ok,
    ensures
        model::link(st, from, to) == model::set_fat(
            model::set_fat(st, from, to).0,
            to,
            model::eof_value(st.variant),
        ),
{
    reveal(model::link);
}

} // verus!
