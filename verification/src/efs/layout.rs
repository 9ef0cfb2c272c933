//! On-disk structures of the extent file system.
//!
//! Every structure is little-endian and packed. A volume is a sequence of 4 KiB
//! blocks: block 0 is reserved, block 1 holds the superblock, and the block
//! group descriptor table starts at block 2.
//!
//! The order and width of the fields, the magic numbers and the checksum are what
//! this module says they are: it defines the format, and nothing else in the crate
//! or in its dependencies does. That reading gives back what was written is proved.
//! That a volume made by another program follows the same layout is not, and
//! cannot be from here.
use vstd::prelude::*;
use crate::bytes;
use crate::bytes::{checksum, get_u16, get_u32, get_u64, push_slice, push_u16, push_u32, push_u64, sub_vec, copy_vec, zero_vec};

verus! {

/// Identifies a superblock.
pub const EFS_MAGIC: u64 = 0x4546_5321;
/// The one format version there is.
pub const EFS_VERSION: u32 = 1;
/// Incompatible feature bit: the volume carries a journal.
pub const INCOMPAT_JOURNAL: u32 = 1;
/// Inode number of the root directory.
pub const EFS_ROOT_INO: u64 = 2;
/// Bytes per block.
pub const BLOCK_SIZE: usize = 4096;
/// Sectors per block.
pub const SECTORS_PER_BLOCK: u64 = 8;
/// Encoded size of a superblock.
pub const SUPERBLOCK_SIZE: usize = 256;
/// Encoded size of a block group descriptor.
pub const BGD_SIZE: usize = 64;
/// Encoded size of an inode.
pub const INODE_SIZE: usize = 256;
/// Bytes of an inode that hold inline data or an extent node.
pub const INODE_DATA_AREA_SIZE: usize = 176;
/// The inode's data area holds the file's bytes.
pub const INODE_FLAG_INLINE_DATA: u32 = 1;
/// Mask of the file type bits of a mode.
pub const S_IFMT: u16 = 0xF000;
/// File type bits of a FIFO.
pub const S_IFIFO: u16 = 0x1000;
/// File type bits of a directory.
pub const S_IFDIR: u16 = 0x4000;
/// File type bits of a regular file.
pub const S_IFREG: u16 = 0x8000;
/// File type bits of a symbolic link.
pub const S_IFLNK: u16 = 0xA000;
/// Directory entry type of a regular file.
pub const FT_REG_FILE: u8 = 1;
/// Directory entry type of a directory.
pub const FT_DIR: u8 = 2;
/// Directory entry type of a FIFO.
pub const FT_FIFO: u8 = 5;
/// Directory entry type of a symbolic link.
pub const FT_SYMLINK: u8 = 7;
/// Directory entry type of anything else.
pub const FT_UNKNOWN: u8 = 0;
/// Identifies an extent node.
pub const EXTENT_MAGIC: u16 = 0xF30A;
/// Encoded size of an extent node header.
pub const EXTENT_HEADER_SIZE: usize = 12;
/// Encoded size of an extent or extent index entry.
pub const EXTENT_SIZE: usize = 12;
/// Entries that fit in an inode's data area.
pub const MAX_INLINE_EXTENTS: usize = 13;

/// Entries that fit in an extent node of `block_size` bytes.
pub open spec fn entries_per_node_spec(block_size: int) -> int {
    (block_size - EXTENT_HEADER_SIZE) / EXTENT_SIZE as int
}

/// Entries that fit in an extent node of `block_size` bytes.
pub fn entries_per_node(block_size: usize) -> (n: usize)
    requires
        block_size >= EXTENT_HEADER_SIZE,
    ensures
        n == entries_per_node_spec(block_size as int),
{
    (block_size - EXTENT_HEADER_SIZE) / EXTENT_SIZE
}

// ---- Superblock ---------------------------------------------------------------

/// The superblock: volume geometry, free counters and the head of the orphan
/// chain.
pub struct EfsSuperblock {
    pub magic: u64,
    pub version: u32,
    pub block_size_log2: u32,
    pub total_blocks: u64,
    pub free_blocks: u64,
    pub total_inodes: u64,
    pub free_inodes: u64,
    pub blocks_per_group: u32,
    pub inodes_per_group: u32,
    pub block_group_count: u32,
    pub incompatible_features: u32,
    pub journal_first_block: u64,
    pub last_orphan: u32,
    pub checksum: u32,
    /// 64 bytes.
    pub volume_name: Vec<u8>,
    /// The 112 bytes no field claims, kept as found.
    pub reserved: Vec<u8>,
}

/// What a superblock says.
#[verifier::ext_equal]
pub struct SuperblockView {
    pub magic: u64,
    pub version: u32,
    pub block_size_log2: u32,
    pub total_blocks: u64,
    pub free_blocks: u64,
    pub total_inodes: u64,
    pub free_inodes: u64,
    pub blocks_per_group: u32,
    pub inodes_per_group: u32,
    pub block_group_count: u32,
    pub incompatible_features: u32,
    pub journal_first_block: u64,
    pub last_orphan: u32,
    pub checksum: u32,
    pub volume_name: Seq<u8>,
    pub reserved: Seq<u8>,
}

impl View for EfsSuperblock {
    type V = SuperblockView;

    open spec fn view(&self) -> SuperblockView {
        SuperblockView {
            magic: self.magic,
            version: self.version,
            block_size_log2: self.block_size_log2,
            total_blocks: self.total_blocks,
            free_blocks: self.free_blocks,
            total_inodes: self.total_inodes,
            free_inodes: self.free_inodes,
            blocks_per_group: self.blocks_per_group,
            inodes_per_group: self.inodes_per_group,
            block_group_count: self.block_group_count,
            incompatible_features: self.incompatible_features,
            journal_first_block: self.journal_first_block,
            last_orphan: self.last_orphan,
            checksum: self.checksum,
            volume_name: self.volume_name@,
            reserved: self.reserved@,
        }
    }
}

/// The superblock encoded in the first 256 bytes of `s`.
pub open spec fn dec_superblock(s: Seq<u8>) -> SuperblockView {
    SuperblockView {
        magic: bytes::le64(s, 0),
        version: bytes::le32(s, 8),
        block_size_log2: bytes::le32(s, 12),
        total_blocks: bytes::le64(s, 16),
        free_blocks: bytes::le64(s, 24),
        total_inodes: bytes::le64(s, 32),
        free_inodes: bytes::le64(s, 40),
        blocks_per_group: bytes::le32(s, 48),
        inodes_per_group: bytes::le32(s, 52),
        block_group_count: bytes::le32(s, 56),
        incompatible_features: bytes::le32(s, 60),
        journal_first_block: bytes::le64(s, 64),
        last_orphan: bytes::le32(s, 72),
        checksum: bytes::le32(s, 76),
        volume_name: s.subrange(80, 144),
        reserved: s.subrange(144, 256),
    }
}

/// The 256 bytes of a superblock.
pub open spec fn enc_superblock(v: SuperblockView) -> Seq<u8> {
    bytes::bytes64(v.magic) + bytes::bytes32(v.version) + bytes::bytes32(v.block_size_log2) + bytes::bytes64(v.total_blocks)
        + bytes::bytes64(v.free_blocks) + bytes::bytes64(v.total_inodes) + bytes::bytes64(v.free_inodes) + bytes::bytes32(
        v.blocks_per_group,
    ) + bytes::bytes32(v.inodes_per_group) + bytes::bytes32(v.block_group_count) + bytes::bytes32(
        v.incompatible_features,
    ) + bytes::bytes64(v.journal_first_block) + bytes::bytes32(v.last_orphan) + bytes::bytes32(v.checksum)
        + v.volume_name + v.reserved
}

/// The checksum a superblock should carry: the CRC-32 of its encoding with the
/// checksum field zero.
pub open spec fn superblock_checksum(v: SuperblockView) -> u32 {
    bytes::crc32(enc_superblock(SuperblockView { checksum: 0, ..v }))
}

impl EfsSuperblock {
    /// The variable-length fields have their on-disk lengths.
    pub open spec fn wf(&self) -> bool {
        self.volume_name@.len() == 64 && self.reserved@.len() == 112
    }

    /// Decodes the superblock at the start of `s`.
    pub fn decode(s: &[u8]) -> (sb: EfsSuperblock)
        requires
            s.len() >= SUPERBLOCK_SIZE,
        ensures
            sb.wf(),
            sb@ == dec_superblock(s@),
    {
        EfsSuperblock {
            magic: get_u64(s, 0),
            version: get_u32(s, 8),
            block_size_log2: get_u32(s, 12),
            total_blocks: get_u64(s, 16),
            free_blocks: get_u64(s, 24),
            total_inodes: get_u64(s, 32),
            free_inodes: get_u64(s, 40),
            blocks_per_group: get_u32(s, 48),
            inodes_per_group: get_u32(s, 52),
            block_group_count: get_u32(s, 56),
            incompatible_features: get_u32(s, 60),
            journal_first_block: get_u64(s, 64),
            last_orphan: get_u32(s, 72),
            checksum: get_u32(s, 76),
            volume_name: sub_vec(s, 80, 144),
            reserved: sub_vec(s, 144, 256),
        }
    }

    /// Encodes the superblock.
    pub fn encode(&self) -> (out: Vec<u8>)
        ensures
            out@ == enc_superblock(self@),
    {
        let mut out: Vec<u8> = Vec::new();
        push_u64(&mut out, self.magic);
        push_u32(&mut out, self.version);
        push_u32(&mut out, self.block_size_log2);
        push_u64(&mut out, self.total_blocks);
        push_u64(&mut out, self.free_blocks);
        push_u64(&mut out, self.total_inodes);
        push_u64(&mut out, self.free_inodes);
        push_u32(&mut out, self.blocks_per_group);
        push_u32(&mut out, self.inodes_per_group);
        push_u32(&mut out, self.block_group_count);
        push_u32(&mut out, self.incompatible_features);
        push_u64(&mut out, self.journal_first_block);
        push_u32(&mut out, self.last_orphan);
        push_u32(&mut out, self.checksum);
        push_slice(&mut out, self.volume_name.as_slice());
        push_slice(&mut out, self.reserved.as_slice());
        assert(Seq::<u8>::empty() + bytes::bytes64(self.magic) =~= bytes::bytes64(self.magic));
        out
    }

    /// Whether the superblock describes a volume this driver understands.
    pub fn validate(&self) -> (r: bool)
        ensures
            r == valid_superblock(self@),
    {
        self.magic == EFS_MAGIC && self.version == EFS_VERSION && self.blocks_per_group > 0
            && self.inodes_per_group > 0
    }
}

/// Whether a superblock describes a volume this driver understands.
pub open spec fn valid_superblock(v: SuperblockView) -> bool {
    v.magic == EFS_MAGIC && v.version == EFS_VERSION && v.blocks_per_group > 0
        && v.inodes_per_group > 0
}

/// Computes [`superblock_checksum`] and stores it.
pub fn checksum_superblock(sb: &mut EfsSuperblock)
    ensures
        final(sb)@ == (SuperblockView { checksum: superblock_checksum(old(sb)@), ..old(sb)@ }),
        old(sb).wf() ==> final(sb).wf(),
{
    sb.checksum = 0;
    let e = sb.encode();
    sb.checksum = checksum(e.as_slice());
}

// ---- Block group descriptor -----------------------------------------------------

/// One block group: where its bitmaps and inode table are, and what is free in it.
#[derive(Clone, Copy, PartialEq, Eq, Structural)]
pub struct EfsBlockGroupDesc {
    pub block_bitmap_block: u64,
    pub inode_bitmap_block: u64,
    pub inode_table_block: u64,
    pub free_blocks_count: u64,
    pub free_inodes_count: u64,
    pub used_dirs_count: u64,
    pub reserved0: u64,
    pub reserved1: u64,
}

/// The block group descriptor at `off`.
pub open spec fn dec_bgd(s: Seq<u8>, off: int) -> EfsBlockGroupDesc {
    EfsBlockGroupDesc {
        block_bitmap_block: bytes::le64(s, off),
        inode_bitmap_block: bytes::le64(s, off + 8),
        inode_table_block: bytes::le64(s, off + 16),
        free_blocks_count: bytes::le64(s, off + 24),
        free_inodes_count: bytes::le64(s, off + 32),
        used_dirs_count: bytes::le64(s, off + 40),
        reserved0: bytes::le64(s, off + 48),
        reserved1: bytes::le64(s, off + 56),
    }
}

/// The 64 bytes of a block group descriptor.
#[verifier::opaque]
pub open spec fn enc_bgd(d: EfsBlockGroupDesc) -> Seq<u8> {
    bytes::bytes64(d.block_bitmap_block) + bytes::bytes64(d.inode_bitmap_block) + bytes::bytes64(d.inode_table_block)
        + bytes::bytes64(d.free_blocks_count) + bytes::bytes64(d.free_inodes_count) + bytes::bytes64(d.used_dirs_count)
        + bytes::bytes64(d.reserved0) + bytes::bytes64(d.reserved1)
}

/// Decodes the block group descriptor at `off`.
pub fn read_bgd(s: &[u8], off: usize) -> (d: EfsBlockGroupDesc)
    requires
        off + BGD_SIZE <= s.len(),
    ensures
        d == dec_bgd(s@, off as int),
{
    EfsBlockGroupDesc {
        block_bitmap_block: get_u64(s, off),
        inode_bitmap_block: get_u64(s, off + 8),
        inode_table_block: get_u64(s, off + 16),
        free_blocks_count: get_u64(s, off + 24),
        free_inodes_count: get_u64(s, off + 32),
        used_dirs_count: get_u64(s, off + 40),
        reserved0: get_u64(s, off + 48),
        reserved1: get_u64(s, off + 56),
    }
}

/// Encodes a block group descriptor.
pub fn encode_bgd(d: &EfsBlockGroupDesc) -> (out: Vec<u8>)
    ensures
        out@ == enc_bgd(*d),
        out@.len() == BGD_SIZE,
{
    let mut out: Vec<u8> = Vec::new();
    push_u64(&mut out, d.block_bitmap_block);
    push_u64(&mut out, d.inode_bitmap_block);
    push_u64(&mut out, d.inode_table_block);
    push_u64(&mut out, d.free_blocks_count);
    push_u64(&mut out, d.free_inodes_count);
    push_u64(&mut out, d.used_dirs_count);
    push_u64(&mut out, d.reserved0);
    push_u64(&mut out, d.reserved1);
    assert(Seq::<u8>::empty() + bytes::bytes64(d.block_bitmap_block) =~= bytes::bytes64(d.block_bitmap_block));
    proof {
        reveal(enc_bgd);
    }
    out
}

// ---- Inode ----------------------------------------------------------------------

/// An inode.
pub struct EfsInode {
    pub mode: u16,
    pub uid: u16,
    pub gid: u16,
    pub link_count: u16,
    pub size: u64,
    pub blocks: u64,
    pub flags: u32,
    /// Next inode on the orphan chain, 0 at its end.
    pub orphan_next: u32,
    pub ctime_sec: u64,
    pub ctime_nsec: u32,
    pub reserved2: u32,
    pub mtime_sec: u64,
    pub mtime_nsec: u32,
    pub reserved3: u32,
    pub atime_sec: u64,
    pub atime_nsec: u32,
    pub checksum: u32,
    /// 176 bytes: the file's bytes when it is inline, an extent node otherwise.
    pub data_area: Vec<u8>,
}

/// What an inode says.
#[verifier::ext_equal]
pub struct InodeView {
    pub mode: u16,
    pub uid: u16,
    pub gid: u16,
    pub link_count: u16,
    pub size: u64,
    pub blocks: u64,
    pub flags: u32,
    pub orphan_next: u32,
    pub ctime_sec: u64,
    pub ctime_nsec: u32,
    pub reserved2: u32,
    pub mtime_sec: u64,
    pub mtime_nsec: u32,
    pub reserved3: u32,
    pub atime_sec: u64,
    pub atime_nsec: u32,
    pub checksum: u32,
    pub data_area: Seq<u8>,
}

impl View for EfsInode {
    type V = InodeView;

    open spec fn view(&self) -> InodeView {
        InodeView {
            mode: self.mode,
            uid: self.uid,
            gid: self.gid,
            link_count: self.link_count,
            size: self.size,
            blocks: self.blocks,
            flags: self.flags,
            orphan_next: self.orphan_next,
            ctime_sec: self.ctime_sec,
            ctime_nsec: self.ctime_nsec,
            reserved2: self.reserved2,
            mtime_sec: self.mtime_sec,
            mtime_nsec: self.mtime_nsec,
            reserved3: self.reserved3,
            atime_sec: self.atime_sec,
            atime_nsec: self.atime_nsec,
            checksum: self.checksum,
            data_area: self.data_area@,
        }
    }
}

impl InodeView {
    /// The file type bits of the mode.
    pub open spec fn kind(self) -> u16 {
        self.mode & S_IFMT
    }

    /// Whether the data area holds the file's bytes.
    pub open spec fn inline(self) -> bool {
        self.flags & INODE_FLAG_INLINE_DATA != 0
    }
}

/// The inode encoded at `off`.
pub open spec fn dec_inode(s: Seq<u8>, off: int) -> InodeView {
    InodeView {
        mode: bytes::le16(s, off),
        uid: bytes::le16(s, off + 2),
        gid: bytes::le16(s, off + 4),
        link_count: bytes::le16(s, off + 6),
        size: bytes::le64(s, off + 8),
        blocks: bytes::le64(s, off + 16),
        flags: bytes::le32(s, off + 24),
        orphan_next: bytes::le32(s, off + 28),
        ctime_sec: bytes::le64(s, off + 32),
        ctime_nsec: bytes::le32(s, off + 40),
        reserved2: bytes::le32(s, off + 44),
        mtime_sec: bytes::le64(s, off + 48),
        mtime_nsec: bytes::le32(s, off + 56),
        reserved3: bytes::le32(s, off + 60),
        atime_sec: bytes::le64(s, off + 64),
        atime_nsec: bytes::le32(s, off + 72),
        checksum: bytes::le32(s, off + 76),
        data_area: s.subrange(off + 80, off + 256),
    }
}

/// The 80 bytes of an inode that precede its data area.
pub open spec fn enc_inode_header(i: InodeView) -> Seq<u8> {
    bytes::bytes16(i.mode) + bytes::bytes16(i.uid) + bytes::bytes16(i.gid) + bytes::bytes16(i.link_count) + bytes::bytes64(i.size)
        + bytes::bytes64(i.blocks) + bytes::bytes32(i.flags) + bytes::bytes32(i.orphan_next) + bytes::bytes64(i.ctime_sec)
        + bytes::bytes32(i.ctime_nsec) + bytes::bytes32(i.reserved2) + bytes::bytes64(i.mtime_sec) + bytes::bytes32(
        i.mtime_nsec,
    ) + bytes::bytes32(i.reserved3) + bytes::bytes64(i.atime_sec) + bytes::bytes32(i.atime_nsec) + bytes::bytes32(i.checksum)
}

/// The 256 bytes of an inode.
pub open spec fn enc_inode(i: InodeView) -> Seq<u8> {
    enc_inode_header(i) + i.data_area
}

/// The checksum an inode should carry: the CRC-32 of its encoding with the
/// checksum field zero.
pub open spec fn inode_checksum(i: InodeView) -> u32 {
    bytes::crc32(enc_inode(InodeView { checksum: 0, ..i }))
}

/// `i` with its checksum brought up to date.
pub open spec fn stamped(i: InodeView) -> InodeView {
    InodeView { checksum: inode_checksum(i), ..i }
}

/// Decoding an encoded inode gives the inode back.
pub proof fn inode_round_trip(i: InodeView, s: Seq<u8>, off: int)
    requires
        i.data_area.len() == INODE_DATA_AREA_SIZE,
        0 <= off,
        off + INODE_SIZE <= s.len(),
        s.subrange(off, off + INODE_SIZE) == enc_inode(i),
    ensures
        dec_inode(s, off) == i,
        enc_inode(i).len() == INODE_SIZE,
{
    let h = enc_inode_header(i);
    let e = enc_inode(i);
    assert(h.len() == 80);
    assert(s.subrange(off + 80, off + 256) =~= i.data_area) by {
        assert forall|k: int| 0 <= k < 176 implies s.subrange(off + 80, off + 256)[k]
            == i.data_area[k] by {
            assert(s.subrange(off, off + 256)[80 + k] == e[80 + k]);
        }
    }
    assert(e.subrange(0, 2) =~= bytes::bytes16(i.mode));
    assert(e.subrange(2, 4) =~= bytes::bytes16(i.uid));
    assert(e.subrange(4, 6) =~= bytes::bytes16(i.gid));
    assert(e.subrange(6, 8) =~= bytes::bytes16(i.link_count));
    assert(e.subrange(8, 16) =~= bytes::bytes64(i.size));
    assert(e.subrange(16, 24) =~= bytes::bytes64(i.blocks));
    assert(e.subrange(24, 28) =~= bytes::bytes32(i.flags));
    assert(e.subrange(28, 32) =~= bytes::bytes32(i.orphan_next));
    assert(e.subrange(32, 40) =~= bytes::bytes64(i.ctime_sec));
    assert(e.subrange(40, 44) =~= bytes::bytes32(i.ctime_nsec));
    assert(e.subrange(44, 48) =~= bytes::bytes32(i.reserved2));
    assert(e.subrange(48, 56) =~= bytes::bytes64(i.mtime_sec));
    assert(e.subrange(56, 60) =~= bytes::bytes32(i.mtime_nsec));
    assert(e.subrange(60, 64) =~= bytes::bytes32(i.reserved3));
    assert(e.subrange(64, 72) =~= bytes::bytes64(i.atime_sec));
    assert(e.subrange(72, 76) =~= bytes::bytes32(i.atime_nsec));
    assert(e.subrange(76, 80) =~= bytes::bytes32(i.checksum));
    bytes::field16(s, off, e, 0, i.mode);
    bytes::field16(s, off, e, 2, i.uid);
    bytes::field16(s, off, e, 4, i.gid);
    bytes::field16(s, off, e, 6, i.link_count);
    bytes::field64(s, off, e, 8, i.size);
    bytes::field64(s, off, e, 16, i.blocks);
    bytes::field32(s, off, e, 24, i.flags);
    bytes::field32(s, off, e, 28, i.orphan_next);
    bytes::field64(s, off, e, 32, i.ctime_sec);
    bytes::field32(s, off, e, 40, i.ctime_nsec);
    bytes::field32(s, off, e, 44, i.reserved2);
    bytes::field64(s, off, e, 48, i.mtime_sec);
    bytes::field32(s, off, e, 56, i.mtime_nsec);
    bytes::field32(s, off, e, 60, i.reserved3);
    bytes::field64(s, off, e, 64, i.atime_sec);
    bytes::field32(s, off, e, 72, i.atime_nsec);
    bytes::field32(s, off, e, 76, i.checksum);
}

/// Decoding an encoded superblock gives the superblock back.
pub proof fn superblock_round_trip(v: SuperblockView, s: Seq<u8>)
    requires
        v.volume_name.len() == 64,
        v.reserved.len() == 112,
        SUPERBLOCK_SIZE <= s.len(),
        s.subrange(0, SUPERBLOCK_SIZE as int) == enc_superblock(v),
    ensures
        dec_superblock(s) == v,
        enc_superblock(v).len() == SUPERBLOCK_SIZE,
{
    let e = enc_superblock(v);
    assert(e.len() == 256);
    assert(s.subrange(80, 144) =~= v.volume_name) by {
        assert forall|k: int| 0 <= k < 64 implies s.subrange(80, 144)[k] == v.volume_name[k] by {
            assert(s.subrange(0, 256)[80 + k] == e[80 + k]);
        }
    }
    assert(s.subrange(144, 256) =~= v.reserved) by {
        assert forall|k: int| 0 <= k < 112 implies s.subrange(144, 256)[k] == v.reserved[k] by {
            assert(s.subrange(0, 256)[144 + k] == e[144 + k]);
        }
    }
    assert(e.subrange(0, 8) =~= bytes::bytes64(v.magic));
    assert(e.subrange(8, 12) =~= bytes::bytes32(v.version));
    assert(e.subrange(12, 16) =~= bytes::bytes32(v.block_size_log2));
    assert(e.subrange(16, 24) =~= bytes::bytes64(v.total_blocks));
    assert(e.subrange(24, 32) =~= bytes::bytes64(v.free_blocks));
    assert(e.subrange(32, 40) =~= bytes::bytes64(v.total_inodes));
    assert(e.subrange(40, 48) =~= bytes::bytes64(v.free_inodes));
    assert(e.subrange(48, 52) =~= bytes::bytes32(v.blocks_per_group));
    assert(e.subrange(52, 56) =~= bytes::bytes32(v.inodes_per_group));
    assert(e.subrange(56, 60) =~= bytes::bytes32(v.block_group_count));
    assert(e.subrange(60, 64) =~= bytes::bytes32(v.incompatible_features));
    assert(e.subrange(64, 72) =~= bytes::bytes64(v.journal_first_block));
    assert(e.subrange(72, 76) =~= bytes::bytes32(v.last_orphan));
    assert(e.subrange(76, 80) =~= bytes::bytes32(v.checksum));
    bytes::field64(s, 0, e, 0, v.magic);
    bytes::field32(s, 0, e, 8, v.version);
    bytes::field32(s, 0, e, 12, v.block_size_log2);
    bytes::field64(s, 0, e, 16, v.total_blocks);
    bytes::field64(s, 0, e, 24, v.free_blocks);
    bytes::field64(s, 0, e, 32, v.total_inodes);
    bytes::field64(s, 0, e, 40, v.free_inodes);
    bytes::field32(s, 0, e, 48, v.blocks_per_group);
    bytes::field32(s, 0, e, 52, v.inodes_per_group);
    bytes::field32(s, 0, e, 56, v.block_group_count);
    bytes::field32(s, 0, e, 60, v.incompatible_features);
    bytes::field64(s, 0, e, 64, v.journal_first_block);
    bytes::field32(s, 0, e, 72, v.last_orphan);
    bytes::field32(s, 0, e, 76, v.checksum);
}

/// The inode `EfsInode::new` builds.
pub open spec fn fresh_inode(mode: u16, sec: u64, nsec: u32) -> InodeView {
    InodeView {
        mode,
        uid: 0,
        gid: 0,
        link_count: 1,
        size: 0,
        blocks: 0,
        flags: 0,
        orphan_next: 0,
        ctime_sec: sec,
        ctime_nsec: nsec,
        reserved2: 0,
        mtime_sec: sec,
        mtime_nsec: nsec,
        reserved3: 0,
        atime_sec: sec,
        atime_nsec: nsec,
        checksum: 0,
        data_area: bytes::zeros(INODE_DATA_AREA_SIZE as int),
    }
}

/// The directory entry type that matches a mode.
pub open spec fn dir_entry_type(mode: u16) -> u8 {
    let k = mode & S_IFMT;
    if k == S_IFREG {
        FT_REG_FILE
    } else if k == S_IFDIR {
        FT_DIR
    } else if k == S_IFLNK {
        FT_SYMLINK
    } else if k == S_IFIFO {
        FT_FIFO
    } else {
        FT_UNKNOWN
    }
}

impl EfsInode {
    /// The data area has its on-disk length.
    pub open spec fn wf(&self) -> bool {
        self.data_area@.len() == INODE_DATA_AREA_SIZE
    }

    /// An empty inode with one link, all three times set to `when`.
    pub fn new(mode: u16, when: (u64, u32)) -> (i: EfsInode)
        ensures
            i.wf(),
            i@ == fresh_inode(mode, when.0, when.1),
    {
        EfsInode {
            mode,
            uid: 0,
            gid: 0,
            link_count: 1,
            size: 0,
            blocks: 0,
            flags: 0,
            orphan_next: 0,
            ctime_sec: when.0,
            ctime_nsec: when.1,
            reserved2: 0,
            mtime_sec: when.0,
            mtime_nsec: when.1,
            reserved3: 0,
            atime_sec: when.0,
            atime_nsec: when.1,
            checksum: 0,
            data_area: zero_vec(INODE_DATA_AREA_SIZE),
        }
    }

    /// A copy of the inode.
    pub fn duplicate(&self) -> (i: EfsInode)
        ensures
            i@ == self@,
    {
        EfsInode {
            mode: self.mode,
            uid: self.uid,
            gid: self.gid,
            link_count: self.link_count,
            size: self.size,
            blocks: self.blocks,
            flags: self.flags,
            orphan_next: self.orphan_next,
            ctime_sec: self.ctime_sec,
            ctime_nsec: self.ctime_nsec,
            reserved2: self.reserved2,
            mtime_sec: self.mtime_sec,
            mtime_nsec: self.mtime_nsec,
            reserved3: self.reserved3,
            atime_sec: self.atime_sec,
            atime_nsec: self.atime_nsec,
            checksum: self.checksum,
            data_area: copy_vec(self.data_area.as_slice()),
        }
    }

    /// Decodes the inode at `off`.
    pub fn decode(s: &[u8], off: usize) -> (i: EfsInode)
        requires
            off + INODE_SIZE <= s.len(),
        ensures
            i.wf(),
            i@ == dec_inode(s@, off as int),
    {
        EfsInode {
            mode: get_u16(s, off),
            uid: get_u16(s, off + 2),
            gid: get_u16(s, off + 4),
            link_count: get_u16(s, off + 6),
            size: get_u64(s, off + 8),
            blocks: get_u64(s, off + 16),
            flags: get_u32(s, off + 24),
            orphan_next: get_u32(s, off + 28),
            ctime_sec: get_u64(s, off + 32),
            ctime_nsec: get_u32(s, off + 40),
            reserved2: get_u32(s, off + 44),
            mtime_sec: get_u64(s, off + 48),
            mtime_nsec: get_u32(s, off + 56),
            reserved3: get_u32(s, off + 60),
            atime_sec: get_u64(s, off + 64),
            atime_nsec: get_u32(s, off + 72),
            checksum: get_u32(s, off + 76),
            data_area: sub_vec(s, off + 80, off + 256),
        }
    }

    /// Encodes the inode.
    #[verifier::spinoff_prover]
    #[verifier::rlimit(60)]
    pub fn encode(&self) -> (out: Vec<u8>)
        ensures
            out@ == enc_inode(self@),
            self.wf() ==> out@.len() == INODE_SIZE,
    {
        let mut out: Vec<u8> = Vec::new();
        push_u16(&mut out, self.mode);
        push_u16(&mut out, self.uid);
        push_u16(&mut out, self.gid);
        push_u16(&mut out, self.link_count);
        push_u64(&mut out, self.size);
        push_u64(&mut out, self.blocks);
        push_u32(&mut out, self.flags);
        push_u32(&mut out, self.orphan_next);
        push_u64(&mut out, self.ctime_sec);
        push_u32(&mut out, self.ctime_nsec);
        push_u32(&mut out, self.reserved2);
        push_u64(&mut out, self.mtime_sec);
        push_u32(&mut out, self.mtime_nsec);
        push_u32(&mut out, self.reserved3);
        push_u64(&mut out, self.atime_sec);
        push_u32(&mut out, self.atime_nsec);
        push_u32(&mut out, self.checksum);
        assert(Seq::<u8>::empty() + bytes::bytes16(self.mode) =~= bytes::bytes16(self.mode));
        push_slice(&mut out, self.data_area.as_slice());
        out
    }

    /// The directory entry type that matches this inode.
    pub fn file_type_for_dir_entry(&self) -> (t: u8)
        ensures
            t == dir_entry_type(self.mode),
    {
        let k: u16 = self.mode & S_IFMT;
        if k == S_IFREG {
            FT_REG_FILE
        } else if k == S_IFDIR {
            FT_DIR
        } else if k == S_IFLNK {
            FT_SYMLINK
        } else if k == S_IFIFO {
            FT_FIFO
        } else {
            FT_UNKNOWN
        }
    }
}

/// Brings the inode's checksum up to date.
pub fn checksum_inode(i: &mut EfsInode)
    ensures
        final(i)@ == stamped(old(i)@),
        old(i).wf() ==> final(i).wf(),
{
    i.checksum = 0;
    let e = i.encode();
    i.checksum = checksum(e.as_slice());
}

// ---- Extents --------------------------------------------------------------------

/// One run of blocks: `length` file blocks from `logical_block` on, stored from
/// the 48-bit physical block `start_hi:start_lo` on.
///
/// Inside an index node the same twelve bytes name a leaf block instead, with
/// `length` unused and zero.
#[derive(Clone, Copy, PartialEq, Eq, Structural)]
pub struct EfsExtent {
    pub logical_block: u32,
    pub length: u16,
    pub start_hi: u16,
    pub start_lo: u32,
}

impl EfsExtent {
    /// The first physical block.
    pub open spec fn phys(self) -> int {
        self.start_hi * 0x1_0000_0000 + self.start_lo
    }

    /// The extent that maps `length` blocks from `logical_block` to physical
    /// block `phys`. Only the low 48 bits of `phys` are kept.
    pub open spec fn make(logical_block: u32, length: u16, phys: u64) -> EfsExtent {
        EfsExtent {
            logical_block,
            length,
            start_hi: ((phys / 0x1_0000_0000) % 0x1_0000) as u16,
            start_lo: (phys % 0x1_0000_0000) as u32,
        }
    }

    /// The first physical block.
    pub fn physical_start(&self) -> (p: u64)
        ensures
            p == self.phys(),
    {
        (self.start_hi as u64) * 0x1_0000_0000 + self.start_lo as u64
    }

    /// Builds [`EfsExtent::make`].
    pub fn build(logical_block: u32, length: u16, phys: u64) -> (e: EfsExtent)
        ensures
            e == EfsExtent::make(logical_block, length, phys),
    {
        EfsExtent {
            logical_block,
            length,
            start_hi: ((phys / 0x1_0000_0000) % 0x1_0000) as u16,
            start_lo: (phys % 0x1_0000_0000) as u32,
        }
    }
}

/// The extent encoded at `off`.
pub open spec fn dec_extent(s: Seq<u8>, off: int) -> EfsExtent {
    EfsExtent {
        logical_block: bytes::le32(s, off),
        length: bytes::le16(s, off + 4),
        start_hi: bytes::le16(s, off + 6),
        start_lo: bytes::le32(s, off + 8),
    }
}

/// The twelve bytes of an extent.
pub open spec fn enc_extent(e: EfsExtent) -> Seq<u8> {
    bytes::bytes32(e.logical_block) + bytes::bytes16(e.length) + bytes::bytes16(e.start_hi)
        + bytes::bytes32(e.start_lo)
}

/// The bytes of several extents, one after the other.
pub open spec fn enc_extents(es: Seq<EfsExtent>) -> Seq<u8>
    decreases es.len(),
{
    if es.len() == 0 {
        Seq::empty()
    } else {
        enc_extents(es.drop_last()) + enc_extent(es.last())
    }
}

/// The header of an extent node.
#[derive(Clone, Copy, PartialEq, Eq, Structural)]
pub struct EfsExtentHeader {
    pub magic: u16,
    pub entries: u16,
    pub max_entries: u16,
    pub depth: u16,
    pub reserved: u32,
}

/// The extent node header at the start of `s`.
pub open spec fn dec_header(s: Seq<u8>) -> EfsExtentHeader {
    EfsExtentHeader {
        magic: bytes::le16(s, 0),
        entries: bytes::le16(s, 2),
        max_entries: bytes::le16(s, 4),
        depth: bytes::le16(s, 6),
        reserved: bytes::le32(s, 8),
    }
}

/// The twelve bytes of an extent node header.
pub open spec fn enc_header(h: EfsExtentHeader) -> Seq<u8> {
    bytes::bytes16(h.magic) + bytes::bytes16(h.entries) + bytes::bytes16(h.max_entries)
        + bytes::bytes16(h.depth) + bytes::bytes32(h.reserved)
}

/// An extent node of `size` bytes at `depth`, with room for `max` entries.
pub open spec fn enc_node(size: int, depth: u16, max: u16, es: Seq<EfsExtent>) -> Seq<u8> {
    enc_header(
        EfsExtentHeader {
            magic: EXTENT_MAGIC,
            entries: es.len() as u16,
            max_entries: max,
            depth,
            reserved: 0,
        },
    ) + enc_extents(es) + bytes::zeros(size - 12 - 12 * es.len())
}

/// The first `n` entries of an extent node.
pub open spec fn node_entries(s: Seq<u8>, n: int) -> Seq<EfsExtent> {
    Seq::new(n as nat, |i: int| dec_extent(s, 12 + 12 * i))
}

/// Entry `i` of several encoded extents lies at twelve times `i`.
proof fn lemma_enc_extents(es: Seq<EfsExtent>, i: int)
    ensures
        enc_extents(es).len() == 12 * es.len(),
        0 <= i < es.len() ==> enc_extents(es).subrange(12 * i, 12 * i + 12) == enc_extent(es[i]),
    decreases es.len(),
{
    if es.len() > 0 {
        let p = es.drop_last();
        lemma_enc_extents(p, i);
        let e = enc_extents(es);
        assert(enc_extent(es.last()).len() == 12);
        if 0 <= i < p.len() {
            assert(e.subrange(12 * i, 12 * i + 12) =~= enc_extents(p).subrange(
                12 * i,
                12 * i + 12,
            ));
            assert(p[i] == es[i]);
        } else if i == p.len() {
            assert(e.subrange(12 * i, 12 * i + 12) =~= enc_extent(es.last()));
        }
    }
}

/// Decoding an encoded extent node gives its header and its entries back.
pub proof fn node_round_trip(size: int, depth: u16, max: u16, es: Seq<EfsExtent>)
    requires
        12 + 12 * es.len() <= size,
        es.len() < 0x1_0000,
    ensures
        enc_node(size, depth, max, es).len() == size,
        dec_header(enc_node(size, depth, max, es)) == (EfsExtentHeader {
            magic: EXTENT_MAGIC,
            entries: es.len() as u16,
            max_entries: max,
            depth,
            reserved: 0,
        }),
        node_entries(enc_node(size, depth, max, es), es.len() as int) == es,
{
    let h = EfsExtentHeader {
        magic: EXTENT_MAGIC,
        entries: es.len() as u16,
        max_entries: max,
        depth,
        reserved: 0,
    };
    let hb = enc_header(h);
    let s = enc_node(size, depth, max, es);
    lemma_enc_extents(es, 0);
    assert(hb.len() == 12);
    assert(s.len() == size);
    assert(s.subrange(0, 12) =~= hb);
    assert(hb.subrange(0, 2) =~= bytes::bytes16(h.magic));
    assert(hb.subrange(2, 4) =~= bytes::bytes16(h.entries));
    assert(hb.subrange(4, 6) =~= bytes::bytes16(h.max_entries));
    assert(hb.subrange(6, 8) =~= bytes::bytes16(h.depth));
    assert(hb.subrange(8, 12) =~= bytes::bytes32(h.reserved));
    bytes::field16(s, 0, hb, 0, h.magic);
    bytes::field16(s, 0, hb, 2, h.entries);
    bytes::field16(s, 0, hb, 4, h.max_entries);
    bytes::field16(s, 0, hb, 6, h.depth);
    bytes::field32(s, 0, hb, 8, h.reserved);
    assert forall|i: int| 0 <= i < es.len() implies dec_extent(s, 12 + 12 * i) == es[i] by {
        lemma_enc_extents(es, i);
        let eb = enc_extent(es[i]);
        let o = 12 + 12 * i;
        assert(s.subrange(o, o + 12) =~= enc_extents(es).subrange(12 * i, 12 * i + 12));
        assert(eb.len() == 12);
        assert(eb.subrange(0, 4) =~= bytes::bytes32(es[i].logical_block));
        assert(eb.subrange(4, 6) =~= bytes::bytes16(es[i].length));
        assert(eb.subrange(6, 8) =~= bytes::bytes16(es[i].start_hi));
        assert(eb.subrange(8, 12) =~= bytes::bytes32(es[i].start_lo));
        bytes::field32(s, o, eb, 0, es[i].logical_block);
        bytes::field16(s, o, eb, 4, es[i].length);
        bytes::field16(s, o, eb, 6, es[i].start_hi);
        bytes::field32(s, o, eb, 8, es[i].start_lo);
    }
    assert(node_entries(s, es.len() as int) =~= es);
}

/// Reads the header of an extent node.
pub fn read_node_header(s: &[u8]) -> (h: Option<EfsExtentHeader>)
    ensures
        match h {
            Some(h) => s@.len() >= EXTENT_HEADER_SIZE && h == dec_header(s@),
            None => s@.len() < EXTENT_HEADER_SIZE,
        },
{
    if s.len() < EXTENT_HEADER_SIZE {
        return None;
    }
    Some(
        EfsExtentHeader {
            magic: get_u16(s, 0),
            entries: get_u16(s, 2),
            max_entries: get_u16(s, 4),
            depth: get_u16(s, 6),
            reserved: get_u32(s, 8),
        },
    )
}

/// Reads entry `i` of an extent node.
pub fn read_node_entry(s: &[u8], i: usize) -> (e: EfsExtent)
    requires
        12 + 12 * i + 12 <= s.len(),
    ensures
        e == dec_extent(s@, 12 + 12 * i),
{
    let o: usize = 12 + 12 * i;
    EfsExtent {
        logical_block: get_u32(s, o),
        length: get_u16(s, o + 4),
        start_hi: get_u16(s, o + 6),
        start_lo: get_u32(s, o + 8),
    }
}

/// Encodes an extent node.
pub fn encode_node(size: usize, depth: u16, max: u16, es: &[EfsExtent]) -> (out: Vec<u8>)
    requires
        12 + 12 * es.len() <= size,
        es.len() < 0x1_0000,
    ensures
        out@ == enc_node(size as int, depth, max, es@),
        out@.len() == size,
{
    let mut out: Vec<u8> = Vec::new();
    push_u16(&mut out, EXTENT_MAGIC);
    push_u16(&mut out, es.len() as u16);
    push_u16(&mut out, max);
    push_u16(&mut out, depth);
    push_u32(&mut out, 0);
    let ghost h = EfsExtentHeader {
        magic: EXTENT_MAGIC,
        entries: es@.len() as u16,
        max_entries: max,
        depth,
        reserved: 0,
    };
    assert(out@ =~= enc_header(h));
    let mut i: usize = 0;
    assert(out@ =~= enc_header(h) + enc_extents(es@.take(0)));
    while i < es.len()
        invariant
            i <= es.len(),
            out@ == enc_header(h) + enc_extents(es@.take(i as int)),
        decreases es.len() - i,
    {
        let e = es[i];
        push_u32(&mut out, e.logical_block);
        push_u16(&mut out, e.length);
        push_u16(&mut out, e.start_hi);
        push_u32(&mut out, e.start_lo);
        proof {
            let t = es@.take(i + 1);
            assert(t.drop_last() =~= es@.take(i as int));
            assert(t.last() == e);
            assert(out@ =~= enc_header(h) + enc_extents(t));
        }
        i = i + 1;
    }
    proof {
        assert(es@.take(es@.len() as int) =~= es@);
        lemma_enc_extents(es@, 0);
        assert(out@.len() == 12 + 12 * es@.len());
    }
    let pad = zero_vec(size - (12 + 12 * es.len()));
    push_slice(&mut out, pad.as_slice());
    out
}

} // verus!
