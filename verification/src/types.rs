//! What file systems say about files, times and readiness.
use vstd::prelude::*;
use crate::error::Error;

verus! {

// ---- Readiness --------------------------------------------------------------------

/// What a file is ready for.
#[derive(Debug, Clone, Copy, PartialEq, Eq, Structural)]
pub struct PollState {
    pub readable: bool,
    pub writable: bool,
    pub error: bool,
    pub hangup: bool,
    pub invalid: bool,
}

/// 1 for true, 0 for false.
pub open spec fn bit(b: bool) -> int {
    if b {
        1
    } else {
        0
    }
}

/// Whether no flag is set.
pub open spec fn no_interest(s: PollState) -> bool {
    !s.readable && !s.writable && !s.error && !s.hangup && !s.invalid
}

/// Whether some flag is set in both.
pub open spec fn overlap(a: PollState, b: PollState) -> bool {
    a.readable && b.readable || a.writable && b.writable || a.error && b.error || a.hangup
        && b.hangup || a.invalid && b.invalid
}

/// The flags as bits, `readable` lowest.
pub open spec fn poll_bits(s: PollState) -> u8 {
    (bit(s.readable) + 2 * bit(s.writable) + 4 * bit(s.error) + 8 * bit(s.hangup) + 16 * bit(
        s.invalid,
    )) as u8
}

/// The flags that `bits` stand for; bits past the fifth mean nothing.
pub open spec fn poll_flags(bits: u8) -> PollState {
    PollState {
        readable: bits % 2 == 1,
        writable: bits / 2 % 2 == 1,
        error: bits / 4 % 2 == 1,
        hangup: bits / 8 % 2 == 1,
        invalid: bits / 16 % 2 == 1,
    }
}

/// Flags survive being turned into bits and back, and so do the five low bits.
pub proof fn poll_bits_round_trip(s: PollState, bits: u8)
    ensures
        poll_flags(poll_bits(s)) == s,
        poll_bits(poll_flags(bits)) == bits % 32,
{
    lemma_flags(s);
    lemma_bits(bits as int);
}

proof fn lemma_flags(s: PollState)
    ensures
        poll_flags(poll_bits(s)) == s,
{
    let v = poll_bits(s) as int;
    let a = bit(s.readable);
    let b = bit(s.writable);
    let c = bit(s.error);
    let d = bit(s.hangup);
    let e = bit(s.invalid);
    assert(v == a + 2 * b + 4 * c + 8 * d + 16 * e);
    assert(v / 2 == b + 2 * c + 4 * d + 8 * e);
    assert(v / 4 == c + 2 * d + 4 * e);
    assert(v / 8 == d + 2 * e);
    assert(v / 16 == e);
}

proof fn lemma_bits(v: int)
    requires
        0 <= v < 256,
    ensures
        v % 32 == v % 2 + 2 * (v / 2 % 2) + 4 * (v / 4 % 2) + 8 * (v / 8 % 2) + 16 * (v / 16 % 2),
{
    assert(v == 2 * (v / 2) + v % 2);
    assert(v / 2 == 2 * (v / 4) + v / 2 % 2);
    assert(v / 4 == 2 * (v / 8) + v / 4 % 2);
    assert(v / 8 == 2 * (v / 16) + v / 8 % 2);
    assert(v / 16 == 2 * (v / 32) + v / 16 % 2);
}

impl PollState {
    /// Ready for nothing.
    pub fn none() -> (r: PollState)
        ensures
            no_interest(r),
    {
        PollState { readable: false, writable: false, error: false, hangup: false, invalid: false }
    }

    /// Ready for reading only.
    pub fn with_readable() -> (r: PollState)
        ensures
            r == (PollState {
                readable: true,
                writable: false,
                error: false,
                hangup: false,
                invalid: false,
            }),
    {
        PollState { readable: true, writable: false, error: false, hangup: false, invalid: false }
    }

    /// Whether this state has something `interests` asks for; asking for nothing
    /// matches anything.
    pub fn matches(&self, interests: PollState) -> (r: bool)
        ensures
            r == (if no_interest(interests) {
                !no_interest(*self)
            } else {
                overlap(*self, interests)
            }),
    {
        let mut matched: bool = false;
        if interests.readable && self.readable {
            matched = true;
        }
        if interests.writable && self.writable {
            matched = true;
        }
        if interests.error && self.error {
            matched = true;
        }
        if interests.hangup && self.hangup {
            matched = true;
        }
        if interests.invalid && self.invalid {
            matched = true;
        }
        if !interests.readable && !interests.writable && !interests.error && !interests.hangup
            && !interests.invalid {
            matched = self.readable || self.writable || self.error || self.hangup || self.invalid;
        }
        matched
    }

    /// Adds the flags of `other`.
    pub fn merge(&mut self, other: PollState)
        ensures
            *final(self) == (PollState {
                readable: old(self).readable || other.readable,
                writable: old(self).writable || other.writable,
                error: old(self).error || other.error,
                hangup: old(self).hangup || other.hangup,
                invalid: old(self).invalid || other.invalid,
            }),
    {
        self.readable = self.readable || other.readable;
        self.writable = self.writable || other.writable;
        self.error = self.error || other.error;
        self.hangup = self.hangup || other.hangup;
        self.invalid = self.invalid || other.invalid;
    }

    /// The flags as bits.
    pub fn to_bits(self) -> (r: u8)
        ensures
            r == poll_bits(self),
    {
        let mut b: u8 = 0;
        if self.readable {
            b = b + 1;
        }
        if self.writable {
            b = b + 2;
        }
        if self.error {
            b = b + 4;
        }
        if self.hangup {
            b = b + 8;
        }
        if self.invalid {
            b = b + 16;
        }
        b
    }

    /// The flags that `bits` stand for.
    pub fn from_bits(bits: u8) -> (r: PollState)
        ensures
            r == poll_flags(bits),
    {
        PollState {
            readable: bits % 2 == 1,
            writable: bits / 2 % 2 == 1,
            error: bits / 4 % 2 == 1,
            hangup: bits / 8 % 2 == 1,
            invalid: bits / 16 % 2 == 1,
        }
    }
}

/// A physical range to map.
#[derive(Debug, Clone, Copy, PartialEq, Eq, Structural)]
pub struct MmapRegion {
    pub phys_addr: u64,
    pub length: usize,
    pub writable: bool,
    pub cacheable: bool,
}

impl MmapRegion {
    /// A read-only, uncached region.
    pub fn new(phys_addr: u64, length: usize) -> (r: MmapRegion)
        ensures
            r == (MmapRegion { phys_addr, length, writable: false, cacheable: false }),
    {
        MmapRegion { phys_addr, length, writable: false, cacheable: false }
    }
}

/// Maximum symbolic links a single path resolution may traverse.
pub const MAX_SYMLINK_HOPS: u32 = 8;

/// Whether a symbolic link named by the last component is followed.
#[derive(Debug, Clone, Copy, PartialEq, Eq, Structural)]
pub enum LinkMode {
    Follow,
    NoFollow,
}

// ---- Files ------------------------------------------------------------------------

/// What kind of file something is.
#[derive(Debug, Clone, Copy, PartialEq, Eq, Structural)]
pub enum FileKind {
    File,
    Directory,
    Symlink,
    Fifo,
    Special,
}

/// File attributes.
#[derive(Debug, Clone, Copy, PartialEq, Eq, Structural)]
pub struct FileAttrs {
    pub readonly: bool,
    pub hidden: bool,
    pub system: bool,
    pub archive: bool,
}

/// A time stamp in its packed form.
#[derive(Debug, Clone, Copy, PartialEq, Eq, Structural)]
pub struct FileTime {
    /// Years since 1980 (7 bits), month (4 bits), day (5 bits).
    pub date: u16,
    /// Hours (5 bits), minutes (6 bits), two-second ticks (5 bits).
    pub time: u16,
    /// Tenths of a second.
    pub tenth: u8,
}

/// What a file system says about a file.
pub struct File {
    pub name: String,
    pub kind: FileKind,
    pub size: u64,
    pub attrs: FileAttrs,
    pub created: Option<FileTime>,
    pub accessed: Option<FileTime>,
    pub modified: Option<FileTime>,
}

/// What a file system says about a file, with the name as text.
#[verifier::ext_equal]
pub struct FileView {
    pub name: Seq<char>,
    pub kind: FileKind,
    pub size: u64,
    pub attrs: FileAttrs,
    pub created: Option<FileTime>,
    pub accessed: Option<FileTime>,
    pub modified: Option<FileTime>,
}

impl View for File {
    type V = FileView;

    open spec fn view(&self) -> FileView {
        FileView {
            name: self.name@,
            kind: self.kind,
            size: self.size,
            attrs: self.attrs,
            created: self.created,
            accessed: self.accessed,
            modified: self.modified,
        }
    }
}

/// The views of several files.
pub open spec fn file_views(fs: Seq<File>) -> Seq<FileView> {
    fs.map_values(|f: File| f@)
}

/// Files seen through their views.
pub open spec fn files_of(r: Result<Vec<File>, Error>) -> Result<Seq<FileView>, Error> {
    match r {
        Ok(v) => Ok(file_views(v@)),
        Err(e) => Err(e),
    }
}

/// A file seen through its view.
pub open spec fn file_view_of(r: Result<File, Error>) -> Result<FileView, Error> {
    match r {
        Ok(f) => Ok(f@),
        Err(e) => Err(e),
    }
}

/// A string seen through its view.
pub open spec fn text_of(r: Result<String, Error>) -> Result<Seq<char>, Error> {
    match r {
        Ok(s) => Ok(s@),
        Err(e) => Err(e),
    }
}

/// Bytes seen through their view.
pub open spec fn bytes_of(r: Result<Vec<u8>, Error>) -> Result<Seq<u8>, Error> {
    match r {
        Ok(v) => Ok(v@),
        Err(e) => Err(e),
    }
}

impl File {
    /// A copy of this description.
    pub fn duplicate(&self) -> (r: File)
        ensures
            r@ == self@,
    {
        File {
            name: self.name.clone(),
            kind: self.kind,
            size: self.size,
            attrs: self.attrs,
            created: self.created,
            accessed: self.accessed,
            modified: self.modified,
        }
    }
}

/// No attribute set.
pub open spec fn no_attrs() -> FileAttrs {
    FileAttrs { readonly: false, hidden: false, system: false, archive: false }
}

impl FileAttrs {
    /// No attribute set.
    pub fn none() -> (r: FileAttrs)
        ensures
            r == no_attrs(),
    {
        FileAttrs { readonly: false, hidden: false, system: false, archive: false }
    }
}

/// A directory that exists only by name.
pub open spec fn synthetic_dir_view(name: Seq<char>) -> FileView {
    FileView {
        name,
        kind: FileKind::Directory,
        size: 0,
        attrs: no_attrs(),
        created: None,
        accessed: None,
        modified: None,
    }
}

impl File {
    /// A directory that exists only by name.
    pub fn synthetic_dir(name: String) -> (f: File)
        ensures
            f@ == synthetic_dir_view(name@),
    {
        File {
            name,
            kind: FileKind::Directory,
            size: 0,
            attrs: FileAttrs::none(),
            created: None,
            accessed: None,
            modified: None,
        }
    }
}

/// File system statistics.
pub struct StatFs {
    /// File system type name.
    pub fs_type: &'static str,
    /// Block size in bytes.
    pub block_size: u64,
    pub total_blocks: u64,
    pub free_blocks: u64,
    /// Total inodes (0 if not applicable).
    pub total_inodes: u64,
    /// Free inodes (0 if not applicable).
    pub free_inodes: u64,
    /// Volume label, 64 bytes.
    pub volume_name: Vec<u8>,
    /// File system format version.
    pub version: u32,
    /// Number of block groups (0 if not applicable).
    pub block_groups: u32,
}

// ---- Time -------------------------------------------------------------------------

/// A date and time.
#[derive(Debug, Clone, Copy, PartialEq, Eq, Structural)]
pub struct DateTime {
    pub year: i32,
    /// 1 to 12.
    pub month: u8,
    /// 1 to 31.
    pub day: u8,
    /// 0 to 23.
    pub hour: u8,
    /// 0 to 59.
    pub min: u8,
    /// 0 to 59.
    pub sec: u8,
    /// Tenths of a second.
    pub tenth: u8,
}

/// Whether a year has a 29th of February.
pub open spec fn leap(year: int) -> bool {
    (year % 4 == 0 && year % 100 != 0) || year % 400 == 0
}

/// Days in a year.
pub open spec fn year_len(year: int) -> int {
    if leap(year) {
        366
    } else {
        365
    }
}

/// Days in a month of a year.
pub open spec fn month_len(year: int, month: int) -> int {
    if month == 2 {
        if leap(year) {
            29
        } else {
            28
        }
    } else if month == 4 || month == 6 || month == 9 || month == 11 {
        30
    } else {
        31
    }
}

/// Days from 1970-01-01 to a date.
pub open spec fn epoch_days(year: int, month: int, day: int) -> int {
    let y = if month <= 2 {
        year - 1
    } else {
        year
    };
    let m = if month <= 2 {
        month + 12
    } else {
        month
    };
    365 * y + y / 4 - y / 100 + y / 400 + (153 * (m - 3) + 2) / 5 + day - 719469
}

/// Seconds from 1970-01-01T00:00:00Z to a date and time, 0 for earlier dates.
pub open spec fn unix_secs(t: DateTime) -> int {
    let d = epoch_days(t.year as int, t.month as int, t.day as int);
    if d < 0 {
        0
    } else {
        d * 86400 + t.hour * 3600 + t.min * 60 + t.sec
    }
}

/// The packed form of a Unix time stamp; the first instant it can hold for anything
/// earlier.
pub open spec fn file_time_of(secs: u64) -> FileTime {
    if date_of(secs).year < 1980 {
        first_packed()
    } else {
        packed(date_of(secs))
    }
}


/// The packed form of a date and time. Each field keeps only the bits it has.
pub open spec fn packed(t: DateTime) -> FileTime {
    FileTime {
        date: ((t.year - 1980) % 128 * 512 + t.month % 16 * 32 + t.day % 32) as u16,
        time: (t.hour % 32 * 2048 + t.min % 64 * 32 + t.sec / 2 % 32) as u16,
        tenth: t.tenth,
    }
}

/// The year that day `days` after the first of January of `year` falls in, and the
/// day within it.
pub open spec fn year_of(days: int, year: int) -> (int, int)
    decreases days,
{
    if days < year_len(year) {
        (year, days)
    } else {
        year_of(days - year_len(year), year + 1)
    }
}

/// The month that day `days` after the first of `month` falls in, and the day
/// within it.
pub open spec fn month_of(year: int, days: int, month: int) -> (int, int)
    decreases days,
{
    if days < month_len(year, month) || month >= 13 {
        (month, days)
    } else {
        month_of(year, days - month_len(year, month), month + 1)
    }
}

/// The date and time `secs` seconds after 1970-01-01T00:00:00Z.
pub open spec fn date_of(secs: u64) -> DateTime {
    let (y, in_year) = year_of(secs as int / 86400 % 0x1_0000_0000, 1970);
    let (m, in_month) = month_of(y, in_year, 1);
    DateTime {
        year: y as i32,
        month: m as u8,
        day: (in_month + 1) as u8,
        hour: (secs as int / 3600 % 24) as u8,
        min: (secs as int / 60 % 60) as u8,
        sec: (secs as int % 60) as u8,
        tenth: 0,
    }
}

/// 1980-01-01T00:00:00, the first instant the packed form can hold.
pub open spec fn first_packed() -> FileTime {
    FileTime { date: 33, time: 0, tenth: 0 }
}

fn is_leap_year(year: i32) -> (r: bool)
    requires
        year >= 0,
    ensures
        r == leap(year as int),
{
    (year % 4 == 0 && year % 100 != 0) || year % 400 == 0
}

/// Days from 1970-01-01 to a date.
pub fn days_since_epoch(year: i64, month: i64, day: i64) -> (r: i64)
    requires
        1 <= year <= 0x7FFF_FFFF,
        0 <= month <= 255,
        0 <= day <= 255,
    ensures
        r == epoch_days(year as int, month as int, day as int),
{
    let y: i64 = if month <= 2 {
        year - 1
    } else {
        year
    };
    let m: i64 = if month <= 2 {
        month + 12
    } else {
        month
    };
    365 * y + y / 4 - y / 100 + y / 400 + (153 * (m - 3) + 2) / 5 + day - 719469
}

impl DateTime {
    /// The packed form.
    pub fn to_file_time(self) -> (r: FileTime)
        ensures
            r == packed(self),
    {
        let years: i64 = (self.year as i64 - 1980 + 0x1_0000_0000) % 128;
        proof {
            lemma_mod128(self.year - 1980);
        }
        FileTime {
            date: years as u16 * 512 + (self.month % 16) as u16 * 32 + (self.day % 32) as u16,
            time: (self.hour % 32) as u16 * 2048 + (self.min % 64) as u16 * 32 + (self.sec / 2
                % 32) as u16,
            tenth: self.tenth,
        }
    }

    /// Seconds since 1970-01-01T00:00:00Z.
    pub fn to_unix_secs(self) -> (r: u64)
        ensures
            r == unix_secs(self),
    {
        if self.year < 1 {
            assert(epoch_days(self.year as int, self.month as int, self.day as int) < 0);
            return 0;
        }
        let days: i64 = days_since_epoch(self.year as i64, self.month as i64, self.day as i64);
        if days < 0 {
            return 0;
        }
        days as u64 * 86400 + self.hour as u64 * 3600 + self.min as u64 * 60 + self.sec as u64
    }
}

impl FileTime {
    /// The date and time, none when the date is unknown.
    pub fn to_datetime(self) -> (r: Option<DateTime>)
        ensures
            r == unpacked(self),
    {
        if self.date == 0 {
            return None;
        }
        Some(
            DateTime {
                year: 1980 + (self.date / 512) as i32,
                month: (self.date / 32 % 16) as u8,
                day: (self.date % 32) as u8,
                hour: (self.time / 2048) as u8,
                min: (self.time / 32 % 64) as u8,
                sec: (self.time % 32) as u8 * 2,
                tenth: self.tenth,
            },
        )
    }

    /// Packs a Unix time stamp. The packed form cannot hold anything before 1980, so
    /// those inputs land on its first instant.
    pub fn from_unix_secs(secs: u64) -> (r: FileTime)
        ensures
            r == file_time_of(secs),
    {
        let mut days: u64 = secs / 86400 % 0x1_0000_0000;
        let mut year: i32 = 1970;
        let ghost d0 = secs as int / 86400 % 0x1_0000_0000;
        proof {
            lemma_year_bound(d0, 1970);
        }
        while days >= year_days(year)
            invariant
                1970 <= year,
                year + days / 365 <= 1970 + d0 / 365,
                d0 < 0x1_0000_0000,
                year_of(d0, 1970) == year_of(days as int, year as int),
            decreases days,
        {
            days = days - year_days(year);
            year = year + 1;
        }
        let ghost in_year = days as int;
        let mut month: u8 = 1;
        while month < 13 && days >= month_days(year, month)
            invariant
                1970 <= year,
                1 <= month <= 13,
                days < 366,
                month_of(year as int, in_year, 1) == month_of(
                    year as int,
                    days as int,
                    month as int,
                ),
            decreases days,
        {
            days = days - month_days(year, month);
            month = month + 1;
        }
        proof {
            lemma_month_bound(year as int, in_year, 1);
        }
        if year < 1980 {
            return FileTime { date: 33, time: 0, tenth: 0 };
        }
        DateTime {
            year,
            month,
            day: days as u8 + 1,
            hour: (secs / 3600 % 24) as u8,
            min: (secs / 60 % 60) as u8,
            sec: (secs % 60) as u8,
            tenth: 0,
        }.to_file_time()
    }
}

/// Days before the first of `month` in a year.
pub open spec fn days_before(year: int, month: int) -> int
    decreases month,
{
    if month <= 1 {
        0
    } else {
        days_before(year, month - 1) + month_len(year, month - 1)
    }
}

proof fn lemma_days_before(year: int)
    ensures
        days_before(year, 1) == 0,
        days_before(year, 2) == 31,
        days_before(year, 3) == 31 + month_len(year, 2),
        days_before(year, 4) == days_before(year, 3) + 31,
        days_before(year, 5) == days_before(year, 3) + 61,
        days_before(year, 6) == days_before(year, 3) + 92,
        days_before(year, 7) == days_before(year, 3) + 122,
        days_before(year, 8) == days_before(year, 3) + 153,
        days_before(year, 9) == days_before(year, 3) + 184,
        days_before(year, 10) == days_before(year, 3) + 214,
        days_before(year, 11) == days_before(year, 3) + 245,
        days_before(year, 12) == days_before(year, 3) + 275,
        days_before(year, 13) == year_len(year),
{
    assert(days_before(year, 1) == 0);
    assert(days_before(year, 2) == 31);
    assert(days_before(year, 3) == 31 + month_len(year, 2));
    assert(days_before(year, 4) == days_before(year, 3) + 31);
    assert(days_before(year, 5) == days_before(year, 4) + 30);
    assert(days_before(year, 6) == days_before(year, 5) + 31);
    assert(days_before(year, 7) == days_before(year, 6) + 30);
    assert(days_before(year, 8) == days_before(year, 7) + 31);
    assert(days_before(year, 9) == days_before(year, 8) + 31);
    assert(days_before(year, 10) == days_before(year, 9) + 30);
    assert(days_before(year, 11) == days_before(year, 10) + 31);
    assert(days_before(year, 12) == days_before(year, 11) + 30);
    assert(days_before(year, 13) == days_before(year, 12) + 31);
}

proof fn lemma_year_bound(days: int, year: int)
    requires
        0 <= days,
    ensures
        year <= year_of(days, year).0 <= year + days / 365,
        0 <= year_of(days, year).1 < year_len(year_of(days, year).0),
    decreases days,
{
    if days >= year_len(year) {
        lemma_year_bound(days - year_len(year), year + 1);
    }
}

proof fn lemma_month_bound(year: int, days: int, month: int)
    requires
        0 <= days,
        1 <= month <= 13,
        days_before(year, month) + days < year_len(year),
    ensures
        month <= month_of(year, days, month).0 <= 12,
        0 <= month_of(year, days, month).1 < month_len(year, month_of(year, days, month).0),
        days_before(year, month_of(year, days, month).0) + month_of(year, days, month).1
            == days_before(year, month) + days,
    decreases days,
{
    lemma_days_before(year);
    if days >= month_len(year, month) && month < 13 {
        assert(days_before(year, month + 1) == days_before(year, month) + month_len(year, month));
        lemma_month_bound(year, days - month_len(year, month), month + 1);
    }
}

proof fn lemma_mod128(x: int)
    ensures
        (x + 0x1_0000_0000) % 128 == x % 128,
{
}

proof fn lemma_div_step_4(y: int)
    ensures
        y / 4 - (y - 1) / 4 == (if y % 4 == 0 {
            1int
        } else {
            0
        }),
{
    let q = y / 4;
    let r = y % 4;
    assert(y == 4 * q + r && 0 <= r < 4);
    if r == 0 {
        assert(y - 1 == 4 * (q - 1) + 3);
        assert((y - 1) / 4 == q - 1);
    } else {
        assert(y - 1 == 4 * q + (r - 1));
        assert((y - 1) / 4 == q);
    }
}

proof fn lemma_div_step_100(y: int)
    ensures
        y / 100 - (y - 1) / 100 == (if y % 100 == 0 {
            1int
        } else {
            0
        }),
{
    let q = y / 100;
    let r = y % 100;
    assert(y == 100 * q + r && 0 <= r < 100);
    if r == 0 {
        assert(y - 1 == 100 * (q - 1) + 99);
        assert((y - 1) / 100 == q - 1);
    } else {
        assert(y - 1 == 100 * q + (r - 1));
        assert((y - 1) / 100 == q);
    }
}

proof fn lemma_div_step_400(y: int)
    ensures
        y / 400 - (y - 1) / 400 == (if y % 400 == 0 {
            1int
        } else {
            0
        }),
{
    let q = y / 400;
    let r = y % 400;
    assert(y == 400 * q + r && 0 <= r < 400);
    if r == 0 {
        assert(y - 1 == 400 * (q - 1) + 399);
        assert((y - 1) / 400 == q - 1);
    } else {
        assert(y - 1 == 400 * q + (r - 1));
        assert((y - 1) / 400 == q);
    }
}

proof fn lemma_leap_step(y: int)
    ensures
        y / 4 - (y - 1) / 4 - (y / 100 - (y - 1) / 100) + (y / 400 - (y - 1) / 400) == (if leap(y) {
            1int
        } else {
            0
        }),
{
    lemma_div_step_4(y);
    lemma_div_step_100(y);
    lemma_div_step_400(y);
    if y % 400 == 0 {
        assert(y == 100 * (4 * (y / 400)));
        assert(y % 100 == 0);
    }
    if y % 100 == 0 {
        assert(y == 4 * (25 * (y / 100)));
        assert(y % 4 == 0);
    }
}

proof fn lemma_year_step(year: int)
    ensures
        epoch_days(year + 1, 1, 1) == epoch_days(year, 1, 1) + year_len(year),
{
    lemma_leap_step(year);
}

/// Three fields packed into one number come apart again.
proof fn lemma_fields_16(v: int, a: int, b: int, c: int)
    requires
        v == a * 512 + b * 32 + c,
        0 <= a,
        0 <= b < 16,
        0 <= c < 32,
    ensures
        v % 32 == c,
        v / 32 % 16 == b,
        v / 512 == a,
{
    let w = a * 16 + b;
    assert(v == 32 * w + c);
    assert(v / 32 == w);
    assert(w % 16 == b);
    assert(v == 512 * a + (b * 32 + c));
}

/// Three fields packed into one number come apart again.
proof fn lemma_fields_64(v: int, a: int, b: int, c: int)
    requires
        v == a * 2048 + b * 32 + c,
        0 <= a,
        0 <= b < 64,
        0 <= c < 32,
    ensures
        v % 32 == c,
        v / 32 % 64 == b,
        v / 2048 == a,
{
    let w = a * 64 + b;
    assert(v == 32 * w + c);
    assert(v / 32 == w);
    assert(w % 64 == b);
    assert(v == 2048 * a + (b * 32 + c));
}

proof fn lemma_epoch_year(days: int, year: int)
    requires
        0 <= days,
        1 <= year,
    ensures
        ({
            let (y, d) = year_of(days, year);
            epoch_days(y, 1, 1) + d == epoch_days(year, 1, 1) + days
        }),
    decreases days,
{
    if days >= year_len(year) {
        lemma_epoch_year(days - year_len(year), year + 1);
        lemma_year_step(year);
    }
}

proof fn lemma_epoch_month(year: int, month: int, day: int)
    requires
        1 <= year,
        1 <= month <= 12,
    ensures
        epoch_days(year, month, day) == epoch_days(year, 1, 1) + days_before(year, month) + day - 1,
{
    lemma_days_before(year);
    lemma_leap_step(year);
    let y = 365 * year + year / 4 - year / 100 + year / 400;
    let p = 365 * (year - 1) + (year - 1) / 4 - (year - 1) / 100 + (year - 1) / 400;
    assert(y - p == year_len(year));
    if month == 1 {
        assert(epoch_days(year, 1, day) == p + 306 + day - 719469);
    }
    if month == 2 {
        assert(epoch_days(year, 2, day) == p + 337 + day - 719469);
    }
    if month == 3 {
        assert(epoch_days(year, 3, day) == y + 0 + day - 719469);
    }
    if month == 4 {
        assert(epoch_days(year, 4, day) == y + 31 + day - 719469);
    }
    if month == 5 {
        assert(epoch_days(year, 5, day) == y + 61 + day - 719469);
    }
    if month == 6 {
        assert(epoch_days(year, 6, day) == y + 92 + day - 719469);
    }
    if month == 7 {
        assert(epoch_days(year, 7, day) == y + 122 + day - 719469);
    }
    if month == 8 {
        assert(epoch_days(year, 8, day) == y + 153 + day - 719469);
    }
    if month == 9 {
        assert(epoch_days(year, 9, day) == y + 184 + day - 719469);
    }
    if month == 10 {
        assert(epoch_days(year, 10, day) == y + 214 + day - 719469);
    }
    if month == 11 {
        assert(epoch_days(year, 11, day) == y + 245 + day - 719469);
    }
    if month == 12 {
        assert(epoch_days(year, 12, day) == y + 275 + day - 719469);
    }
    assert(epoch_days(year, 1, 1) == p + 306 + 1 - 719469);
}

proof fn lemma_clock(secs: int)
    requires
        0 <= secs,
    ensures
        secs / 86400 * 86400 + secs / 3600 % 24 * 3600 + secs / 60 % 60 * 60 + secs % 60 == secs,
{
    assert(secs / 60 == 60 * (secs / 3600) + secs / 60 % 60);
    assert(secs / 3600 == 24 * (secs / 86400) + secs / 3600 % 24);
}

/// The date computed for a number of seconds is that many seconds after the epoch,
/// and a proper date. (The day count is 32 bits wide.)
pub proof fn date_of_is_inverse(secs: u64)
    requires
        secs / 86400 < 0x1_0000_0000,
    ensures
        unix_secs(date_of(secs)) == secs,
        1 <= date_of(secs).month <= 12,
        1 <= date_of(secs).day <= month_len(
            date_of(secs).year as int,
            date_of(secs).month as int,
        ),
{
    let days = secs as int / 86400 % 0x1_0000_0000;
    lemma_year_bound(days, 1970);
    let (y, in_year) = year_of(days, 1970);
    lemma_days_before(y);
    lemma_month_bound(y, in_year, 1);
    lemma_epoch_year(days, 1970);
    let (m, in_month) = month_of(y, in_year, 1);
    lemma_epoch_month(y, m, in_month + 1);
    assert(epoch_days(1970, 1, 1) == 0);
    assert(y <= 1970 + days / 365);
    let t = date_of(secs);
    assert(t.year == y && t.month == m && t.day == in_month + 1);
    assert(epoch_days(t.year as int, t.month as int, t.day as int) == days);
    lemma_clock(secs as int);
}

/// The date and time a packed stamp stands for.
pub open spec fn unpacked(t: FileTime) -> Option<DateTime> {
    if t.date == 0 {
        None
    } else {
        Some(
            DateTime {
                year: (1980 + t.date / 512) as i32,
                month: (t.date / 32 % 16) as u8,
                day: (t.date % 32) as u8,
                hour: (t.time / 2048) as u8,
                min: (t.time / 32 % 64) as u8,
                sec: (t.time % 32 * 2) as u8,
                tenth: t.tenth,
            },
        )
    }
}

/// A date from 1980 to 2107 survives packing, up to the two-second resolution of the
/// packed form.
pub proof fn pack_round_trip(t: DateTime)
    requires
        1980 <= t.year <= 2107,
        1 <= t.month <= 12,
        1 <= t.day <= 31,
        t.hour <= 23,
        t.min <= 59,
        t.sec <= 59,
    ensures
        unpacked(packed(t)) == Some(DateTime { sec: (t.sec / 2 * 2) as u8, ..t }),
{
    lemma_pack_date(t);
    lemma_pack_time(t);
}

proof fn lemma_pack_date(t: DateTime)
    requires
        1980 <= t.year <= 2107,
        1 <= t.month <= 12,
        1 <= t.day <= 31,
    ensures
        packed(t).date > 0,
        packed(t).date / 512 == t.year - 1980,
        packed(t).date / 32 % 16 == t.month,
        packed(t).date % 32 == t.day,
{
    let a = t.year - 1980;
    let b = t.month as int;
    let c = t.day as int;
    assert(a % 128 == a);
    assert(b % 16 == b);
    assert(c % 32 == c);
    let v = a * 512 + b * 32 + c;
    assert(packed(t).date == v);
    lemma_fields_16(v, a, b, c);
}

proof fn lemma_pack_time(t: DateTime)
    requires
        t.hour <= 23,
        t.min <= 59,
        t.sec <= 59,
    ensures
        packed(t).time / 2048 == t.hour,
        packed(t).time / 32 % 64 == t.min,
        packed(t).time % 32 == t.sec / 2,
{
    let a = t.hour as int;
    let b = t.min as int;
    let c = t.sec as int / 2;
    assert(a % 32 == a);
    assert(b % 64 == b);
    assert(c % 32 == c);
    let v = a * 2048 + b * 32 + c;
    assert(packed(t).time == v);
    lemma_fields_64(v, a, b, c);
}

fn year_days(year: i32) -> (r: u64)
    requires
        year >= 0,
    ensures
        r == year_len(year as int),
{
    if is_leap_year(year) {
        366
    } else {
        365
    }
}

fn month_days(year: i32, month: u8) -> (r: u64)
    requires
        year >= 0,
    ensures
        r == month_len(year as int, month as int),
{
    if month == 2 {
        if is_leap_year(year) {
            29
        } else {
            28
        }
    } else if month == 4 || month == 6 || month == 9 || month == 11 {
        30
    } else {
        31
    }
}

} // verus!
