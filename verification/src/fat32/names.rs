//! Short names for long ones.
use vstd::prelude::*;
use crate::bytes::{bytes_eq, push_slice, sub_vec};
use crate::error::Error;
use crate::text::string_from_utf8;
use super::driver::Fatfs;
use super::entry;
use super::entry::{is_short_mark, DirectoryEntry, EntryView};
use super::model;
use super::model::FatState;

verus! {

/// Most short names tried for one long name.
pub const MAX_SHORT_TRIES: u32 = 9_999_999;

/// The byte that stands for a character in a short name.
pub open spec fn clean(c: char) -> u8 {
    let n = c as u32;
    if n < 128 && 0x61 <= n <= 0x7A {
        (n - 32) as u8
    } else if n < 128 && ((0x30 <= n <= 0x39) || (0x41 <= n <= 0x5A) || entry::short_mark(n as u8)) {
        n as u8
    } else {
        0x5F
    }
}

/// A name part with what may not stand in a short name replaced.
pub open spec fn sanitized(s: Seq<char>) -> Seq<u8> {
    s.map_values(|c: char| clean(c))
}

/// The position of the last full stop, if there is one.
pub open spec fn last_dot(s: Seq<char>) -> Option<int>
    decreases s.len(),
{
    if s.len() == 0 {
        None
    } else if s.last() == '.' {
        Some(s.len() - 1)
    } else {
        last_dot(s.drop_last())
    }
}

/// The decimal digits of `n`.
pub open spec fn decimal(n: nat) -> Seq<u8>
    decreases n,
{
    if n < 10 {
        seq![(48 + n) as u8]
    } else {
        decimal(n / 10) + seq![(48 + n % 10) as u8]
    }
}

/// What comes before the extension, cleaned; never empty.
pub open spec fn base_part(s: Seq<char>) -> Seq<u8> {
    let b = match last_dot(s) {
        Some(d) => sanitized(s.take(d)),
        None => sanitized(s),
    };
    if b.len() == 0 {
        seq![0x5Fu8]
    } else {
        b
    }
}

/// The extension, cleaned and cut.
pub open spec fn ext_part(s: Seq<char>) -> Seq<u8> {
    match last_dot(s) {
        Some(d) => {
            let e = sanitized(s.skip(d + 1));
            if e.len() > 3 {
                e.take(3)
            } else {
                e
            }
        },
        None => Seq::empty(),
    }
}

/// Short name number `k` for a long name: the cleaned name cut to make room for `~`
/// and the number, and the extension.
pub open spec fn candidate_bytes(s: Seq<char>, k: nat) -> Seq<u8> {
    let suffix = seq![0x7Eu8] + decimal(k);
    let room = if suffix.len() < 8 {
        8 - suffix.len()
    } else {
        0
    };
    let base = base_part(s);
    let cut = if base.len() > room {
        base.take(room)
    } else {
        base
    };
    let ext = ext_part(s);
    if ext.len() == 0 {
        cut + suffix
    } else {
        cut + suffix + seq![0x2Eu8] + ext
    }
}

/// The text of bytes, or `_` if they are none.
pub open spec fn text_of(b: Seq<u8>) -> Seq<char> {
    if vstd::utf8::valid_utf8(b) {
        vstd::utf8::decode_utf8(b)
    } else {
        seq!['_']
    }
}

/// Whether one of the entries has this short name.
pub open spec fn taken(es: Seq<EntryView>, name: Seq<u8>) -> bool {
    exists|i: int| 0 <= i < es.len() && (#[trigger] es[i]).name == name
}

/// The first short name from number `k` on that none of the entries has.
pub open spec fn first_free(es: Seq<EntryView>, s: Seq<char>, k: int) -> Option<Seq<char>>
    decreases MAX_SHORT_TRIES + 1 - k,
{
    if k > MAX_SHORT_TRIES || k < 0 {
        None
    } else {
        let c = text_of(candidate_bytes(s, k as nat));
        if !taken(es, entry::fat_name(c)) {
            Some(c)
        } else {
            first_free(es, s, k + 1)
        }
    }
}

/// The short name that a new entry of a directory gets, and whether it needs its long
/// name written too.
#[verifier::opaque]
pub open spec fn short_for(st: FatState, dir: u32, s: Seq<char>) -> Result<
    (Seq<char>, bool),
    Error,
> {
    match model::dir_entries(st, dir) {
        Err(e) => Err::<(Seq<char>, bool), Error>(e),
        Ok(es) => if entry::valid_short(vstd::utf8::encode_utf8(s)) && !taken(
            es,
            entry::fat_name(s),
        ) {
            Ok::<(Seq<char>, bool), Error>((s, false))
        } else {
            match first_free(es, s, 1) {
                Some(c) => Ok::<(Seq<char>, bool), Error>((c, true)),
                None => Err::<(Seq<char>, bool), Error>(Error::NoSpace),
            }
        },
    }
}

/// Replaces what may not stand in a short name in characters `from..to`.
fn sanitize_range(s: &str, from: usize, to: usize) -> (r: Vec<u8>)
    requires
        from <= to <= s@.len(),
    ensures
        r@ == sanitized(s@.subrange(from as int, to as int)),
{
    let mut out: Vec<u8> = Vec::new();
    let mut i: usize = from;
    assert(out@ =~= sanitized(s@.subrange(from as int, from as int)));
    while i < to
        invariant
            from <= i <= to <= s@.len(),
            out@ == sanitized(s@.subrange(from as int, i as int)),
        decreases to - i,
    {
        let n: u32 = s.get_char(i) as u32;
        let b: u8 = if n < 128 && 0x61 <= n && n <= 0x7A {
            (n - 32) as u8
        } else if n < 128 && ((0x30 <= n && n <= 0x39) || (0x41 <= n && n <= 0x5A) || is_short_mark(
            n as u8,
        )) {
            n as u8
        } else {
            0x5F
        };
        out.push(b);
        proof {
            assert(s@.subrange(from as int, i + 1) =~= s@.subrange(from as int, i as int).push(
                s@[i as int],
            ));
            assert(out@ =~= sanitized(s@.subrange(from as int, i + 1)));
        }
        i = i + 1;
    }
    out
}

/// A name part with what may not stand in a short name replaced.
pub fn sanitize_short_component(component: &str) -> (r: Vec<u8>)
    ensures
        r@ == sanitized(component@),
{
    let n: usize = component.unicode_len();
    assert(component@.subrange(0, n as int) =~= component@);
    sanitize_range(component, 0, n)
}

fn find_last_dot(s: &str) -> (r: Option<usize>)
    ensures
        match r {
            Some(d) => last_dot(s@) == Some(d as int) && d < s@.len(),
            None => last_dot(s@) is None,
        },
{
    let mut i: usize = s.unicode_len();
    assert(s@.take(i as int) =~= s@);
    while i > 0
        invariant
            i <= s@.len(),
            last_dot(s@) == last_dot(s@.take(i as int)),
        decreases i,
    {
        if s.get_char(i - 1) == '.' {
            return Some(i - 1);
        }
        assert(s@.take(i as int).drop_last() =~= s@.take(i - 1));
        i = i - 1;
    }
    None
}

fn decimal_digits(n: u32) -> (r: Vec<u8>)
    ensures
        r@ == decimal(n as nat),
    decreases n,
{
    if n < 10 {
        let mut out: Vec<u8> = Vec::new();
        out.push((48 + n) as u8);
        assert(out@ =~= seq![(48 + n) as u8]);
        out
    } else {
        let mut out = decimal_digits(n / 10);
        out.push((48 + n % 10) as u8);
        assert(out@ =~= decimal((n / 10) as nat) + seq![(48 + n % 10) as u8]);
        out
    }
}

fn is_taken(es: &Vec<DirectoryEntry>, name: &Vec<u8>) -> (r: bool)
    ensures
        r == taken(entry::entry_views(es@), name@),
{
    let ghost v = entry::entry_views(es@);
    let mut i: usize = 0;
    while i < es.len()
        invariant
            i <= es.len(),
            v == entry::entry_views(es@),
            forall|k: int| 0 <= k < i ==> (#[trigger] v[k]).name != name@,
        decreases es.len() - i,
    {
        if bytes_eq(es[i].name.as_slice(), name.as_slice()) {
            assert(v[i as int].name == name@);
            return true;
        }
        i = i + 1;
    }
    false
}

fn candidate(base: &Vec<u8>, ext: &Vec<u8>, k: u32, Ghost(s): Ghost<Seq<char>>) -> (r: String)
    requires
        base@ == base_part(s),
        ext@ == ext_part(s),
    ensures
        r@ == text_of(candidate_bytes(s, k as nat)),
{
    let mut suffix: Vec<u8> = Vec::new();
    suffix.push(0x7E);
    let digits = decimal_digits(k);
    push_slice(&mut suffix, digits.as_slice());
    assert(suffix@ =~= seq![0x7Eu8] + decimal(k as nat));
    let room: usize = if suffix.len() < 8 {
        8 - suffix.len()
    } else {
        0
    };
    let mut out: Vec<u8> = if base.len() > room {
        sub_vec(base.as_slice(), 0, room)
    } else {
        sub_vec(base.as_slice(), 0, base.len())
    };
    proof {
        let b = base_part(s);
        let cut = if b.len() > room {
            b.take(room as int)
        } else {
            b
        };
        assert(out@ =~= cut);
    }
    push_slice(&mut out, suffix.as_slice());
    if ext.len() > 0 {
        let ghost head = out@;
        out.push(0x2E);
        push_slice(&mut out, ext.as_slice());
        assert(out@ =~= head + seq![0x2Eu8] + ext@);
    }
    assert(out@ =~= candidate_bytes(s, k as nat));
    match string_from_utf8(out) {
        Some(t) => t,
        None => {
            let mut t = String::new();
            t.append("_");
            proof {
                reveal_strlit("_");
            }
            assert(t@ =~= seq!['_']);
            t
        },
    }
}

impl Fatfs {
    /// Finds the short name for a new entry of a directory.
    pub fn generate_short_name(&mut self, dir: u32, desired: &str) -> (r: Result<
        (String, bool),
        Error,
    >)
        requires
            old(self).wf(),
        ensures
            final(self).wf(),
            final(self)@ == old(self)@,
            match r {
                Ok(x) => short_for(old(self)@, dir, desired@) == Ok::<(Seq<char>, bool), Error>(
                    (x.0@, x.1),
                ),
                Err(e) => short_for(old(self)@, dir, desired@) == Err::<(Seq<char>, bool), Error>(
                    e,
                ),
            },
    {
        reveal(short_for);
        let es = match self.list_dir(dir) {
            Ok(v) => v,
            Err(e) => {
                return Err(e);
            },
        };
        let ghost ev = entry::entry_views(es@);
        if DirectoryEntry::is_valid_short_name(desired) {
            let f = DirectoryEntry::string_to_fat_name(desired);
            if !is_taken(&es, &f) {
                return Ok((desired.to_owned(), false));
            }
        }
        let n: usize = desired.unicode_len();
        let (base_clean, ext_clean): (Vec<u8>, Vec<u8>) = match find_last_dot(desired) {
            Some(d) => {
                assert(desired@.subrange(0, d as int) =~= desired@.take(d as int));
                assert(desired@.subrange(d + 1, n as int) =~= desired@.skip(d + 1));
                (sanitize_range(desired, 0, d), sanitize_range(desired, d + 1, n))
            },
            None => {
                assert(desired@.subrange(0, n as int) =~= desired@);
                (sanitize_range(desired, 0, n), Vec::new())
            },
        };
        let mut base: Vec<u8> = base_clean;
        if base.len() == 0 {
            base.push(0x5F);
            assert(base@ =~= seq![0x5Fu8]);
        }
        let ext: Vec<u8> = if ext_clean.len() > 3 {
            sub_vec(ext_clean.as_slice(), 0, 3)
        } else {
            sub_vec(ext_clean.as_slice(), 0, ext_clean.len())
        };
        proof {
            assert(base@ =~= base_part(desired@));
            assert(ext@ =~= ext_part(desired@));
        }
        let mut k: u32 = 1;
        while k <= MAX_SHORT_TRIES
            invariant
                self.wf(),
                self@ == old(self)@,
                1 <= k <= MAX_SHORT_TRIES + 1,
                ev == entry::entry_views(es@),
                base@ == base_part(desired@),
                ext@ == ext_part(desired@),
                first_free(ev, desired@, 1) == first_free(ev, desired@, k as int),
                short_for(self@, dir, desired@) == (match first_free(ev, desired@, 1) {
                    Some(c) => Ok::<(Seq<char>, bool), Error>((c, true)),
                    None => Err::<(Seq<char>, bool), Error>(Error::NoSpace),
                }),
            decreases MAX_SHORT_TRIES + 1 - k,
        {
            let c = candidate(&base, &ext, k, Ghost(desired@));
            let f = DirectoryEntry::string_to_fat_name(c.as_str());
            if !is_taken(&es, &f) {
                return Ok((c, true));
            }
            k = k + 1;
        }
        Err(Error::NoSpace)
    }
}

} // verus!
