//! Strings from bytes.
use vstd::prelude::*;

verus! {

/// Wraps `String::from_utf8`: the string the bytes encode, when they are valid
/// UTF-8, and nothing otherwise.
#[verifier::external_body]
pub(crate) fn string_from_utf8(v: Vec<u8>) -> (r: Option<String>)
    ensures
        match r {
            Some(s) => vstd::utf8::valid_utf8(v@) && s@ == vstd::utf8::decode_utf8(v@),
            None => !vstd::utf8::valid_utf8(v@),
        },
{
    String::from_utf8(v).ok()
}

/// What `String::from_utf8_lossy` makes of bytes.
pub uninterp spec fn lossy(v: Seq<u8>) -> Seq<char>;

/// Wraps `String::from_utf8_lossy`: the text the bytes encode, with what is not valid
/// UTF-8 replaced. Valid UTF-8 is decoded as it stands; how invalid sequences are
/// replaced is left unsaid.
#[verifier::external_body]
pub(crate) fn string_lossy(v: &[u8]) -> (r: String)
    ensures
        r@ == lossy(v@),
        vstd::utf8::valid_utf8(v@) ==> r@ == vstd::utf8::decode_utf8(v@),
{
    String::from_utf8_lossy(v).into_owned()
}

/// What `str::to_uppercase` makes of text.
pub uninterp spec fn uppercase(s: Seq<char>) -> Seq<char>;

/// The character with number `n`.
pub open spec fn char_of(n: u32) -> char {
    choose|c: char| #[trigger] number(c) == n
}

/// The number of a character.
pub open spec fn number(c: char) -> u32 {
    c as u32
}

/// A character is known by its number.
pub proof fn char_has_one_number(c: char)
    ensures
        char_of(number(c)) == c,
{
    let d = char_of(number(c));
    assert(number(d) == number(c));
    assert(d as u32 == c as u32);
    assert(d as int == c as int);
    assert(d == c);
}

/// `c` with an ASCII small letter replaced by its capital.
pub open spec fn ascii_upper(c: char) -> char {
    if 'a' <= c <= 'z' {
        char_of((c as u32 - 32) as u32)
    } else {
        c
    }
}

/// Wraps `str::to_uppercase`: the text in capitals. For ASCII text this is ASCII
/// capitalisation; what happens to other text is left unsaid.
#[verifier::external_body]
pub(crate) fn string_uppercase(s: &str) -> (r: String)
    ensures
        r@ == uppercase(s@),
        (forall|i: int| 0 <= i < s@.len() ==> (#[trigger] s@[i]) as u32 <= 127) ==> r@
            == s@.map_values(|c: char| ascii_upper(c)),
{
    s.to_uppercase()
}

/// `b` with an ASCII small letter replaced by its capital.
pub open spec fn byte_upper(b: u8) -> u8 {
    if 0x61 <= b <= 0x7A {
        (b - 32) as u8
    } else {
        b
    }
}

/// `b` with an ASCII capital replaced by its small letter.
pub open spec fn byte_lower(b: u8) -> u8 {
    if 0x41 <= b <= 0x5A {
        (b + 32) as u8
    } else {
        b
    }
}

/// Replaces an ASCII capital by its small letter.
pub fn to_lower(b: u8) -> (r: u8)
    ensures
        r == byte_lower(b),
{
    if 0x41 <= b && b <= 0x5A {
        b + 32
    } else {
        b
    }
}

/// Replaces an ASCII small letter by its capital.
pub fn to_upper(b: u8) -> (r: u8)
    ensures
        r == byte_upper(b),
{
    if 0x61 <= b && b <= 0x7A {
        b - 32
    } else {
        b
    }
}

/// Bytes with ASCII small letters replaced by capitals.
pub open spec fn raised(s: Seq<u8>) -> Seq<u8> {
    s.map_values(|b: u8| byte_upper(b))
}

/// Whether all bytes are ASCII.
pub open spec fn ascii(s: Seq<u8>) -> bool {
    forall|i: int| 0 <= i < s.len() ==> #[trigger] s[i] < 0x80
}

/// ASCII is UTF-8, one byte for each character.
pub proof fn ascii_is_utf8(s: Seq<u8>)
    requires
        ascii(s),
    ensures
        vstd::utf8::valid_utf8(s),
        vstd::utf8::decode_utf8(s).len() == s.len(),
        forall|i: int|
            0 <= i < s.len() ==> (#[trigger] vstd::utf8::decode_utf8(s)[i]) as u32 == s[i],
    decreases s.len(),
{
    if s.len() > 0 {
        let b = s[0];
        assert((b & 0x7F) as u32 == b as u32) by (bit_vector)
            requires
                b < 0x80,
        ;
        let rest = vstd::utf8::pop_first_scalar(s);
        assert(rest =~= s.skip(1));
        ascii_is_utf8(rest);
        assert(vstd::utf8::decode_utf8(s) == seq![b as u32 as char] + vstd::utf8::decode_utf8(rest));
    }
}

/// ASCII text in capitals, as bytes.
pub(crate) proof fn lemma_raised(s: Seq<char>)
    requires
        ascii(vstd::utf8::encode_utf8(s)),
    ensures
        forall|i: int| 0 <= i < s.len() ==> (#[trigger] s[i]) as u32 <= 127,
        vstd::utf8::encode_utf8(s.map_values(|c: char| ascii_upper(c))) == raised(
            vstd::utf8::encode_utf8(s),
        ),
{
    let b = vstd::utf8::encode_utf8(s);
    let t = s.map_values(|c: char| ascii_upper(c));
    ascii_is_utf8(b);
    vstd::utf8::encode_utf8_decode_utf8(s);
    let u = raised(b);
    assert(ascii(u));
    ascii_is_utf8(u);
    let d = vstd::utf8::decode_utf8(u);
    assert forall|i: int| 0 <= i < s.len() implies d[i] == #[trigger] t[i] by {
        assert(s[i] as u32 == b[i]);
        assert(d[i] as u32 == u[i]);
        char_has_one_number(d[i]);
        char_has_one_number(s[i]);
        assert(number(d[i]) == u[i] as u32);
        assert(number(s[i]) == b[i] as u32);
    }
    assert(d =~= t);
    vstd::utf8::decode_utf8_encode_utf8(u);
}

/// Bytes with ASCII capitals replaced by small letters.
pub open spec fn lowered(s: Seq<u8>) -> Seq<u8> {
    s.map_values(|b: u8| byte_lower(b))
}

/// Replaces ASCII capitals by small letters.
pub fn lower_vec(s: &[u8]) -> (r: Vec<u8>)
    ensures
        r@ == lowered(s@),
{
    let mut out: Vec<u8> = Vec::new();
    let mut i: usize = 0;
    while i < s.len()
        invariant
            i <= s.len(),
            out@ == lowered(s@.take(i as int)),
        decreases s.len() - i,
    {
        out.push(to_lower(s[i]));
        assert(s@.take(i + 1) =~= s@.take(i as int).push(s@[i as int]));
        assert(out@ =~= lowered(s@.take(i + 1)));
        i = i + 1;
    }
    assert(s@.take(s@.len() as int) =~= s@);
    out
}

/// Whether texts are the same but for the case of ASCII letters.
pub open spec fn same_but_case(a: Seq<char>, b: Seq<char>) -> bool {
    lowered(vstd::utf8::encode_utf8(a)) == lowered(vstd::utf8::encode_utf8(b))
}

/// Whether texts are the same but for the case of ASCII letters.
pub fn eq_ignore_ascii_case(a: &str, b: &str) -> (r: bool)
    ensures
        r == same_but_case(a@, b@),
{
    let x = a.as_bytes();
    let y = b.as_bytes();
    let ghost p = lowered(x@);
    let ghost q = lowered(y@);
    if x.len() != y.len() {
        assert(p.len() != q.len());
        return false;
    }
    let mut i: usize = 0;
    while i < x.len()
        invariant
            i <= x.len(),
            x.len() == y.len(),
            x@ == vstd::utf8::encode_utf8(a@),
            y@ == vstd::utf8::encode_utf8(b@),
            p == lowered(x@),
            q == lowered(y@),
            forall|k: int| 0 <= k < i ==> p[k] == q[k],
        decreases x.len() - i,
    {
        if to_lower(x[i]) != to_lower(y[i]) {
            assert(p[i as int] != q[i as int]);
            return false;
        }
        i = i + 1;
    }
    assert(p =~= q);
    true
}

/// The UTF-16 units of a character.
pub open spec fn utf16_units(c: char) -> Seq<u16> {
    let n = c as u32;
    if n < 0x1_0000 {
        seq![n as u16]
    } else {
        seq![
            (0xD800 + (n - 0x1_0000) / 0x400) as u16,
            (0xDC00 + (n - 0x1_0000) % 0x400) as u16,
        ]
    }
}

/// The UTF-16 units of text.
pub open spec fn utf16(s: Seq<char>) -> Seq<u16>
    decreases s.len(),
{
    if s.len() == 0 {
        Seq::empty()
    } else {
        utf16(s.drop_last()) + utf16_units(s.last())
    }
}

/// The UTF-16 units of text.
pub fn encode_utf16(s: &str) -> (r: Vec<u16>)
    ensures
        r@ == utf16(s@),
{
    let n: usize = s.unicode_len();
    let mut out: Vec<u16> = Vec::new();
    let mut i: usize = 0;
    assert(s@.take(0) =~= Seq::<char>::empty());
    while i < n
        invariant
            i <= n,
            n == s@.len(),
            out@ == utf16(s@.take(i as int)),
        decreases n - i,
    {
        let c: u32 = s.get_char(i) as u32;
        let ghost before = out@;
        if c < 0x1_0000 {
            out.push(c as u16);
        } else {
            let d: u32 = c - 0x1_0000;
            out.push((0xD800 + d / 0x400) as u16);
            out.push((0xDC00 + d % 0x400) as u16);
        }
        proof {
            assert(s@.take(i + 1).drop_last() =~= s@.take(i as int));
            assert(out@ =~= before + utf16_units(s@[i as int]));
        }
        i = i + 1;
    }
    assert(s@.take(n as int) =~= s@);
    out
}

/// `String::push` adds a character at the end.
pub assume_specification[ String::push ](s: &mut String, c: char)
    ensures
        final(s)@ == old(s)@.push(c),
;

/// Whether `n` is the number of a character.
pub open spec fn scalar(n: u32) -> bool {
    n < 0xD800 || 0xE000 <= n < 0x11_0000
}

/// `char::from_u32` gives the character with a number, if there is one.
pub assume_specification[ char::from_u32 ](n: u32) -> (r: Option<char>)
    ensures
        match r {
            Some(c) => scalar(n) && number(c) == n,
            None => !scalar(n),
        },
;

/// The decimal digits of `n`.
pub open spec fn decimal(n: nat) -> Seq<char>
    decreases n,
{
    if n < 10 {
        seq![digit(n)]
    } else {
        decimal(n / 10).push(digit(n % 10))
    }
}

/// The digit `n`.
pub open spec fn digit(n: nat) -> char {
    if n == 0 {
        '0'
    } else if n == 1 {
        '1'
    } else if n == 2 {
        '2'
    } else if n == 3 {
        '3'
    } else if n == 4 {
        '4'
    } else if n == 5 {
        '5'
    } else if n == 6 {
        '6'
    } else if n == 7 {
        '7'
    } else if n == 8 {
        '8'
    } else {
        '9'
    }
}

/// Adds a number in decimal at the end.
pub fn push_decimal(s: &mut String, n: u64)
    ensures
        final(s)@ == old(s)@ + decimal(n as nat),
    decreases n,
{
    if n >= 10 {
        push_decimal(s, n / 10);
    }
    let d: u64 = n % 10;
    let c: char = if d == 0 {
        '0'
    } else if d == 1 {
        '1'
    } else if d == 2 {
        '2'
    } else if d == 3 {
        '3'
    } else if d == 4 {
        '4'
    } else if d == 5 {
        '5'
    } else if d == 6 {
        '6'
    } else if d == 7 {
        '7'
    } else if d == 8 {
        '8'
    } else {
        '9'
    };
    s.push(c);
    assert(s@ =~= old(s)@ + decimal(n as nat));
}

/// Whether a character is white space.
pub open spec fn white(c: char) -> bool {
    let n = number(c);
    9 <= n <= 13 || n == 32 || n == 0x85 || n == 0xa0 || n == 0x1680 || 0x2000 <= n <= 0x200a || n
        == 0x2028 || n == 0x2029 || n == 0x202f || n == 0x205f || n == 0x3000
}

/// Text without the white space in front.
pub open spec fn trimmed_front(s: Seq<char>) -> Seq<char>
    decreases s.len(),
{
    if s.len() > 0 && white(s[0]) {
        trimmed_front(s.skip(1))
    } else {
        s
    }
}

/// Text without the white space behind.
pub open spec fn trimmed_back(s: Seq<char>) -> Seq<char>
    decreases s.len(),
{
    if s.len() > 0 && white(s.last()) {
        trimmed_back(s.drop_last())
    } else {
        s
    }
}

/// Text without the white space around it.
pub open spec fn trimmed(s: Seq<char>) -> Seq<char> {
    trimmed_back(trimmed_front(s))
}

/// Whether a character is white space.
pub fn is_white(c: char) -> (r: bool)
    ensures
        r == white(c),
{
    let n: u32 = c as u32;
    9 <= n && n <= 13 || n == 32 || n == 0x85 || n == 0xa0 || n == 0x1680 || 0x2000 <= n && n
        <= 0x200a || n == 0x2028 || n == 0x2029 || n == 0x202f || n == 0x205f || n == 0x3000
}

/// Text without the white space around it.
pub fn trim(s: &str) -> (r: String)
    ensures
        r@ == trimmed(s@),
{
    let mut from: usize = 0;
    let mut to: usize = s.unicode_len();
    assert(s@.subrange(0, to as int) =~= s@);
    while from < to && is_white(s.get_char(from))
        invariant
            from <= to == s@.len(),
            trimmed_front(s@) == trimmed_front(s@.subrange(from as int, to as int)),
        decreases to - from,
    {
        proof {
            let t = s@.subrange(from as int, to as int);
            assert(t.skip(1) =~= s@.subrange(from + 1, to as int));
        }
        from = from + 1;
    }
    let ghost mid = s@.subrange(from as int, to as int);
    assert(trimmed_front(s@) == mid);
    while from < to && is_white(s.get_char(to - 1))
        invariant
            from <= to <= s@.len(),
            trimmed_back(mid) == trimmed_back(s@.subrange(from as int, to as int)),
        decreases to - from,
    {
        proof {
            let t = s@.subrange(from as int, to as int);
            assert(t.drop_last() =~= s@.subrange(from as int, to - 1));
        }
        to = to - 1;
    }
    let mut out = String::new();
    let mut i: usize = from;
    assert(out@ =~= s@.subrange(from as int, from as int));
    while i < to
        invariant
            from <= i <= to <= s@.len(),
            out@ == s@.subrange(from as int, i as int),
        decreases to - i,
    {
        out.push(s.get_char(i));
        i = i + 1;
        assert(out@ =~= s@.subrange(from as int, i as int));
    }
    out
}

} // verus!
