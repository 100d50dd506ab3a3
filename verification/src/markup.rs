//! Reading the logo markup: locating tags and attributes in SVG text and
//! parsing `#rrggbb` colors.

use vstd::prelude::*;
use crate::text::{chars_of, string_of, trim_chars, spec_trim};

verus! {

// ---------------------------------------------------------------------------
// Substring search
// ---------------------------------------------------------------------------

/// Whether `p` occurs in `s` at index `i`.
pub open spec fn occurs_at(s: Seq<char>, p: Seq<char>, i: int) -> bool {
    0 <= i && i + p.len() <= s.len() && s.subrange(i, i + p.len()) == p
}

/// Index of the first occurrence of `p` in `s` at or after `from`.
pub open spec fn find_from(s: Seq<char>, p: Seq<char>, from: int) -> Option<int>
    decreases s.len() + 1 - from,
{
    if from < 0 || from + p.len() > s.len() {
        None
    } else if occurs_at(s, p, from) {
        Some(from)
    } else {
        find_from(s, p, from + 1)
    }
}

/// Index of the first occurrence of `p` in `s`, as `str::find` gives it.
pub open spec fn find_first(s: Seq<char>, p: Seq<char>) -> Option<int> {
    find_from(s, p, 0)
}

proof fn lemma_find_from_bounds(s: Seq<char>, p: Seq<char>, from: int)
    ensures
        find_from(s, p, from) matches Some(i) ==> from <= i && occurs_at(s, p, i),
    decreases s.len() + 1 - from,
{
    if from >= 0 && from + p.len() <= s.len() && !occurs_at(s, p, from) {
        lemma_find_from_bounds(s, p, from + 1);
    }
}

fn occurs_at_exec(s: &Vec<char>, p: &Vec<char>, i: usize) -> (b: bool)
    requires
        i + p@.len() <= s@.len(),
    ensures
        b == occurs_at(s@, p@, i as int),
{
    let sl = s.len();
    let mut k: usize = 0;
    while k < p.len()
        invariant
            sl == s@.len(),
            i + p@.len() <= s@.len(),
            0 <= k <= p@.len(),
            forall|m: int| 0 <= m < k ==> s@[i + m] == #[trigger] p@[m],
        decreases p@.len() - k,
    {
        if s[i + k] != p[k] {
            proof {
                assert(s@.subrange(i as int, i + p@.len())[k as int] != p@[k as int]);
            }
            return false;
        }
        k = k + 1;
    }
    proof {
        assert(s@.subrange(i as int, i + p@.len()) =~= p@);
    }
    true
}

/// Index of the first occurrence of `p` in `s`.
pub fn find_chars(s: &Vec<char>, p: &Vec<char>) -> (r: Option<usize>)
    ensures
        s@.len() <= usize::MAX,
        match r {
            Some(i) => find_first(s@, p@) == Some(i as int) && occurs_at(s@, p@, i as int) && i
                + p@.len() <= s@.len(),
            None => find_first(s@, p@) is None,
        },
{
    let sl = s.len();
    if p.len() > sl {
        return None;
    }
    let last = sl - p.len();
    let mut i: usize = 0;
    while i <= last
        invariant
            sl == s@.len(),
            last + p@.len() == s@.len(),
            0 <= i <= last + 1,
            find_from(s@, p@, i as int) == find_first(s@, p@),
        decreases last + 1 - i,
    {
        if occurs_at_exec(s, p, i) {
            return Some(i);
        }
        if i == last {
            return None;
        }
        i = i + 1;
    }
    None
}

fn char_seq_skip(s: &Vec<char>, from: usize) -> (r: Vec<char>)
    requires
        from <= s@.len(),
    ensures
        r@ == s@.skip(from as int),
{
    let mut r: Vec<char> = Vec::new();
    let mut i = from;
    while i < s.len()
        invariant
            from <= i <= s@.len(),
            r@ == s@.subrange(from as int, i as int),
        decreases s@.len() - i,
    {
        r.push(s[i]);
        proof {
            assert(s@.subrange(from as int, i + 1) =~= s@.subrange(from as int, i as int).push(
                s@[i as int],
            ));
        }
        i = i + 1;
    }
    proof {
        assert(r@ =~= s@.skip(from as int));
    }
    r
}

fn char_seq_take(s: &Vec<char>, n: usize) -> (r: Vec<char>)
    requires
        n <= s@.len(),
    ensures
        r@ == s@.take(n as int),
{
    let mut r: Vec<char> = Vec::new();
    let mut i: usize = 0;
    while i < n
        invariant
            n <= s@.len(),
            0 <= i <= n,
            r@ == s@.take(i as int),
        decreases n - i,
    {
        r.push(s[i]);
        proof {
            assert(s@.take(i + 1) =~= s@.take(i as int).push(s@[i as int]));
        }
        i = i + 1;
    }
    r
}

// ---------------------------------------------------------------------------
// Tags and attributes
// ---------------------------------------------------------------------------

/// The opening tag named `tag_name`: from the first `<tag_name` through the
/// next `>`.
pub open spec fn spec_extract_tag(svg: Seq<char>, tag_name: Seq<char>) -> Option<Seq<char>> {
    match find_first(svg, seq!['<'] + tag_name) {
        Some(start) => {
            let tail = svg.skip(start);
            match find_first(tail, seq!['>']) {
                Some(end) => Some(tail.take(end + 1)),
                None => None,
            }
        },
        None => None,
    }
}

/// The value of attribute `attr_name` in a tag: what lies between the first
/// `attr_name="` and the next `"`.
pub open spec fn spec_extract_attr(tag: Seq<char>, attr_name: Seq<char>) -> Option<Seq<char>> {
    match find_first(tag, attr_name + seq!['=', '"']) {
        Some(start) => {
            let value = tag.skip(start + attr_name.len() + 2);
            match find_first(value, seq!['"']) {
                Some(end) => Some(value.take(end)),
                None => None,
            }
        },
        None => None,
    }
}

/// The opening tag named `tag_name` in SVG text.
pub fn extract_tag(svg: &str, tag_name: &str) -> (r: Option<String>)
    ensures
        match spec_extract_tag(svg@, tag_name@) {
            Some(t) => r is Some && r->0@ == t,
            None => r is None,
        },
{
    let s = chars_of(svg);
    let name = chars_of(tag_name);
    let mut pattern: Vec<char> = vec!['<'];
    let mut k: usize = 0;
    while k < name.len()
        invariant
            0 <= k <= name@.len(),
            pattern@ == seq!['<'] + name@.take(k as int),
        decreases name@.len() - k,
    {
        pattern.push(name[k]);
        proof {
            assert(name@.take(k + 1) =~= name@.take(k as int).push(name@[k as int]));
            assert(seq!['<'] + name@.take(k + 1) =~= (seq!['<'] + name@.take(k as int)).push(
                name@[k as int],
            ));
        }
        k = k + 1;
    }
    proof {
        assert(name@.take(k as int) =~= name@);
        assert(pattern@ =~= seq!['<'] + name@);
    }
    let start = match find_chars(&s, &pattern) {
        Some(i) => i,
        None => return None,
    };
    let tail = char_seq_skip(&s, start);
    let close = vec!['>'];
    assert(close@ =~= seq!['>']);
    let end = match find_chars(&tail, &close) {
        Some(i) => i,
        None => return None,
    };
    let found = char_seq_take(&tail, end + 1);
    Some(string_of(&found))
}

/// The value of attribute `attr_name` in a tag.
pub fn extract_attr(tag: &str, attr_name: &str) -> (r: Option<String>)
    ensures
        match spec_extract_attr(tag@, attr_name@) {
            Some(v) => r is Some && r->0@ == v,
            None => r is None,
        },
{
    let s = chars_of(tag);
    let name = chars_of(attr_name);
    let mut pattern: Vec<char> = Vec::new();
    let mut k: usize = 0;
    while k < name.len()
        invariant
            0 <= k <= name@.len(),
            pattern@ == name@.take(k as int),
        decreases name@.len() - k,
    {
        pattern.push(name[k]);
        proof {
            assert(name@.take(k + 1) =~= name@.take(k as int).push(name@[k as int]));
        }
        k = k + 1;
    }
    pattern.push('=');
    pattern.push('"');
    proof {
        assert(name@.take(k as int) =~= name@);
        assert(pattern@ =~= name@ + seq!['=', '"']);
    }
    let start = match find_chars(&s, &pattern) {
        Some(i) => i,
        None => return None,
    };
    let value_start = start + name.len() + 2;
    let value = char_seq_skip(&s, value_start);
    let quote = vec!['"'];
    assert(quote@ =~= seq!['"']);
    let end = match find_chars(&value, &quote) {
        Some(i) => i,
        None => return None,
    };
    let found = char_seq_take(&value, end);
    Some(string_of(&found))
}

// ---------------------------------------------------------------------------
// Hex colors
// ---------------------------------------------------------------------------

/// Why a fill color cannot be read.
#[derive(Debug, Clone, Copy, PartialEq, Eq, Structural)]
pub enum HexColorError {
    /// The color does not start with `#`.
    MissingHash,
    /// The part after `#` is not six bytes long.
    WrongLength,
    /// A channel is not a hexadecimal byte.
    InvalidHexByte,
}

/// Number of bytes of `c` in UTF-8.
pub open spec fn utf8_width(c: char) -> nat {
    let u = c as u32;
    if u < 0x80 {
        1
    } else if u < 0x800 {
        2
    } else if u < 0x10000 {
        3
    } else {
        4
    }
}

/// Number of bytes of `s` in UTF-8.
pub open spec fn utf8_length(s: Seq<char>) -> nat
    decreases s.len(),
{
    if s.len() == 0 {
        0
    } else {
        utf8_length(s.drop_last()) + utf8_width(s.last())
    }
}

pub open spec fn all_ascii(s: Seq<char>) -> bool {
    forall|i: int| 0 <= i < s.len() ==> (#[trigger] s[i] as u32) < 0x80
}

/// Whether byte offset `k` of the UTF-8 form of `s` falls between characters.
pub open spec fn is_byte_boundary(s: Seq<char>, k: int) -> bool {
    exists|j: int| 0 <= j <= s.len() && #[trigger] utf8_length(s.take(j)) == k
}

/// The digits after `#`, when the trimmed color starts with `#`.
pub open spec fn hex_part(color: Seq<char>) -> Option<Seq<char>> {
    let t = spec_trim(color);
    if t.len() > 0 && t[0] == '#' {
        Some(t.skip(1))
    } else {
        None
    }
}

/// Whether reading the color would cut a character apart: six bytes of digits
/// that are not all ASCII, with a channel boundary inside a character.
pub open spec fn hex_color_splits_char(color: Seq<char>) -> bool {
    match hex_part(color) {
        Some(h) => utf8_length(h) == 6 && !all_ascii(h) && (!is_byte_boundary(h, 2)
            || !is_byte_boundary(h, 4)),
        None => false,
    }
}

/// Value of a hexadecimal digit.
pub open spec fn hex_digit(c: char) -> Option<int> {
    if '0' <= c && c <= '9' {
        Some(c as int - '0' as int)
    } else if 'a' <= c && c <= 'f' {
        Some(c as int - 'a' as int + 10)
    } else if 'A' <= c && c <= 'F' {
        Some(c as int - 'A' as int + 10)
    } else {
        None
    }
}

/// A two-character channel as `u8::from_str_radix(_, 16)` reads it: two hex
/// digits, or a `+` sign and one hex digit.
pub open spec fn hex_byte(a: char, b: char) -> Option<int> {
    if a == '+' {
        hex_digit(b)
    } else {
        match (hex_digit(a), hex_digit(b)) {
            (Some(x), Some(y)) => Some(16 * x + y),
            _ => None,
        }
    }
}

/// The color a fill attribute denotes.
pub open spec fn spec_parse_hex_color(color: Seq<char>) -> Result<(int, int, int), HexColorError> {
    match hex_part(color) {
        None => Err(HexColorError::MissingHash),
        Some(h) => if utf8_length(h) != 6 {
            Err(HexColorError::WrongLength)
        } else if !all_ascii(h) {
            Err(HexColorError::InvalidHexByte)
        } else {
            match (hex_byte(h[0], h[1]), hex_byte(h[2], h[3]), hex_byte(h[4], h[5])) {
                (Some(r), Some(g), Some(b)) => Ok((r, g, b)),
                _ => Err(HexColorError::InvalidHexByte),
            }
        },
    }
}

proof fn lemma_all_ascii_push(s: Seq<char>, c: char)
    ensures
        all_ascii(s.push(c)) == (all_ascii(s) && (c as u32) < 0x80),
{
    if all_ascii(s) && (c as u32) < 0x80 {
        assert forall|i: int| 0 <= i < s.push(c).len() implies (#[trigger] s.push(c)[i] as u32)
            < 0x80 by {
            if i < s.len() {
                assert(s.push(c)[i] == s[i]);
            }
        }
    }
    if all_ascii(s.push(c)) {
        assert(s.push(c)[s.len() as int] == c);
        assert forall|i: int| 0 <= i < s.len() implies (#[trigger] s[i] as u32) < 0x80 by {
            assert(s.push(c)[i] == s[i]);
        }
    }
}

proof fn lemma_utf8_length_prefix(s: Seq<char>, k: int)
    requires
        0 <= k <= s.len(),
    ensures
        utf8_length(s.take(k)) <= utf8_length(s),
    decreases s.len() - k,
{
    if k < s.len() {
        lemma_utf8_length_prefix(s, k + 1);
        assert(s.take(k + 1).drop_last() =~= s.take(k));
    } else {
        assert(s.take(k) =~= s);
    }
}

proof fn lemma_utf8_length_ascii(s: Seq<char>)
    ensures
        utf8_length(s) >= s.len(),
        all_ascii(s) ==> utf8_length(s) == s.len(),
    decreases s.len(),
{
    if s.len() > 0 {
        lemma_utf8_length_ascii(s.drop_last());
        if all_ascii(s) {
            assert(s.last() as u32 == s[s.len() - 1] as u32);
        }
    }
}

fn hex_digit_exec(c: char) -> (r: Option<u8>)
    ensures
        match hex_digit(c) {
            Some(v) => r == Some(v as u8),
            None => r is None,
        },
{
    let u = c as u32;
    if '0' <= c && c <= '9' {
        Some((u - 48) as u8)
    } else if 'a' <= c && c <= 'f' {
        Some((u - 87) as u8)
    } else if 'A' <= c && c <= 'F' {
        Some((u - 55) as u8)
    } else {
        None
    }
}

fn hex_byte_exec(a: char, b: char) -> (r: Option<u8>)
    ensures
        match hex_byte(a, b) {
            Some(v) => r == Some(v as u8) && 0 <= v <= 255,
            None => r is None,
        },
{
    if a == '+' {
        return hex_digit_exec(b);
    }
    match (hex_digit_exec(a), hex_digit_exec(b)) {
        (Some(x), Some(y)) => Some(16 * x + y),
        _ => None,
    }
}

/// Whether reading the color with `parse_hex_color` would cut a character
/// apart (the input that function does not take).
pub fn hex_color_cuts_char(color: &str) -> (b: bool)
    ensures
        b == hex_color_splits_char(color@),
{
    let chars = chars_of(color);
    let t = trim_chars(&chars);
    if t.len() == 0 || t[0] != '#' {
        return false;
    }
    let h = char_seq_skip(&t, 1);
    assert(hex_part(color@) == Some(h@));
    let mut bytes: usize = 0;
    let mut ascii = true;
    let mut at2 = false;
    let mut at4 = false;
    let mut i: usize = 0;
    proof {
        assert(h@.take(0) =~= Seq::<char>::empty());
    }
    while i < h.len() && bytes <= 6
        invariant
            0 <= i <= h@.len(),
            bytes == utf8_length(h@.take(i as int)),
            bytes <= 10,
            ascii == all_ascii(h@.take(i as int)),
            at2 <==> exists|j: int| 0 <= j <= i && #[trigger] utf8_length(h@.take(j)) == 2,
            at4 <==> exists|j: int| 0 <= j <= i && #[trigger] utf8_length(h@.take(j)) == 4,
        decreases h@.len() - i,
    {
        let ghost i0 = i as int;
        let ghost at2_0 = at2;
        let ghost at4_0 = at4;
        let u = h[i] as u32;
        let w: usize = if u < 0x80 {
            1
        } else if u < 0x800 {
            2
        } else if u < 0x10000 {
            3
        } else {
            4
        };
        proof {
            assert(h@.take(i + 1).drop_last() =~= h@.take(i as int));
            assert(h@.take(i + 1) =~= h@.take(i as int).push(h@[i as int]));
            lemma_all_ascii_push(h@.take(i as int), h@[i as int]);
        }
        bytes = bytes + w;
        if u >= 0x80 {
            ascii = false;
        }
        i = i + 1;
        if bytes == 2 {
            at2 = true;
        }
        if bytes == 4 {
            at4 = true;
        }
        proof {
            assert(utf8_length(h@.take(i as int)) == bytes);
            assert forall|j: int| 0 <= j <= i && #[trigger] utf8_length(h@.take(j)) == 2 implies at2 by {
                if j <= i0 {
                    assert(at2_0);
                }
            }
            assert forall|j: int| 0 <= j <= i && #[trigger] utf8_length(h@.take(j)) == 4 implies at4 by {
                if j <= i0 {
                    assert(at4_0);
                }
            }
        }
    }
    if i < h.len() {
        proof {
            lemma_utf8_length_prefix(h@, i as int);
        }
        return false;
    }
    proof {
        assert(h@.take(i as int) =~= h@);
    }
    bytes == 6 && !ascii && (!at2 || !at4)
}

/// Reads a `#rrggbb` fill color (surrounding white space allowed). Each
/// channel is read as `u8::from_str_radix(_, 16)` reads two characters.
pub fn parse_hex_color(color: &str) -> (r: Result<[u8; 3], HexColorError>)
    requires
        !hex_color_splits_char(color@),
    ensures
        match spec_parse_hex_color(color@) {
            Ok((red, green, blue)) => r matches Ok(c) && c@ == seq![red as u8, green as u8, blue as u8],
            Err(e) => r == Err::<[u8; 3], HexColorError>(e),
        },
{
    let chars = chars_of(color);
    let t = trim_chars(&chars);
    if t.len() == 0 || t[0] != '#' {
        return Err(HexColorError::MissingHash);
    }
    let h = char_seq_skip(&t, 1);
    let mut bytes: usize = 0;
    let mut ascii = true;
    let mut i: usize = 0;
    while i < h.len() && bytes <= 6
        invariant
            0 <= i <= h@.len(),
            bytes == utf8_length(h@.take(i as int)),
            bytes <= 10,
            ascii == all_ascii(h@.take(i as int)),
        decreases h@.len() - i,
    {
        let u = h[i] as u32;
        let w: usize = if u < 0x80 {
            1
        } else if u < 0x800 {
            2
        } else if u < 0x10000 {
            3
        } else {
            4
        };
        proof {
            assert(h@.take(i + 1).drop_last() =~= h@.take(i as int));
            assert(h@.take(i + 1) =~= h@.take(i as int).push(h@[i as int]));
            lemma_all_ascii_push(h@.take(i as int), h@[i as int]);
        }
        bytes = bytes + w;
        if u >= 0x80 {
            ascii = false;
        }
        i = i + 1;
    }
    if i < h.len() {
        proof {
            lemma_utf8_length_prefix(h@, i as int);
        }
        return Err(HexColorError::WrongLength);
    }
    proof {
        assert(h@.take(i as int) =~= h@);
    }
    if bytes != 6 {
        return Err(HexColorError::WrongLength);
    }
    if !ascii {
        return Err(HexColorError::InvalidHexByte);
    }
    proof {
        lemma_utf8_length_ascii(h@);
    }
    let red = match hex_byte_exec(h[0], h[1]) {
        Some(v) => v,
        None => return Err(HexColorError::InvalidHexByte),
    };
    let green = match hex_byte_exec(h[2], h[3]) {
        Some(v) => v,
        None => return Err(HexColorError::InvalidHexByte),
    };
    let blue = match hex_byte_exec(h[4], h[5]) {
        Some(v) => v,
        None => return Err(HexColorError::InvalidHexByte),
    };
    let c = [red, green, blue];
    proof {
        assert(c@ =~= seq![red, green, blue]);
    }
    Ok(c)
}


proof fn lemma_find_from_first(s: Seq<char>, p: Seq<char>, from: int, k: int)
    requires
        0 <= from <= k,
        occurs_at(s, p, k),
        forall|j: int| from <= j < k ==> !occurs_at(s, p, j),
    ensures
        find_from(s, p, from) == Some(k),
    decreases k - from,
{
    if from < k {
        lemma_find_from_first(s, p, from + 1, k);
    }
}

/// An attribute's value is everything between the first `attr_name="` of the
/// tag and the next `"`: when the tag is `prefix`, `attr_name="`, a value `v`
/// without `"`, a `"` and any rest, and `attr_name="` first occurs right
/// after `prefix`, the value read is exactly `v`, spaces and all.
pub proof fn law_extract_attr_value(
    prefix: Seq<char>,
    attr_name: Seq<char>,
    v: Seq<char>,
    rest: Seq<char>,
)
    requires
        forall|i: int| 0 <= i < v.len() ==> v[i] != '"',
        forall|j: int|
            0 <= j < prefix.len() ==> !occurs_at(
                prefix + attr_name + seq!['=', '"'] + v + seq!['"'] + rest,
                attr_name + seq!['=', '"'],
                j,
            ),
    ensures
        spec_extract_attr(prefix + attr_name + seq!['=', '"'] + v + seq!['"'] + rest, attr_name)
            == Some(v),
{
    let pat = attr_name + seq!['=', '"'];
    let tag = prefix + attr_name + seq!['=', '"'] + v + seq!['"'] + rest;
    let k = prefix.len() as int;
    assert(tag.subrange(k, k + pat.len()) =~= pat);
    lemma_find_from_first(tag, pat, 0, k);
    let value = tag.skip(k + attr_name.len() + 2);
    assert(value =~= v + seq!['"'] + rest);
    let q = seq!['"'];
    assert(value.subrange(v.len() as int, v.len() + 1int) =~= q);
    assert forall|j: int| 0 <= j < v.len() implies !occurs_at(value, q, j) by {
        if occurs_at(value, q, j) {
            assert(value.subrange(j, j + 1)[0] == value[j]);
            assert(value[j] == v[j]);
        }
    }
    lemma_find_from_first(value, q, 0, v.len() as int);
    assert(value.take(v.len() as int) =~= v);
}


/// An opening tag runs from the first `<tag_name` through the next `>`: when
/// the text is `prefix`, `<`, the name, a body, `>` and any rest, where the
/// name and body hold no `>` and `<tag_name` first occurs right after
/// `prefix`, the tag read is exactly `<`, the name, the body and `>`.
pub proof fn law_extract_tag_value(
    prefix: Seq<char>,
    tag_name: Seq<char>,
    body: Seq<char>,
    rest: Seq<char>,
)
    requires
        forall|i: int| 0 <= i < tag_name.len() ==> tag_name[i] != '>',
        forall|i: int| 0 <= i < body.len() ==> body[i] != '>',
        forall|j: int|
            0 <= j < prefix.len() ==> !occurs_at(
                prefix + seq!['<'] + tag_name + body + seq!['>'] + rest,
                seq!['<'] + tag_name,
                j,
            ),
    ensures
        spec_extract_tag(prefix + seq!['<'] + tag_name + body + seq!['>'] + rest, tag_name)
            == Some(seq!['<'] + tag_name + body + seq!['>']),
{
    let pat = seq!['<'] + tag_name;
    let svg = prefix + seq!['<'] + tag_name + body + seq!['>'] + rest;
    let k = prefix.len() as int;
    assert(svg.subrange(k, k + pat.len()) =~= pat);
    lemma_find_from_first(svg, pat, 0, k);
    let tail = svg.skip(k);
    let inner = seq!['<'] + tag_name + body;
    assert(tail =~= inner + seq!['>'] + rest);
    let q = seq!['>'];
    assert(tail.subrange(inner.len() as int, inner.len() + 1int) =~= q);
    assert forall|j: int| 0 <= j < inner.len() implies !occurs_at(tail, q, j) by {
        if occurs_at(tail, q, j) {
            assert(tail.subrange(j, j + 1)[0] == tail[j]);
            assert(tail[j] == inner[j]);
            if j >= 1 + tag_name.len() {
                assert(inner[j] == body[j - 1 - tag_name.len()]);
            } else if j >= 1 {
                assert(inner[j] == tag_name[j - 1]);
            }
        }
    }
    lemma_find_from_first(tail, q, 0, inner.len() as int);
    assert(tail.take(inner.len() + 1int) =~= inner + seq!['>']);
}

} // verus!
