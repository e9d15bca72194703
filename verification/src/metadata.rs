use vstd::prelude::*;
use vstd::utf8::encode_utf8;

use crate::text::{chars_of, push_char};

verus! {

// ---------------------------------------------------------------------------
// Character classes and prefix/whitespace trimming.
// ---------------------------------------------------------------------------

/// Unicode `White_Space`, the class that `char::is_whitespace` tests.
pub open spec fn is_whitespace_spec(c: char) -> bool {
    let u = c as u32;
    ||| u == 0x20
    ||| 0x09 <= u <= 0x0d
    ||| u == 0x85
    ||| u == 0xa0
    ||| u == 0x1680
    ||| 0x2000 <= u <= 0x200a
    ||| u == 0x2028
    ||| u == 0x2029
    ||| u == 0x202f
    ||| u == 0x205f
    ||| u == 0x3000
}

/// Whether `c` is Unicode white space.
pub fn is_whitespace(c: char) -> (r: bool)
    ensures
        r == is_whitespace_spec(c),
{
    let u = c as u32;
    u == 0x20 || (0x09 <= u && u <= 0x0d) || u == 0x85 || u == 0xa0 || u == 0x1680 || (0x2000
        <= u && u <= 0x200a) || u == 0x2028 || u == 0x2029 || u == 0x202f || u == 0x205f || u
        == 0x3000
}

/// `s` without its leading white space.
pub open spec fn trim_start_spec(s: Seq<char>) -> Seq<char>
    decreases s.len(),
{
    if s.len() > 0 && is_whitespace_spec(s[0]) {
        trim_start_spec(s.drop_first())
    } else {
        s
    }
}

/// `s` without its trailing white space.
pub open spec fn trim_end_spec(s: Seq<char>) -> Seq<char>
    decreases s.len(),
{
    if s.len() > 0 && is_whitespace_spec(s.last()) {
        trim_end_spec(s.drop_last())
    } else {
        s
    }
}

/// `s` without leading and trailing white space, as `str::trim` gives it.
pub open spec fn trim_spec(s: Seq<char>) -> Seq<char> {
    trim_end_spec(trim_start_spec(s))
}

/// `s` with every leading repetition of the non-empty pattern `p` removed, as
/// `str::trim_start_matches` gives it.
pub open spec fn strip_prefix_repeated(s: Seq<char>, p: Seq<char>) -> Seq<char>
    decreases s.len(),
{
    if p.len() > 0 && p.len() <= s.len() && s.take(p.len() as int) == p {
        strip_prefix_repeated(s.skip(p.len() as int), p)
    } else {
        s
    }
}

/// Whether `v[at..]` starts with `p`.
fn starts_with_at(v: &Vec<char>, at: usize, p: &[char]) -> (r: bool)
    requires
        at <= v@.len(),
    ensures
        r == (p@.len() <= v@.len() - at && v@.skip(at as int).take(p@.len() as int) == p@),
{
    let n = v.len();
    if p.len() > n - at {
        return false;
    }
    let mut i: usize = 0;
    while i < p.len()
        invariant
            n == v@.len(),
            i <= p@.len(),
            at <= v@.len(),
            p@.len() <= v@.len() - at,
            forall|j: int| 0 <= j < i ==> v@[at + j] == p@[j],
        decreases p@.len() - i,
    {
        if v[at + i] != p[i] {
            assert(v@.skip(at as int).take(p@.len() as int)[i as int] != p@[i as int]);
            return false;
        }
        i = i + 1;
    }
    assert(v@.skip(at as int).take(p@.len() as int) =~= p@);
    true
}

/// Index of the first position at or after `from` where `v[..]` no longer
/// starts with a repetition of `p`.
fn skip_prefix_repeated(v: &Vec<char>, from: usize, p: &[char]) -> (i: usize)
    requires
        from <= v@.len(),
        p@.len() > 0,
    ensures
        from <= i <= v@.len(),
        v@.skip(i as int) == strip_prefix_repeated(v@.skip(from as int), p@),
{
    let n = v.len();
    let mut i = from;
    let mut more = starts_with_at(v, i, p);
    while more
        invariant
            n == v@.len(),
            from <= i <= v@.len(),
            p@.len() > 0,
            more == (p@.len() <= v@.len() - i && v@.skip(i as int).take(p@.len() as int) == p@),
            strip_prefix_repeated(v@.skip(i as int), p@) == strip_prefix_repeated(v@.skip(from as int), p@),
        decreases v@.len() - i,
    {
        assert(v@.skip(i as int).skip(p@.len() as int) =~= v@.skip(i + p@.len()));
        i = i + p.len();
        more = starts_with_at(v, i, p);
    }
    i
}

/// Bounds `(a, b)` such that `v[a..b]` is `v[from..to]` without leading and
/// trailing white space.
fn trim_bounds(v: &Vec<char>, from: usize, to: usize) -> (r: (usize, usize))
    requires
        from <= to <= v@.len(),
    ensures
        from <= r.0 <= r.1 <= to,
        v@.subrange(r.0 as int, r.1 as int) == trim_spec(v@.subrange(from as int, to as int)),
{
    let ghost s = v@.subrange(from as int, to as int);
    let mut a = from;
    while a < to && is_whitespace(v[a])
        invariant
            from <= a <= to <= v@.len(),
            s == v@.subrange(from as int, to as int),
            trim_start_spec(v@.subrange(a as int, to as int)) == trim_start_spec(s),
        decreases to - a,
    {
        assert(v@.subrange(a as int, to as int).drop_first() =~= v@.subrange(a + 1, to as int));
        a = a + 1;
    }
    let ghost t = v@.subrange(a as int, to as int);
    assert(trim_start_spec(t) == t);
    let mut b = to;
    while b > a && is_whitespace(v[b - 1])
        invariant
            from <= a <= b <= to <= v@.len(),
            t == v@.subrange(a as int, to as int),
            trim_end_spec(v@.subrange(a as int, b as int)) == trim_end_spec(t),
        decreases b - a,
    {
        assert(v@.subrange(a as int, b as int).drop_last() =~= v@.subrange(a as int, b - 1));
        b = b - 1;
    }
    (a, b)
}

/// The string made of `v[from..to]`.
fn string_of(v: &Vec<char>, from: usize, to: usize) -> (s: String)
    requires
        from <= to <= v@.len(),
    ensures
        s@ == v@.subrange(from as int, to as int),
{
    let mut s = String::new();
    let mut i = from;
    while i < to
        invariant
            from <= i <= to <= v@.len(),
            s@ == v@.subrange(from as int, i as int),
        decreases to - i,
    {
        push_char(&mut s, v[i]);
        assert(v@.subrange(from as int, i + 1) =~= v@.subrange(from as int, i as int).push(v@[i as int]));
        i = i + 1;
    }
    s
}

// ---------------------------------------------------------------------------
// Colors.
// ---------------------------------------------------------------------------

/// The value of an ASCII hexadecimal digit, either case.
pub open spec fn hex_digit_value(b: u8) -> Option<u8> {
    if 0x30 <= b <= 0x39 {
        Some((b - 0x30) as u8)
    } else if 0x61 <= b <= 0x66 {
        Some((b - 0x61 + 10) as u8)
    } else if 0x41 <= b <= 0x46 {
        Some((b - 0x41 + 10) as u8)
    } else {
        None
    }
}

/// Hexadecimal decoding: defined on an even number of hexadecimal digits,
/// each pair giving one byte, high digit first.
pub open spec fn hex_decode_spec(data: Seq<u8>) -> Option<Seq<u8>> {
    if data.len() % 2 == 0 && forall|i: int| 0 <= i < data.len() ==> (#[trigger] hex_digit_value(data[i])) is Some {
        Some(Seq::new(data.len() / 2, |i: int|
            (hex_digit_value(data[2 * i])->0 * 16 + hex_digit_value(data[2 * i + 1])->0) as u8))
    } else {
        None
    }
}

#[verifier::external_type_specification]
#[verifier::external_body]
pub struct ExFromHexError(hex::FromHexError);

/// Decodes hexadecimal text.
///
/// Calls `hex::decode`, which fails on an odd length or on a byte that is no
/// hexadecimal digit (either case), and otherwise turns each pair of digits
/// into one byte, high digit first.
#[verifier::external_body]
fn hex_decode(data: &[u8]) -> (r: Result<Vec<u8>, hex::FromHexError>)
    ensures
        match r {
            Ok(bytes) => hex_decode_spec(data@) == Some(bytes@),
            Err(_) => hex_decode_spec(data@) is None,
        },
{
    hex::decode(data)
}

/// The hexadecimal digits of a hash: trimmed, with leading `0x` prefixes removed.
pub open spec fn hash_digits(hash: Seq<char>) -> Seq<char> {
    strip_prefix_repeated(trim_spec(hash), seq!['0', 'x'])
}

/// The UTF-8 bytes of the hash digits, with a `0` prepended to an odd count.
pub open spec fn padded_hash_bytes(hash: Seq<char>) -> Seq<u8> {
    let bytes = encode_utf8(hash_digits(hash));
    if bytes.len() % 2 == 1 {
        seq![0x30u8] + bytes
    } else {
        bytes
    }
}

/// The `i`-th byte counted from the end, or 0 when there is none.
pub open spec fn byte_from_end(bytes: Seq<u8>, i: int) -> u8 {
    if i < bytes.len() {
        bytes[bytes.len() - 1 - i]
    } else {
        0
    }
}

/// The color of a hash: its last three decoded bytes, last first, or black
/// when the hash is no hexadecimal text.
pub open spec fn rgb_of_hash(hash: Seq<char>) -> (u8, u8, u8) {
    match hex_decode_spec(padded_hash_bytes(hash)) {
        Some(bytes) => (byte_from_end(bytes, 0), byte_from_end(bytes, 1), byte_from_end(bytes, 2)),
        None => (0, 0, 0),
    }
}

/// Takes a hex-encoded hash and derives a seemingly-random rgb tuple: the
/// last three bytes of the hash, last first, missing bytes being 0; a hash
/// that is no hexadecimal text gives `(0, 0, 0)`.
pub fn derive_rgb_values(hash: String) -> (rgb: (u8, u8, u8))
    ensures
        rgb == rgb_of_hash(hash@),
{
    let v = chars_of(hash.as_str());
    let (a, b) = trim_bounds(&v, 0, v.len());
    let prefix: [char; 2] = ['0', 'x'];
    assert(prefix@ =~= seq!['0', 'x']);
    assert(v@.subrange(0, v@.len() as int) =~= v@);
    assert(v@.subrange(a as int, b as int).skip(0) =~= v@.subrange(a as int, b as int));
    let ghost t = v@.subrange(a as int, b as int);
    let trimmed: Vec<char> = {
        let mut w: Vec<char> = Vec::new();
        let mut i = a;
        while i < b
            invariant
                a <= i <= b <= v@.len(),
                w@ == v@.subrange(a as int, i as int),
            decreases b - i,
        {
            w.push(v[i]);
            assert(v@.subrange(a as int, i + 1) =~= v@.subrange(a as int, i as int).push(v@[i as int]));
            i = i + 1;
        }
        w
    };
    assert(trimmed@ == t);
    assert(trimmed@.skip(0) =~= trimmed@);
    let c = skip_prefix_repeated(&trimmed, 0, prefix.as_slice());
    let digits = string_of(&trimmed, c, trimmed.len());
    assert(trimmed@.subrange(c as int, trimmed@.len() as int) =~= trimmed@.skip(c as int));
    let digit_bytes = digits.as_str().as_bytes();
    assert(digit_bytes@ == encode_utf8(hash_digits(hash@)));
    let mut padded: Vec<u8> = Vec::new();
    if digit_bytes.len() % 2 == 1 {
        padded.push(0x30u8);
    }
    let mut j: usize = 0;
    let ghost lead = padded@;
    while j < digit_bytes.len()
        invariant
            j <= digit_bytes@.len(),
            padded@ == lead + digit_bytes@.take(j as int),
        decreases digit_bytes@.len() - j,
    {
        padded.push(digit_bytes[j]);
        assert(digit_bytes@.take(j + 1) =~= digit_bytes@.take(j as int).push(digit_bytes@[j as int]));
        j = j + 1;
    }
    assert(digit_bytes@.take(j as int) =~= digit_bytes@);
    assert(padded@ =~= padded_hash_bytes(hash@));
    match hex_decode(padded.as_slice()) {
        Ok(bytes) => {
            let n = bytes.len();
            let r = if n >= 1 { bytes[n - 1] } else { 0 };
            let g = if n >= 2 { bytes[n - 2] } else { 0 };
            let bl = if n >= 3 { bytes[n - 3] } else { 0 };
            (r, g, bl)
        },
        Err(_) => (0, 0, 0),
    }
}

/// The upper-case hexadecimal digit of a value below 16.
pub open spec fn hex_upper_digit(v: u8) -> char {
    if v < 10 {
        (0x30 + v) as char
    } else {
        (0x41 + v - 10) as char
    }
}

/// `#RRGGBB` with upper-case hexadecimal digits.
pub open spec fn rgb_hex_spec(r: u8, g: u8, b: u8) -> Seq<char> {
    seq![
        '#',
        hex_upper_digit(r / 16),
        hex_upper_digit(r % 16),
        hex_upper_digit(g / 16),
        hex_upper_digit(g % 16),
        hex_upper_digit(b / 16),
        hex_upper_digit(b % 16),
    ]
}

/// The upper-case hexadecimal digit of a value below 16.
fn hex_upper(v: u8) -> (c: char)
    requires
        v < 16,
    ensures
        c == hex_upper_digit(v),
{
    if v < 10 {
        (0x30u8 + v) as char
    } else {
        (0x41u8 + v - 10) as char
    }
}

/// Takes three u8 values representing rgb values (0-255) and returns a hex
/// string `#RRGGBB`, upper case.
pub fn rgb_hex(r: u8, g: u8, b: u8) -> (s: String)
    ensures
        s@ == rgb_hex_spec(r, g, b),
{
    let mut s = String::new();
    push_char(&mut s, '#');
    push_char(&mut s, hex_upper(r / 16));
    push_char(&mut s, hex_upper(r % 16));
    push_char(&mut s, hex_upper(g / 16));
    push_char(&mut s, hex_upper(g % 16));
    push_char(&mut s, hex_upper(b / 16));
    push_char(&mut s, hex_upper(b % 16));
    assert(s@ =~= rgb_hex_spec(r, g, b));
    s
}

/// Returns a hex color in string format from a hash.
pub fn get_random_color(hash: String) -> (color: String)
    ensures
        color@ == rgb_hex_spec(rgb_of_hash(hash@).0, rgb_of_hash(hash@).1, rgb_of_hash(hash@).2),
{
    let (red, green, blue) = derive_rgb_values(hash);
    rgb_hex(red, green, blue)
}

// ---------------------------------------------------------------------------
// Package titles.
// ---------------------------------------------------------------------------

/// Characters that separate the words of a package name.
pub open spec fn is_title_separator(c: char) -> bool {
    c == '-' || c == '_'
}

/// The words of `s`: its maximal runs of non-separator characters, in order.
pub open spec fn title_words(s: Seq<char>) -> Seq<Seq<char>>
    decreases s.len(),
{
    if s.len() == 0 {
        Seq::empty()
    } else {
        let p = s.drop_last();
        let c = s.last();
        let w = title_words(p);
        if is_title_separator(c) {
            w
        } else if p.len() == 0 || is_title_separator(p.last()) {
            w.push(seq![c])
        } else {
            w.update(w.len() - 1, w.last().push(c))
        }
    }
}

/// `c` in ASCII upper case, as `char::to_ascii_uppercase` gives it.
pub open spec fn ascii_upper_spec(c: char) -> char {
    if 0x61 <= (c as u32) <= 0x7a {
        (((c as u32) - 32) as u8) as char
    } else {
        c
    }
}

/// `w` with its first character in ASCII upper case.
pub open spec fn capitalize(w: Seq<char>) -> Seq<char> {
    if w.len() == 0 {
        w
    } else {
        seq![ascii_upper_spec(w[0])] + w.drop_first()
    }
}

/// The words joined by single spaces.
pub open spec fn join_words(ws: Seq<Seq<char>>) -> Seq<char>
    decreases ws.len(),
{
    if ws.len() == 0 {
        Seq::empty()
    } else if ws.len() == 1 {
        ws[0]
    } else {
        join_words(ws.drop_last()) + seq![' '] + ws.last()
    }
}

/// The prefix that package names carry.
pub open spec fn package_prefix() -> Seq<char> {
    seq!['o', 'w', 'n', 'a', 'b', 'l', 'e', '-']
}

/// The display title of a package name: the name without leading `ownable-`
/// prefixes, split at `-` and `_` into non-empty words, each capitalized,
/// joined by single spaces.
pub open spec fn package_title_spec(name: Seq<char>) -> Seq<char> {
    join_words(title_words(strip_prefix_repeated(name, package_prefix())).map_values(|w: Seq<char>| capitalize(w)))
}

/// `c` in ASCII upper case.
fn ascii_upper(c: char) -> (r: char)
    ensures
        r == ascii_upper_spec(c),
{
    let u = c as u32;
    if 0x61 <= u && u <= 0x7a {
        ((u - 32) as u8) as char
    } else {
        c
    }
}

proof fn lemma_join_push(ws: Seq<Seq<char>>, x: Seq<char>)
    ensures
        join_words(ws.push(x)) == if ws.len() == 0 {
            x
        } else {
            join_words(ws) + seq![' '] + x
        },
{
    assert(ws.push(x).drop_last() =~= ws);
}

proof fn lemma_join_extend_last(ws: Seq<Seq<char>>, c: char)
    requires
        ws.len() > 0,
    ensures
        join_words(ws.update(ws.len() - 1, ws.last().push(c))) == join_words(ws).push(c),
{
    let u = ws.update(ws.len() - 1, ws.last().push(c));
    if ws.len() > 1 {
        assert(u.drop_last() =~= ws.drop_last());
        assert(join_words(u) =~= join_words(ws).push(c));
    }
}

/// Converts an ownable package name into a display title,
/// e.g. `ownable-my-first` gives `My First`.
pub fn package_title_from_name(name: &str) -> (title: String)
    ensures
        title@ == package_title_spec(name@),
{
    let v = chars_of(name);
    let prefix: [char; 8] = ['o', 'w', 'n', 'a', 'b', 'l', 'e', '-'];
    assert(prefix@ =~= package_prefix());
    assert(v@.skip(0) =~= v@);
    let start = skip_prefix_repeated(&v, 0, prefix.as_slice());
    let n = v.len();
    let mut out = String::new();
    let mut in_word = false;
    let mut any_word = false;
    let mut i = start;
    assert(v@.subrange(start as int, start as int) =~= Seq::<char>::empty());
    assert(title_words(Seq::<char>::empty()).map_values(|w: Seq<char>| capitalize(w)) =~= Seq::<Seq<char>>::empty());
    while i < n
        invariant
            n == v@.len(),
            start <= i <= n,
            out@ == join_words(title_words(v@.subrange(start as int, i as int)).map_values(|w: Seq<char>| capitalize(w))),
            in_word == (i > start && !is_title_separator(v@[i - 1])),
            any_word == (title_words(v@.subrange(start as int, i as int)).len() > 0),
            in_word ==> any_word,
            forall|k: int| 0 <= k < title_words(v@.subrange(start as int, i as int)).len()
                ==> (#[trigger] title_words(v@.subrange(start as int, i as int))[k]).len() > 0,
        decreases n - i,
    {
        let c = v[i];
        let ghost p = v@.subrange(start as int, i as int);
        let ghost q = v@.subrange(start as int, i + 1);
        let ghost w = title_words(p);
        assert(q.drop_last() =~= p);
        assert(q.last() == c);
        if c == '-' || c == '_' {
            in_word = false;
        } else if in_word {
            push_char(&mut out, c);
            proof {
                assert(title_words(q) == w.update(w.len() - 1, w.last().push(c)));
                let caps = w.map_values(|x: Seq<char>| capitalize(x));
                let lw = w.last();
                assert(w[w.len() - 1].len() > 0);
                assert(lw.push(c).drop_first() =~= lw.drop_first().push(c));
                assert(capitalize(lw.push(c)) =~= capitalize(lw).push(c));
                assert(caps.last() == capitalize(lw));
                assert(title_words(q).map_values(|x: Seq<char>| capitalize(x))
                    =~= caps.update(caps.len() - 1, caps.last().push(c)));
                lemma_join_extend_last(caps, c);
            }
        } else {
            if any_word {
                push_char(&mut out, ' ');
            }
            push_char(&mut out, ascii_upper(c));
            proof {
                assert(title_words(q) == w.push(seq![c]));
                let caps = w.map_values(|x: Seq<char>| capitalize(x));
                assert(capitalize(seq![c]) =~= seq![ascii_upper_spec(c)]);
                assert(title_words(q).map_values(|x: Seq<char>| capitalize(x)) =~= caps.push(seq![ascii_upper_spec(c)]));
                lemma_join_push(caps, seq![ascii_upper_spec(c)]);
            }
            in_word = true;
            any_word = true;
        }
        i = i + 1;
    }
    assert(v@.subrange(start as int, n as int) =~= v@.skip(start as int));
    out
}

/// Standard NFT metadata object.
#[derive(Clone, Debug, PartialEq, Eq, Default)]
pub struct Metadata {
    pub image: Option<String>,
    pub image_data: Option<String>,
    pub external_url: Option<String>,
    pub description: Option<String>,
    pub name: Option<String>,
    pub background_color: Option<String>,
    pub animation_url: Option<String>,
    pub youtube_url: Option<String>,
}

/// NFT reference used by ownables.
#[derive(Clone, Debug, PartialEq, Eq)]
pub struct NFT {
    pub network: String,
    pub id: u128,
    pub address: String,
    pub lock_service: Option<String>,
}

} // verus!
