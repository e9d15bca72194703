//! Properties that relate several operations of the library.

use vstd::prelude::*;
use vstd::utf8::*;

use crate::abi::{packed, unpacked};
use crate::memory_storage::{
    in_range, key_lt, KeyValue, lemma_key_lt_transitive, lemma_key_lt_irreflexive, pairs_to_map,
    values_nonempty, MemoryStorage,
};
use crate::metadata::{
    hex_digit_value, hex_decode_spec,
    package_title_spec, title_words, is_title_separator, capitalize, join_words, package_prefix,
    hex_upper_digit, rgb_hex_spec, is_whitespace_spec, rgb_of_hash, strip_prefix_repeated, trim_end_spec, trim_spec,
    trim_start_spec, hash_digits, padded_hash_bytes,
};
use crate::storage::{strip_zero_bytes, EmptyApi, EmptyApiError, IdbStateDump, IdbStorage};
use crate::abi::{responds_to, opt_string_view, HandlerOutcome, HostAbiError, HostAbiResponse, ERR_HANDLER_PANIC, MSG_HANDLER_PANICKED};

verus! {

/// Unpacking a packed pointer/length pair gives the pair back.
pub proof fn law_unpack_after_pack(ptr: u32, len: u32)
    ensures
        0 <= packed(ptr, len) <= u64::MAX,
        unpacked(packed(ptr, len) as u64) == (ptr as int, len as int),
{
    assert(0 <= packed(ptr, len) <= u64::MAX) by (nonlinear_arith)
        requires
            packed(ptr, len) == len * 0x1_0000_0000 + ptr,
            ptr <= u32::MAX,
            len <= u32::MAX,
    ;
    let p = packed(ptr, len);
    assert(p % 0x1_0000_0000 == ptr && p / 0x1_0000_0000 == len) by (nonlinear_arith)
        requires
            p == len * 0x1_0000_0000 + ptr,
            0 <= ptr < 0x1_0000_0000,
            0 <= len,
    ;
}

/// Packing the two halves of a `u64` gives the `u64` back.
pub proof fn law_pack_after_unpack(x: u64)
    ensures
        0 <= unpacked(x).0 <= u32::MAX,
        0 <= unpacked(x).1 <= u32::MAX,
        packed(unpacked(x).0 as u32, unpacked(x).1 as u32) == x,
{
    let lo = x as int % 0x1_0000_0000;
    let hi = x as int / 0x1_0000_0000;
    assert(0 <= lo < 0x1_0000_0000 && 0 <= hi < 0x1_0000_0000 && hi * 0x1_0000_0000 + lo == x)
        by (nonlinear_arith)
        requires
            lo == x as int % 0x1_0000_0000,
            hi == x as int / 0x1_0000_0000,
            0 <= x <= u64::MAX,
    ;
}

/// After `set(key, value)`, reading `key` gives `value` and every other key
/// reads as before.
pub proof fn law_read_after_write(
    before: MemoryStorage,
    after: MemoryStorage,
    key: Seq<u8>,
    value: Seq<u8>,
    other: Seq<u8>,
)
    requires
        after@ == before@.insert(key, value),
        other != key,
    ensures
        after@.contains_key(key),
        after@[key] == value,
        after@.contains_key(other) == before@.contains_key(other),
        before@.contains_key(other) ==> after@[other] == before@[other],
{
}

/// After `remove(key)`, `key` reads as absent and every other key reads as
/// before.
pub proof fn law_read_after_remove(before: MemoryStorage, after: MemoryStorage, key: Seq<u8>, other: Seq<u8>)
    requires
        after@ == before@.remove(key),
        other != key,
    ensures
        !after@.contains_key(key),
        after@.contains_key(other) == before@.contains_key(other),
        before@.contains_key(other) ==> after@[other] == before@[other],
{
}

/// A range whose start lies after its end holds no key.
pub proof fn law_range_empty_when_start_after_end(start: Seq<u8>, end: Seq<u8>, k: Seq<u8>)
    requires
        key_lt(end, start),
    ensures
        !in_range(k, Some(start), Some(end)),
{
    if in_range(k, Some(start), Some(end)) {
        crate::memory_storage::lemma_key_lt_total(k, start);
        if k == start {
            lemma_key_lt_transitive(k, end, start);
        } else {
            lemma_key_lt_transitive(start, k, end);
            lemma_key_lt_transitive(start, end, start);
        }
        lemma_key_lt_irreflexive(start);
    }
}

/// Dumping a storage and loading the dump gives the storage back: the dump
/// that `IdbStateDump::from` makes holds only non-empty values, as
/// `IdbStorage::load` requires, and the loaded storage holds exactly the map
/// the dumped one held.
pub proof fn law_dump_then_load(store: MemoryStorage, dump: IdbStateDump, loaded: IdbStorage)
    requires
        store.wf(),
        dump.pairs() == store.entries(),
        loaded.storage@ == pairs_to_map(dump.pairs()),
    ensures
        values_nonempty(dump.pairs()),
        loaded.storage@ == store@,
{
}

/// Every character of `w` is white space.
pub open spec fn all_whitespace(w: Seq<char>) -> bool {
    forall|i: int| 0 <= i < w.len() ==> #[trigger] is_whitespace_spec(w[i])
}

proof fn lemma_trim_start_whitespace_prefix(w: Seq<char>, t: Seq<char>)
    requires
        all_whitespace(w),
    ensures
        trim_start_spec(w + t) == trim_start_spec(t),
    decreases w.len(),
{
    if w.len() > 0 {
        assert(is_whitespace_spec((w + t)[0]));
        assert((w + t).drop_first() =~= w.drop_first() + t);
        assert(all_whitespace(w.drop_first())) by {
            assert forall|i: int| 0 <= i < w.drop_first().len() implies #[trigger] is_whitespace_spec(w.drop_first()[i]) by {
                assert(is_whitespace_spec(w[i + 1]));
            }
        }
        lemma_trim_start_whitespace_prefix(w.drop_first(), t);
    } else {
        assert(w + t =~= t);
    }
}

proof fn lemma_trim_end_whitespace_suffix(t: Seq<char>, w: Seq<char>)
    requires
        all_whitespace(w),
    ensures
        trim_end_spec(t + w) == trim_end_spec(t),
    decreases w.len(),
{
    if w.len() > 0 {
        assert(is_whitespace_spec(w[w.len() - 1]));
        assert((t + w).last() == w.last());
        assert((t + w).drop_last() =~= t + w.drop_last());
        assert(all_whitespace(w.drop_last())) by {
            assert forall|i: int| 0 <= i < w.drop_last().len() implies #[trigger] is_whitespace_spec(w.drop_last()[i]) by {
                assert(is_whitespace_spec(w[i]));
            }
        }
        lemma_trim_end_whitespace_suffix(t, w.drop_last());
    } else {
        assert(t + w =~= t);
    }
}

proof fn lemma_trim_end_prefix(p: Seq<char>, s: Seq<char>)
    requires
        s.len() > 0,
        !is_whitespace_spec(s[0]),
    ensures
        trim_end_spec(p + s) == p + trim_end_spec(s),
    decreases s.len(),
{
    if is_whitespace_spec(s.last()) {
        assert(s.len() > 1);
        assert((p + s).drop_last() =~= p + s.drop_last());
        lemma_trim_end_prefix(p, s.drop_last());
    } else {
        assert((p + s).last() == s.last());
    }
}

/// A hash with a leading `0x` gives the color of the hash without it.
proof fn lemma_rgb_ignores_bare_0x_prefix(s: Seq<char>)
    requires
        s.len() == 0 || !is_whitespace_spec(s[0]),
    ensures
        rgb_of_hash(seq!['0', 'x'] + s) == rgb_of_hash(s),
{
    let p = seq!['0', 'x'];
    let q = p + s;
    assert(trim_start_spec(q) == q);
    if s.len() == 0 {
        assert(q =~= p);
        assert(trim_end_spec(p) == p);
        assert(trim_start_spec(s) == s);
        assert(trim_spec(s) == s);
        assert(p.skip(2) =~= s);
        assert(p.take(2) =~= p);
    } else {
        assert(trim_start_spec(s) == s);
        lemma_trim_end_prefix(p, s);
        let t = trim_end_spec(s);
        assert(trim_spec(q) == p + t);
        assert((p + t).take(2) =~= p);
        assert((p + t).skip(2) =~= t);
    }
    assert(hash_digits(q) == hash_digits(s));
    assert(padded_hash_bytes(q) == padded_hash_bytes(s));
}

/// White space around a hash and a leading `0x` do not change its color:
/// `w1 + "0x" + s + w2` gives the color of `s`, when `w1` and `w2` are white
/// space and `s` does not begin with white space.
pub proof fn law_rgb_ignores_0x_prefix(w1: Seq<char>, s: Seq<char>, w2: Seq<char>)
    requires
        all_whitespace(w1),
        all_whitespace(w2),
        s.len() == 0 || !is_whitespace_spec(s[0]),
    ensures
        rgb_of_hash(w1 + seq!['0', 'x'] + s + w2) == rgb_of_hash(s),
{
    let p = seq!['0', 'x'];
    let inner = p + s + w2;
    let q = w1 + p + s + w2;
    assert(q =~= w1 + inner);
    lemma_trim_start_whitespace_prefix(w1, inner);
    assert(inner[0] == '0');
    assert(trim_start_spec(inner) == inner);
    lemma_trim_end_whitespace_suffix(p + s, w2);
    assert((p + s)[0] == '0');
    assert(trim_start_spec(p + s) == p + s);
    assert(trim_spec(q) == trim_spec(p + s));
    assert(hash_digits(q) == hash_digits(p + s));
    assert(padded_hash_bytes(q) == padded_hash_bytes(p + s));
    lemma_rgb_ignores_bare_0x_prefix(s);
}

/// The color of a hash depends on the hash alone: two colors made from hashes
/// with the same characters are the same.
pub proof fn law_color_deterministic(h1: Seq<char>, h2: Seq<char>, c1: Seq<char>, c2: Seq<char>)
    requires
        h1 == h2,
        c1 == rgb_hex_spec(rgb_of_hash(h1).0, rgb_of_hash(h1).1, rgb_of_hash(h1).2),
        c2 == rgb_hex_spec(rgb_of_hash(h2).0, rgb_of_hash(h2).1, rgb_of_hash(h2).2),
    ensures
        c1 == c2,
{
}

/// Every color is `#` followed by six upper-case hexadecimal digits, so it is
/// seven characters long.
pub proof fn law_color_shape(r: u8, g: u8, b: u8)
    ensures
        rgb_hex_spec(r, g, b).len() == 7,
        rgb_hex_spec(r, g, b)[0] == '#',
        forall|i: int| 1 <= i < 7 ==> {
            let c = #[trigger] rgb_hex_spec(r, g, b)[i];
            ('0' <= c <= '9') || ('A' <= c <= 'F')
        },
{
    assert forall|v: u8| v < 16 implies {
        let c = #[trigger] hex_upper_digit(v);
        ('0' <= c <= '9') || ('A' <= c <= 'F')
    } by {
        if v < 10 {
            assert((0x30 + v) as char as u32 == 0x30 + v);
        } else {
            assert((0x41 + v - 10) as char as u32 == 0x41 + v - 10);
        }
    }
    assert(r / 16 < 16 && g / 16 < 16 && b / 16 < 16);
}

proof fn lemma_scalar_bytes_nonzero(c: char)
    requires
        c != '\0',
    ensures
        forall|i: int| 0 <= i < encode_scalar(c as u32).len() ==> #[trigger] encode_scalar(c as u32)[i] != 0,
{
    let v = c as u32;
    assert(v != 0);
    if has_width_1_encoding(v) {
        assert((v & 0x7F) as u8 != 0) by (bit_vector)
            requires
                v != 0,
                v <= 0x7F,
        ;
    } else {
        assert(0xC0u8 | ((v >> 6u32) & 0x1F) as u8 != 0) by (bit_vector);
        assert(0xE0u8 | ((v >> 12u32) & 0x0F) as u8 != 0) by (bit_vector);
        assert(0xF0u8 | ((v >> 18u32) & 0x7) as u8 != 0) by (bit_vector);
        assert(0x80u8 | (v & 0x3F) as u8 != 0) by (bit_vector);
        assert(0x80u8 | ((v >> 6u32) & 0x3F) as u8 != 0) by (bit_vector);
        assert(0x80u8 | ((v >> 12u32) & 0x3F) as u8 != 0) by (bit_vector);
    }
}

proof fn lemma_utf8_nonzero(s: Seq<char>)
    requires
        !s.contains('\0'),
    ensures
        forall|i: int| 0 <= i < encode_utf8(s).len() ==> #[trigger] encode_utf8(s)[i] != 0,
    decreases s.len(),
{
    if s.len() > 0 {
        let rest = s.drop_first();
        assert(!rest.contains('\0')) by {
            if rest.contains('\0') {
                let j = choose|j: int| 0 <= j < rest.len() && rest[j] == '\0';
                assert(s[j + 1] == '\0');
            }
        }
        assert(s[0] != '\0') by {
            if s[0] == '\0' {
                assert(s.contains('\0'));
            }
        }
        lemma_scalar_bytes_nonzero(s[0]);
        lemma_utf8_nonzero(rest);
        let a = encode_scalar(s[0] as u32);
        let b = encode_utf8(rest);
        assert forall|i: int| 0 <= i < encode_utf8(s).len() implies #[trigger] encode_utf8(s)[i] != 0 by {
            if i < a.len() {
                assert(encode_utf8(s)[i] == a[i]);
            } else {
                assert(encode_utf8(s)[i] == b[i - a.len()]);
            }
        }
    }
}

proof fn lemma_strip_zero_bytes(b: Seq<u8>, n: nat)
    requires
        forall|i: int| 0 <= i < b.len() ==> #[trigger] b[i] != 0,
    ensures
        strip_zero_bytes(b + Seq::new(n, |i: int| 0u8)) == b,
    decreases b.len() + n,
{
    let z = Seq::new(n, |i: int| 0u8);
    if n > 0 {
        let z1 = Seq::new((n - 1) as nat, |i: int| 0u8);
        assert((b + z).drop_last() =~= b + z1);
        lemma_strip_zero_bytes(b, (n - 1) as nat);
    } else if b.len() > 0 {
        assert(b + z =~= b);
        assert(b.drop_last() + Seq::new(0, |i: int| 0u8) =~= b.drop_last());
        lemma_strip_zero_bytes(b.drop_last(), 0);
        assert(b.drop_last().push(b.last()) =~= b);
    } else {
        assert(b + z =~= b);
    }
}

/// A human address without NUL characters that has a canonical form is given
/// back by humanizing that canonical form.
pub proof fn law_humanize_after_canonicalize(api: EmptyApi, human: Seq<char>)
    requires
        api.canonicalize_spec(human) is Ok,
        !human.contains('\0'),
    ensures
        api.canonicalize_spec(human)->Ok_0.len() == api.spec_canonical_length(),
        valid_utf8(strip_zero_bytes(api.canonicalize_spec(human)->Ok_0)),
        decode_utf8(strip_zero_bytes(api.canonicalize_spec(human)->Ok_0)) == human,
{
    let bytes = encode_utf8(human);
    lemma_utf8_nonzero(human);
    lemma_strip_zero_bytes(bytes, (api.spec_canonical_length() - bytes.len()) as nat);
    encode_utf8_valid_utf8(human);
    encode_utf8_decode_utf8(human);
}

/// Storage keys are ordered byte by byte as unsigned numbers: after a common
/// prefix `p`, the key whose next byte is smaller comes first, whatever
/// follows; and a key comes before every longer key that it begins.
pub proof fn law_key_order_is_unsigned_lexicographic(p: Seq<u8>, x: u8, a: Seq<u8>, y: u8, b: Seq<u8>)
    ensures
        x < y ==> key_lt(p + seq![x] + a, p + seq![y] + b),
        key_lt(p, p + seq![x] + a),
        !key_lt(p + seq![x] + a, p),
    decreases p.len(),
{
    let l = p + seq![x] + a;
    let r = p + seq![y] + b;
    if p.len() == 0 {
        assert(l[0] == x);
        assert(r[0] == y);
    } else {
        assert(l[0] == p[0] && r[0] == p[0]);
        assert(l.drop_first() =~= p.drop_first() + seq![x] + a);
        assert(r.drop_first() =~= p.drop_first() + seq![y] + b);
        assert(p.drop_first().len() < p.len());
        law_key_order_is_unsigned_lexicographic(p.drop_first(), x, a, y, b);
    }
}

/// A handler that returns an error is answered with exactly that error: its
/// own code (none when it has none) and its own message, and no payload.
pub proof fn law_handler_error_answered_unchanged(r: HostAbiResponse, e: HostAbiError)
    requires
        responds_to(r, HandlerOutcome::Returned(Err(e))),
    ensures
        !r.success,
        r.payload@.len() == 0,
        r.error_code == e.code,
        r.error_message == Some(e.message),
{
}

/// A handler that returns output is answered with success and that output,
/// with no error code or message.
pub proof fn law_handler_output_answered(r: HostAbiResponse, payload: Vec<u8>)
    requires
        responds_to(r, HandlerOutcome::Returned(Ok(payload))),
    ensures
        r.success,
        r.payload@ == payload@,
        r.error_code is None,
        r.error_message is None,
{
}

/// A handler that panicked is answered with the `HANDLER_PANIC` code; the
/// code never appears for a handler that returned, unless its own error
/// carried it.
pub proof fn law_handler_panic_code_only_on_panic(r: HostAbiResponse, o: HandlerOutcome)
    requires
        responds_to(r, o),
    ensures
        o is Panicked ==> !r.success && opt_string_view(r.error_code) == Some(ERR_HANDLER_PANIC@)
            && opt_string_view(r.error_message) == Some(MSG_HANDLER_PANICKED@),
        opt_string_view(r.error_code) == Some(ERR_HANDLER_PANIC@) ==> (o is Panicked || (o matches HandlerOutcome::Returned(Err(e)) && opt_string_view(e.code) == Some(ERR_HANDLER_PANIC@))),
{
}

/// Every human address whose UTF-8 form is 3 to `canonical length` bytes long
/// has a canonical form: those bytes followed by zero bytes up to the
/// canonical length. Too short means under 3 bytes, too long means over the
/// canonical length, and nothing else is refused.
pub proof fn law_canonical_form(api: EmptyApi, human: Seq<char>)
    ensures
        3 <= encode_utf8(human).len() <= api.spec_canonical_length() ==> (
            api.canonicalize_spec(human) matches Ok(c)
            && c.len() == api.spec_canonical_length()
            && c.take(encode_utf8(human).len() as int) == encode_utf8(human)
            && forall|i: int| encode_utf8(human).len() <= i < c.len() ==> c[i] == 0),
        api.canonicalize_spec(human) == Err::<Seq<u8>, EmptyApiError>(EmptyApiError::HumanAddressTooShort)
            <==> encode_utf8(human).len() < 3,
        api.canonicalize_spec(human) == Err::<Seq<u8>, EmptyApiError>(EmptyApiError::HumanAddressTooLong)
            <==> 3 <= encode_utf8(human).len() && encode_utf8(human).len() > api.spec_canonical_length(),
{
    let bytes = encode_utf8(human);
    if 3 <= bytes.len() <= api.spec_canonical_length() {
        let c = api.canonicalize_spec(human)->Ok_0;
        assert(c.take(bytes.len() as int) =~= bytes);
    }
}

/// A non-empty piece without separators is one title word.
proof fn lemma_single_title_word(w: Seq<char>)
    requires
        w.len() > 0,
        forall|i: int| 0 <= i < w.len() ==> !is_title_separator(#[trigger] w[i]),
    ensures
        title_words(w) == seq![w],
    decreases w.len(),
{
    let p = w.drop_last();
    assert(!is_title_separator(w[w.len() - 1]));
    if p.len() == 0 {
        assert(seq![w.last()] =~= w);
        assert(title_words(p) == Seq::<Seq<char>>::empty());
        assert(Seq::<Seq<char>>::empty().push(seq![w.last()]) =~= seq![w]);
    } else {
        assert forall|i: int| 0 <= i < p.len() implies !is_title_separator(#[trigger] p[i]) by {
            assert(!is_title_separator(w[i]));
        }
        lemma_single_title_word(p);
        assert(!is_title_separator(p[p.len() - 1]));
        assert(p.push(w.last()) =~= w);
        assert(seq![p].update(0, p.push(w.last())) =~= seq![w]);
        assert(title_words(w) == title_words(p).update(0, title_words(p).last().push(w.last())));
    }
}

/// A piece without separators does not begin with `ownable-`.
proof fn lemma_no_prefix_in_piece(w: Seq<char>)
    requires
        forall|i: int| 0 <= i < w.len() ==> !is_title_separator(#[trigger] w[i]),
    ensures
        strip_prefix_repeated(w, package_prefix()) == w,
{
    let pre = package_prefix();
    if pre.len() <= w.len() && w.take(pre.len() as int) == pre {
        assert(w.take(8)[7] == pre[7]);
        assert(!is_title_separator(w[7]));
    }
}

/// The title of a name that is one piece without separators is that piece
/// capitalized.
proof fn lemma_title_one_word(w: Seq<char>)
    requires
        w.len() > 0,
        forall|i: int| 0 <= i < w.len() ==> !is_title_separator(#[trigger] w[i]),
    ensures
        package_title_spec(w) == capitalize(w),
{
    lemma_no_prefix_in_piece(w);
    lemma_single_title_word(w);
    let caps = seq![w].map_values(|x: Seq<char>| capitalize(x));
    assert(caps =~= seq![capitalize(w)]);
}

/// Appending a separator ends no word and adds none.
proof fn lemma_title_words_separator(q: Seq<char>, sep: char)
    requires
        is_title_separator(sep),
    ensures
        title_words(q.push(sep)) == title_words(q),
{
    assert(q.push(sep).drop_last() =~= q);
}

/// A piece after a separator becomes a new last word.
proof fn lemma_title_words_append_word(q: Seq<char>, w: Seq<char>)
    requires
        q.len() > 0,
        is_title_separator(q.last()),
        w.len() > 0,
        forall|i: int| 0 <= i < w.len() ==> !is_title_separator(#[trigger] w[i]),
    ensures
        title_words(q + w) == title_words(q).push(w),
    decreases w.len(),
{
    let c = w.last();
    assert(!is_title_separator(w[w.len() - 1]));
    let wp = w.drop_last();
    assert((q + w).drop_last() =~= q + wp);
    assert((q + w).last() == c);
    if wp.len() == 0 {
        assert(q + wp =~= q);
        assert(seq![c] =~= w);
    } else {
        assert forall|i: int| 0 <= i < wp.len() implies !is_title_separator(#[trigger] wp[i]) by {
            assert(!is_title_separator(w[i]));
        }
        lemma_title_words_append_word(q, wp);
        assert((q + wp).last() == wp.last());
        assert(!is_title_separator(wp[wp.len() - 1]));
        assert(wp.push(c) =~= w);
        let t = title_words(q);
        assert(t.push(wp).update(t.len() as int, wp.push(c)) =~= t.push(w));
    }
}

/// Two pieces without separators, joined by `-` or `_`, give the titles of
/// the two pieces joined by one space, unless the name then begins with
/// `ownable-` (which is dropped).
pub proof fn law_title_of_two_words(w1: Seq<char>, sep: char, w2: Seq<char>)
    requires
        w1.len() > 0,
        w2.len() > 0,
        forall|i: int| 0 <= i < w1.len() ==> #[trigger] w1[i] != '-' && w1[i] != '_',
        forall|i: int| 0 <= i < w2.len() ==> #[trigger] w2[i] != '-' && w2[i] != '_',
        sep == '-' || sep == '_',
        !(sep == '-' && w1 == seq!['o', 'w', 'n', 'a', 'b', 'l', 'e']),
    ensures
        package_title_spec(w1 + seq![sep] + w2) == package_title_spec(w1) + seq![' '] + package_title_spec(w2),
{
    assert forall|i: int| 0 <= i < w1.len() implies !is_title_separator(#[trigger] w1[i]) by {
        assert(w1[i] != '-' && w1[i] != '_');
    }
    assert forall|i: int| 0 <= i < w2.len() implies !is_title_separator(#[trigger] w2[i]) by {
        assert(w2[i] != '-' && w2[i] != '_');
    }
    lemma_title_one_word(w1);
    lemma_title_one_word(w2);
    let q = w1.push(sep);
    let name = w1 + seq![sep] + w2;
    assert(name =~= q + w2);
    let pre = package_prefix();
    if pre.len() <= name.len() && name.take(8) == pre {
        if w1.len() < 7 {
            assert(name[w1.len() as int] == sep);
            assert(name.take(8)[w1.len() as int] == pre[w1.len() as int]);
        } else if w1.len() > 7 {
            assert(name[7] == w1[7]);
            assert(name.take(8)[7] == pre[7]);
        } else {
            assert forall|i: int| 0 <= i < 7 implies w1[i] == seq!['o', 'w', 'n', 'a', 'b', 'l', 'e'][i] by {
                assert(name[i] == w1[i]);
                assert(name.take(8)[i] == pre[i]);
            }
            assert(w1 =~= seq!['o', 'w', 'n', 'a', 'b', 'l', 'e']);
            assert(name[7] == sep);
            assert(name.take(8)[7] == pre[7]);
        }
    }
    assert(strip_prefix_repeated(name, pre) == name);
    lemma_single_title_word(w1);
    lemma_title_words_separator(w1, sep);
    assert(q.last() == sep);
    lemma_title_words_append_word(q, w2);
    assert(title_words(name) =~= seq![w1, w2]);
    let caps = seq![w1, w2].map_values(|x: Seq<char>| capitalize(x));
    assert(caps =~= seq![capitalize(w1), capitalize(w2)]);
    assert(caps.drop_last() =~= seq![capitalize(w1)]);
    assert(title_words(strip_prefix_repeated(name, pre)).map_values(|x: Seq<char>| capitalize(x)) == caps);
    assert(join_words(caps.drop_last()) == capitalize(w1));
    assert(join_words(caps) == capitalize(w1) + seq![' '] + capitalize(w2));
}

/// The title of a package name made of one word keeps the word as it is but
/// for its first character, which is put in ASCII upper case (a letter `a`
/// to `z` moves down by 32 code points); a leading `ownable-` is dropped.
pub proof fn law_title_of_one_word(w: Seq<char>)
    requires
        w.len() > 0,
        forall|i: int| 0 <= i < w.len() ==> #[trigger] w[i] != '-' && w[i] != '_',
    ensures
        package_title_spec(w).len() == w.len(),
        package_title_spec(w)[0] as u32 == if 0x61 <= (w[0] as u32) <= 0x7a { (w[0] as u32) - 32 } else { w[0] as u32 as int },
        forall|i: int| 1 <= i < w.len() ==> #[trigger] package_title_spec(w)[i] == w[i],
        package_title_spec(seq!['o', 'w', 'n', 'a', 'b', 'l', 'e', '-'] + w) == package_title_spec(w),
{
    assert forall|i: int| 0 <= i < w.len() implies !is_title_separator(#[trigger] w[i]) by {
        assert(w[i] != '-' && w[i] != '_');
    }
    lemma_title_one_word(w);
    let c = w[0];
    if 0x61 <= (c as u32) <= 0x7a {
        let u = (c as u32) - 32;
        assert((u as u8) as char as u32 == u);
    }
    let pre = seq!['o', 'w', 'n', 'a', 'b', 'l', 'e', '-'];
    assert(pre =~= package_prefix());
    let named = pre + w;
    assert(named.take(8) =~= pre);
    assert(named.skip(8) =~= w);
    assert(strip_prefix_repeated(named, package_prefix()) == strip_prefix_repeated(w, package_prefix()));
}

/// The hexadecimal digit of a value below 16, in upper or lower case.
pub open spec fn hex_digit_char(v: u8, upper: bool) -> char {
    if v < 10 {
        (0x30 + v) as char
    } else if upper {
        (0x41 + v - 10) as char
    } else {
        (0x61 + v - 10) as char
    }
}

/// The hexadecimal text of a byte string, as hashes are written: two digits
/// per byte, high digit first, in upper or lower case.
pub open spec fn hex_text(b: Seq<u8>, upper: bool) -> Seq<char> {
    Seq::new(2 * b.len(), |i: int| if i % 2 == 0 { hex_digit_char(b[i / 2] / 16, upper) } else { hex_digit_char(b[i / 2] % 16, upper) })
}

/// `t` is made of hexadecimal digits.
spec fn all_hex_digits(t: Seq<char>) -> bool {
    forall|i: int| 0 <= i < t.len() ==> exists|v: u8, u: bool| v < 16 && #[trigger] t[i] == hex_digit_char(v, u)
}

proof fn lemma_hex_digit_char(v: u8, upper: bool)
    requires
        v < 16,
    ensures
        !is_whitespace_spec(hex_digit_char(v, upper)),
        hex_digit_char(v, upper) != 'x',
        '\0' <= hex_digit_char(v, upper) <= '\u{7f}',
        hex_digit_value(hex_digit_char(v, upper) as u8) == Some(v),
{
    let c = hex_digit_char(v, upper);
    if v < 10 {
        assert((0x30 + v) as char as u32 == 0x30 + v);
        assert(c as u8 == 0x30 + v);
    } else if upper {
        assert((0x41 + v - 10) as char as u32 == 0x41 + v - 10);
        assert(c as u8 == 0x41 + v - 10);
    } else {
        assert((0x61 + v - 10) as char as u32 == 0x61 + v - 10);
        assert(c as u8 == 0x61 + v - 10);
    }
}

/// Hexadecimal text is its own hash digits: it has no white space to trim and
/// no `0x` to strip; it is ASCII.
proof fn lemma_hash_digits_of_hex(t: Seq<char>)
    requires
        all_hex_digits(t),
    ensures
        hash_digits(t) == t,
        is_ascii_chars(t),
{
    assert forall|i: int| 0 <= i < t.len() implies {
        &&& !is_whitespace_spec(#[trigger] t[i])
        &&& t[i] != 'x'
        &&& '\0' <= t[i] <= '\u{7f}'
    } by {
        let (v, u) = choose|v: u8, u: bool| v < 16 && t[i] == hex_digit_char(v, u);
        lemma_hex_digit_char(v, u);
    }
    if t.len() > 0 {
        assert(!is_whitespace_spec(t[0]));
        assert(!is_whitespace_spec(t[t.len() - 1]));
    }
    assert(trim_start_spec(t) == t);
    assert(trim_end_spec(t) == t);
    assert(trim_spec(t) == t);
    if t.len() >= 2 {
        assert(t[1] != 'x');
        assert(t.take(2)[1] == t[1]);
        assert(t.take(2) != seq!['0', 'x']);
    }
}

proof fn lemma_hex_text_digits(b: Seq<u8>, upper: bool)
    ensures
        all_hex_digits(hex_text(b, upper)),
        forall|i: int| 0 <= i < hex_text(b, upper).len() ==> hex_digit_value(#[trigger] hex_text(b, upper)[i] as u8)
            == Some(if i % 2 == 0 { b[i / 2] / 16 } else { b[i / 2] % 16 }),
{
    let t = hex_text(b, upper);
    assert forall|i: int| 0 <= i < t.len() implies
        (exists|v: u8, u: bool| v < 16 && #[trigger] t[i] == hex_digit_char(v, u))
        && hex_digit_value(t[i] as u8) == Some(if i % 2 == 0 { b[i / 2] / 16 } else { b[i / 2] % 16 })
    by {
        let v: u8 = if i % 2 == 0 { b[i / 2] / 16 } else { b[i / 2] % 16 };
        lemma_hex_digit_char(v, upper);
        assert(t[i] == hex_digit_char(v, upper));
    }
}

/// The color of a hash written as hexadecimal text, in either case, is made
/// of the hash's last three bytes, last first, whatever the hash's length;
/// bytes that a short hash lacks count as 0.
pub proof fn law_color_from_last_bytes(b: Seq<u8>, upper: bool)
    ensures
        rgb_of_hash(hex_text(b, upper)).0 == (if b.len() >= 1 { b[b.len() - 1] } else { 0u8 }),
        rgb_of_hash(hex_text(b, upper)).1 == (if b.len() >= 2 { b[b.len() - 2] } else { 0u8 }),
        rgb_of_hash(hex_text(b, upper)).2 == (if b.len() >= 3 { b[b.len() - 3] } else { 0u8 }),
{
    let t = hex_text(b, upper);
    let n = b.len();
    lemma_hex_text_digits(b, upper);
    lemma_hash_digits_of_hex(t);
    is_ascii_chars_encode_utf8(t);
    let e = encode_utf8(t);
    assert(e.len() == 2 * n);
    assert(padded_hash_bytes(t) == e);
    assert forall|i: int| 0 <= i < e.len() implies (#[trigger] hex_digit_value(e[i])) is Some by {
        assert(e[i] == t[i] as u8);
        assert(hex_digit_value(t[i] as u8) is Some);
    }
    let d = hex_decode_spec(e)->Some_0;
    assert forall|i: int| 0 <= i < n implies #[trigger] d[i] == b[i] by {
        assert(e[2 * i] == t[2 * i] as u8);
        assert(e[2 * i + 1] == t[2 * i + 1] as u8);
        assert((2 * i) % 2 == 0 && (2 * i) / 2 == i);
        assert((2 * i + 1) % 2 == 1 && (2 * i + 1) / 2 == i);
        assert(hex_digit_value(t[2 * i] as u8) == Some(b[i] / 16));
        assert(hex_digit_value(t[2 * i + 1] as u8) == Some(b[i] % 16));
        assert(b[i] / 16 * 16 + b[i] % 16 == b[i]);
    }
    assert(d =~= b);
    assert(hex_decode_spec(padded_hash_bytes(t)) == Some(b));
}

/// A hash with an odd number of hexadecimal digits reads as if a `0` led it:
/// a lone leading digit `v` gives the color of the bytes `[v] + b`.
pub proof fn law_color_of_odd_length_hash(v: u8, b: Seq<u8>, upper: bool)
    requires
        v < 16,
    ensures
        rgb_of_hash(seq![hex_digit_char(v, upper)] + hex_text(b, upper)) == rgb_of_hash(hex_text(seq![v] + b, upper)),
{
    let t = seq![hex_digit_char(v, upper)] + hex_text(b, upper);
    let full = hex_text(seq![v] + b, upper);
    lemma_hex_text_digits(b, upper);
    lemma_hex_text_digits(seq![v] + b, upper);
    lemma_hex_digit_char(v, upper);
    assert(all_hex_digits(t)) by {
        assert forall|i: int| 0 <= i < t.len() implies exists|w: u8, u: bool| w < 16 && #[trigger] t[i] == hex_digit_char(w, u) by {
            if i == 0 {
                assert(t[0] == hex_digit_char(v, upper));
            } else {
                assert(t[i] == hex_text(b, upper)[i - 1]);
            }
        }
    }
    lemma_hash_digits_of_hex(t);
    lemma_hash_digits_of_hex(full);
    is_ascii_chars_encode_utf8(t);
    is_ascii_chars_encode_utf8(full);
    assert(full[0] == hex_digit_char(0, upper));
    assert(full[0] == '0');
    assert forall|i: int| 1 <= i < full.len() implies #[trigger] full[i] == t[i - 1] by {
        assert((seq![v] + b)[i / 2] == if i / 2 == 0 { v } else { b[i / 2 - 1] });
        if i > 1 {
            assert((i - 2) / 2 == i / 2 - 1 && (i - 2) % 2 == i % 2);
        }
    }
    assert(padded_hash_bytes(t) =~= padded_hash_bytes(full)) by {
        let et = encode_utf8(t);
        let ef = encode_utf8(full);
        assert(padded_hash_bytes(t) == seq![0x30u8] + et);
        assert(padded_hash_bytes(full) == ef);
        assert forall|i: int| 0 <= i < ef.len() implies #[trigger] ef[i] == (seq![0x30u8] + et)[i] by {
            assert(ef[i] == full[i] as u8);
            if i > 0 {
                assert(et[i - 1] == t[i - 1] as u8);
            }
        }
    }
}

/// A dump with no pairs describes the empty map, and a pair appended to a
/// dump sets its key to its value, over whatever earlier pairs said, leaving
/// every other key as it was.
pub proof fn law_dump_later_pair_wins(s: Seq<KeyValue>, k: Seq<u8>, v: Seq<u8>)
    ensures
        pairs_to_map(Seq::<KeyValue>::empty()) == Map::<Seq<u8>, Seq<u8>>::empty(),
        pairs_to_map(s.push((k, v))).contains_key(k),
        pairs_to_map(s.push((k, v)))[k] == v,
        forall|o: Seq<u8>| o != k ==> (#[trigger] pairs_to_map(s.push((k, v))).contains_key(o) == pairs_to_map(s).contains_key(o)
            && (pairs_to_map(s).contains_key(o) ==> pairs_to_map(s.push((k, v)))[o] == pairs_to_map(s)[o])),
{
    assert(s.push((k, v)).drop_last() =~= s);
    assert(pairs_to_map(Seq::<KeyValue>::empty()) =~= Map::<Seq<u8>, Seq<u8>>::empty());
}

/// A color spells out its three values in order, each as two hexadecimal
/// digits, high digit first: red in characters 1 and 2, green in 3 and 4,
/// blue in 5 and 6.
pub proof fn law_color_spells_values(r: u8, g: u8, b: u8)
    ensures
        hex_digit_value(rgb_hex_spec(r, g, b)[1] as u8) == Some(r / 16),
        hex_digit_value(rgb_hex_spec(r, g, b)[2] as u8) == Some(r % 16),
        hex_digit_value(rgb_hex_spec(r, g, b)[3] as u8) == Some(g / 16),
        hex_digit_value(rgb_hex_spec(r, g, b)[4] as u8) == Some(g % 16),
        hex_digit_value(rgb_hex_spec(r, g, b)[5] as u8) == Some(b / 16),
        hex_digit_value(rgb_hex_spec(r, g, b)[6] as u8) == Some(b % 16),
{
    assert forall|v: u8| v < 16 implies hex_digit_value(#[trigger] hex_upper_digit(v) as u8) == Some(v) by {
        lemma_hex_digit_char(v, true);
        assert(hex_upper_digit(v) == hex_digit_char(v, true));
    }
    assert(r / 16 < 16 && g / 16 < 16 && b / 16 < 16);
}

} // verus!
