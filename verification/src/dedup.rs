//! In-process content-hash dedup for memory-store hooks and compactors.
//!
//! Append-only backends have no unique-key enforcement, so this module
//! provides a content-hash gate that lives alongside a hook or compactor and
//! prevents the same entry from being appended twice within one process.
//! Callers that need idempotency across restarts snapshot the set with
//! [`DedupSet::snapshot`] and replay it with
//! [`DedupSet::extend_from_snapshot`].

use vstd::prelude::*;
use vstd::string::StringSliceAdditionalSpecFns;
use vstd::utf8::{
    encode_scalar, encode_utf8, encode_utf8_decode_utf8, last_continuation_byte, leading_byte_width_1,
    leading_byte_width_2, leading_byte_width_3, leading_byte_width_4, second_last_continuation_byte,
    third_last_continuation_byte,
};

use crate::error::PolicyError;
use crate::retention::{insert_pos, stable_sort};
use crate::retention_laws::{lemma_stable_sort_permutes, lemma_stable_sort_sorted, sorted_by_order};
use crate::pieces::{lemma_nonempty_trimmed_concat, lemma_split_pieces_concat, bounded_view, bounds_ok, nonempty_trimmed, piece_bounds, sep_pred, split_pieces, strip_pred, Separator, Strip};
use crate::text::{chars_of, lowercase, push_char, string_of_range, to_lowercase};

verus! {

// ---------------------------------------------------------------------------
// BLAKE3
// ---------------------------------------------------------------------------

/// The 32-byte BLAKE3 hash of a byte string.
pub uninterp spec fn blake3_digest(data: Seq<u8>) -> Seq<u8>;

/// `blake3::hash`: the 32-byte BLAKE3 hash of `data`. The crate documents
/// that hashing in several `Hasher::update` calls gives the hash of the
/// concatenated input, so one call on the whole input stands for them.
#[verifier::external_body]
pub(crate) fn blake3_hash(data: &[u8]) -> (digest: [u8; 32])
    ensures
        digest@ == blake3_digest(data@),
{
    *blake3::hash(data).as_bytes()
}

/// 32-byte content fingerprint produced by BLAKE3.
pub type DedupKey = [u8; 32];

// ---------------------------------------------------------------------------
// Keys
// ---------------------------------------------------------------------------

/// A byte as it is hashed inside a field: a zero byte is followed by
/// `0xFF`, a byte that UTF-8 never uses, so that it is never taken for a
/// separator.
pub open spec fn escape_byte(x: u8) -> Seq<u8> {
    if x == 0 {
        seq![0u8, 0xFFu8]
    } else {
        seq![x]
    }
}

/// A byte string with every zero byte escaped.
pub open spec fn escape_nul(b: Seq<u8>) -> Seq<u8>
    decreases b.len(),
{
    if b.len() == 0 {
        Seq::empty()
    } else {
        escape_byte(b[0]) + escape_nul(b.drop_first())
    }
}

/// The bytes hashed for one field: its UTF-8 bytes with NUL bytes escaped.
/// A field without NUL characters is hashed as its plain UTF-8 bytes.
pub open spec fn field_bytes(s: Seq<char>) -> Seq<u8> {
    escape_nul(encode_utf8(s))
}

/// The bytes that are hashed for an entry: the bytes of each field, joined
/// by NUL bytes; an absent scope counts as empty.
pub open spec fn key_preimage(
    kind: Seq<char>,
    conversation_id: Seq<char>,
    role: Seq<char>,
    scope: Option<Seq<char>>,
    text: Seq<char>,
) -> Seq<u8> {
    field_bytes(kind) + seq![0u8] + field_bytes(conversation_id) + seq![0u8] + field_bytes(role)
        + seq![0u8] + field_bytes(scope_text(scope)) + seq![0u8] + field_bytes(text)
}

/// The text of an optional scope; an absent scope counts as empty.
pub open spec fn scope_text(scope: Option<Seq<char>>) -> Seq<char> {
    match scope {
        Some(s) => s,
        None => Seq::empty(),
    }
}

/// Whether a text holds no NUL character.
pub open spec fn nul_free(s: Seq<char>) -> bool {
    forall|i: int| 0 <= i < s.len() ==> s[i] != '\0'
}

/// Whether a byte string holds no zero byte.
spec fn zero_free(b: Seq<u8>) -> bool {
    forall|i: int| 0 <= i < b.len() ==> b[i] != 0
}

/// Whether a byte string holds no `0xFF` byte.
spec fn ff_free(b: Seq<u8>) -> bool {
    forall|i: int| 0 <= i < b.len() ==> b[i] != 0xFF
}

proof fn lemma_scalar_bytes_nonzero(v: u32)
    by (bit_vector)
    requires
        0 < v,
    ensures
        v <= 0x7F ==> leading_byte_width_1(v) != 0,
        leading_byte_width_2(v) != 0,
        leading_byte_width_3(v) != 0,
        leading_byte_width_4(v) != 0,
        last_continuation_byte(v) != 0,
        second_last_continuation_byte(v) != 0,
        third_last_continuation_byte(v) != 0,
{
}

proof fn lemma_scalar_bytes_not_ff(v: u32)
    by (bit_vector)
    ensures
        leading_byte_width_1(v) != 0xFF,
        leading_byte_width_2(v) != 0xFF,
        leading_byte_width_3(v) != 0xFF,
        leading_byte_width_4(v) != 0xFF,
        last_continuation_byte(v) != 0xFF,
        second_last_continuation_byte(v) != 0xFF,
        third_last_continuation_byte(v) != 0xFF,
{
}

/// Only a NUL character encodes to a zero byte.
proof fn lemma_encode_zero_free(s: Seq<char>)
    requires
        nul_free(s),
    ensures
        zero_free(encode_utf8(s)),
    decreases s.len(),
{
    if s.len() > 0 {
        let rest = s.drop_first();
        assert(nul_free(rest)) by {
            assert forall|i: int| 0 <= i < rest.len() implies rest[i] != '\0' by {
                assert(rest[i] == s[i + 1]);
            }
        }
        lemma_encode_zero_free(rest);
        let v = s[0] as u32;
        assert(s[0] != '\0');
        vstd::utf8::char_u32_cast(s[0], v);
        assert(v != 0) by {
            if v == 0 {
                assert((0u32 as char) == '\0');
            }
        }
        lemma_scalar_bytes_nonzero(v);
        let e = encode_scalar(v);
        let all = encode_utf8(s);
        assert(all == e + encode_utf8(rest));
        assert forall|i: int| 0 <= i < all.len() implies all[i] != 0 by {
            if i >= e.len() {
                assert(all[i] == encode_utf8(rest)[i - e.len()]);
            }
        }
    }
}

/// UTF-8 never uses the byte `0xFF`.
proof fn lemma_encode_ff_free(s: Seq<char>)
    ensures
        ff_free(encode_utf8(s)),
    decreases s.len(),
{
    if s.len() > 0 {
        let rest = s.drop_first();
        lemma_encode_ff_free(rest);
        let v = s[0] as u32;
        lemma_scalar_bytes_not_ff(v);
        let e = encode_scalar(v);
        let all = encode_utf8(s);
        assert(all == e + encode_utf8(rest));
        assert forall|i: int| 0 <= i < all.len() implies all[i] != 0xFF by {
            if i >= e.len() {
                assert(all[i] == encode_utf8(rest)[i - e.len()]);
            }
        }
    }
}

/// Escaping works byte by byte.
proof fn lemma_escape_push(b: Seq<u8>, x: u8)
    ensures
        escape_nul(b.push(x)) == escape_nul(b) + escape_byte(x),
    decreases b.len(),
{
    if b.len() == 0 {
        let e = Seq::<u8>::empty();
        assert(b.push(x).drop_first() =~= e);
        assert(b.push(x)[0] == x);
        assert(escape_nul(e) == e);
        assert(b =~= e);
        assert(escape_nul(b.push(x)) == escape_byte(x) + escape_nul(e));
        assert(escape_nul(b.push(x)) =~= escape_nul(b) + escape_byte(x));
    } else {
        lemma_escape_push(b.drop_first(), x);
        assert(b.push(x).drop_first() =~= b.drop_first().push(x));
        assert(b.push(x)[0] == b[0]);
        assert(escape_nul(b.push(x)) =~= escape_nul(b) + escape_byte(x));
    }
}

/// A byte string without zero bytes is its own escape.
proof fn lemma_escape_zero_free(b: Seq<u8>)
    requires
        zero_free(b),
    ensures
        escape_nul(b) == b,
    decreases b.len(),
{
    if b.len() > 0 {
        assert(zero_free(b.drop_first())) by {
            assert forall|i: int| 0 <= i < b.drop_first().len() implies b.drop_first()[i] != 0 by {
                assert(b.drop_first()[i] == b[i + 1]);
            }
        }
        lemma_escape_zero_free(b.drop_first());
        assert(b =~= seq![b[0]] + b.drop_first());
    }
}

/// The first field of a run of hashed bytes, unescaped, and what follows
/// the separator after it.
spec fn first_field(b: Seq<u8>) -> (Seq<u8>, Seq<u8>)
    decreases b.len(),
{
    if b.len() == 0 {
        (Seq::empty(), Seq::empty())
    } else if b[0] == 0 {
        if b.len() > 1 && b[1] == 0xFF {
            let (f, r) = first_field(b.skip(2));
            (seq![0u8] + f, r)
        } else {
            (Seq::empty(), b.drop_first())
        }
    } else {
        let (f, r) = first_field(b.drop_first());
        (seq![b[0]] + f, r)
    }
}

/// An escaped field followed by a separator splits off again, as long as
/// what follows does not start with `0xFF`.
proof fn lemma_first_field(a: Seq<u8>, rest: Seq<u8>)
    requires
        ff_free(a),
        rest.len() == 0 || rest[0] != 0xFF,
    ensures
        first_field(escape_nul(a) + seq![0u8] + rest) == (a, rest),
    decreases a.len(),
{
    let b = escape_nul(a) + seq![0u8] + rest;
    if a.len() == 0 {
        assert(b =~= seq![0u8] + rest);
        assert(b.drop_first() =~= rest);
    } else {
        let t = a.drop_first();
        assert(ff_free(t)) by {
            assert forall|i: int| 0 <= i < t.len() implies t[i] != 0xFF by {
                assert(t[i] == a[i + 1]);
            }
        }
        lemma_first_field(t, rest);
        let tail = escape_nul(t) + seq![0u8] + rest;
        if a[0] == 0 {
            assert(b =~= seq![0u8, 0xFFu8] + tail);
            assert(b.skip(2) =~= tail);
            assert(seq![0u8] + t =~= a);
        } else {
            assert(b =~= seq![a[0]] + tail);
            assert(b.drop_first() =~= tail);
            assert(seq![a[0]] + t =~= a);
        }
    }
}

/// The hashed bytes of a field never start with `0xFF`.
proof fn lemma_field_bytes_start(s: Seq<char>, rest: Seq<u8>)
    ensures
        ({
            let b = field_bytes(s) + seq![0u8] + rest;
            b[0] != 0xFF
        }),
{
    let e = encode_utf8(s);
    lemma_encode_ff_free(s);
    if e.len() > 0 {
        assert(field_bytes(s)[0] == e[0]);
    } else {
        assert(field_bytes(s) =~= Seq::<u8>::empty());
    }
}

/// A field splits off the front of what follows it.
proof fn lemma_split_field(s1: Seq<char>, r1: Seq<u8>, s2: Seq<char>, r2: Seq<u8>)
    requires
        r1.len() == 0 || r1[0] != 0xFF,
        r2.len() == 0 || r2[0] != 0xFF,
        field_bytes(s1) + seq![0u8] + r1 == field_bytes(s2) + seq![0u8] + r2,
    ensures
        s1 == s2,
        r1 == r2,
{
    lemma_encode_ff_free(s1);
    lemma_encode_ff_free(s2);
    lemma_first_field(encode_utf8(s1), r1);
    lemma_first_field(encode_utf8(s2), r2);
    lemma_encode_injective(s1, s2);
}

/// UTF-8 encoding loses nothing.
proof fn lemma_encode_injective(s1: Seq<char>, s2: Seq<char>)
    requires
        encode_utf8(s1) == encode_utf8(s2),
    ensures
        s1 == s2,
{
    encode_utf8_decode_utf8(s1);
    encode_utf8_decode_utf8(s2);
}

/// A field without NUL characters is hashed as its plain UTF-8 bytes.
pub proof fn lemma_field_bytes_nul_free(s: Seq<char>)
    requires
        nul_free(s),
    ensures
        field_bytes(s) == encode_utf8(s),
{
    lemma_encode_zero_free(s);
    lemma_escape_zero_free(encode_utf8(s));
}

/// Distinct entries hash distinct byte strings: the NUL separators keep
/// `("ab", "c")` and `("a", "bc")` apart, and the escaping of NUL bytes
/// inside fields keeps `("a\0b", "c")` and `("a", "b\0c")` apart. An absent
/// scope hashes like an empty one.
pub proof fn lemma_key_preimage_injective(
    kind1: Seq<char>,
    conversation1: Seq<char>,
    role1: Seq<char>,
    scope1: Option<Seq<char>>,
    text1: Seq<char>,
    kind2: Seq<char>,
    conversation2: Seq<char>,
    role2: Seq<char>,
    scope2: Option<Seq<char>>,
    text2: Seq<char>,
)
    requires
        key_preimage(kind1, conversation1, role1, scope1, text1) == key_preimage(
            kind2,
            conversation2,
            role2,
            scope2,
            text2,
        ),
    ensures
        kind1 == kind2,
        conversation1 == conversation2,
        role1 == role2,
        scope_text(scope1) == scope_text(scope2),
        text1 == text2,
{
    let z = seq![0u8];
    let e = Seq::<u8>::empty();
    let (k1, c1, o1, s1, t1) = (
        field_bytes(kind1),
        field_bytes(conversation1),
        field_bytes(role1),
        field_bytes(scope_text(scope1)),
        field_bytes(text1),
    );
    let (k2, c2, o2, s2, t2) = (
        field_bytes(kind2),
        field_bytes(conversation2),
        field_bytes(role2),
        field_bytes(scope_text(scope2)),
        field_bytes(text2),
    );
    let p1 = s1 + z + t1;
    let p2 = s2 + z + t2;
    let q1 = o1 + z + p1;
    let q2 = o2 + z + p2;
    let r1 = c1 + z + q1;
    let r2 = c2 + z + q2;
    lemma_field_bytes_start(conversation1, q1);
    lemma_field_bytes_start(conversation2, q2);
    lemma_field_bytes_start(role1, p1);
    lemma_field_bytes_start(role2, p2);
    lemma_field_bytes_start(scope_text(scope1), t1);
    lemma_field_bytes_start(scope_text(scope2), t2);
    lemma_field_bytes_start(text1, e);
    lemma_field_bytes_start(text2, e);
    assert(key_preimage(kind1, conversation1, role1, scope1, text1) =~= k1 + z + r1);
    assert(key_preimage(kind2, conversation2, role2, scope2, text2) =~= k2 + z + r2);
    lemma_split_field(kind1, r1, kind2, r2);
    lemma_split_field(conversation1, q1, conversation2, q2);
    lemma_split_field(role1, p1, role2, p2);
    assert(t1.len() == 0 || t1[0] != 0xFF) by {
        assert(t1.len() > 0 ==> (t1 + z + e)[0] == t1[0]);
    }
    assert(t2.len() == 0 || t2[0] != 0xFF) by {
        assert(t2.len() > 0 ==> (t2 + z + e)[0] == t2[0]);
    }
    lemma_split_field(scope_text(scope1), t1, scope_text(scope2), t2);
    assert(t1 + z + e =~= t1 + z);
    assert(t2 + z + e =~= t2 + z);
    lemma_split_field(text1, e, text2, e);
}

/// Append the hashed bytes of a field.
fn push_field(out: &mut Vec<u8>, s: &str)
    ensures
        final(out)@ == old(out)@ + field_bytes(s@),
{
    let bytes = s.as_bytes();
    let ghost start = out@;
    let mut i: usize = 0;
    while i < bytes.len()
        invariant
            i <= bytes@.len(),
            bytes@ == encode_utf8(s@),
            out@ == start + escape_nul(bytes@.take(i as int)),
        decreases bytes.len() - i,
    {
        let b = bytes[i];
        out.push(b);
        if b == 0 {
            out.push(0xFF);
        }
        proof {
            assert(bytes@.take(i + 1) =~= bytes@.take(i as int).push(b));
            lemma_escape_push(bytes@.take(i as int), b);
        }
        i = i + 1;
        assert(out@ =~= start + escape_nul(bytes@.take(i as int)));
    }
    assert(bytes@.take(bytes@.len() as int) =~= bytes@);
}

/// Compute the dedup key for a single entry.
///
/// Inputs are joined by NUL so that two distinct field tuples cannot collide
/// via concatenation (e.g. `("ab", "c")` vs `("a", "bc")`); a NUL byte inside
/// a field is followed by `0xFF`, so that it is never read as a separator.
pub fn compute_key(
    kind: &str,
    conversation_id: &str,
    role: &str,
    scope: Option<&str>,
    text: &str,
) -> (key: DedupKey)
    ensures
        key@ == blake3_digest(
            key_preimage(
                kind@,
                conversation_id@,
                role@,
                match scope {
                    Some(s) => Some(s@),
                    None => None,
                },
                text@,
            ),
        ),
{
    let mut bytes: Vec<u8> = Vec::new();
    push_field(&mut bytes, kind);
    bytes.push(0);
    push_field(&mut bytes, conversation_id);
    bytes.push(0);
    push_field(&mut bytes, role);
    bytes.push(0);
    let scope_str = match scope {
        Some(s) => s,
        None => "",
    };
    proof {
        reveal_strlit("");
    }
    push_field(&mut bytes, scope_str);
    bytes.push(0);
    push_field(&mut bytes, text);
    proof {
        assert(bytes@ =~= key_preimage(
            kind@,
            conversation_id@,
            role@,
            match scope {
                Some(s) => Some(s@),
                None => None,
            },
            text@,
        ));
    }
    blake3_hash(bytes.as_slice())
}

// ---------------------------------------------------------------------------
// Hex encoding
// ---------------------------------------------------------------------------

/// The lowercase hex digit of `n` (`0 <= n < 16`).
pub open spec fn hex_digit(n: int) -> char {
    if n < 10 {
        (48 + n) as char
    } else {
        (87 + n) as char
    }
}

/// The value of a hex digit of either case.
pub open spec fn nibble_value(c: char) -> Option<int> {
    if '0' <= c && c <= '9' {
        Some(c as int - 48)
    } else if 'a' <= c && c <= 'f' {
        Some(c as int - 87)
    } else if 'A' <= c && c <= 'F' {
        Some(c as int - 55)
    } else {
        None
    }
}

/// Two lowercase hex digits per byte, high nibble first.
pub open spec fn hex_of(key: Seq<u8>) -> Seq<char> {
    Seq::new(
        2 * key.len(),
        |i: int|
            if i % 2 == 0 {
                hex_digit((key[i / 2] / 16) as int)
            } else {
                hex_digit((key[i / 2] % 16) as int)
            },
    )
}

/// The key that 64 hex digits (of either case) spell, or `None` for any
/// other text.
pub open spec fn hex_key(s: Seq<char>) -> Option<Seq<u8>> {
    if s.len() == 64 && forall|i: int| 0 <= i < 64 ==> (#[trigger] nibble_value(s[i])) is Some {
        Some(
            Seq::new(
                32,
                |i: int| (nibble_value(s[2 * i]).unwrap() * 16 + nibble_value(s[2 * i + 1]).unwrap()) as u8,
            ),
        )
    } else {
        None
    }
}

pub(crate) fn nibble_to_hex(n: u8) -> (c: char)
    requires
        n < 16,
    ensures
        c == hex_digit(n as int),
{
    if n < 10 {
        ((48 + n) as u8) as char
    } else {
        ((87 + n) as u8) as char
    }
}

fn nibble(c: char) -> (r: Option<u8>)
    ensures
        match r {
            Some(v) => nibble_value(c) == Some(v as int),
            None => nibble_value(c) is None,
        },
{
    if '0' <= c && c <= '9' {
        Some(((c as u32) - 48) as u8)
    } else if 'a' <= c && c <= 'f' {
        Some(((c as u32) - 87) as u8)
    } else if 'A' <= c && c <= 'F' {
        Some(((c as u32) - 55) as u8)
    } else {
        None
    }
}

/// Hex-encode a key as 64 lowercase ASCII characters.
pub fn hex_encode(key: &DedupKey) -> (out: String)
    ensures
        out@ == hex_of(key@),
{
    let mut out = String::new();
    let mut i: usize = 0;
    while i < 32
        invariant
            i <= 32,
            out@ == hex_of(key@).take(2 * i),
        decreases 32 - i,
    {
        let b = key[i];
        proof {
            assert(b >> 4 == b / 16) by (bit_vector);
            assert(b & 0x0f == b % 16) by (bit_vector);
        }
        push_char(&mut out, nibble_to_hex(b >> 4));
        push_char(&mut out, nibble_to_hex(b & 0x0f));
        proof {
            assert(out@ =~= hex_of(key@).take(2 * (i + 1)));
        }
        i = i + 1;
    }
    assert(hex_of(key@).take(64) =~= hex_of(key@));
    out
}

/// Hex-encode a [`DedupKey`] as 64 lowercase ASCII characters. Callers stamp
/// this into per-entry metadata so the dedup decision survives in the
/// archive.
pub fn hex_encode_key(key: &DedupKey) -> (out: String)
    ensures
        out@ == hex_of(key@),
{
    hex_encode(key)
}

/// Decode 64 hex digits (of either case) into a key; any other text yields
/// `None`.
pub fn hex_decode(hex: &str) -> (r: Option<DedupKey>)
    ensures
        match r {
            Some(k) => hex_key(hex@) == Some(k@),
            None => hex_key(hex@) is None,
        },
{
    let cs = chars_of(hex);
    if cs.len() != 64 {
        return None;
    }
    let mut out: [u8; 32] = [0u8; 32];
    let mut i: usize = 0;
    while i < 32
        invariant
            i <= 32,
            cs@ == hex@,
            cs@.len() == 64,
            forall|j: int| 0 <= j < 2 * i ==> (#[trigger] nibble_value(cs@[j])) is Some,
            forall|j: int|
                0 <= j < i ==> out@[j] == (nibble_value(cs@[2 * j]).unwrap() * 16 + nibble_value(
                    cs@[2 * j + 1],
                ).unwrap()) as u8,
        decreases 32 - i,
    {
        let hi = match nibble(cs[2 * i]) {
            Some(v) => v,
            None => {
                return None;
            },
        };
        let lo = match nibble(cs[2 * i + 1]) {
            Some(v) => v,
            None => {
                return None;
            },
        };
        proof {
            assert(nibble_value(cs@[2 * i as int]) is Some);
        }
        out[i] = (hi << 4) | lo;
        proof {
            assert(hi < 16 && lo < 16 ==> (hi << 4) | lo == hi * 16 + lo) by (bit_vector);
        }
        i = i + 1;
    }
    proof {
        let k = hex_key(hex@);
        assert(k is Some);
        assert(k.unwrap() =~= out@);
    }
    Some(out)
}

// ---------------------------------------------------------------------------
// Lexicographic order of strings
// ---------------------------------------------------------------------------

/// The order of `str` and `String`: lexicographic by character.
pub open spec fn lex_lt(a: Seq<char>, b: Seq<char>) -> bool
    decreases a.len(),
{
    if a.len() == 0 {
        b.len() > 0
    } else if b.len() == 0 {
        false
    } else if a[0] < b[0] {
        true
    } else if a[0] == b[0] {
        lex_lt(a.drop_first(), b.drop_first())
    } else {
        false
    }
}

fn lex_less(a: &Vec<char>, b: &Vec<char>) -> (r: bool)
    ensures
        r == lex_lt(a@, b@),
{
    let mut i: usize = 0;
    assert(a@.skip(0) =~= a@ && b@.skip(0) =~= b@);
    while i < a.len() && i < b.len() && a[i] == b[i]
        invariant
            i <= a@.len(),
            i <= b@.len(),
            a@.take(i as int) == b@.take(i as int),
            lex_lt(a@, b@) == lex_lt(a@.skip(i as int), b@.skip(i as int)),
        decreases a.len() - i,
    {
        proof {
            assert(a@.skip(i as int).drop_first() =~= a@.skip(i + 1));
            assert(b@.skip(i as int).drop_first() =~= b@.skip(i + 1));
            assert(a@.take(i + 1) =~= a@.take(i as int).push(a@[i as int]));
            assert(b@.take(i + 1) =~= b@.take(i as int).push(b@[i as int]));
        }
        i = i + 1;
    }
    if i == a.len() {
        i < b.len()
    } else if i == b.len() {
        false
    } else {
        a[i] < b[i]
    }
}

pub(crate) proof fn lemma_lex_lt_irreflexive(a: Seq<char>)
    ensures
        !lex_lt(a, a),
    decreases a.len(),
{
    if a.len() > 0 {
        lemma_lex_lt_irreflexive(a.drop_first());
    }
}

proof fn lemma_lex_lt_asymmetric(a: Seq<char>, b: Seq<char>)
    ensures
        lex_lt(a, b) ==> !lex_lt(b, a),
    decreases a.len(),
{
    if a.len() > 0 && b.len() > 0 && a[0] == b[0] {
        lemma_lex_lt_asymmetric(a.drop_first(), b.drop_first());
    }
}

proof fn lemma_lex_lt_transitive(a: Seq<char>, b: Seq<char>, c: Seq<char>)
    ensures
        lex_lt(a, b) && lex_lt(b, c) ==> lex_lt(a, c),
    decreases a.len(),
{
    if a.len() > 0 && b.len() > 0 && c.len() > 0 {
        lemma_lex_lt_transitive(a.drop_first(), b.drop_first(), c.drop_first());
    }
}

proof fn lemma_seq_first_rest_eq(a: Seq<char>, b: Seq<char>)
    requires
        a.len() > 0,
        b.len() > 0,
        a[0] == b[0],
        a.drop_first() == b.drop_first(),
    ensures
        a == b,
{
    assert(a.drop_first().len() == a.len() - 1);
    assert(b.drop_first().len() == b.len() - 1);
    assert(a.len() == b.len());
    assert forall|i: int| 0 <= i < a.len() implies a[i] == b[i] by {
        if i > 0 {
            assert(a[i] == a.drop_first()[i - 1]);
            assert(b[i] == b.drop_first()[i - 1]);
        }
    }
    assert(a =~= b);
}

/// A common prefix does not change the order.
pub(crate) proof fn lemma_lex_lt_common_prefix(p: Seq<char>, x: Seq<char>, y: Seq<char>)
    ensures
        lex_lt(p + x, p + y) == lex_lt(x, y),
    decreases p.len(),
{
    if p.len() > 0 {
        assert((p + x)[0] == p[0]);
        assert((p + y)[0] == p[0]);
        assert((p + x).drop_first() =~= p.drop_first() + x);
        assert((p + y).drop_first() =~= p.drop_first() + y);
        lemma_lex_lt_common_prefix(p.drop_first(), x, y);
    } else {
        assert(p + x =~= x);
        assert(p + y =~= y);
    }
}

proof fn lemma_lex_lt_total(a: Seq<char>, b: Seq<char>)
    ensures
        a != b ==> lex_lt(a, b) || lex_lt(b, a),
    decreases a.len(),
{
    if a.len() > 0 && b.len() > 0 {
        lemma_lex_lt_total(a.drop_first(), b.drop_first());
        if a[0] == b[0] && a.drop_first() == b.drop_first() {
            lemma_seq_first_rest_eq(a, b);
        }
    } else if a.len() == 0 && b.len() == 0 {
        assert(a =~= b);
    }
}

/// String order as a strict order on character sequences.
pub open spec fn lex_before() -> spec_fn(Seq<char>, Seq<char>) -> bool {
    |a: Seq<char>, b: Seq<char>| lex_lt(a, b)
}

/// The string order is a strict order.
pub proof fn lemma_lex_order_strict()
    ensures
        crate::retention_laws::strict_order(lex_before()),
{
    assert forall|a: Seq<char>, b: Seq<char>| #[trigger] lex_before()(a, b) implies !lex_before()(b, a) by {
        lemma_lex_lt_asymmetric(a, b);
    }
    assert forall|a: Seq<char>, b: Seq<char>, c: Seq<char>|
        #[trigger] lex_before()(a, b) && #[trigger] lex_before()(b, c) implies lex_before()(a, c) by {
        lemma_lex_lt_transitive(a, b, c);
    }
}

// ---------------------------------------------------------------------------
// Laws of the hex encoding
// ---------------------------------------------------------------------------

proof fn lemma_hex_digit_nibble(n: int)
    requires
        0 <= n < 16,
    ensures
        nibble_value(hex_digit(n)) == Some(n),
{
}

/// Decoding the hex text of a 32-byte key gives back the key.
pub proof fn lemma_hex_round_trip(key: Seq<u8>)
    requires
        key.len() == 32,
    ensures
        hex_key(hex_of(key)) == Some(key),
{
    let h = hex_of(key);
    assert forall|i: int| 0 <= i < 64 implies (#[trigger] nibble_value(h[i])) is Some by {
        lemma_hex_digit_nibble((key[i / 2] / 16) as int);
        lemma_hex_digit_nibble((key[i / 2] % 16) as int);
    }
    assert forall|i: int| 0 <= i < 32 implies (nibble_value(h[2 * i]).unwrap() * 16 + nibble_value(
        h[2 * i + 1],
    ).unwrap()) as u8 == key[i] by {
        assert((2 * i) / 2 == i);
        assert((2 * i + 1) / 2 == i);
        lemma_hex_digit_nibble((key[i] / 16) as int);
        lemma_hex_digit_nibble((key[i] % 16) as int);
    }
    assert(hex_key(h).unwrap() =~= key);
}

/// The ASCII uppercase of a character; other characters stay as they are.
pub open spec fn ascii_upper(c: char) -> char {
    if 'a' <= c && c <= 'z' {
        (c as int - 32) as char
    } else {
        c
    }
}

proof fn lemma_upper_hex_digit_nibble(n: int)
    requires
        0 <= n < 16,
    ensures
        nibble_value(ascii_upper(hex_digit(n))) == Some(n),
{
}

/// Decoding the uppercase hex text of a 32-byte key also gives back the key.
pub proof fn lemma_upper_hex_round_trip(key: Seq<u8>)
    requires
        key.len() == 32,
    ensures
        hex_key(hex_of(key).map_values(|c: char| ascii_upper(c))) == Some(key),
{
    let h = hex_of(key).map_values(|c: char| ascii_upper(c));
    assert forall|i: int| 0 <= i < 64 implies (#[trigger] nibble_value(h[i])) is Some by {
        lemma_upper_hex_digit_nibble((key[i / 2] / 16) as int);
        lemma_upper_hex_digit_nibble((key[i / 2] % 16) as int);
    }
    assert forall|i: int| 0 <= i < 32 implies (nibble_value(h[2 * i]).unwrap() * 16 + nibble_value(
        h[2 * i + 1],
    ).unwrap()) as u8 == key[i] by {
        assert((2 * i) / 2 == i);
        assert((2 * i + 1) / 2 == i);
        lemma_upper_hex_digit_nibble((key[i] / 16) as int);
        lemma_upper_hex_digit_nibble((key[i] % 16) as int);
    }
    assert(hex_key(h).unwrap() =~= key);
}

/// Hex texts of 32-byte keys differ when the keys differ.
pub proof fn lemma_hex_injective(a: Seq<u8>, b: Seq<u8>)
    requires
        a.len() == 32,
        b.len() == 32,
        hex_of(a) == hex_of(b),
    ensures
        a == b,
{
    lemma_hex_round_trip(a);
    lemma_hex_round_trip(b);
}

// ---------------------------------------------------------------------------
// The dedup set
// ---------------------------------------------------------------------------

fn key_eq(a: &DedupKey, b: &DedupKey) -> (r: bool)
    ensures
        r == (a@ == b@),
{
    let mut i: usize = 0;
    while i < 32
        invariant
            i <= 32,
            forall|j: int| 0 <= j < i ==> a@[j] == b@[j],
        decreases 32 - i,
    {
        if a[i] != b[i] {
            return false;
        }
        i = i + 1;
    }
    assert(a@ =~= b@);
    true
}

/// The keys that a snapshot lists: those spelled by its well-formed entries.
pub open spec fn snapshot_keys(hexes: Seq<Seq<char>>) -> Set<Seq<u8>> {
    Set::new(|k: Seq<u8>| exists|i: int| 0 <= i < hexes.len() && hex_key(hexes[i]) == Some(k))
}

/// In-memory set of dedup keys with snapshot / restore for opt-in
/// cross-process persistence.
///
/// The set lives in the hook or compactor that owns it, so it takes `&mut`
/// for writes; no lock is held, and the `Result`s keep the shape of a
/// locked set's API without ever failing.
#[derive(Debug)]
pub struct DedupSet {
    seen: Vec<DedupKey>,
}

impl View for DedupSet {
    type V = Set<Seq<u8>>;

    closed spec fn view(&self) -> Set<Seq<u8>> {
        self.seen@.map_values(|k: DedupKey| k@).to_set()
    }
}

impl Clone for DedupSet {
    fn clone(&self) -> (c: Self)
        ensures
            c@ == self@,
    {
        proof {
            use_type_invariant(self);
        }
        let mut seen: Vec<DedupKey> = Vec::new();
        let mut i: usize = 0;
        while i < self.seen.len()
            invariant
                i <= self.seen@.len(),
                seen@ == self.seen@.take(i as int),
            decreases self.seen.len() - i,
        {
            seen.push(self.seen[i]);
            assert(seen@ =~= self.seen@.take(i + 1));
            i = i + 1;
        }
        assert(seen@ =~= self.seen@);
        DedupSet { seen }
    }
}

impl Default for DedupSet {
    fn default() -> (s: Self)
        ensures
            s@ == Set::<Seq<u8>>::empty(),
    {
        DedupSet::new()
    }
}

impl DedupSet {
    #[verifier::type_invariant]
    spec fn distinct_keys(self) -> bool {
        self.seen@.map_values(|k: DedupKey| k@).no_duplicates()
    }

    /// Every recorded key is 32 bytes long, and the set is finite.
    pub proof fn lemma_keys_are_32_bytes(&self)
        ensures
            self@.finite(),
            forall|k: Seq<u8>| #[trigger] self@.contains(k) ==> k.len() == 32,
    {
        let v = self.seen@.map_values(|k: DedupKey| k@);
        assert forall|k: Seq<u8>| #[trigger] self@.contains(k) implies k.len() == 32 by {
            assert(v.contains(k));
            let i = choose|i: int| 0 <= i < v.len() && v[i] == k;
            assert(v[i] == self.seen@[i]@);
        }
    }

    /// Construct an empty set.
    pub fn new() -> (s: Self)
        ensures
            s@ == Set::<Seq<u8>>::empty(),
    {
        let s = DedupSet { seen: Vec::new() };
        assert(s.seen@.map_values(|k: DedupKey| k@).to_set() =~= Set::<Seq<u8>>::empty());
        s
    }

    fn position(&self, key: &DedupKey) -> (found: bool)
        ensures
            found == self@.contains(key@),
    {
        let ghost v = self.seen@.map_values(|k: DedupKey| k@);
        let mut i: usize = 0;
        while i < self.seen.len()
            invariant
                i <= self.seen@.len(),
                v == self.seen@.map_values(|k: DedupKey| k@),
                forall|j: int| 0 <= j < i ==> v[j] != key@,
            decreases self.seen.len() - i,
        {
            if key_eq(&self.seen[i], key) {
                assert(v[i as int] == key@);
                assert(v.contains(key@));
                return true;
            }
            i = i + 1;
        }
        assert(!v.contains(key@));
        false
    }

    /// Returns `true` if `key` has already been recorded.
    pub fn contains(&self, key: &DedupKey) -> (r: Result<bool, PolicyError>)
        ensures
            r == Ok::<bool, PolicyError>(self@.contains(key@)),
    {
        Ok(self.position(key))
    }

    /// Record `key` as seen. Idempotent.
    pub fn insert(&mut self, key: DedupKey) -> (r: Result<(), PolicyError>)
        ensures
            r is Ok,
            final(self)@ == old(self)@.insert(key@),
            final(self)@.contains(key@),
    {
        proof {
            use_type_invariant(&*self);
        }
        if self.position(&key) {
            assert(self@.insert(key@) =~= self@);
            return Ok(());
        }
        let ghost before = self.seen@.map_values(|k: DedupKey| k@);
        let mut seen: Vec<DedupKey> = Vec::new();
        std::mem::swap(&mut seen, &mut self.seen);
        seen.push(key);
        proof {
            let after = seen@.map_values(|k: DedupKey| k@);
            assert(after =~= before.push(key@));
            assert(!before.contains(key@));
            assert forall|a: int, b: int| 0 <= a < after.len() && 0 <= b < after.len() && a != b implies after[a] != after[b] by {
                if a == after.len() - 1 {
                    assert(before.contains(after[b]) || b == a);
                } else if b == after.len() - 1 {
                    assert(before.contains(after[a]));
                }
            }
        }
        self.seen = seen;
        proof {
            let after = self.seen@.map_values(|k: DedupKey| k@);
            assert(after =~= before.push(key@));
            assert forall|x: Seq<u8>| after.contains(x) <==> (before.contains(x) || x == key@) by {
                if after.contains(x) {
                    let i = choose|i: int| 0 <= i < after.len() && after[i] == x;
                    if i < before.len() {
                        assert(before[i] == x);
                    }
                }
                if before.contains(x) {
                    let i = choose|i: int| 0 <= i < before.len() && before[i] == x;
                    assert(after[i] == x);
                }
                if x == key@ {
                    assert(after[before.len() as int] == x);
                }
            }
            assert(after.to_set() =~= before.to_set().insert(key@));
        }
        Ok(())
    }

    /// Number of recorded keys.
    pub fn len(&self) -> (r: Result<usize, PolicyError>)
        ensures
            r == Ok::<usize, PolicyError>(self@.len() as usize),
            self@.len() <= usize::MAX,
    {
        proof {
            use_type_invariant(self);
            let v = self.seen@.map_values(|k: DedupKey| k@);
            v.unique_seq_to_set();
        }
        Ok(self.seen.len())
    }

    /// Snapshot the current set as the sorted list of the hex-encoded keys,
    /// suitable for writing to a sidecar file.
    pub fn snapshot(&self) -> (r: Result<Vec<String>, PolicyError>)
        ensures
            r matches Ok(out) && {
                let v = out@.map_values(|s: String| s@);
                &&& v.len() == self@.len()
                &&& v.to_set() == self@.map(|k: Seq<u8>| hex_of(k))
                &&& forall|i: int, j: int| 0 <= i < j < v.len() ==> lex_lt(#[trigger] v[i], #[trigger] v[j])
            },
    {
        proof {
            use_type_invariant(self);
        }
        let ghost keys = self.seen@.map_values(|k: DedupKey| k@);
        let ghost hexes = keys.map_values(|k: Seq<u8>| hex_of(k));
        let ghost before = lex_before();
        // Encode every key.
        let mut encoded: Vec<Vec<char>> = Vec::new();
        let mut i: usize = 0;
        while i < self.seen.len()
            invariant
                i <= self.seen@.len(),
                keys == self.seen@.map_values(|k: DedupKey| k@),
                hexes == keys.map_values(|k: Seq<u8>| hex_of(k)),
                encoded@.map_values(|v: Vec<char>| v@) == hexes.take(i as int),
            decreases self.seen.len() - i,
        {
            let h = hex_encode(&self.seen[i]);
            let cs = chars_of(h.as_str());
            let ghost prev = encoded@.map_values(|v: Vec<char>| v@);
            assert(keys[i as int] == self.seen@[i as int]@);
            assert(hexes[i as int] == cs@);
            encoded.push(cs);
            assert(encoded@.map_values(|v: Vec<char>| v@) =~= prev.push(cs@));
            assert(hexes.take(i + 1) =~= hexes.take(i as int).push(hexes[i as int]));
            i = i + 1;
        }
        assert(hexes.take(hexes.len() as int) =~= hexes);
        // Sort them by string order (stable insertion sort).
        let mut sorted: Vec<Vec<char>> = Vec::new();
        let mut i: usize = 0;
        while i < encoded.len()
            invariant
                i <= encoded@.len(),
                encoded@.map_values(|v: Vec<char>| v@) == hexes,
                sorted@.map_values(|v: Vec<char>| v@) == stable_sort(hexes.take(i as int), before),
                before == lex_before(),
            decreases encoded.len() - i,
        {
            let x = encoded[i].clone();
            let ghost sv = sorted@.map_values(|v: Vec<char>| v@);
            let mut p: usize = 0;
            while p < sorted.len() && !lex_less(&x, &sorted[p])
                invariant
                    p <= sorted@.len(),
                    sv == sorted@.map_values(|v: Vec<char>| v@),
                    forall|k: int| 0 <= k < p ==> !before(x@, #[trigger] sv[k]),
                    before == lex_before(),
                decreases sorted.len() - p,
            {
                p = p + 1;
            }
            proof {
                crate::retention::lemma_insert_pos_is(sv, x@, before, p as int);
                assert(hexes.take(i + 1).drop_last() =~= hexes.take(i as int));
                assert(x@ == hexes[i as int]);
            }
            sorted.insert(p, x);
            assert(sorted@.map_values(|v: Vec<char>| v@) =~= sv.insert(p as int, x@));
            i = i + 1;
        }
        assert(hexes.take(hexes.len() as int) =~= hexes);
        // Turn them into strings.
        let ghost sv = sorted@.map_values(|v: Vec<char>| v@);
        let mut out: Vec<String> = Vec::new();
        let mut j: usize = 0;
        while j < sorted.len()
            invariant
                j <= sorted@.len(),
                sv == sorted@.map_values(|v: Vec<char>| v@),
                out@.map_values(|s: String| s@) == sv.take(j as int),
            decreases sorted.len() - j,
        {
            let s = string_of_range(&sorted[j], 0, sorted[j].len());
            assert(sorted@[j as int]@.subrange(0, sorted@[j as int]@.len() as int) =~= sorted@[j as int]@);
            let ghost prev = out@.map_values(|s: String| s@);
            assert(s@ == sv[j as int]);
            out.push(s);
            assert(out@.map_values(|s: String| s@) =~= prev.push(sv[j as int]));
            assert(sv.take(j + 1) =~= sv.take(j as int).push(sv[j as int]));
            j = j + 1;
        }
        assert(sv.take(sv.len() as int) =~= sv);
        proof {
            lemma_snapshot_order(keys, self@);
        }
        Ok(out)
    }

    /// Replay a snapshot produced by [`Self::snapshot`] into this set.
    /// Entries that are not 64 hex digits are skipped.
    pub fn extend_from_snapshot(&mut self, hexes: &[String]) -> (r: Result<(), PolicyError>)
        ensures
            r is Ok,
            final(self)@ == old(self)@.union(snapshot_keys(hexes@.map_values(|h: String| h@))),
    {
        let ghost hv = hexes@.map_values(|h: String| h@);
        let ghost start = self@;
        let mut i: usize = 0;
        while i < hexes.len()
            invariant
                i <= hexes@.len(),
                hv == hexes@.map_values(|h: String| h@),
                self@ == start.union(snapshot_keys(hv.take(i as int))),
            decreases hexes.len() - i,
        {
            let decoded = hex_decode(hexes[i].as_str());
            let ghost before = self@;
            match decoded {
                Some(key) => {
                    let _ = self.insert(key);
                },
                None => {},
            }
            proof {
                let t = hv.take(i + 1);
                assert(t.drop_last() =~= hv.take(i as int));
                assert(t[i as int] == hexes@[i as int]@);
                assert forall|k: Seq<u8>| snapshot_keys(t).contains(k) == (snapshot_keys(
                    hv.take(i as int),
                ).contains(k) || hex_key(t[i as int]) == Some(k)) by {
                    if snapshot_keys(t).contains(k) {
                        let j = choose|j: int| 0 <= j < t.len() && hex_key(t[j]) == Some(k);
                        if j < i {
                            assert(hv.take(i as int)[j] == t[j]);
                        }
                    }
                    if snapshot_keys(hv.take(i as int)).contains(k) {
                        let j = choose|j: int| 0 <= j < i && hex_key(hv.take(i as int)[j]) == Some(k);
                        assert(t[j] == hv.take(i as int)[j]);
                    }
                }
                assert(self@ =~= start.union(snapshot_keys(t)));
            }
            i = i + 1;
        }
        assert(hv.take(hexes@.len() as int) =~= hv);
        Ok(())
    }
}

/// The sorted hex texts of a list of distinct 32-byte keys are strictly
/// increasing and name exactly the keys.
proof fn lemma_snapshot_order(keys: Seq<Seq<u8>>, set: Set<Seq<u8>>)
    requires
        keys.no_duplicates(),
        set == keys.to_set(),
        forall|i: int| 0 <= i < keys.len() ==> (#[trigger] keys[i]).len() == 32,
    ensures
        ({
            let v = stable_sort(keys.map_values(|k: Seq<u8>| hex_of(k)), lex_before());
            &&& v.len() == set.len()
            &&& v.to_set() == set.map(|k: Seq<u8>| hex_of(k))
            &&& forall|i: int, j: int| 0 <= i < j < v.len() ==> lex_lt(#[trigger] v[i], #[trigger] v[j])
        }),
{
    broadcast use vstd::seq_lib::group_to_multiset_ensures;
    broadcast use vstd::multiset::group_multiset_axioms;

    let hexes = keys.map_values(|k: Seq<u8>| hex_of(k));
    let v = stable_sort(hexes, lex_before());
    lemma_stable_sort_permutes(hexes, lex_before());
    lemma_lex_order_strict();
    lemma_stable_sort_sorted(hexes, lex_before());
    keys.unique_seq_to_set();
    // The hex texts are distinct, and so is their sorted order.
    assert forall|a: int, b: int| 0 <= a < hexes.len() && 0 <= b < hexes.len() && a != b implies hexes[a]
        != hexes[b] by {
        if hexes[a] == hexes[b] {
            lemma_hex_injective(keys[a], keys[b]);
        }
    }
    assert(hexes.no_duplicates());
    hexes.lemma_multiset_has_no_duplicates();
    assert forall|x: Seq<char>| v.to_multiset().contains(x) implies v.to_multiset().count(x) == 1 by {
        assert(hexes.to_multiset().contains(x));
    }
    v.lemma_multiset_has_no_duplicates_conv();
    assert forall|i: int, j: int| 0 <= i < j < v.len() implies lex_lt(#[trigger] v[i], #[trigger] v[j]) by {
        assert(!lex_before()(v[j], v[i]));
        lemma_lex_lt_total(v[i], v[j]);
    }
    // They name exactly the keys of the set.
    assert forall|x: Seq<char>| v.to_set().contains(x) <==> set.map(|k: Seq<u8>| hex_of(k)).contains(x) by {
        assert(v.contains(x) <==> v.to_multiset().count(x) > 0);
        assert(hexes.contains(x) <==> hexes.to_multiset().count(x) > 0);
        if hexes.contains(x) {
            let i = choose|i: int| 0 <= i < hexes.len() && hexes[i] == x;
            assert(set.contains(keys[i]));
        }
        if set.map(|k: Seq<u8>| hex_of(k)).contains(x) {
            let k = choose|k: Seq<u8>| set.contains(k) && hex_of(k) == x;
            assert(keys.contains(k));
            let i = choose|i: int| 0 <= i < keys.len() && keys[i] == k;
            assert(hexes[i] == x);
        }
    }
    assert(v.to_set() =~= set.map(|k: Seq<u8>| hex_of(k)));
}

/// Replaying a snapshot restores the set it was taken of: the keys that a
/// list of hex texts of 32-byte keys names are those keys.
pub proof fn lemma_snapshot_keys_round_trip(set: Set<Seq<u8>>, hexes: Seq<Seq<char>>)
    requires
        forall|k: Seq<u8>| #[trigger] set.contains(k) ==> k.len() == 32,
        hexes.to_set() == set.map(|k: Seq<u8>| hex_of(k)),
    ensures
        snapshot_keys(hexes) == set,
{
    assert forall|k: Seq<u8>| snapshot_keys(hexes).contains(k) <==> set.contains(k) by {
        if snapshot_keys(hexes).contains(k) {
            let i = choose|i: int| 0 <= i < hexes.len() && hex_key(hexes[i]) == Some(k);
            assert(hexes.to_set().contains(hexes[i]));
            let k2 = choose|k2: Seq<u8>| set.contains(k2) && hex_of(k2) == hexes[i];
            lemma_hex_round_trip(k2);
        }
        if set.contains(k) {
            assert(set.map(|k: Seq<u8>| hex_of(k)).contains(hex_of(k)));
            assert(hexes.to_set().contains(hex_of(k)));
            let i = choose|i: int| 0 <= i < hexes.len() && hexes[i] == hex_of(k);
            lemma_hex_round_trip(k);
        }
    }
    assert(snapshot_keys(hexes) =~= set);
}

// ---------------------------------------------------------------------------
// Near-duplicate detection
// ---------------------------------------------------------------------------

/// The tokens of a text: its whitespace-delimited words trimmed of leading
/// and trailing non-alphanumeric characters, empty ones dropped, in order.
pub open spec fn text_tokens(s: Seq<char>) -> Seq<Seq<char>> {
    nonempty_trimmed(
        split_pieces(s, sep_pred(Separator::Whitespace)),
        strip_pred(Strip::NonAlphanumeric),
    )
}

/// Every Unicode `White_Space` character separates tokens: the tokens of
/// `x`, one whitespace character and `y` are the tokens of `x` followed by
/// the tokens of `y`.
pub proof fn lemma_whitespace_separates_tokens(x: Seq<char>, c: char, y: Seq<char>)
    requires
        c == '\t' || c == '\n' || c == '\u{b}' || c == '\u{c}' || c == '\r' || c == ' ' || c == '\u{85}' || c == '\u{a0}'
            || c == '\u{1680}' || ('\u{2000}' <= c && c <= '\u{200a}') || c == '\u{2028}' || c == '\u{2029}'
            || c == '\u{202f}' || c == '\u{205f}' || c == '\u{3000}',
    ensures
        text_tokens(x.push(c) + y) == text_tokens(x) + text_tokens(y),
{
    let sep = sep_pred(Separator::Whitespace);
    assert(sep(c));
    lemma_split_pieces_concat(x, c, y, sep);
    lemma_nonempty_trimmed_concat(
        split_pieces(x, sep),
        split_pieces(y, sep),
        strip_pred(Strip::NonAlphanumeric),
    );
}

/// The little-endian value of a byte string.
pub open spec fn le_value(b: Seq<u8>) -> nat
    decreases b.len(),
{
    if b.len() == 0 {
        0
    } else {
        b[0] as nat + 256 * le_value(b.drop_first())
    }
}

/// The 64-bit hash of a token: the first eight bytes, little-endian, of
/// the BLAKE3 hash of its lowercase UTF-8 bytes.
pub open spec fn token_hash(t: Seq<char>) -> u64 {
    lowered_hash(lowercase(t))
}

/// The 64-bit hash of an already lowercase token.
pub open spec fn lowered_hash(l: Seq<char>) -> u64 {
    le_value(blake3_digest(encode_utf8(l)).take(8)) as u64
}

/// The tokens of a text, lowercased, in order.
pub open spec fn lowered_tokens(s: Seq<char>) -> Seq<Seq<char>> {
    text_tokens(s).map_values(|t: Seq<char>| lowercase(t))
}

/// Whether bit `b` of `x` is set.
pub open spec fn bit_set(x: u64, b: u64) -> bool {
    (x >> b) & 1 == 1
}

/// The SimHash column of bit `b`: one up for every hash with the bit set,
/// one down for every hash without it.
pub open spec fn column(hashes: Seq<u64>, b: u64) -> int
    decreases hashes.len(),
{
    if hashes.len() == 0 {
        0
    } else {
        column(hashes.drop_last(), b) + if bit_set(hashes.last(), b) {
            1int
        } else {
            -1int
        }
    }
}

/// The hashes of a sequence of tokens, in order.
pub open spec fn hashes_of(tokens: Seq<Seq<char>>) -> Seq<u64> {
    tokens.map_values(|t: Seq<char>| token_hash(t))
}

/// The token hashes of a text, in order.
pub open spec fn text_hashes(s: Seq<char>) -> Seq<u64> {
    hashes_of(text_tokens(s))
}

/// The low `n` bits of the fingerprint of `hashes`: bit `b` is set exactly
/// when column `b` is positive.
pub open spec fn fingerprint_below(hashes: Seq<u64>, n: nat) -> u64
    decreases n,
{
    if n == 0 {
        0
    } else {
        let rest = fingerprint_below(hashes, (n - 1) as nat);
        if column(hashes, (n - 1) as u64) > 0 {
            rest | (1u64 << ((n - 1) as u64))
        } else {
            rest
        }
    }
}

/// The SimHash fingerprint of a sequence of token hashes.
pub open spec fn simhash_of(hashes: Seq<u64>) -> u64 {
    fingerprint_below(hashes, 64)
}

/// The number of set bits of `x` below bit `n`.
pub open spec fn ones_below(x: u64, n: nat) -> nat
    decreases n,
{
    if n == 0 {
        0
    } else {
        ones_below(x, (n - 1) as nat) + if bit_set(x, (n - 1) as u64) {
            1nat
        } else {
            0nat
        }
    }
}

/// `u64::count_ones`: the number of set bits.
pub open spec fn popcount(x: u64) -> nat {
    ones_below(x, 64)
}

/// `256` to the power `n`.
pub open spec fn pow256(n: nat) -> nat
    decreases n,
{
    if n == 0 {
        1
    } else {
        256 * pow256((n - 1) as nat)
    }
}

proof fn lemma_le_value_bound(b: Seq<u8>)
    ensures
        le_value(b) < pow256(b.len()),
    decreases b.len(),
{
    if b.len() > 0 {
        lemma_le_value_bound(b.drop_first());
        let rest = le_value(b.drop_first());
        let p = pow256((b.len() - 1) as nat);
        assert(b[0] as nat + 256 * rest < 256 * p) by (nonlinear_arith)
            requires
                b[0] < 256,
                rest < p,
        ;
    }
}

fn le_u64(b: &[u8; 32]) -> (h: u64)
    ensures
        h == le_value(b@.take(8)) as u64,
        le_value(b@.take(8)) < 0x1_0000_0000_0000_0000,
{
    let ghost t = b@.take(8);
    proof {
        lemma_le_value_bound(t);
        assert(pow256(0) == 1);
        assert(pow256(1) == 0x100);
        assert(pow256(2) == 0x1_0000);
        assert(pow256(3) == 0x100_0000);
        assert(pow256(4) == 0x1_0000_0000);
        assert(pow256(5) == 0x100_0000_0000);
        assert(pow256(6) == 0x1_0000_0000_0000);
        assert(pow256(7) == 0x100_0000_0000_0000);
        assert(pow256(8) == 0x1_0000_0000_0000_0000);
    }
    let mut h: u64 = 0;
    let mut i: usize = 8;
    while i > 0
        invariant
            i <= 8,
            t == b@.take(8),
            h as nat == le_value(t.skip(i as int)),
            le_value(t.skip(i as int)) < pow256((8 - i) as nat),
            le_value(t) < 0x1_0000_0000_0000_0000,
        decreases i,
    {
        let ghost rest = t.skip(i as int);
        assert(t.skip(i - 1).drop_first() =~= rest);
        proof {
            lemma_le_value_bound(t.skip(i - 1));
            lemma_le_value_nonincreasing_suffix(t, (i - 1) as int);
        }
        h = h * 256 + (b[i - 1] as u64);
        i = i - 1;
    }
    assert(t.skip(0) =~= t);
    h
}

proof fn lemma_le_value_nonincreasing_suffix(t: Seq<u8>, i: int)
    requires
        0 <= i <= t.len(),
    ensures
        le_value(t.skip(i)) <= le_value(t),
    decreases i,
{
    if i > 0 {
        lemma_le_value_nonincreasing_suffix(t.drop_first(), i - 1);
        assert(t.drop_first().skip(i - 1) =~= t.skip(i));
        let r = le_value(t.drop_first());
        assert(t.len() > 0);
        assert(t[0] as nat + 256 * r >= r) by (nonlinear_arith);
        assert(le_value(t) == t[0] as nat + 256 * r);
        assert(le_value(t.drop_first().skip(i - 1)) <= r);
        assert(le_value(t.skip(i)) == le_value(t.drop_first().skip(i - 1)));
    } else {
        assert(t.skip(0) =~= t);
    }
}

proof fn lemma_bit_or(x: u64, k: u64, j: u64)
    requires
        k < 64,
        j < 64,
    ensures
        bit_set(x | (1u64 << k), j) == (j == k || bit_set(x, j)),
{
    assert(((x | (1u64 << k)) >> j) & 1 == 1 <==> (j == k || (x >> j) & 1 == 1)) by (bit_vector)
        requires
            k < 64,
            j < 64,
    ;
}

proof fn lemma_zero_bits(j: u64)
    requires
        j < 64,
    ensures
        !bit_set(0, j),
{
    assert((0u64 >> j) & 1 != 1) by (bit_vector);
}

proof fn lemma_column_remove(h: Seq<u64>, i: int, k: u64)
    requires
        0 <= i < h.len(),
    ensures
        column(h, k) == column(h.remove(i), k) + if bit_set(h[i], k) {
            1int
        } else {
            -1int
        },
    decreases h.len(),
{
    if i == h.len() - 1 {
        assert(h.remove(i) =~= h.drop_last());
    } else {
        lemma_column_remove(h.drop_last(), i, k);
        assert(h.remove(i).drop_last() =~= h.drop_last().remove(i));
        assert(h.remove(i).last() == h.last());
        assert(h.drop_last()[i] == h[i]);
    }
}

/// A column counts the hashes regardless of their order.
proof fn lemma_column_permutation(t1: Seq<Seq<char>>, t2: Seq<Seq<char>>, k: u64)
    requires
        t1.to_multiset() == t2.to_multiset(),
    ensures
        column(t1.map_values(|l: Seq<char>| lowered_hash(l)), k) == column(
            t2.map_values(|l: Seq<char>| lowered_hash(l)),
            k,
        ),
    decreases t1.len(),
{
    broadcast use vstd::seq_lib::group_to_multiset_ensures;
    broadcast use vstd::multiset::group_multiset_axioms;

    let h1 = t1.map_values(|l: Seq<char>| lowered_hash(l));
    let h2 = t2.map_values(|l: Seq<char>| lowered_hash(l));
    if t1.len() == 0 {
        assert(t2.to_multiset().len() == 0);
        assert(h1 =~= Seq::<u64>::empty());
        assert(h2 =~= Seq::<u64>::empty());
    } else {
        let x = t1.last();
        let d1 = t1.drop_last();
        assert(t1 =~= d1.push(x));
        assert(t1.to_multiset() =~= d1.to_multiset().insert(x));
        assert(t2.to_multiset().count(x) > 0);
        assert(t2.contains(x));
        let i = choose|i: int| 0 <= i < t2.len() && t2[i] == x;
        let r2 = t2.remove(i);
        assert(r2.to_multiset() =~= t2.to_multiset().remove(x));
        assert(d1.to_multiset() =~= r2.to_multiset());
        lemma_column_permutation(d1, r2, k);
        assert(h1.drop_last() =~= d1.map_values(|l: Seq<char>| lowered_hash(l)));
        assert(h2.remove(i) =~= r2.map_values(|l: Seq<char>| lowered_hash(l)));
        lemma_column_remove(h2, i, k);
        assert(h1.last() == lowered_hash(x));
        assert(h2[i] == lowered_hash(x));
    }
}

proof fn lemma_fingerprint_congruent(h1: Seq<u64>, h2: Seq<u64>, n: nat)
    requires
        n <= 64,
        forall|k: u64| k < 64 ==> #[trigger] column(h1, k) == column(h2, k),
    ensures
        fingerprint_below(h1, n) == fingerprint_below(h2, n),
    decreases n,
{
    if n > 0 {
        lemma_fingerprint_congruent(h1, h2, (n - 1) as nat);
        assert(column(h1, (n - 1) as u64) == column(h2, (n - 1) as u64));
    }
}

/// SimHash ignores token order and case: texts whose lowercased tokens are
/// the same, counted with multiplicity, get the same fingerprint.
pub proof fn lemma_simhash_ignores_order(a: Seq<char>, b: Seq<char>)
    requires
        lowered_tokens(a).to_multiset() == lowered_tokens(b).to_multiset(),
    ensures
        simhash_of(text_hashes(a)) == simhash_of(text_hashes(b)),
{
    assert(text_hashes(a) =~= lowered_tokens(a).map_values(|l: Seq<char>| lowered_hash(l)));
    assert(text_hashes(b) =~= lowered_tokens(b).map_values(|l: Seq<char>| lowered_hash(l)));
    assert forall|k: u64| k < 64 implies #[trigger] column(text_hashes(a), k) == column(text_hashes(b), k) by {
        lemma_column_permutation(lowered_tokens(a), lowered_tokens(b), k);
    }
    lemma_fingerprint_congruent(text_hashes(a), text_hashes(b), 64);
}

proof fn lemma_xor_facts(x: u64, y: u64)
    by (bit_vector)
    ensures
        x ^ y == y ^ x,
        x ^ x == 0,
        (x ^ y == 0) == (x == y),
{
}

proof fn lemma_shift_down_zero(z: u64, n: u64)
    by (bit_vector)
    requires
        n < 63,
        z >> ((n + 1) as u64) == 0,
        (z >> n) & 1 != 1,
    ensures
        z >> n == 0,
{
}

proof fn lemma_top_bit(z: u64)
    by (bit_vector)
    requires
        (z >> 63u64) & 1 != 1,
    ensures
        z >> 63u64 == 0,
{
}

proof fn lemma_shift_zero(z: u64)
    by (bit_vector)
    ensures
        z >> 0u64 == z,
{
}

proof fn lemma_ones_below_zero(z: u64, n: nat)
    requires
        n <= 64,
    ensures
        ones_below(z, n) == 0 <==> forall|j: u64| j < n ==> !#[trigger] bit_set(z, j),
    decreases n,
{
    if n > 0 {
        lemma_ones_below_zero(z, (n - 1) as nat);
    }
}

/// A word with no bit set from `n` upward shifts down to zero.
proof fn lemma_high_bits_clear(z: u64, n: u64)
    requires
        n < 64,
        forall|j: u64| n <= j < 64 ==> !#[trigger] bit_set(z, j),
    ensures
        z >> n == 0,
    decreases 64 - n,
{
    if n == 63 {
        assert(!bit_set(z, 63));
        lemma_top_bit(z);
    } else {
        lemma_high_bits_clear(z, (n + 1) as u64);
        assert(!bit_set(z, n));
        lemma_shift_down_zero(z, n);
    }
}

/// The Hamming distance is symmetric, and zero exactly between equal
/// fingerprints.
pub proof fn lemma_hamming_distance_metric(x: u64, y: u64)
    ensures
        popcount(x ^ y) == popcount(y ^ x),
        popcount(x ^ y) == 0 <==> x == y,
{
    lemma_xor_facts(x, y);
    let z = x ^ y;
    lemma_ones_below_zero(z, 64);
    if popcount(z) == 0 {
        lemma_high_bits_clear(z, 0);
        lemma_shift_zero(z);
    } else if x == y {
        assert forall|j: u64| j < 64 implies !#[trigger] bit_set(z, j) by {
            lemma_zero_bits(j);
        }
    }
}

proof fn lemma_xor_bit_split(x: u64, y: u64, z: u64, j: u64)
    by (bit_vector)
    requires
        ((x ^ z) >> j) & 1 == 1,
    ensures
        ((x ^ y) >> j) & 1 == 1 || ((y ^ z) >> j) & 1 == 1,
{
}

proof fn lemma_ones_below_triangle(x: u64, y: u64, z: u64, n: nat)
    ensures
        ones_below(x ^ z, n) <= ones_below(x ^ y, n) + ones_below(y ^ z, n),
        ones_below(x, n) <= n,
    decreases n,
{
    if n > 0 {
        lemma_ones_below_triangle(x, y, z, (n - 1) as nat);
        if bit_set(x ^ z, (n - 1) as u64) {
            lemma_xor_bit_split(x, y, z, (n - 1) as u64);
        }
    }
}

/// The Hamming distance is at most 64 and obeys the triangle inequality.
pub proof fn lemma_hamming_distance_triangle(x: u64, y: u64, z: u64)
    ensures
        popcount(x ^ y) <= 64,
        popcount(x ^ z) <= popcount(x ^ y) + popcount(y ^ z),
{
    lemma_ones_below_triangle(x, y, z, 64);
    lemma_ones_below_triangle(x ^ y, y, z, 64);
}

/// A 64-bit SimHash fingerprint whose Hamming distance to another
/// approximates how much their token multisets differ.
#[derive(Debug, Clone, Copy, PartialEq, Eq, Hash, Structural)]
pub struct SimHash(u64);

impl View for SimHash {
    type V = u64;

    closed spec fn view(&self) -> u64 {
        self.0
    }
}

impl SimHash {
    /// Compute the SimHash fingerprint of `text`: bit `b` is set exactly
    /// when more of the text's token hashes have bit `b` set than not. A
    /// text without tokens yields the zero fingerprint.
    pub fn from_text(text: &str) -> (h: Self)
        ensures
            h@ == simhash_of(text_hashes(text@)),
            forall|b: u64| b < 64 ==> (bit_set(h@, b) <==> column(text_hashes(text@), b) > 0),
            text_tokens(text@).len() == 0 ==> h@ == 0,
    {
        let cs = chars_of(text);
        let bounds = piece_bounds(&cs, Separator::Whitespace, Strip::NonAlphanumeric);
        let ghost tokens = text_tokens(text@);
        let ghost hashes = tokens.map_values(|t: Seq<char>| token_hash(t));
        assert(cs@ == text@);
        let mut columns: Vec<i128> = Vec::new();
        let mut b: usize = 0;
        while b < 64
            invariant
                b <= 64,
                columns@.len() == b,
                forall|j: int| 0 <= j < b ==> columns@[j] == 0,
            decreases 64 - b,
        {
            columns.push(0);
            b = b + 1;
        }
        let mut k: usize = 0;
        while k < bounds.len()
            invariant
                k <= bounds@.len(),
                bounds_ok(cs@, bounds@),
                tokens == bounded_view(cs@, bounds@),
                hashes == tokens.map_values(|t: Seq<char>| token_hash(t)),
                columns@.len() == 64,
                forall|j: int|
                    0 <= j < 64 ==> #[trigger] columns@[j] == column(hashes.take(k as int), j as u64),
                forall|j: int| 0 <= j < 64 ==> -(k as int) <= #[trigger] columns@[j] <= k as int,
            decreases bounds.len() - k,
        {
            let (lo, hi) = bounds[k];
            assert(bounds_ok(cs@, bounds@) ==> bounds@[k as int].0 <= bounds@[k as int].1 && bounds@[k as int].1 <= cs@.len());
            let token = string_of_range(&cs, lo, hi);
            let lowered = to_lowercase(token.as_str());
            let digest = blake3_hash(lowered.as_str().as_bytes());
            let h = le_u64(&digest);
            assert(token@ == tokens[k as int]);
            assert(h == hashes[k as int]);
            let ghost prev = columns@;
            let mut bit: usize = 0;
            while bit < 64
                invariant
                    bit <= 64,
                    columns@.len() == 64,
                    forall|j: int| 0 <= j < 64 ==> -(k as int) <= #[trigger] prev[j] <= k as int,
                    forall|j: int| bit <= j < 64 ==> #[trigger] columns@[j] == prev[j],
                    forall|j: int|
                        0 <= j < bit ==> #[trigger] columns@[j] == prev[j] + if bit_set(h, j as u64) {
                            1int
                        } else {
                            -1int
                        },
                decreases 64 - bit,
            {
                let c = columns[bit];
                if (h >> (bit as u64)) & 1 == 1 {
                    columns.set(bit, c + 1);
                } else {
                    columns.set(bit, c - 1);
                }
                bit = bit + 1;
            }
            proof {
                let t = hashes.take(k + 1);
                assert(t.drop_last() =~= hashes.take(k as int));
                assert(t.last() == h);
                assert forall|j: int| 0 <= j < 64 implies #[trigger] columns@[j] == column(t, j as u64) by {
                    assert(prev[j] == column(hashes.take(k as int), j as u64));
                }
            }
            k = k + 1;
        }
        assert(hashes.take(bounds@.len() as int) =~= hashes);
        let mut fingerprint: u64 = 0;
        let mut bit: usize = 0;
        assert forall|j: u64| 0 <= j < 64 implies !bit_set(fingerprint, j) by {
            lemma_zero_bits(j);
        }
        while bit < 64
            invariant
                bit <= 64,
                columns@.len() == 64,
                forall|j: int| 0 <= j < 64 ==> #[trigger] columns@[j] == column(hashes, j as u64),
                forall|j: u64| j < bit ==> (bit_set(fingerprint, j) <==> column(hashes, j) > 0),
                forall|j: u64| bit <= j < 64 ==> !bit_set(fingerprint, j),
                hashes.len() == 0 ==> fingerprint == 0,
                fingerprint == fingerprint_below(hashes, bit as nat),
            decreases 64 - bit,
        {
            let ghost before = fingerprint;
            assert(hashes.len() == 0 ==> column(hashes, bit as u64) == 0);
            if columns[bit] > 0 {
                fingerprint = fingerprint | (1u64 << (bit as u64));
                proof {
                    assert forall|j: u64| j < 64 implies bit_set(fingerprint, j) == (j == bit as u64 || bit_set(before, j)) by {
                        lemma_bit_or(before, bit as u64, j);
                    }
                }
            }
            assert(columns@[bit as int] == column(hashes, bit as u64));
            bit = bit + 1;
        }
        SimHash(fingerprint)
    }

    /// Return the raw 64-bit fingerprint.
    pub fn bits(&self) -> (b: u64)
        ensures
            b == self@,
    {
        self.0
    }

    /// Hamming distance between two fingerprints: the number of bits in
    /// which they differ.
    pub fn hamming_distance(&self, other: &Self) -> (d: u32)
        ensures
            d == popcount(self@ ^ other@),
    {
        let x = self.0 ^ other.0;
        let mut count: u32 = 0;
        let mut bit: u64 = 0;
        while bit < 64
            invariant
                bit <= 64,
                count == ones_below(x, bit as nat),
                count <= bit,
            decreases 64 - bit,
        {
            if (x >> bit) & 1 == 1 {
                count = count + 1;
            }
            bit = bit + 1;
        }
        count
    }

    /// Whether `other` is within `max_distance` bits of `self`.
    pub fn is_near(&self, other: &Self, max_distance: u32) -> (b: bool)
        ensures
            b == (popcount(self@ ^ other@) <= max_distance),
    {
        self.hamming_distance(other) <= max_distance
    }
}

} // verus!
