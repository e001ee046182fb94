//! Content checksums for drift detection: a migration runner that records
//! the checksum at apply time can later reread the file and flag it if the
//! checksum no longer matches.
//!
//! FNV-1a (64 bit) over the UTF-8 bytes of the sections; drift detection
//! only needs to notice accidental changes.
use vstd::prelude::*;
use vstd::utf8::{
    char_is_scalar, char_u32_cast, encode_scalar, encode_utf8, encode_utf8_decode_utf8,
    has_width_1_encoding, has_width_2_encoding, has_width_3_encoding,
};

use crate::text::push_char;

verus! {

pub const FNV_OFFSET_BASIS: u64 = 0xcbf29ce484222325;

pub const FNV_PRIME: u64 = 0x100000001b3;

/// One FNV-1a round: xor the byte in, then multiply modulo 2^64.
pub open spec fn fnv_step(hash: u64, byte: u8) -> u64 {
    vstd::wrapping::u64_specs::wrapping_mul(hash ^ (byte as u64), FNV_PRIME)
}

/// The 64-bit FNV-1a hash of `bytes`.
pub open spec fn fnv1a(bytes: Seq<u8>) -> u64
    decreases bytes.len(),
{
    if bytes.len() == 0 {
        FNV_OFFSET_BASIS
    } else {
        fnv_step(fnv1a(bytes.drop_last()), bytes.last())
    }
}

/// The lowercase hex digit for `n` (taken below 16).
pub open spec fn hex_digit(n: u64) -> char {
    if n < 10 {
        (48 + n) as char
    } else {
        (87 + n) as char
    }
}

/// `h` written as 16 lowercase hex digits, most significant first.
pub open spec fn hex16(h: u64) -> Seq<char> {
    Seq::new(16, |i: int| hex_digit((h >> ((60 - 4 * i) as u64)) & 0xf))
}

/// Every character of `s` is a lowercase hex digit.
pub open spec fn is_lower_hex(s: Seq<char>) -> bool {
    forall|k: int|
        0 <= k < s.len() ==> {
            let c = #[trigger] s[k];
            ('0' <= c && c <= '9') || ('a' <= c && c <= 'f')
        }
}

proof fn lemma_hex16_is_lower_hex(h: u64)
    ensures
        hex16(h).len() == 16,
        is_lower_hex(hex16(h)),
{
    assert forall|k: int| 0 <= k < 16 implies ({
        let c = #[trigger] hex16(h)[k];
        ('0' <= c && c <= '9') || ('a' <= c && c <= 'f')
    }) by {
        let s = (60 - 4 * k) as u64;
        assert((h >> s) & 0xf < 16) by (bit_vector);
    }
}

/// The bytes that are hashed: the UTF-8 of `up`, then, when there is a down
/// section, a NUL separator and the UTF-8 of `down`.
pub open spec fn checksum_input(up: Seq<char>, down: Option<Seq<char>>) -> Seq<u8> {
    match down {
        Some(d) => encode_utf8(up) + seq![0u8] + encode_utf8(d),
        None => encode_utf8(up),
    }
}

/// The checksum text of a pair of sections.
pub open spec fn checksum_of(up: Seq<char>, down: Option<Seq<char>>) -> Seq<char> {
    hex16(fnv1a(checksum_input(up, down)))
}

/// The characters of an optional string slice.
pub open spec fn opt_str_view(s: Option<&str>) -> Option<Seq<char>> {
    match s {
        Some(d) => Some(d@),
        None => None,
    }
}

proof fn lemma_scalar_bytes_nonzero(c: char)
    requires
        c != '\0',
    ensures
        !encode_scalar(c as u32).contains(0u8),
{
    let v = c as u32;
    char_is_scalar(c);
    char_u32_cast(c, v);
    assert(v != 0) by {
        if v == 0 {
            assert((0u32 as char) == '\0');
        }
    }
    let e = encode_scalar(v);
    if has_width_1_encoding(v) {
        assert((v & 0x7F) as u8 != 0) by (bit_vector)
            requires
                1 <= v <= 0x7F,
        ;
    } else {
        assert(0xC0 | ((v >> 6) & 0x1F) as u8 != 0) by (bit_vector);
        assert(0xE0 | ((v >> 12) & 0x0F) as u8 != 0) by (bit_vector);
        assert(0xF0 | ((v >> 18) & 0x7) as u8 != 0) by (bit_vector);
        assert(0x80 | (v & 0x3F) as u8 != 0) by (bit_vector);
        assert(0x80 | ((v >> 6) & 0x3F) as u8 != 0) by (bit_vector);
        assert(0x80 | ((v >> 12) & 0x3F) as u8 != 0) by (bit_vector);
    }
    assert forall|k: int| 0 <= k < e.len() implies e[k] != 0u8 by {}
}

/// The UTF-8 of text without NUL characters has no zero byte.
proof fn lemma_encode_nonzero(s: Seq<char>)
    requires
        !s.contains('\0'),
    ensures
        !encode_utf8(s).contains(0u8),
    decreases s.len(),
{
    if s.len() > 0 {
        assert(s[0] != '\0');
        assert(!s.drop_first().contains('\0')) by {
            if s.drop_first().contains('\0') {
                let k = choose|k: int| 0 <= k < s.drop_first().len() && s.drop_first()[k] == '\0';
                assert(s[k + 1] == '\0');
            }
        }
        lemma_scalar_bytes_nonzero(s[0]);
        lemma_encode_nonzero(s.drop_first());
        let a = encode_scalar(s[0] as u32);
        let b = encode_utf8(s.drop_first());
        assert forall|k: int| 0 <= k < (a + b).len() implies (a + b)[k] != 0u8 by {
            if k < a.len() {
                assert((a + b)[k] == a[k]);
            } else {
                assert((a + b)[k] == b[k - a.len()]);
            }
        }
    }
}

/// The bytes that the checksum hashes determine the sections, as long as
/// the up sections contain no NUL character: the separator cannot be
/// confused with text, so `("a", Some("b"))` and `("ab", None)`, or
/// `("a", None)` and `("a", Some(""))`, feed different bytes to the hash.
pub proof fn lemma_checksum_input_determines_sections(
    up1: Seq<char>,
    down1: Option<Seq<char>>,
    up2: Seq<char>,
    down2: Option<Seq<char>>,
)
    requires
        !up1.contains('\0'),
        !up2.contains('\0'),
        checksum_input(up1, down1) == checksum_input(up2, down2),
    ensures
        up1 == up2,
        down1 == down2,
{
    let a1 = encode_utf8(up1);
    let a2 = encode_utf8(up2);
    lemma_encode_nonzero(up1);
    lemma_encode_nonzero(up2);
    encode_utf8_decode_utf8(up1);
    encode_utf8_decode_utf8(up2);
    let x = checksum_input(up1, down1);
    match (down1, down2) {
        (None, None) => {},
        (Some(d1), None) => {
            assert(x[a1.len() as int] == 0u8);
            assert(a2[a1.len() as int] == 0u8);
        },
        (None, Some(d2)) => {
            assert(x[a2.len() as int] == 0u8);
            assert(a1[a2.len() as int] == 0u8);
        },
        (Some(d1), Some(d2)) => {
            if a1.len() < a2.len() {
                assert(x[a1.len() as int] == 0u8);
                assert(a2[a1.len() as int] == 0u8);
            } else if a2.len() < a1.len() {
                assert(x[a2.len() as int] == 0u8);
                assert(a1[a2.len() as int] == 0u8);
            } else {
                assert(a1 =~= x.subrange(0, a1.len() as int));
                assert(a2 =~= x.subrange(0, a1.len() as int));
                let e1 = encode_utf8(d1);
                let e2 = encode_utf8(d2);
                assert(e1 =~= x.subrange(a1.len() as int + 1, x.len() as int));
                assert(e2 =~= x.subrange(a1.len() as int + 1, x.len() as int));
                encode_utf8_decode_utf8(d1);
                encode_utf8_decode_utf8(d2);
            }
        },
    }
}

/// FNV-1a starts from the offset basis and takes in each further byte by
/// one round: xor it in, then multiply by the prime modulo 2^64.
pub proof fn lemma_fnv1a_rounds(bytes: Seq<u8>, b: u8)
    ensures
        fnv1a(Seq::<u8>::empty()) == FNV_OFFSET_BASIS,
        fnv1a(bytes.push(b)) == fnv_step(fnv1a(bytes), b),
        fnv_step(fnv1a(bytes), b) == ((((fnv1a(bytes) ^ (b as u64)) as nat) * (
        FNV_PRIME as nat)) % 0x1_0000_0000_0000_0000) as u64,
{
    assert(bytes.push(b).drop_last() =~= bytes);
}

/// The 64-bit FNV-1a hash of `bytes`.
pub fn fnv1a_64(bytes: &[u8]) -> (h: u64)
    ensures
        h == fnv1a(bytes@),
{
    let mut hash = FNV_OFFSET_BASIS;
    let mut i: usize = 0;
    while i < bytes.len()
        invariant
            i <= bytes.len(),
            hash == fnv1a(bytes@.take(i as int)),
        decreases bytes.len() - i,
    {
        assert(bytes@.take(i + 1).drop_last() =~= bytes@.take(i as int));
        hash = (hash ^ (bytes[i] as u64)).wrapping_mul(FNV_PRIME);
        i += 1;
    }
    assert(bytes@.take(bytes.len() as int) =~= bytes@);
    hash
}

fn hex_char(n: u64) -> (c: char)
    requires
        n < 16,
    ensures
        c == hex_digit(n),
{
    let b: u8 = if n < 10 {
        48 + (n as u8)
    } else {
        87 + (n as u8)
    };
    b as char
}

fn push_bytes(out: &mut Vec<u8>, bytes: &[u8])
    ensures
        final(out)@ == old(out)@ + bytes@,
{
    let mut i: usize = 0;
    while i < bytes.len()
        invariant
            i <= bytes.len(),
            out@ == old(out)@ + bytes@.take(i as int),
        decreases bytes.len() - i,
    {
        out.push(bytes[i]);
        assert(bytes@.take(i + 1) =~= bytes@.take(i as int).push(bytes@[i as int]));
        i += 1;
    }
    assert(bytes@.take(bytes.len() as int) =~= bytes@);
}

/// Hash `up` and `down` together into a single checksum, formatted as 16
/// lowercase hex digits. A NUL separator stands between the two sections
/// when there is a down section, so `("a", Some("b"))` and `("ab", None)`
/// hash different bytes, and so do `("a", None)` and `("a", Some(""))`.
pub fn checksum(up: &str, down: Option<&str>) -> (c: String)
    ensures
        c@ == checksum_of(up@, opt_str_view(down)),
        c@.len() == 16,
        is_lower_hex(c@),
{
    let mut bytes: Vec<u8> = Vec::new();
    push_bytes(&mut bytes, up.as_bytes());
    match down {
        Some(d) => {
            bytes.push(0);
            push_bytes(&mut bytes, d.as_bytes());
        },
        None => {},
    }
    assert(bytes@ =~= checksum_input(up@, opt_str_view(down)));
    let h = fnv1a_64(bytes.as_slice());
    let mut out = String::new();
    let mut i: u64 = 0;
    while i < 16
        invariant
            i <= 16,
            out@ == hex16(h).take(i as int),
        decreases 16 - i,
    {
        let shift: u64 = 60 - 4 * i;
        let nibble = (h >> shift) & 0xf;
        assert((h >> shift) & 0xf < 16) by (bit_vector);
        push_char(&mut out, hex_char(nibble));
        assert(hex16(h).take(i + 1) =~= hex16(h).take(i as int).push(hex16(h)[i as int]));
        i += 1;
    }
    assert(hex16(h).take(16) =~= hex16(h));
    proof {
        lemma_hex16_is_lower_hex(h);
    }
    out
}

} // verus!
