//! Decoding of the bytes a command printed: UTF-16LE (as `wsl.exe` writes
//! it) or UTF-8, with invalid sequences replaced.
use vstd::prelude::*;
use vstd::arithmetic::div_mod::lemma_fundamental_div_mod;
use vstd::utf8::{
    char_is_scalar, char_u32_cast, decode_utf8, encode_scalar, encode_utf8, encode_utf8_decode_utf8,
    encode_utf8_valid_utf8, last_continuation_byte, leading_byte_width_1, leading_byte_width_2,
    leading_byte_width_3, leading_byte_width_4, second_last_continuation_byte,
    third_last_continuation_byte, valid_utf8,
};

verus! {

/// What `String::from_utf8_lossy` makes of some bytes.
pub uninterp spec fn utf8_lossy(bytes: Seq<u8>) -> Seq<char>;

/// Whether `u` is a UTF-16 surrogate (`D800..=DFFF`).
pub open spec fn is_surrogate(u: u16) -> bool {
    0xD800 <= u <= 0xDFFF
}

/// Whether `u` is a leading (high) surrogate (`D800..=DBFF`).
pub open spec fn is_high_surrogate(u: u16) -> bool {
    0xD800 <= u <= 0xDBFF
}

/// Whether `u` is a trailing (low) surrogate (`DC00..=DFFF`).
pub open spec fn is_low_surrogate(u: u16) -> bool {
    0xDC00 <= u <= 0xDFFF
}

/// The character that a high and a low surrogate encode together.
pub open spec fn surrogate_pair_char(hi: u16, lo: u16) -> char {
    ((0x10000 + (hi - 0xD800) * 0x400 + (lo - 0xDC00)) as u32) as char
}

/// UTF-16 decoding with replacement (`String::from_utf16_lossy`): a unit that
/// is not a surrogate is its own character; a high surrogate followed by a
/// low one is the character they encode; any other surrogate becomes
/// U+FFFD, and decoding goes on with the next unit.
pub open spec fn utf16_lossy(units: Seq<u16>) -> Seq<char>
    decreases units.len(),
{
    if units.len() == 0 {
        Seq::empty()
    } else if !is_surrogate(units[0]) {
        seq![(units[0] as u32) as char] + utf16_lossy(units.drop_first())
    } else if is_high_surrogate(units[0]) && units.len() >= 2 && is_low_surrogate(units[1]) {
        seq![surrogate_pair_char(units[0], units[1])] + utf16_lossy(units.skip(2))
    } else {
        seq!['\u{FFFD}'] + utf16_lossy(units.drop_first())
    }
}

/// Calls `String::from_utf8_lossy`. Claims that the result is `utf8_lossy` of
/// the bytes, and, as its documentation says, that valid UTF-8 decodes to the
/// string it encodes.
#[verifier::external_body]
fn from_utf8_lossy(bytes: &[u8]) -> (s: String)
    ensures
        s@ == utf8_lossy(bytes@),
        valid_utf8(bytes@) ==> s@ == decode_utf8(bytes@),
{
    String::from_utf8_lossy(bytes).into_owned()
}

/// Calls `String::from_utf16_lossy`. Claims that the result is the UTF-16
/// decoding of the code units with each unpaired surrogate replaced by
/// U+FFFD, as the documentation of `String::from_utf16_lossy` and
/// `char::decode_utf16` describes it (`utf16_lossy`).
#[verifier::external_body]
fn from_utf16_lossy(units: &[u16]) -> (s: String)
    ensures
        s@ == utf16_lossy(units@),
{
    String::from_utf16_lossy(units)
}

/// The number of zero bytes at odd positions of `b`.
pub open spec fn nul_odd_count(b: Seq<u8>) -> nat
    decreases b.len(),
{
    if b.len() == 0 {
        0
    } else {
        nul_odd_count(b.drop_last()) + if (b.len() - 1) % 2 == 1 && b.last() == 0 {
            1nat
        } else {
            0nat
        }
    }
}

/// Whether `b` looks like UTF-16LE text: an even length of at least 4 bytes,
/// and at least half of the high bytes (those at odd positions) zero.
pub open spec fn looks_utf16le_spec(b: Seq<u8>) -> bool {
    &&& b.len() >= 4
    &&& b.len() % 2 == 0
    &&& nul_odd_count(b) * 2 >= b.len() / 2
}

/// Whether `b` starts with the UTF-16LE byte order mark `FF FE`.
pub open spec fn has_utf16le_bom(b: Seq<u8>) -> bool {
    b.len() >= 2 && b[0] == 0xff && b[1] == 0xfe
}

/// The little-endian 16-bit units of `b`, pair by pair; an odd last byte is
/// dropped.
pub open spec fn le_units(b: Seq<u8>) -> Seq<u16> {
    Seq::new(b.len() / 2, |k: int| (b[2 * k] as int + 256 * b[2 * k + 1] as int) as u16)
}

/// The text of a command's output: UTF-16LE when it starts with a byte order
/// mark (which is skipped) or looks like UTF-16LE, UTF-8 otherwise.
pub open spec fn decode_output_spec(b: Seq<u8>) -> Seq<char> {
    if has_utf16le_bom(b) {
        utf16_lossy(le_units(b.skip(2)))
    } else if looks_utf16le_spec(b) {
        utf16_lossy(le_units(b))
    } else {
        utf8_lossy(b)
    }
}

/// The UTF-16 code units of one character: itself below `0x10000`, else a
/// high and a low surrogate.
pub open spec fn char_utf16(c: char) -> Seq<u16> {
    let v = c as u32;
    if v < 0x10000 {
        seq![v as u16]
    } else {
        seq![(0xD800 + (v - 0x10000) / 0x400) as u16, (0xDC00 + (v - 0x10000) % 0x400) as u16]
    }
}

/// The UTF-16 encoding of a text (`str::encode_utf16`).
pub open spec fn utf16_encode(text: Seq<char>) -> Seq<u16>
    decreases text.len(),
{
    if text.len() == 0 {
        Seq::empty()
    } else {
        char_utf16(text[0]) + utf16_encode(text.drop_first())
    }
}

/// The little-endian bytes of some 16-bit units, low byte first.
pub open spec fn le_bytes(units: Seq<u16>) -> Seq<u8> {
    Seq::new(
        2 * units.len(),
        |i: int|
            if i % 2 == 0 {
                (units[i / 2] % 256) as u8
            } else {
                (units[i / 2] / 256) as u8
            },
    )
}

/// Reading little-endian bytes back gives the units.
pub proof fn lemma_le_units_of_bytes(units: Seq<u16>)
    ensures
        le_units(le_bytes(units)) == units,
{
    let b = le_bytes(units);
    assert forall|k: int| 0 <= k < units.len() implies #[trigger] le_units(b)[k] == units[k] by {
        assert((2 * k) % 2 == 0 && (2 * k) / 2 == k);
        assert((2 * k + 1) % 2 == 1 && (2 * k + 1) / 2 == k);
        let u = units[k];
        assert(b[2 * k] == (u % 256) as u8);
        assert(b[2 * k + 1] == (u / 256) as u8);
        assert((u % 256) + 256 * (u / 256) == u);
    }
    assert(le_units(b) =~= units);
}

/// Decoding the UTF-16 encoding of a text gives the text back.
pub proof fn lemma_utf16_roundtrip(text: Seq<char>)
    ensures
        utf16_lossy(utf16_encode(text)) == text,
    decreases text.len(),
{
    if text.len() > 0 {
        let c = text[0];
        let v = c as u32;
        let rest = utf16_encode(text.drop_first());
        let units = utf16_encode(text);
        lemma_utf16_roundtrip(text.drop_first());
        char_is_scalar(c);
        char_u32_cast(c, v);
        if v < 0x10000 {
            assert(units =~= seq![v as u16] + rest);
            assert(units.drop_first() =~= rest);
            assert(((units[0] as u32) as char) == c);
        } else {
            let x = v - 0x10000;
            let hi = (0xD800 + x / 0x400) as u16;
            let lo = (0xDC00 + x % 0x400) as u16;
            assert(x == 0x400 * (x / 0x400) + x % 0x400) by {
                lemma_fundamental_div_mod(x as int, 0x400);
            }
            assert(units =~= seq![hi, lo] + rest);
            assert(units.skip(2) =~= rest);
            assert(surrogate_pair_char(hi, lo) == c);
        }
        assert(text =~= seq![c] + text.drop_first());
    }
}

/// A command's output that is a UTF-16LE byte order mark and then a text in
/// UTF-16LE decodes to that text.
pub proof fn lemma_utf16_output_roundtrip(text: Seq<char>)
    ensures
        decode_output_spec(seq![0xffu8, 0xfeu8] + le_bytes(utf16_encode(text))) == text,
{
    let b = seq![0xffu8, 0xfeu8] + le_bytes(utf16_encode(text));
    assert(b.skip(2) =~= le_bytes(utf16_encode(text)));
    lemma_le_units_of_bytes(utf16_encode(text));
    lemma_utf16_roundtrip(text);
}

/// The UTF-16LE bytes of a text start with the byte order mark `FF FE` only
/// when the text starts with U+FEFF.
proof fn lemma_utf16_bytes_unmarked(text: Seq<char>)
    requires
        text.len() == 0 || text[0] != '\u{feff}',
    ensures
        !has_utf16le_bom(le_bytes(utf16_encode(text))),
{
    let b = le_bytes(utf16_encode(text));
    if text.len() > 0 {
        let c = text[0];
        let v = c as u32;
        let units = utf16_encode(text);
        assert(units == char_utf16(c) + utf16_encode(text.drop_first()));
        let u0 = units[0];
        assert(u0 == char_utf16(c)[0]);
        assert(b[0] == (u0 % 256) as u8);
        assert(b[1] == (u0 / 256) as u8);
        if has_utf16le_bom(b) {
            assert(u0 == 0xFEFF);
            if v < 0x10000 {
                assert(char_utf16(c)[0] == v as u16);
                assert(v == 0xFEFFu32);
                char_u32_cast(c, v);
                char_u32_cast('\u{feff}', 0xFEFFu32);
                assert((v as char) == c);
                assert((0xFEFFu32 as char) == '\u{feff}');
                assert(c == '\u{feff}');
            } else {
                char_is_scalar(c);
                let x = v - 0x10000;
                assert(0 <= x <= 0xFFFFF);
                assert(x == 0x400 * (x / 0x400) + x % 0x400) by {
                    lemma_fundamental_div_mod(x as int, 0x400);
                }
                assert(0 <= x % 0x400 < 0x400);
                assert(x / 0x400 <= 0x3FF);
                assert(char_utf16(c)[0] == (0xD800 + x / 0x400) as u16);
            }
        }
    }
}

/// A command's output that is a text in UTF-16LE, without a byte order mark,
/// decodes to that text when it looks like UTF-16LE (as such output from
/// `wsl.exe` does) and the text does not itself start with U+FEFF (whose
/// bytes would be read as a byte order mark).
pub proof fn lemma_utf16_unmarked_output_roundtrip(text: Seq<char>)
    requires
        looks_utf16le_spec(le_bytes(utf16_encode(text))),
        text.len() == 0 || text[0] != '\u{feff}',
    ensures
        decode_output_spec(le_bytes(utf16_encode(text))) == text,
{
    lemma_utf16_bytes_unmarked(text);
    lemma_le_units_of_bytes(utf16_encode(text));
    lemma_utf16_roundtrip(text);
}

/// The UTF-8 bytes of one character: the first is never `FF`, and none is
/// zero unless the character is U+0000.
proof fn lemma_scalar_bytes(c: char)
    ensures
        encode_scalar(c as u32).len() >= 1,
        encode_scalar(c as u32)[0] != 0xff,
        c != '\0' ==> forall|i: int|
            0 <= i < encode_scalar(c as u32).len() ==> #[trigger] encode_scalar(c as u32)[i] != 0,
{
    let v = c as u32;
    char_is_scalar(c);
    if c != '\0' {
        char_u32_cast('\0', 0u32);
        char_u32_cast(c, v);
        assert(v != 0);
    }
    assert(leading_byte_width_1(v) != 0xff) by (bit_vector);
    assert(v != 0 ==> leading_byte_width_1(v) != 0 || v > 0x7f) by (bit_vector);
    assert(leading_byte_width_2(v) != 0xff && leading_byte_width_2(v) != 0) by (bit_vector);
    assert(leading_byte_width_3(v) != 0xff && leading_byte_width_3(v) != 0) by (bit_vector);
    assert(leading_byte_width_4(v) != 0xff && leading_byte_width_4(v) != 0) by (bit_vector);
    assert(last_continuation_byte(v) != 0) by (bit_vector);
    assert(second_last_continuation_byte(v) != 0) by (bit_vector);
    assert(third_last_continuation_byte(v) != 0) by (bit_vector);
}

/// No byte of the UTF-8 encoding of a text without U+0000 is zero.
proof fn lemma_utf8_no_zero(text: Seq<char>)
    requires
        !text.contains('\0'),
    ensures
        forall|i: int| 0 <= i < encode_utf8(text).len() ==> #[trigger] encode_utf8(text)[i] != 0,
    decreases text.len(),
{
    if text.len() > 0 {
        let rest = text.drop_first();
        assert(!rest.contains('\0')) by {
            if rest.contains('\0') {
                let k = choose|k: int| 0 <= k < rest.len() && rest[k] == '\0';
                assert(text[k + 1] == '\0');
            }
        }
        lemma_utf8_no_zero(rest);
        assert(text[0] != '\0');
        lemma_scalar_bytes(text[0]);
        let first = encode_scalar(text[0] as u32);
        let b = encode_utf8(text);
        assert forall|i: int| 0 <= i < b.len() implies #[trigger] b[i] != 0 by {
            if i < first.len() {
                assert(b[i] == first[i]);
            } else {
                assert(b[i] == encode_utf8(rest)[i - first.len()]);
            }
        }
    }
}

/// Bytes without a zero have no zero at an odd position.
proof fn lemma_no_zero_no_odd_nul(b: Seq<u8>)
    requires
        forall|i: int| 0 <= i < b.len() ==> #[trigger] b[i] != 0,
    ensures
        nul_odd_count(b) == 0,
    decreases b.len(),
{
    if b.len() > 0 {
        let init = b.drop_last();
        assert forall|i: int| 0 <= i < init.len() implies #[trigger] init[i] != 0 by {
            assert(init[i] == b[i]);
        }
        lemma_no_zero_no_odd_nul(init);
        assert(b[b.len() - 1] != 0);
    }
}

/// The UTF-8 encoding of a text without U+0000 neither starts with the
/// UTF-16LE byte order mark nor looks like UTF-16LE, and decodes back to the
/// text.
pub proof fn lemma_utf8_text_bytes(text: Seq<char>)
    requires
        !text.contains('\0'),
    ensures
        valid_utf8(encode_utf8(text)),
        decode_utf8(encode_utf8(text)) == text,
        !has_utf16le_bom(encode_utf8(text)),
        !looks_utf16le_spec(encode_utf8(text)),
{
    encode_utf8_valid_utf8(text);
    encode_utf8_decode_utf8(text);
    let b = encode_utf8(text);
    lemma_utf8_no_zero(text);
    lemma_no_zero_no_odd_nul(b);
    if text.len() > 0 {
        lemma_scalar_bytes(text[0]);
        assert(b[0] == encode_scalar(text[0] as u32)[0]);
    }
}

/// Whether `bytes` looks like UTF-16LE text (see `looks_utf16le_spec`).
pub fn looks_utf16le(bytes: &[u8]) -> (r: bool)
    ensures
        r == looks_utf16le_spec(bytes@),
{
    let len = bytes.len();
    if len < 4 || len % 2 != 0 {
        return false;
    }
    let mut count: usize = 0;
    let mut i: usize = 0;
    while i < len
        invariant
            len == bytes@.len(),
            i <= len,
            count <= i,
            count == nul_odd_count(bytes@.take(i as int)),
        decreases len - i,
    {
        if i % 2 == 1 && bytes[i] == 0 {
            count = count + 1;
        }
        assert(bytes@.take(i + 1).drop_last() =~= bytes@.take(i as int));
        i = i + 1;
    }
    assert(bytes@.take(len as int) =~= bytes@);
    let half = len / 2;
    count >= (half + 1) / 2
}

/// The little-endian 16-bit units of `bytes[start..]`.
fn units_from(bytes: &[u8], start: usize) -> (units: Vec<u16>)
    requires
        start <= bytes@.len(),
    ensures
        units@ == le_units(bytes@.skip(start as int)),
{
    let ghost rest = bytes@.skip(start as int);
    let n = (bytes.len() - start) / 2;
    let mut units: Vec<u16> = Vec::new();
    let mut k: usize = 0;
    while k < n
        invariant
            start <= bytes@.len(),
            bytes@.len() <= usize::MAX,
            rest == bytes@.skip(start as int),
            rest.len() == bytes@.len() - start,
            n == rest.len() / 2,
            k <= n,
            units@ == le_units(rest).take(k as int),
        decreases n - k,
    {
        let lo = bytes[start + 2 * k];
        let hi = bytes[start + 2 * k + 1];
        let unit: u16 = (lo as u16) + (hi as u16) * 256;
        units.push(unit);
        k = k + 1;
        assert(units@ =~= le_units(rest).take(k as int));
    }
    assert(le_units(rest).take(n as int) =~= le_units(rest));
    units
}

/// The text of a command's output (see `decode_output_spec`).
pub fn decode_command_output(bytes: &[u8]) -> (s: String)
    ensures
        s@ == decode_output_spec(bytes@),
        !has_utf16le_bom(bytes@) && !looks_utf16le_spec(bytes@) && valid_utf8(bytes@) ==> s@
            == decode_utf8(bytes@),
        forall|text: Seq<char>|
            #[trigger] encode_utf8(text) == bytes@ && !text.contains('\0') ==> s@ == text,
        forall|text: Seq<char>|
            seq![0xffu8, 0xfeu8] + #[trigger] le_bytes(utf16_encode(text)) == bytes@ ==> s@ == text,
        forall|text: Seq<char>|
            #[trigger] le_bytes(utf16_encode(text)) == bytes@ && looks_utf16le_spec(bytes@) && (
            text.len() == 0 || text[0] != '\u{feff}') ==> s@ == text,
{
    assert forall|text: Seq<char>| #[trigger] encode_utf8(text) == bytes@ && !text.contains('\0') implies !has_utf16le_bom(
        bytes@,
    ) && !looks_utf16le_spec(bytes@) && valid_utf8(bytes@) && decode_utf8(bytes@) == text by {
        lemma_utf8_text_bytes(text);
    }
    assert forall|text: Seq<char>|
        seq![0xffu8, 0xfeu8] + #[trigger] le_bytes(utf16_encode(text)) == bytes@ implies decode_output_spec(
        bytes@,
    ) == text by {
        lemma_utf16_output_roundtrip(text);
    }
    assert forall|text: Seq<char>|
        #[trigger] le_bytes(utf16_encode(text)) == bytes@ && looks_utf16le_spec(bytes@) && (
        text.len() == 0 || text[0] != '\u{feff}') implies decode_output_spec(bytes@) == text by {
        lemma_utf16_unmarked_output_roundtrip(text);
    }
    let bom = bytes.len() >= 2 && bytes[0] == 0xff && bytes[1] == 0xfe;
    if bom {
        let units = units_from(bytes, 2);
        from_utf16_lossy(units.as_slice())
    } else if looks_utf16le(bytes) {
        let units = units_from(bytes, 0);
        assert(bytes@.skip(0) =~= bytes@);
        from_utf16_lossy(units.as_slice())
    } else {
        from_utf8_lossy(bytes)
    }
}

} // verus!
