//! Percent-encoding of relative paths for catalog URLs, and the single
//! percent-decoding the file server applies to request paths.

use vstd::prelude::*;
use vstd::utf8::{encode_utf8, encode_scalar, decode_utf8, valid_utf8, is_ascii_chars};
use crate::text::utf8_lossy;

verus! {

/// Bytes that the catalog encodes: C0 controls, space, DEL and every
/// non-ASCII byte.
pub open spec fn needs_encoding(b: u8) -> bool {
    b <= 0x20 || b >= 0x7F
}

/// Uppercase hexadecimal digit of `n` (0 to 15), as an ASCII byte.
pub open spec fn upper_hex_byte(n: int) -> u8 {
    if n < 10 {
        (0x30 + n) as u8
    } else {
        (0x37 + n) as u8
    }
}

/// The ASCII encoding of one byte: `%XX` with uppercase digits, or the byte.
pub open spec fn encode_byte(b: u8) -> Seq<u8> {
    if needs_encoding(b) {
        seq![0x25u8, upper_hex_byte(b as int / 16), upper_hex_byte(b as int % 16)]
    } else {
        seq![b]
    }
}

/// Percent-encoding of a byte sequence, as ASCII bytes.
pub open spec fn percent_encoded(b: Seq<u8>) -> Seq<u8>
    decreases b.len(),
{
    if b.len() == 0 {
        Seq::empty()
    } else {
        encode_byte(b[0]) + percent_encoded(b.drop_first())
    }
}

/// ASCII bytes read as characters.
pub open spec fn ascii_text(b: Seq<u8>) -> Seq<char> {
    b.map_values(|x: u8| x as char)
}

/// Value of a hexadecimal digit byte, or -1.
pub open spec fn hex_byte_value(b: u8) -> int {
    if 0x30 <= b <= 0x39 {
        b - 0x30
    } else if 0x61 <= b <= 0x66 {
        b - 0x61 + 10
    } else if 0x41 <= b <= 0x46 {
        b - 0x41 + 10
    } else {
        -1
    }
}

/// Percent-decoding of a byte sequence: each `%` followed by two hex digits
/// becomes the byte they spell; everything else is kept.
pub open spec fn percent_decoded(b: Seq<u8>) -> Seq<u8>
    decreases b.len(),
{
    if b.len() == 0 {
        Seq::empty()
    } else if b[0] == 0x25 && b.len() >= 3 && hex_byte_value(b[1]) >= 0 && hex_byte_value(b[2])
        >= 0 {
        seq![(16 * hex_byte_value(b[1]) + hex_byte_value(b[2])) as u8] + percent_decoded(b.skip(3))
    } else {
        seq![b[0]] + percent_decoded(b.drop_first())
    }
}

/// Bytes of the `CONTROLS` set of `percent_encoding` (C0 controls and DEL),
/// and every non-ASCII byte.
pub open spec fn control_or_non_ascii(b: u8) -> bool {
    b < 0x20 || b >= 0x7F
}

/// The encoding of one byte under the `CONTROLS` set.
pub open spec fn encode_byte_controls(b: u8) -> Seq<u8> {
    if control_or_non_ascii(b) {
        seq![0x25u8, upper_hex_byte(b as int / 16), upper_hex_byte(b as int % 16)]
    } else {
        seq![b]
    }
}

/// Encoding of a byte sequence under the `CONTROLS` set.
pub open spec fn controls_encoded(b: Seq<u8>) -> Seq<u8>
    decreases b.len(),
{
    if b.len() == 0 {
        Seq::empty()
    } else {
        encode_byte_controls(b[0]) + controls_encoded(b.drop_first())
    }
}

/// `s` with every space written as `%20`.
pub open spec fn spaces_encoded(s: Seq<char>) -> Seq<char>
    decreases s.len(),
{
    if s.len() == 0 {
        Seq::empty()
    } else if s.last() == ' ' {
        spaces_encoded(s.drop_last()) + seq!['%', '2', '0']
    } else {
        spaces_encoded(s.drop_last()).push(s.last())
    }
}

/// Relies on `percent_encoding::utf8_percent_encode` with its `CONTROLS`
/// set: C0 controls, DEL and every non-ASCII byte of the UTF-8 text become
/// `%XX` with uppercase digits, the other bytes are kept.
#[verifier::external_body]
fn encode_controls(s: &str) -> (r: String)
    ensures
        r@ == ascii_text(controls_encoded(encode_utf8(s@))),
{
    percent_encoding::utf8_percent_encode(s, percent_encoding::CONTROLS).to_string()
}

/// Writes each space of `s` as `%20`.
fn encode_spaces(s: &str) -> (r: String)
    ensures
        r@ == spaces_encoded(s@),
{
    let n = s.unicode_len();
    let mut r = String::new();
    let mut i: usize = 0;
    while i < n
        invariant
            i <= n,
            n == s@.len(),
            r@ == spaces_encoded(s@.subrange(0, i as int)),
        decreases n - i,
    {
        let ghost pre = s@.subrange(0, i + 1);
        assert(pre.drop_last() =~= s@.subrange(0, i as int));
        if s.get_char(i) == ' ' {
            r = r.concat("%20");
            proof {
                reveal_strlit("%20");
            }
            assert(r@ =~= spaces_encoded(pre));
        } else {
            r = r.concat(s.substring_char(i, i + 1));
            assert(r@ =~= spaces_encoded(pre));
        }
        i = i + 1;
    }
    assert(s@.subrange(0, n as int) =~= s@);
    r
}

proof fn lemma_spaces_concat(a: Seq<char>, b: Seq<char>)
    ensures
        spaces_encoded(a + b) == spaces_encoded(a) + spaces_encoded(b),
    decreases b.len(),
{
    if b.len() == 0 {
        assert(a + b =~= a);
        assert(spaces_encoded(b) =~= Seq::<char>::empty());
        assert(spaces_encoded(a) + spaces_encoded(b) =~= spaces_encoded(a));
    } else {
        lemma_spaces_concat(a, b.drop_last());
        assert((a + b).drop_last() =~= a + b.drop_last());
        if b.last() == ' ' {
            assert(spaces_encoded(a + b) =~= spaces_encoded(a) + spaces_encoded(b));
        } else {
            assert(spaces_encoded(a + b) =~= spaces_encoded(a) + spaces_encoded(b));
        }
    }
}

proof fn lemma_ascii_text_concat(a: Seq<u8>, b: Seq<u8>)
    ensures
        ascii_text(a + b) == ascii_text(a) + ascii_text(b),
{
    assert(ascii_text(a + b) =~= ascii_text(a) + ascii_text(b));
}

proof fn lemma_spaces_single(c: char)
    ensures
        spaces_encoded(seq![c]) == if c == ' ' {
            seq!['%', '2', '0']
        } else {
            seq![c]
        },
{
    assert(seq![c].drop_last() =~= Seq::<char>::empty());
    assert(spaces_encoded(Seq::<char>::empty()) == Seq::<char>::empty());
    assert(Seq::<char>::empty() + seq!['%', '2', '0'] =~= seq!['%', '2', '0']);
    assert(Seq::<char>::empty().push(c) =~= seq![c]);
}

proof fn lemma_spaces_after_controls(b: Seq<u8>)
    ensures
        spaces_encoded(ascii_text(controls_encoded(b))) == ascii_text(percent_encoded(b)),
    decreases b.len(),
{
    if b.len() == 0 {
        assert(ascii_text(Seq::<u8>::empty()) =~= Seq::<char>::empty());
    } else {
        let x = b[0];
        let rest = b.drop_first();
        lemma_spaces_after_controls(rest);
        lemma_ascii_text_concat(encode_byte_controls(x), controls_encoded(rest));
        lemma_ascii_text_concat(encode_byte(x), percent_encoded(rest));
        lemma_spaces_concat(ascii_text(encode_byte_controls(x)), ascii_text(controls_encoded(rest)));
        let c = ascii_text(encode_byte_controls(x));
        if control_or_non_ascii(x) {
            let h = upper_hex_byte(x as int / 16);
            let l = upper_hex_byte(x as int % 16);
            assert(c =~= seq!['%', h as char, l as char]);
            assert(h != 0x20 && l != 0x20);
            assert(c =~= seq!['%'] + seq![h as char] + seq![l as char]);
            lemma_spaces_concat(seq!['%'] + seq![h as char], seq![l as char]);
            lemma_spaces_concat(seq!['%'], seq![h as char]);
            lemma_spaces_single('%');
            lemma_spaces_single(h as char);
            lemma_spaces_single(l as char);
            assert(spaces_encoded(c) =~= ascii_text(encode_byte(x)));
        } else if x == 0x20 {
            assert(c =~= seq![' ']);
            lemma_spaces_single(' ');
            assert(spaces_encoded(c) =~= ascii_text(encode_byte(x)));
        } else {
            assert(c =~= seq![x as char]);
            lemma_spaces_single(x as char);
            assert(spaces_encoded(c) =~= ascii_text(encode_byte(x)));
        }
    }
}

/// Percent-encodes a relative path for a catalog URL: C0 controls, space,
/// DEL and every non-ASCII byte become `%XX`; everything else is kept.
pub fn encode_path(s: &str) -> (r: String)
    ensures
        r@ == ascii_text(percent_encoded(encode_utf8(s@))),
{
    let t = encode_controls(s);
    let r = encode_spaces(t.as_str());
    proof {
        lemma_spaces_after_controls(encode_utf8(s@));
    }
    r
}

/// Relies on `percent_encoding::percent_decode_str` followed by
/// `decode_utf8_lossy`, which applies `String::from_utf8_lossy` to the
/// decoded bytes.
#[verifier::external_body]
pub(crate) fn decode_path(s: &str) -> (r: String)
    ensures
        r@ == utf8_lossy(percent_decoded(encode_utf8(s@))),
        valid_utf8(percent_decoded(encode_utf8(s@))) ==> r@ == decode_utf8(
            percent_decoded(encode_utf8(s@)),
        ),
{
    percent_encoding::percent_decode_str(s).decode_utf8_lossy().into_owned()
}

proof fn lemma_decode_encoded_bytes(b: Seq<u8>)
    requires
        forall|i: int| 0 <= i < b.len() ==> b[i] != 0x25,
    ensures
        percent_decoded(percent_encoded(b)) == b,
    decreases b.len(),
{
    if b.len() > 0 {
        let rest = b.drop_first();
        lemma_decode_encoded_bytes(rest);
        let e = encode_byte(b[0]);
        let whole = e + percent_encoded(rest);
        if needs_encoding(b[0]) {
            assert(whole.skip(3) =~= percent_encoded(rest));
            assert(whole[0] == 0x25u8);
            assert(whole[1] == e[1] && whole[2] == e[2]);
        } else {
            assert(whole.drop_first() =~= percent_encoded(rest));
            assert(whole[0] == b[0]);
        }
        assert(b =~= seq![b[0]] + rest);
    }
}

proof fn lemma_encoded_is_ascii(b: Seq<u8>)
    ensures
        forall|i: int| 0 <= i < percent_encoded(b).len() ==> #[trigger] percent_encoded(b)[i] < 0x80,
    decreases b.len(),
{
    if b.len() > 0 {
        lemma_encoded_is_ascii(b.drop_first());
        let e = encode_byte(b[0]);
        assert forall|i: int| 0 <= i < percent_encoded(b).len() implies #[trigger] percent_encoded(
            b,
        )[i] < 0x80 by {
            if i >= e.len() {
                assert(percent_encoded(b)[i] == percent_encoded(b.drop_first())[i - e.len()]);
            }
        }
    }
}

/// A path that holds no `%` comes back unchanged from encoding for the
/// catalog and decoding once by the server: the decoded bytes are valid
/// UTF-8 and spell the path. (A `%` that the path already holds is not
/// encoded, so `a%20b` would come back as `a b`.)
pub proof fn lemma_path_round_trip(s: Seq<char>)
    requires
        !s.contains('%'),
    ensures
        valid_utf8(percent_decoded(encode_utf8(ascii_text(percent_encoded(encode_utf8(s)))))),
        decode_utf8(percent_decoded(encode_utf8(ascii_text(percent_encoded(encode_utf8(s))))))
            == s,
{
    broadcast use vstd::utf8::encode_utf8_valid_utf8, vstd::utf8::encode_utf8_decode_utf8;

    let b = encode_utf8(s);
    let e = percent_encoded(b);
    lemma_encoded_is_ascii(b);
    let t = ascii_text(e);
    assert(is_ascii_chars(t));
    vstd::utf8::is_ascii_chars_encode_utf8(t);
    assert(encode_utf8(t) =~= e);
    lemma_no_percent_byte(s);
    lemma_decode_encoded_bytes(b);
}

proof fn lemma_scalar_no_percent(c: u32)
    requires
        c != 0x25,
    ensures
        forall|i: int| 0 <= i < encode_scalar(c).len() ==> #[trigger] encode_scalar(c)[i] != 0x25,
{
    assert(c != 0x25 ==> (c & 0x7Fu32) as u8 != 0x25u8 || c > 0x7F) by (bit_vector);
    assert((0xC0u8 | (((c >> 6u32) & 0x1Fu32) as u8)) != 0x25u8) by (bit_vector);
    assert((0xE0u8 | (((c >> 12u32) & 0x0Fu32) as u8)) != 0x25u8) by (bit_vector);
    assert((0xF0u8 | (((c >> 18u32) & 0x7u32) as u8)) != 0x25u8) by (bit_vector);
    assert((0x80u8 | ((c & 0x3Fu32) as u8)) != 0x25u8) by (bit_vector);
    assert((0x80u8 | (((c >> 6u32) & 0x3Fu32) as u8)) != 0x25u8) by (bit_vector);
    assert((0x80u8 | (((c >> 12u32) & 0x3Fu32) as u8)) != 0x25u8) by (bit_vector);
}

proof fn lemma_no_percent_byte(s: Seq<char>)
    requires
        !s.contains('%'),
    ensures
        forall|i: int| 0 <= i < encode_utf8(s).len() ==> #[trigger] encode_utf8(s)[i] != 0x25,
    decreases s.len(),
{
    if s.len() > 0 {
        let rest = s.drop_first();
        assert forall|j: int| 0 <= j < rest.len() implies rest[j] != '%' by {
            assert(rest[j] == s[j + 1]);
        }
        lemma_no_percent_byte(rest);
        vstd::utf8::char_u32_cast(s[0], s[0] as u32);
        assert(s[0] != '%');
        assert((s[0] as u32) != 0x25);
        lemma_scalar_no_percent(s[0] as u32);
        let h = encode_scalar(s[0] as u32);
        assert forall|i: int| 0 <= i < encode_utf8(s).len() implies #[trigger] encode_utf8(s)[i]
            != 0x25 by {
            if i >= h.len() {
                assert(encode_utf8(s)[i] == encode_utf8(rest)[i - h.len()]);
            }
        }
    }
}

} // verus!
