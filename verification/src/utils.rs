//! Client identity and URL encoding: the Azureus-style peer id and the
//! percent-encoding used for binary query parameters of HTTP trackers.

use vstd::prelude::*;

use rand::Rng;

verus! {

/// Relies on rand's `thread_rng().gen_range(0..n)`: a random index below
/// `n`; the range is non-empty, so the call cannot panic, and nothing more
/// is promised of the value.
#[verifier::external_body]
fn random_below(n: usize) -> (r: usize)
    requires
        n > 0,
    ensures
        r < n,
{
    rand::thread_rng().gen_range(0..n)
}

/// The fixed peer-id prefix `-RT0100-`: client `RT`, version `0100`.
pub open spec fn spec_peer_id_prefix() -> Seq<u8> {
    seq![45u8, 82u8, 84u8, 48u8, 49u8, 48u8, 48u8, 45u8]
}

/// An ASCII digit or letter.
pub open spec fn spec_is_alphanumeric(c: u8) -> bool {
    (48 <= c <= 57) || (65 <= c <= 90) || (97 <= c <= 122)
}

/// The character at `idx` of the 62-character set: `0`-`9` for 0 through
/// 9, `A`-`Z` for 10 through 35, `a`-`z` for 36 through 61.
pub open spec fn spec_charset_char(i: int) -> u8 {
    if i < 10 {
        (48 + i) as u8
    } else if i < 36 {
        (55 + i) as u8
    } else {
        (61 + i) as u8
    }
}

/// The alphanumeric character at `idx` of the 62-character set: the digits,
/// then the upper-case letters, then the lower-case letters.
fn charset_char(idx: usize) -> (r: u8)
    requires
        idx < 62,
    ensures
        r == spec_charset_char(idx as int),
        spec_is_alphanumeric(r),
{
    if idx < 10 {
        48 + (idx as u8)
    } else if idx < 36 {
        65 + ((idx - 10) as u8)
    } else {
        97 + ((idx - 36) as u8)
    }
}

/// A fresh 20-byte peer id: the fixed `-RT0100-` prefix, then twelve random
/// alphanumeric characters.
pub fn generate_peer_id() -> (r: [u8; 20])
    ensures
        r@.subrange(0, 8) == spec_peer_id_prefix(),
        forall|i: int| 8 <= i < 20 ==> spec_is_alphanumeric(r@[i]),
{
    let mut peer_id: [u8; 20] = [0; 20];
    peer_id[0] = 45;
    peer_id[1] = 82;
    peer_id[2] = 84;
    peer_id[3] = 48;
    peer_id[4] = 49;
    peer_id[5] = 48;
    peer_id[6] = 48;
    peer_id[7] = 45;
    let mut i: usize = 8;
    while i < 20
        invariant
            8 <= i <= 20,
            peer_id@.len() == 20,
            peer_id@.subrange(0, 8) =~= spec_peer_id_prefix(),
            forall|k: int| 8 <= k < i ==> spec_is_alphanumeric(peer_id@[k]),
        decreases 20 - i,
    {
        let idx = random_below(62);
        peer_id[i] = charset_char(idx);
        proof {
            assert(peer_id@.subrange(0, 8) =~= spec_peer_id_prefix());
        }
        i = i + 1;
    }
    peer_id
}

/// An upper-case hexadecimal digit for a value below 16.
pub open spec fn spec_hex_digit(n: u8) -> u8 {
    if n < 10 {
        (48 + n) as u8
    } else {
        (55 + n) as u8
    }
}

/// The form encoding of one byte: digits, letters and `*`, `-`, `.`, `_`
/// stand for themselves, a space becomes `+`, and anything else becomes
/// `%XX` with upper-case hexadecimal digits.
pub open spec fn spec_url_encode_byte(c: u8) -> Seq<u8> {
    if spec_is_alphanumeric(c) || c == 42 || c == 45 || c == 46 || c == 95 {
        seq![c]
    } else if c == 32 {
        seq![43u8]
    } else {
        seq![37u8, spec_hex_digit(c >> 4), spec_hex_digit(c & 15)]
    }
}

/// The form encoding of a byte string, byte by byte.
pub open spec fn spec_url_encode(s: Seq<u8>) -> Seq<u8>
    decreases s.len(),
{
    if s.len() == 0 {
        Seq::<u8>::empty()
    } else {
        spec_url_encode_byte(s[0]) + spec_url_encode(s.skip(1))
    }
}

/// Form-encodes binary data for an HTTP query string, as tracker announces
/// require for the info-hash and peer id.
pub fn url_encode(data: &[u8]) -> (r: Vec<u8>)
    ensures
        r@ == spec_url_encode(data@),
{
    let mut out: Vec<u8> = Vec::new();
    let mut i: usize = 0;
    proof {
        assert(data@.skip(0) =~= data@);
    }
    while i < data.len()
        invariant
            i <= data@.len(),
            spec_url_encode(data@) == out@ + spec_url_encode(data@.skip(i as int)),
        decreases data@.len() - i,
    {
        proof {
            assert(data@.skip(i as int)[0] == data@[i as int]);
            assert(data@.skip(i as int).skip(1) =~= data@.skip(i as int + 1));
        }
        let ghost prev = out@;
        let c = data[i];
        if (48 <= c && c <= 57) || (65 <= c && c <= 90) || (97 <= c && c <= 122) || c == 42 || c
            == 45 || c == 46 || c == 95 {
            out.push(c);
        } else if c == 32 {
            out.push(43);
        } else {
            out.push(37);
            let hi = c >> 4;
            let lo = c & 15;
            proof {
                assert(c >> 4 < 16 && c & 15 < 16) by (bit_vector);
            }
            out.push(if hi < 10 {
                48 + hi
            } else {
                55 + hi
            });
            out.push(if lo < 10 {
                48 + lo
            } else {
                55 + lo
            });
        }
        proof {
            assert(out@ =~= prev + spec_url_encode_byte(data@[i as int]));
            assert(prev + (spec_url_encode_byte(data@[i as int]) + spec_url_encode(
                data@.skip(i as int + 1),
            )) =~= out@ + spec_url_encode(data@.skip(i as int + 1)));
        }
        i = i + 1;
    }
    proof {
        assert(spec_url_encode(data@.skip(data@.len() as int)) =~= Seq::<u8>::empty());
        assert(out@ + Seq::<u8>::empty() =~= out@);
    }
    out
}

} // verus!
