//! Captured-image handling: decoding a canvas snapshot handed over as a
//! base64 string and deriving the content-addressed cache path its bytes
//! are stored under. Writing the file to disk is the caller's business.

use vstd::prelude::*;

use base64::Engine;
use sha2::Digest;

verus! {

/// What base64 decoding (standard alphabet, padded) yields for the given
/// characters: the decoded bytes, or nothing when the input is not valid
/// base64. The result depends on the characters alone.
pub uninterp spec fn base64_decode_of(s: Seq<char>) -> Option<Seq<u8>>;

/// Relies on base64's standard-alphabet engine: decoding is a function of
/// the input characters alone, and fails exactly on invalid input.
#[verifier::external_body]
fn base64_decode(s: &str) -> (r: Option<Vec<u8>>)
    ensures
        r is Some <==> base64_decode_of(s@) is Some,
        r is Some ==> r.unwrap()@ == base64_decode_of(s@).unwrap(),
{
    base64::engine::general_purpose::STANDARD.decode(s).ok()
}

/// The SHA-256 digest of the given bytes: a function of the bytes alone.
pub uninterp spec fn sha256_of(b: Seq<u8>) -> Seq<u8>;

/// Relies on sha2's one-shot SHA-256 digest: 32 bytes, a function of the
/// input bytes alone.
#[verifier::external_body]
fn sha256(b: &Vec<u8>) -> (r: Vec<u8>)
    ensures
        r@ == sha256_of(b@),
        r@.len() == 32,
{
    sha2::Sha256::digest(b.as_slice()).to_vec()
}

/// Relies on String::push: appends one character.
#[verifier::external_body]
pub fn push_char(s: &mut String, c: char)
    ensures
        final(s)@ == old(s)@.push(c),
{
    s.push(c);
}

/// The lowercase hexadecimal digit for a value below sixteen.
pub open spec fn spec_hex_digit(d: int) -> char {
    if d == 0 {
        '0'
    } else if d == 1 {
        '1'
    } else if d == 2 {
        '2'
    } else if d == 3 {
        '3'
    } else if d == 4 {
        '4'
    } else if d == 5 {
        '5'
    } else if d == 6 {
        '6'
    } else if d == 7 {
        '7'
    } else if d == 8 {
        '8'
    } else if d == 9 {
        '9'
    } else if d == 10 {
        'a'
    } else if d == 11 {
        'b'
    } else if d == 12 {
        'c'
    } else if d == 13 {
        'd'
    } else if d == 14 {
        'e'
    } else {
        'f'
    }
}

/// The lowercase hexadecimal rendering of a byte sequence, two digits per
/// byte, high digit first.
pub open spec fn spec_hex(bytes: Seq<u8>) -> Seq<char>
    decreases bytes.len(),
{
    if bytes.len() == 0 {
        Seq::empty()
    } else {
        spec_hex(bytes.drop_last()) + seq![
            spec_hex_digit((bytes.last() / 16) as int),
            spec_hex_digit((bytes.last() % 16) as int),
        ]
    }
}

fn hex_digit(d: u8) -> (r: char)
    requires
        d < 16,
    ensures
        r == spec_hex_digit(d as int),
{
    if d == 0 {
        '0'
    } else if d == 1 {
        '1'
    } else if d == 2 {
        '2'
    } else if d == 3 {
        '3'
    } else if d == 4 {
        '4'
    } else if d == 5 {
        '5'
    } else if d == 6 {
        '6'
    } else if d == 7 {
        '7'
    } else if d == 8 {
        '8'
    } else if d == 9 {
        '9'
    } else if d == 10 {
        'a'
    } else if d == 11 {
        'b'
    } else if d == 12 {
        'c'
    } else if d == 13 {
        'd'
    } else if d == 14 {
        'e'
    } else {
        'f'
    }
}

/// Two hex digits stand for each byte.
pub proof fn lemma_spec_hex_len(bytes: Seq<u8>)
    ensures
        spec_hex(bytes).len() == 2 * bytes.len(),
    decreases bytes.len(),
{
    if bytes.len() > 0 {
        lemma_spec_hex_len(bytes.drop_last());
    }
}

/// The lowercase hexadecimal rendering of the given bytes.
pub fn to_hex(bytes: &Vec<u8>) -> (r: Vec<char>)
    ensures
        r@ == spec_hex(bytes@),
{
    let mut r: Vec<char> = Vec::new();
    let mut i: usize = 0;
    proof {
        assert(r@ =~= spec_hex(bytes@.take(0)));
    }
    while i < bytes.len()
        invariant
            0 <= i <= bytes@.len(),
            r@ == spec_hex(bytes@.take(i as int)),
        decreases bytes@.len() - i,
    {
        let b = bytes[i];
        proof {
            assert(bytes@.take(i + 1).drop_last() =~= bytes@.take(i as int));
            assert(bytes@.take(i + 1).last() == bytes@[i as int]);
        }
        r.push(hex_digit(b / 16));
        r.push(hex_digit(b % 16));
        proof {
            assert(r@ =~= spec_hex(bytes@.take(i as int)) + seq![
                spec_hex_digit((bytes@[i as int] / 16) as int),
                spec_hex_digit((bytes@[i as int] % 16) as int),
            ]);
        }
        i = i + 1;
    }
    proof {
        assert(bytes@.take(bytes@.len() as int) =~= bytes@);
    }
    r
}

/// The relative cache path the bytes of a captured image are stored
/// under: the cache directory, the capture context, and the first sixteen
/// hex digits of the bytes' SHA-256 digest as the file name.
pub open spec fn spec_image_cache_path(ctx: Seq<char>, png: Seq<u8>) -> Seq<char> {
    seq!['i', 'm', 'a', 'g', 'e', '_', 'c', 'a', 'c', 'h', 'e', '/'] + ctx + seq!['/'] + spec_hex(
        sha256_of(png),
    ).take(16) + seq!['.', 'p', 'n', 'g']
}

/// Decode one captured canvas and name its cache entry: the decoded image
/// bytes together with the relative path they are stored under, or
/// nothing when the handed-over string is not valid base64.
pub fn image_cache_entry(ctx: &str, canvas_base64: &str) -> (r: Option<(Vec<u8>, String)>)
    ensures
        match base64_decode_of(canvas_base64@) {
            Some(png) => {
                &&& r is Some
                &&& r.unwrap().0@ == png
                &&& r.unwrap().1@ == spec_image_cache_path(ctx@, png)
            },
            None => r is None,
        },
{
    let png = match base64_decode(canvas_base64) {
        Some(png) => png,
        None => {
            return None;
        },
    };
    let digest = sha256(&png);
    let hex = to_hex(&digest);
    let mut path = String::new();
    path.append("image_cache/");
    path.append(ctx);
    path.append("/");
    proof {
        reveal_strlit("image_cache/");
        reveal_strlit("/");
        assert("image_cache/"@ =~= seq!['i', 'm', 'a', 'g', 'e', '_', 'c', 'a', 'c', 'h', 'e', '/']);
        assert("/"@ =~= seq!['/']);
    }
    let mut i: usize = 0;
    proof {
        lemma_spec_hex_len(digest@);
        assert(hex@.len() == 2 * 32);
        assert(path@ + hex@.take(0) =~= path@);
    }
    let ghost mid = path@;
    while i < 16
        invariant
            0 <= i <= 16,
            hex@.len() == 64,
            hex@ == spec_hex(sha256_of(png@)),
            path@ == mid + hex@.take(i as int),
        decreases 16 - i,
    {
        push_char(&mut path, hex[i]);
        proof {
            assert(mid + hex@.take(i + 1) =~= (mid + hex@.take(i as int)).push(hex@[i as int]));
        }
        i = i + 1;
    }
    path.append(".png");
    proof {
        reveal_strlit(".png");
        assert(".png"@ =~= seq!['.', 'p', 'n', 'g']);
        assert(path@ =~= spec_image_cache_path(ctx@, png@));
    }
    Some((png, path))
}

} // verus!
