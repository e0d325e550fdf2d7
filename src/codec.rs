//! Byte-level codecs: padding removal, block-cipher decoding, and compression to text.
use aes::cipher::{BlockDecrypt, KeyInit};
use base64::Engine;
use std::io::Write;
use vstd::prelude::*;
use vstd::string::StringSliceAdditionalSpecFns;
use vstd::utf8::{decode_utf8, valid_utf8};

verus! {

/// What the standard base64 alphabet, with padding, decodes `b` to.
pub uninterp spec fn base64_standard_decoded(b: Seq<u8>) -> Option<Seq<u8>>;

/// The URL-safe base64 text, without padding, of `b`.
pub uninterp spec fn base64_url_encoded(b: Seq<u8>) -> Seq<char>;

/// What URL-safe base64 text without padding decodes to.
pub uninterp spec fn base64_url_decoded(s: Seq<char>) -> Option<Seq<u8>>;

/// Raw deflate at the best compression level.
pub uninterp spec fn deflated(b: Seq<u8>) -> Option<Seq<u8>>;

/// Raw inflate.
pub uninterp spec fn inflated(b: Seq<u8>) -> Option<Seq<u8>>;

/// AES-128, AES-192 and AES-256 decryption of one 16-byte block.
pub uninterp spec fn aes128_block(key: Seq<u8>, block: Seq<u8>) -> Seq<u8>;

pub uninterp spec fn aes192_block(key: Seq<u8>, block: Seq<u8>) -> Seq<u8>;

pub uninterp spec fn aes256_block(key: Seq<u8>, block: Seq<u8>) -> Seq<u8>;

/// Relies on `base64::engine::general_purpose::STANDARD.decode`.
#[verifier::external_body]
fn decode_standard(b: &Vec<u8>) -> (r: Option<Vec<u8>>)
    ensures
        match r {
            Some(v) => base64_standard_decoded(b@) == Some(v@),
            None => base64_standard_decoded(b@) is None,
        },
{
    base64::engine::general_purpose::STANDARD.decode(b).ok()
}

/// Relies on `base64::engine::general_purpose::URL_SAFE_NO_PAD.encode`.
#[verifier::external_body]
fn encode_url(b: &Vec<u8>) -> (r: String)
    ensures
        r@ == base64_url_encoded(b@),
{
    base64::engine::general_purpose::URL_SAFE_NO_PAD.encode(b)
}

/// Relies on `base64::engine::general_purpose::URL_SAFE_NO_PAD.decode`.
#[verifier::external_body]
fn decode_url(s: &str) -> (r: Option<Vec<u8>>)
    ensures
        match r {
            Some(v) => base64_url_decoded(s@) == Some(v@),
            None => base64_url_decoded(s@) is None,
        },
{
    base64::engine::general_purpose::URL_SAFE_NO_PAD.decode(s).ok()
}

/// Relies on `flate2::write::DeflateEncoder` with `Compression::best()`, writing into a `Vec`.
#[verifier::external_body]
fn deflate(b: &[u8]) -> (r: Option<Vec<u8>>)
    ensures
        match r {
            Some(v) => deflated(b@) == Some(v@),
            None => deflated(b@) is None,
        },
{
    let mut enc = flate2::write::DeflateEncoder::new(Vec::new(), flate2::Compression::best());
    enc.write_all(b).ok()?;
    enc.finish().ok()
}

/// Relies on `flate2::write::DeflateDecoder`, writing into a `Vec`.
#[verifier::external_body]
fn inflate(b: &Vec<u8>) -> (r: Option<Vec<u8>>)
    ensures
        match r {
            Some(v) => inflated(b@) == Some(v@),
            None => inflated(b@) is None,
        },
{
    let mut dec = flate2::write::DeflateDecoder::new(Vec::new());
    dec.write_all(b).ok()?;
    dec.finish().ok()
}

/// Relies on `aes::Aes128` (`KeyInit::new_from_slice`, `BlockDecrypt::decrypt_block`); the key
/// length is the one `new_from_slice` accepts.
#[verifier::external_body]
fn decrypt_block_128(key: &Vec<u8>, block: &Vec<u8>) -> (r: Vec<u8>)
    requires
        key@.len() == 16,
        block@.len() == 16,
    ensures
        r@ == aes128_block(key@, block@),
        r@.len() == 16,
{
    let c = aes::Aes128::new_from_slice(key).unwrap();
    let mut b = aes::Block::clone_from_slice(block);
    c.decrypt_block(&mut b);
    b.to_vec()
}

/// Relies on `aes::Aes192` (`KeyInit::new_from_slice`, `BlockDecrypt::decrypt_block`).
#[verifier::external_body]
fn decrypt_block_192(key: &Vec<u8>, block: &Vec<u8>) -> (r: Vec<u8>)
    requires
        key@.len() == 24,
        block@.len() == 16,
    ensures
        r@ == aes192_block(key@, block@),
        r@.len() == 16,
{
    let c = aes::Aes192::new_from_slice(key).unwrap();
    let mut b = aes::Block::clone_from_slice(block);
    c.decrypt_block(&mut b);
    b.to_vec()
}

/// Relies on `aes::Aes256` (`KeyInit::new_from_slice`, `BlockDecrypt::decrypt_block`).
#[verifier::external_body]
fn decrypt_block_256(key: &Vec<u8>, block: &Vec<u8>) -> (r: Vec<u8>)
    requires
        key@.len() == 32,
        block@.len() == 16,
    ensures
        r@ == aes256_block(key@, block@),
        r@.len() == 16,
{
    let c = aes::Aes256::new_from_slice(key).unwrap();
    let mut b = aes::Block::clone_from_slice(block);
    c.decrypt_block(&mut b);
    b.to_vec()
}

/// Relies on `String::from_utf8`: the text of valid UTF-8, an error otherwise.
#[verifier::external_body]
fn text_of_utf8(b: Vec<u8>) -> (r: Option<String>)
    ensures
        match r {
            Some(s) => valid_utf8(b@) && s@ == decode_utf8(b@),
            None => !valid_utf8(b@),
        },
{
    String::from_utf8(b).ok()
}

/// Padding is well formed: the last byte `n` is non-zero and the last `n` bytes all equal `n`.
pub open spec fn pad_ok(d: Seq<u8>) -> bool {
    &&& d.len() > 0
    &&& d.last() != 0
    &&& d.last() <= d.len()
    &&& forall|i: int| d.len() - d.last() <= i < d.len() ==> #[trigger] d[i] == d.last()
}

/// Remove trailing padding, whose length is given by the last byte; `false`, leaving the data
/// as it was, when the padding is not well formed.
pub fn unpad(data: &mut Vec<u8>) -> (r: bool)
    ensures
        r == pad_ok(old(data)@),
        r ==> final(data)@ == old(data)@.subrange(0, old(data)@.len() - old(data)@.last()),
        !r ==> final(data)@ == old(data)@,
{
    let n = data.len();
    if n == 0 {
        return false;
    }
    let count = data[n - 1];
    if count == 0 || count as usize > n {
        return false;
    }
    let start = n - count as usize;
    let mut i: usize = start;
    while i < n
        invariant
            start <= i <= n == data@.len(),
            count == data@.last(),
            start == n - count,
            forall|j: int| start <= j < i ==> #[trigger] data@[j] == count,
        decreases n - i,
    {
        if data[i] != count {
            return false;
        }
        i = i + 1;
    }
    data.truncate(start);
    true
}

/// The base64 text that the decoder reads: `-` read as `/`, `_` as `+`, and everything but
/// ASCII letters, digits, `=`, `/` and `+` dropped.
pub open spec fn cleaned(b: Seq<u8>) -> Seq<u8>
    decreases b.len(),
{
    if b.len() == 0 {
        Seq::empty()
    } else {
        let c = if b.last() == 45 {
            47u8
        } else if b.last() == 95 {
            43u8
        } else {
            b.last()
        };
        let rest = cleaned(b.drop_last());
        if is_base64_byte(c) {
            rest.push(c)
        } else {
            rest
        }
    }
}

pub open spec fn is_base64_byte(c: u8) -> bool {
    (48 <= c <= 57) || (65 <= c <= 90) || (97 <= c <= 122) || c == 61 || c == 47 || c == 43
}

/// Decryption of `d` block by block with the AES variant that the key length selects.
pub open spec fn blocks_decrypted(key: Seq<u8>, d: Seq<u8>) -> Seq<u8>
    decreases d.len(),
{
    if d.len() < 16 {
        Seq::empty()
    } else {
        let block = d.subrange(0, 16);
        let plain = if key.len() == 16 {
            aes128_block(key, block)
        } else if key.len() == 24 {
            aes192_block(key, block)
        } else {
            aes256_block(key, block)
        };
        plain + blocks_decrypted(key, d.subrange(16, d.len() as int))
    }
}

/// The whole decoder: clean, base64-decode, decrypt, unpad, read as UTF-8.
pub open spec fn decrypted(data: Seq<u8>, key: Seq<u8>) -> Option<Seq<char>> {
    match base64_standard_decoded(cleaned(data)) {
        None => None,
        Some(bytes) => if !(key.len() == 16 || key.len() == 24 || key.len() == 32) || bytes.len()
            % 16 != 0 {
            None
        } else {
            let plain = blocks_decrypted(key, bytes);
            if !pad_ok(plain) {
                None
            } else {
                let text = plain.subrange(0, plain.len() - plain.last());
                if valid_utf8(text) {
                    Some(decode_utf8(text))
                } else {
                    None
                }
            }
        },
    }
}

fn clean_bytes(b: &[u8]) -> (r: Vec<u8>)
    ensures
        r@ == cleaned(b@),
{
    let mut r: Vec<u8> = Vec::new();
    let mut i: usize = 0;
    while i < b.len()
        invariant
            i <= b@.len(),
            r@ == cleaned(b@.subrange(0, i as int)),
        decreases b@.len() - i,
    {
        assert(b@.subrange(0, i + 1).drop_last() =~= b@.subrange(0, i as int));
        let x = b[i];
        let c: u8 = if x == 45 {
            47
        } else if x == 95 {
            43
        } else {
            x
        };
        if (48 <= c && c <= 57) || (65 <= c && c <= 90) || (97 <= c && c <= 122) || c == 61 || c
            == 47 || c == 43 {
            r.push(c);
        }
        i = i + 1;
    }
    assert(b@.subrange(0, b@.len() as int) =~= b@);
    r
}

fn decrypt_blocks(key: &Vec<u8>, d: &Vec<u8>) -> (r: Vec<u8>)
    requires
        key@.len() == 16 || key@.len() == 24 || key@.len() == 32,
        d@.len() % 16 == 0,
    ensures
        r@ == blocks_decrypted(key@, d@),
{
    let n = d.len();
    let mut i: usize = n;
    // walk from the last block back, so that each step prepends
    let mut r: Vec<u8> = Vec::new();
    while i >= 16
        invariant
            i <= n == d@.len(),
            i % 16 == 0,
            key@.len() == 16 || key@.len() == 24 || key@.len() == 32,
            r@ == blocks_decrypted(key@, d@.subrange(i as int, n as int)),
        decreases i,
    {
        let start = i - 16;
        let mut block: Vec<u8> = Vec::new();
        let mut j: usize = start;
        while j < i
            invariant
                start <= j <= i <= n == d@.len(),
                block@ =~= d@.subrange(start as int, j as int),
            decreases i - j,
        {
            block.push(d[j]);
            j = j + 1;
        }
        let plain = if key.len() == 16 {
            decrypt_block_128(key, &block)
        } else if key.len() == 24 {
            decrypt_block_192(key, &block)
        } else {
            decrypt_block_256(key, &block)
        };
        let mut next = plain;
        let mut k: usize = 0;
        let ghost p = next@;
        while k < r.len()
            invariant
                k <= r@.len(),
                next@ =~= p + r@.subrange(0, k as int),
            decreases r@.len() - k,
        {
            next.push(r[k]);
            k = k + 1;
        }
        proof {
            let tail = d@.subrange(start as int, n as int);
            assert(tail.subrange(0, 16) =~= block@);
            assert(tail.subrange(16, tail.len() as int) =~= d@.subrange(i as int, n as int));
            assert(r@.subrange(0, r@.len() as int) =~= r@);
        }
        r = next;
        i = start;
    }
    assert(d@.subrange(0, n as int) =~= d@);
    r
}

/// Decode URL-tolerant base64 text and decrypt it with AES, the variant chosen by the key's
/// length (16, 24 or 32 bytes), then strip the padding and read UTF-8. `None` where any step
/// fails.
pub fn decrypt_(data: &str, key: &str) -> (r: Option<String>)
    ensures
        match r {
            Some(s) => decrypted(data.spec_bytes(), key.spec_bytes()) == Some(s@),
            None => decrypted(data.spec_bytes(), key.spec_bytes()) is None,
        },
{
    let cleaned_data = clean_bytes(data.as_bytes());
    let bytes = match decode_standard(&cleaned_data) {
        Some(b) => b,
        None => return None,
    };
    let kb = key.as_bytes();
    let mut k: Vec<u8> = Vec::new();
    let mut i: usize = 0;
    while i < kb.len()
        invariant
            i <= kb@.len(),
            k@ =~= kb@.subrange(0, i as int),
        decreases kb@.len() - i,
    {
        k.push(kb[i]);
        i = i + 1;
    }
    assert(k@ =~= kb@);
    if !(k.len() == 16 || k.len() == 24 || k.len() == 32) || bytes.len() % 16 != 0 {
        return None;
    }
    let mut plain = decrypt_blocks(&k, &bytes);
    if !unpad(&mut plain) {
        return None;
    }
    text_of_utf8(plain)
}

/// Deflate the UTF-8 bytes of `s` at the best level and write them as URL-safe base64 without
/// padding.
pub fn compress_(s: &str) -> (r: Option<String>)
    ensures
        match r {
            Some(t) => deflated(s.spec_bytes()) matches Some(z) && t@ == base64_url_encoded(z),
            None => deflated(s.spec_bytes()) is None,
        },
{
    match deflate(s.as_bytes()) {
        Some(z) => Some(encode_url(&z)),
        None => None,
    }
}

/// The inverse of `compress_`: URL-safe base64 without padding, inflated, read as UTF-8.
pub fn decompress_(s: &str) -> (r: Option<String>)
    ensures
        match r {
            Some(t) => base64_url_decoded(s@) matches Some(z) && inflated(z) matches Some(b)
                && valid_utf8(b) && t@ == decode_utf8(b),
            None => !(base64_url_decoded(s@) matches Some(z) && inflated(z) matches Some(b)
                && valid_utf8(b)),
        },
{
    let z = match decode_url(s) {
        Some(z) => z,
        None => return None,
    };
    let b = match inflate(&z) {
        Some(b) => b,
        None => return None,
    };
    text_of_utf8(b)
}

} // verus!
