//! Encodings of bytes as text, and the cipher of uploads.

use aes::Aes128;
use base64::Engine;
use ecb::cipher::block_padding::Pkcs7;
use ecb::cipher::{BlockEncryptMut, KeyInit};
use md5::{Digest, Md5};
use vstd::prelude::*;
use vstd::utf8::*;

verus! {

/// The digit of base 16 with value `d`, in lower case.
pub open spec fn hex_digit(d: nat) -> char {
    if d < 10 {
        (48 + d) as char
    } else {
        (87 + d) as char
    }
}

/// The digit of base 16 with value `d`, in upper case.
pub open spec fn hex_digit_upper(d: nat) -> char {
    if d < 10 {
        (48 + d) as char
    } else {
        (55 + d) as char
    }
}

/// Each byte as two digits of base 16.
pub open spec fn hex(bytes: Seq<u8>) -> Seq<char>
    decreases bytes.len(),
{
    if bytes.len() == 0 {
        Seq::empty()
    } else {
        hex(bytes.drop_last()).push(hex_digit((bytes.last() / 16) as nat)).push(
            hex_digit((bytes.last() % 16) as nat),
        )
    }
}

/// Bytes in base 16 (`hex::encode`): two digits in lower case for each byte.
#[verifier::external_body]
pub(crate) fn hex_encode(bytes: &[u8]) -> (res: String)
    ensures
        res@ == hex(bytes@),
{
    hex::encode(bytes)
}

/// The digit of base 64 with value `d`.
pub open spec fn base64_digit(d: nat) -> char {
    if d < 26 {
        (65 + d) as char
    } else if d < 52 {
        (71 + d) as char
    } else if d < 62 {
        (d - 4) as char
    } else if d == 62 {
        '+'
    } else {
        '/'
    }
}

/// Bytes in base 64: four digits for three bytes, the last four filled up with
/// equals signs.
pub open spec fn base64(bytes: Seq<u8>) -> Seq<char>
    decreases bytes.len(),
{
    if bytes.len() == 0 {
        Seq::empty()
    } else {
        let a = bytes[0] as nat;
        let b = if bytes.len() > 1 {
            bytes[1] as nat
        } else {
            0
        };
        let c = if bytes.len() > 2 {
            bytes[2] as nat
        } else {
            0
        };
        let third = if bytes.len() > 1 {
            base64_digit(4 * (b % 16) + c / 64)
        } else {
            '='
        };
        let fourth = if bytes.len() > 2 {
            base64_digit(c % 64)
        } else {
            '='
        };
        let rest = if bytes.len() > 3 {
            base64(bytes.skip(3))
        } else {
            Seq::empty()
        };
        seq![base64_digit(a / 4), base64_digit(16 * (a % 4) + b / 16), third, fourth] + rest
    }
}

/// Bytes in base 64 (`base64::engine::general_purpose::STANDARD`): the standard
/// alphabet, with padding.
#[verifier::external_body]
pub(crate) fn base64_encode(bytes: &[u8]) -> (res: String)
    ensures
        res@ == base64(bytes@),
{
    base64::engine::general_purpose::STANDARD.encode(bytes)
}

/// Whether a byte stands for itself in a query.
pub open spec fn is_unreserved(b: u8) -> bool {
    ||| 48 <= b <= 57
    ||| 65 <= b <= 90
    ||| 97 <= b <= 122
    ||| b == 45 || b == 46 || b == 95 || b == 126
}

/// Bytes in the form that a query takes: letters, digits, `-`, `.`, `_` and `~`
/// as they are, any other as a percent sign and two digits.
pub open spec fn percent(bytes: Seq<u8>) -> Seq<char>
    decreases bytes.len(),
{
    if bytes.len() == 0 {
        Seq::empty()
    } else {
        let b = bytes.last();
        let front = percent(bytes.drop_last());
        if is_unreserved(b) {
            front.push(b as char)
        } else {
            front.push('%').push(hex_digit_upper((b / 16) as nat)).push(
                hex_digit_upper((b % 16) as nat),
            )
        }
    }
}

/// Text in the form that a query takes (`urlencoding::encode`).
#[verifier::external_body]
pub(crate) fn url_encode(s: &str) -> (res: String)
    ensures
        res@ == percent(encode_utf8(s@)),
{
    urlencoding::encode(s).into_owned()
}

/// The MD5 digest of bytes, in base 16.
pub uninterp spec fn md5_text(bytes: Seq<u8>) -> Seq<char>;

/// The MD5 digest of bytes (`md5::Md5`), as 32 digits of base 16 in lower case.
/// What the digits are is named only.
#[verifier::external_body]
pub(crate) fn md5_hex(bytes: &[u8]) -> (res: String)
    ensures
        res@ == md5_text(bytes@),
        res@.len() == 32,
{
    format!("{:x}", Md5::new().chain_update(bytes).finalize())
}

/// Bytes filled up to a multiple of sixteen: each byte added is their number,
/// and at least one is.
pub open spec fn padded(bytes: Seq<u8>) -> Seq<u8> {
    let n = (16 - bytes.len() % 16) as nat;
    bytes + Seq::new(n, |i: int| n as u8)
}

/// One block of sixteen bytes under AES with a key of sixteen bytes.
pub uninterp spec fn aes_block(key: Seq<u8>, block: Seq<u8>) -> Seq<u8>;

/// Whether `res` are the bytes enciphered under a key: filled up to whole blocks,
/// and each block by itself.
pub open spec fn enciphers(plaintext: Seq<u8>, key: Seq<u8>, res: Seq<u8>) -> bool {
    &&& res.len() == padded(plaintext).len()
    &&& forall|i: int|
        0 <= 16 * i < padded(plaintext).len() ==> #[trigger] res.subrange(16 * i, 16 * i + 16)
            == aes_block(key, padded(plaintext).subrange(16 * i, 16 * i + 16))
}

/// Bytes that are the same when filled up are the same.
pub proof fn lemma_padded_once(p: Seq<u8>, q: Seq<u8>)
    requires
        padded(p) == padded(q),
    ensures
        p == q,
{
    let s = padded(p);
    let n = (16 - p.len() % 16) as nat;
    let m = (16 - q.len() % 16) as nat;
    assert(s[s.len() - 1] == n as u8);
    assert(padded(q)[s.len() - 1] == m as u8);
    assert(n == m);
    assert(p =~= s.take(p.len() as int));
    assert(q =~= s.take(p.len() as int));
}

/// Enciphers bytes with AES-128 in ECB mode and PKCS#7 padding
/// (`ecb::Encryptor<aes::Aes128>` and `encrypt_padded_vec_mut`): the bytes are
/// filled up to whole blocks, and each block is enciphered by itself. What a
/// single block becomes is named only; as deciphering gives a block back, no other
/// block becomes the same.
#[verifier::external_body]
pub(crate) fn aes_encrypt(plaintext: &[u8], key: &[u8; 16]) -> (res: Vec<u8>)
    ensures
        res@.len() == padded(plaintext@).len(),
        forall|i: int|
            0 <= 16 * i < padded(plaintext@).len() ==> #[trigger] res@.subrange(16 * i, 16 * i + 16)
                == aes_block(key@, padded(plaintext@).subrange(16 * i, 16 * i + 16)),
        forall|i: int, block: Seq<u8>|
            0 <= 16 * i < padded(plaintext@).len() && block.len() == 16 && #[trigger] res@.subrange(
                16 * i,
                16 * i + 16,
            ) == #[trigger] aes_block(key@, block) ==> block == padded(plaintext@).subrange(
                16 * i,
                16 * i + 16,
            ),
{
    ecb::Encryptor::<Aes128>::new(key.into()).encrypt_padded_vec_mut::<Pkcs7>(plaintext)
}

// ---------------------------------------------------------------------------
// What holds of the encodings
// ---------------------------------------------------------------------------

/// The value of a digit of base 16.
pub open spec fn hex_value(c: char) -> int {
    if '0' <= c <= '9' {
        c as int - '0' as int
    } else if 'a' <= c <= 'f' {
        c as int - 'a' as int + 10
    } else {
        c as int - 'A' as int + 10
    }
}

/// Each byte is two digits in lower case, from which it is read back.
pub proof fn law_hex(bytes: Seq<u8>)
    ensures
        hex(bytes).len() == 2 * bytes.len(),
        forall|i: int|
            #![trigger bytes[i]]
            0 <= i < bytes.len() ==> 16 * hex_value(hex(bytes)[2 * i]) + hex_value(
                hex(bytes)[2 * i + 1],
            ) == bytes[i],
        forall|k: int|
            0 <= k < hex(bytes).len() ==> '0' <= (#[trigger] hex(bytes)[k]) <= '9' || 'a' <= hex(
                bytes,
            )[k] <= 'f',
    decreases bytes.len(),
{
    if bytes.len() > 0 {
        let front = bytes.drop_last();
        let n = front.len() as int;
        law_hex(front);
        let b = bytes.last();
        assert(hex(bytes)[2 * n] == hex_digit((b / 16) as nat));
        assert(hex(bytes)[2 * n + 1] == hex_digit((b % 16) as nat));
        assert forall|i: int|
            #![trigger bytes[i]]
            0 <= i < bytes.len() implies 16 * hex_value(hex(bytes)[2 * i]) + hex_value(
            hex(bytes)[2 * i + 1],
        ) == bytes[i] by {
            if i < n {
                assert(front[i] == bytes[i]);
                assert(hex(bytes)[2 * i] == hex(front)[2 * i]);
                assert(hex(bytes)[2 * i + 1] == hex(front)[2 * i + 1]);
            }
        }
        assert forall|k: int| 0 <= k < hex(bytes).len() implies '0' <= (#[trigger] hex(bytes)[k])
            <= '9' || 'a' <= hex(bytes)[k] <= 'f' by {
            if k < 2 * n {
                assert(hex(bytes)[k] == hex(front)[k]);
            }
        }
    }
}

/// The value of a digit of base 64.
pub open spec fn base64_value(c: char) -> int {
    if 'A' <= c <= 'Z' {
        c as int - 'A' as int
    } else if 'a' <= c <= 'z' {
        c as int - 'a' as int + 26
    } else if '0' <= c <= '9' {
        c as int - '0' as int + 52
    } else if c == '+' {
        62
    } else {
        63
    }
}

/// Each three bytes are four digits, from which they are read back; where a byte or two
/// are missing at the end, marks of equality stand for them.
pub proof fn law_base64(bytes: Seq<u8>)
    ensures
        base64(bytes).len() == 4 * ((bytes.len() + 2) / 3),
        forall|k: int|
            #![trigger bytes[3 * k]]
            0 <= k && 3 * k < bytes.len() ==> {
                let t = base64(bytes);
                &&& bytes[3 * k] == 4 * base64_value(t[4 * k]) + base64_value(t[4 * k + 1]) / 16
                &&& 3 * k + 1 < bytes.len() ==> bytes[3 * k + 1] == 16 * (base64_value(
                    t[4 * k + 1],
                ) % 16) + base64_value(t[4 * k + 2]) / 4 && t[4 * k + 2] != '='
                &&& 3 * k + 2 < bytes.len() ==> bytes[3 * k + 2] == 64 * (base64_value(
                    t[4 * k + 2],
                ) % 4) + base64_value(t[4 * k + 3]) && t[4 * k + 3] != '='
                &&& 3 * k + 1 >= bytes.len() ==> t[4 * k + 2] == '='
                &&& 3 * k + 2 >= bytes.len() ==> t[4 * k + 3] == '='
            },
    decreases bytes.len(),
{
    if bytes.len() > 0 {
        let t = base64(bytes);
        let a = bytes[0] as nat;
        let b: nat = if bytes.len() > 1 {
            bytes[1] as nat
        } else {
            0
        };
        let c: nat = if bytes.len() > 2 {
            bytes[2] as nat
        } else {
            0
        };
        lemma_base64_digit(a / 4);
        lemma_base64_digit(16 * (a % 4) + b / 16);
        lemma_base64_digit(4 * (b % 16) + c / 64);
        lemma_base64_digit(c % 64);
        assert(t[0] == base64_digit(a / 4));
        assert(t[1] == base64_digit(16 * (a % 4) + b / 16));
        if bytes.len() > 1 {
            assert(t[2] == base64_digit(4 * (b % 16) + c / 64));
        }
        if bytes.len() > 2 {
            assert(t[3] == base64_digit(c % 64));
        }
        let rest = bytes.skip(3);
        if bytes.len() > 3 {
            law_base64(rest);
        }
        assert forall|k: int|
            #![trigger bytes[3 * k]]
            0 <= k && 3 * k < bytes.len() implies {
            &&& bytes[3 * k] == 4 * base64_value(t[4 * k]) + base64_value(t[4 * k + 1]) / 16
            &&& 3 * k + 1 < bytes.len() ==> bytes[3 * k + 1] == 16 * (base64_value(t[4 * k + 1])
                % 16) + base64_value(t[4 * k + 2]) / 4 && t[4 * k + 2] != '='
            &&& 3 * k + 2 < bytes.len() ==> bytes[3 * k + 2] == 64 * (base64_value(t[4 * k + 2])
                % 4) + base64_value(t[4 * k + 3]) && t[4 * k + 3] != '='
            &&& 3 * k + 1 >= bytes.len() ==> t[4 * k + 2] == '='
            &&& 3 * k + 2 >= bytes.len() ==> t[4 * k + 3] == '='
        } by {
            if k > 0 {
                let j = k - 1;
                assert(rest[3 * j] == bytes[3 * k]);
                assert(t[4 * k] == base64(rest)[4 * j]);
                assert(t[4 * k + 1] == base64(rest)[4 * j + 1]);
                assert(t[4 * k + 2] == base64(rest)[4 * j + 2]);
                assert(t[4 * k + 3] == base64(rest)[4 * j + 3]);
                if 3 * k + 1 < bytes.len() {
                    assert(rest[3 * j + 1] == bytes[3 * k + 1]);
                }
                if 3 * k + 2 < bytes.len() {
                    assert(rest[3 * j + 2] == bytes[3 * k + 2]);
                }
            }
        }
    }
}

proof fn lemma_base64_digit(d: nat)
    requires
        d < 64,
    ensures
        base64_value(base64_digit(d)) == d,
        base64_digit(d) != '=',
{
}

/// What follows on in bytes follows on in their percent encoding. A letter, a digit and
/// the signs `-`, `.`, `_` and `~` stand for themselves; any other byte is a percent sign
/// and two digits in upper case, from which it is read back.
pub proof fn law_percent(a: Seq<u8>, b: u8, c: Seq<u8>)
    ensures
        percent(a + c) == percent(a) + percent(c),
        ('a' <= b as char <= 'z' || 'A' <= b as char <= 'Z' || '0' <= b as char <= '9' || b as char
            == '-' || b as char == '.' || b as char == '_' || b as char == '~') ==> percent(seq![b])
            == seq![b as char],
        !('a' <= b as char <= 'z' || 'A' <= b as char <= 'Z' || '0' <= b as char <= '9' || b as char
            == '-' || b as char == '.' || b as char == '_' || b as char == '~') ==> {
            let t = percent(seq![b]);
            &&& t.len() == 3
            &&& t[0] == '%'
            &&& 16 * hex_value(t[1]) + hex_value(t[2]) == b
            &&& '0' <= t[1] <= '9' || 'A' <= t[1] <= 'F'
            &&& '0' <= t[2] <= '9' || 'A' <= t[2] <= 'F'
        },
    decreases c.len(),
{
    if c.len() > 0 {
        let front = c.drop_last();
        law_percent(a, b, front);
        assert((a + c).drop_last() =~= a + front);
        assert((a + c).last() == c.last());
        assert(percent(a + c) =~= percent(a) + percent(c));
    } else {
        assert(a + c =~= a);
        assert(percent(a) + percent(c) =~= percent(a));
    }
    let one = seq![b];
    assert(one.drop_last() =~= Seq::empty());
    assert(one.last() == b);
    reveal_with_fuel(percent, 2);
    assert(percent(one.drop_last()) =~= Seq::empty());
}

/// To the bytes that are enciphered one to sixteen are added, so that their number is a
/// multiple of sixteen; each of those says how many they are.
pub proof fn law_padded(bytes: Seq<u8>)
    ensures
        bytes.is_prefix_of(padded(bytes)),
        padded(bytes).len() % 16 == 0,
        bytes.len() < padded(bytes).len() <= bytes.len() + 16,
        forall|i: int|
            bytes.len() <= i < padded(bytes).len() ==> (#[trigger] padded(bytes)[i]) as int
                == padded(bytes).len() - bytes.len(),
{
    assert(padded(bytes).subrange(0, bytes.len() as int) =~= bytes);
}

} // verus!
