//! Text encodings, digests and signatures, as outside crates compute them.

use vstd::prelude::*;

use sha2::Digest;

use crate::bytes::be_nat;

verus! {

/// The lower-case hexadecimal digit of a number below sixteen.
pub open spec fn hex_char(d: int) -> char {
    if d == 0 {
        '0'
    } else if d == 1 {
        '1'
    } else if d == 2 {
        '2'
    } else if d == 3 {
        '3'
    } else if d == 4 {
        '4'
    } else if d == 5 {
        '5'
    } else if d == 6 {
        '6'
    } else if d == 7 {
        '7'
    } else if d == 8 {
        '8'
    } else if d == 9 {
        '9'
    } else if d == 10 {
        'a'
    } else if d == 11 {
        'b'
    } else if d == 12 {
        'c'
    } else if d == 13 {
        'd'
    } else if d == 14 {
        'e'
    } else {
        'f'
    }
}

/// The number of a hexadecimal digit of either case.
pub open spec fn hex_value(c: char) -> Option<int> {
    if '0' <= c <= '9' {
        Some(c as int - '0' as int)
    } else if 'a' <= c <= 'f' {
        Some(c as int - 'a' as int + 10)
    } else if 'A' <= c <= 'F' {
        Some(c as int - 'A' as int + 10)
    } else {
        None
    }
}

/// Bytes as hexadecimal text: two lower-case digits each, the high one first.
pub open spec fn hex_text(b: Seq<u8>) -> Seq<char> {
    Seq::new(
        b.len() * 2,
        |i: int|
            if i % 2 == 0 {
                hex_char(b[i / 2] as int / 16)
            } else {
                hex_char(b[i / 2] as int % 16)
            },
    )
}

/// The bytes that hexadecimal text spells: there are some where the text has
/// digits only, and an even number of them.
pub open spec fn hex_bytes(s: Seq<char>) -> Option<Seq<u8>> {
    if s.len() % 2 == 0 && forall|i: int| 0 <= i < s.len() ==> hex_value(#[trigger] s[i]) is Some {
        Some(
            Seq::new(
                s.len() / 2,
                |i: int|
                    (16 * hex_value(s[2 * i])->Some_0 + hex_value(s[2 * i + 1])->Some_0) as u8,
            ),
        )
    } else {
        None
    }
}

/// `hex::encode`: the lower-case hexadecimal text of the bytes, two digits each.
#[verifier::external_body]
pub(crate) fn hex_encode(b: &[u8]) -> (r: String)
    ensures
        r@ == hex_text(b@),
{
    hex::encode(b)
}

/// `hex::decode`: the bytes that hexadecimal text of either case spells. It fails
/// exactly where the text is of odd length or holds anything but digits; which of
/// the two it was is not kept.
#[verifier::external_body]
pub(crate) fn hex_decode(s: &str) -> (r: Option<Vec<u8>>)
    ensures
        match r {
            Some(b) => hex_bytes(s@) == Some(b@),
            None => hex_bytes(s@) is None,
        },
{
    hex::decode(s).ok()
}

/// Hexadecimal text spells the bytes that it was made from.
pub proof fn law_hex_round_trip(b: Seq<u8>)
    ensures
        hex_bytes(hex_text(b)) == Some(b),
{
    let s = hex_text(b);
    assert forall|i: int| 0 <= i < s.len() implies hex_value(#[trigger] s[i]) is Some by {
        assert(0 <= b[i / 2] as int / 16 < 16);
    }
    assert(s.len() % 2 == 0);
    assert(s.len() / 2 == b.len());
    assert(hex_bytes(s)->Some_0 =~= b) by {
        assert forall|i: int| 0 <= i < b.len() implies hex_bytes(s)->Some_0[i] == b[i] by {
            assert((2 * i) % 2 == 0 && (2 * i) / 2 == i);
            assert((2 * i + 1) % 2 == 1 && (2 * i + 1) / 2 == i);
            let (h, l) = (b[i] as int / 16, b[i] as int % 16);
            assert(s[2 * i] == hex_char(h));
            assert(s[2 * i + 1] == hex_char(l));
            assert(0 <= h < 16 && 0 <= l < 16 && b[i] as int == 16 * h + l);
            assert(hex_value(hex_char(h)) == Some(h));
            assert(hex_value(hex_char(l)) == Some(l));
        }
    }
}

/// What `sha2::Sha256::digest` gives for the data.
pub uninterp spec fn sha256_of(data: Seq<u8>) -> Seq<u8>;

/// `sha2::Sha256::digest`: the SHA-256 digest of the data, which has 32 bytes.
#[verifier::external_body]
pub(crate) fn sha256(data: &[u8]) -> (r: Vec<u8>)
    ensures
        r@ == sha256_of(data@),
        r@.len() == 32,
{
    sha2::Sha256::digest(data).to_vec()
}

/// What `bs58::encode` and `into_string` give for the data.
pub uninterp spec fn base58_text(data: Seq<u8>) -> Seq<char>;

/// `bs58::encode` with `into_string`: the data in base 58, with the Bitcoin
/// alphabet.
#[verifier::external_body]
pub(crate) fn base58_encode(data: &[u8]) -> (r: String)
    ensures
        r@ == base58_text(data@),
{
    bs58::encode(data).into_string()
}

/// What `bs58::decode` and `into_vec` give for the text.
pub uninterp spec fn base58_bytes(text: Seq<char>) -> Option<Seq<u8>>;

/// `bs58::decode` with `into_vec`: the bytes that base-58 text spells, in the
/// Bitcoin alphabet, or nothing where it fails.
#[verifier::external_body]
pub(crate) fn base58_decode(text: &str) -> (r: Option<Vec<u8>>)
    ensures
        match r {
            Some(b) => base58_bytes(text@) == Some(b@),
            None => base58_bytes(text@) is None,
        },
{
    bs58::decode(text).into_vec().ok()
}

/// What `base64::Engine::decode` of the standard engine gives for the text.
pub uninterp spec fn base64_bytes(text: Seq<char>) -> Option<Seq<u8>>;

/// `base64::Engine::decode` with `base64::engine::general_purpose::STANDARD`: the
/// bytes that padded base-64 text spells, or nothing where it fails.
#[verifier::external_body]
pub(crate) fn base64_decode(text: &str) -> (r: Option<Vec<u8>>)
    ensures
        match r {
            Some(b) => base64_bytes(text@) == Some(b@),
            None => base64_bytes(text@) is None,
        },
{
    base64::Engine::decode(&base64::engine::general_purpose::STANDARD, text).ok()
}

/// The outcome of checking an Ed448 signature, with the failure as its debug text.
pub enum Ed448Check {
    Valid,
    BadKey(String),
    Refused(String),
}

/// The mathematical value of an [`Ed448Check`].
pub enum Ed448View {
    Valid,
    BadKey(Seq<char>),
    Refused(Seq<char>),
}

impl View for Ed448Check {
    type V = Ed448View;

    open spec fn view(&self) -> Ed448View {
        match self {
            Ed448Check::Valid => Ed448View::Valid,
            Ed448Check::BadKey(e) => Ed448View::BadKey(e@),
            Ed448Check::Refused(e) => Ed448View::Refused(e@),
        }
    }
}

/// The number that bytes stand for, the first byte being the lowest.
pub open spec fn le_nat(b: Seq<u8>) -> nat
    decreases b.len(),
{
    if b.len() == 0 {
        0
    } else {
        b[0] as nat + 256 * le_nat(b.drop_first())
    }
}

/// `num_bigint::BigUint::from_bytes_le` on both byte strings and `%` between the two
/// numbers: reads each string as an unsigned little-endian number, and tells whether the
/// second divides the first.
#[verifier::external_body]
fn le_divides(a: &[u8], divisor: &[u8]) -> (r: bool)
    requires
        le_nat(divisor@) != 0,
    ensures
        r == (le_nat(a@) % le_nat(divisor@) == 0),
{
    num_bigint::BigUint::from_bytes_le(a) % num_bigint::BigUint::from_bytes_le(divisor)
        == num_bigint::BigUint::from(0u32)
}

/// The order of Ed448's base point, lowest byte first.
pub open spec fn ed448_order() -> Seq<u8> {
    seq![
        0xf3u8, 0x44, 0x58, 0xab, 0x92, 0xc2, 0x78, 0x23, 0x55, 0x8f, 0xc5, 0x8d, 0x72, 0xc2,
        0x6c, 0x21, 0x90, 0x36, 0xd6, 0xae, 0x49, 0xdb, 0x4e, 0xc4, 0xe9, 0x23, 0xca, 0x7c,
        0xff, 0xff, 0xff, 0xff, 0xff, 0xff, 0xff, 0xff, 0xff, 0xff, 0xff, 0xff, 0xff, 0xff,
        0xff, 0xff, 0xff, 0xff, 0xff, 0xff, 0xff, 0xff, 0xff, 0xff, 0xff, 0xff, 0xff, 0x3f,
    ]
}

/// Does the point that a signature begins with lie on the curve's vertical axis? Its
/// second coordinate, in all 57 bytes but the highest bit, is then one or minus one.
pub open spec fn on_axis(signature: Seq<u8>) -> bool {
    let y = signature.take(57).update(56, signature[56] % 128);
    ||| y == Seq::new(57, |i: int| if i == 0 { 1u8 } else { 0u8 })
    ||| y == Seq::new(
        57,
        |i: int|
            if i == 0 || i == 28 {
                0xfeu8
            } else if i == 56 {
                0u8
            } else {
                0xffu8
            },
    )
}

/// Can a signature of full length be checked under a key of full length? It cannot where
/// one of the points is neutral: the key is a multiple of the order, the signature's
/// point lies on the axis, or its number, which is behind the point, is zero. Nothing is
/// signed by such a signature or key.
pub open spec fn ed448_checkable(key: Seq<u8>, signature: Seq<u8>) -> bool {
    key.len() == 57 && signature.len() >= 114 ==> {
        &&& le_nat(key) % le_nat(ed448_order()) != 0
        &&& !on_axis(signature)
        &&& exists|i: int| 57 <= i < signature.len() && #[trigger] signature[i] != 0
    }
}

fn order_bytes() -> (r: Vec<u8>)
    ensures
        r@ == ed448_order(),
        le_nat(r@) != 0,
{
    let r: Vec<u8> = vec![
        0xf3, 0x44, 0x58, 0xab, 0x92, 0xc2, 0x78, 0x23, 0x55, 0x8f, 0xc5, 0x8d, 0x72, 0xc2,
        0x6c, 0x21, 0x90, 0x36, 0xd6, 0xae, 0x49, 0xdb, 0x4e, 0xc4, 0xe9, 0x23, 0xca, 0x7c,
        0xff, 0xff, 0xff, 0xff, 0xff, 0xff, 0xff, 0xff, 0xff, 0xff, 0xff, 0xff, 0xff, 0xff,
        0xff, 0xff, 0xff, 0xff, 0xff, 0xff, 0xff, 0xff, 0xff, 0xff, 0xff, 0xff, 0xff, 0x3f,
    ];
    assert(r@ =~= ed448_order());
    r
}

fn starts_on_axis(signature: &[u8]) -> (r: bool)
    requires
        signature@.len() >= 57,
    ensures
        r == on_axis(signature@),
{
    let ghost y = signature@.take(57).update(56, signature@[56] % 128);
    let ghost one = Seq::new(57, |i: int| if i == 0 { 1u8 } else { 0u8 });
    let ghost minus = Seq::new(
        57,
        |i: int|
            if i == 0 || i == 28 {
                0xfeu8
            } else if i == 56 {
                0u8
            } else {
                0xffu8
            },
    );
    let mut is_one = true;
    let mut is_minus = true;
    let mut i: usize = 0;
    while i < 57
        invariant
            i <= 57,
            signature@.len() >= 57,
            y == signature@.take(57).update(56, signature@[56] % 128),
            one == Seq::new(57, |k: int| if k == 0 { 1u8 } else { 0u8 }),
            minus == Seq::new(
                57,
                |k: int|
                    if k == 0 || k == 28 {
                        0xfeu8
                    } else if k == 56 {
                        0u8
                    } else {
                        0xffu8
                    },
            ),
            is_one == (forall|j: int| 0 <= j < i ==> #[trigger] y[j] == one[j]),
            is_minus == (forall|j: int| 0 <= j < i ==> #[trigger] y[j] == minus[j]),
        decreases 57 - i,
    {
        let b: u8 = if i == 56 {
            signature[i] % 128
        } else {
            signature[i]
        };
        assert(y[i as int] == b);
        if b != (if i == 0 {
            1u8
        } else {
            0u8
        }) {
            is_one = false;
        }
        if b != (if i == 0 || i == 28 {
            0xfeu8
        } else if i == 56 {
            0u8
        } else {
            0xffu8
        }) {
            is_minus = false;
        }
        i += 1;
    }
    proof {
        if is_one {
            assert(y =~= one);
        }
        if is_minus {
            assert(y =~= minus);
        }
    }
    is_one || is_minus
}

/// Can the signature be checked under the key?
pub fn can_check_ed448(key: &[u8], signature: &[u8]) -> (r: bool)
    ensures
        r == ed448_checkable(key@, signature@),
{
    if key.len() != 57 || signature.len() < 114 {
        return true;
    }
    let order = order_bytes();
    if le_divides(key, order.as_slice()) || starts_on_axis(signature) {
        return false;
    }
    let mut i: usize = 57;
    while i < signature.len()
        invariant
            key@.len() == 57,
            signature@.len() >= 114,
            57 <= i <= signature@.len(),
            le_nat(key@) % le_nat(ed448_order()) != 0,
            !on_axis(signature@),
            forall|j: int| 57 <= j < i ==> #[trigger] signature@[j] == 0,
        decreases signature@.len() - i,
    {
        if signature[i] != 0 {
            assert(signature@[i as int] != 0);
            return true;
        }
        i += 1;
    }
    false
}

/// What `ed448_rust::PublicKey::try_from` on the key, and `verify` with an empty
/// context on the message and signature, come to.
pub uninterp spec fn ed448_outcome(key: Seq<u8>, message: Seq<u8>, signature: Seq<u8>) -> Ed448View;

/// `ed448_rust::PublicKey::try_from` and `ed448_rust::PublicKey::verify` without a
/// context. A key that is not 57 bytes long is a bad key, and a signature of fewer
/// than 114 bytes is refused. The call panics where it compares a coordinate that is
/// zero, so the keys and signatures that lead there are left out. It would also panic
/// where the hash of the message, as a factor of the key, cancels the signature's point;
/// no such message is known, and only the call itself could find one.
#[verifier::external_body]
pub(crate) fn ed448_verify(key: &[u8], message: &[u8], signature: &[u8]) -> (r: Ed448Check)
    requires
        ed448_checkable(key@, signature@),
    ensures
        r@ == ed448_outcome(key@, message@, signature@),
        key@.len() != 57 <==> r is BadKey,
        signature@.len() < 114 ==> !(r is Valid),
{
    match ed448_rust::PublicKey::try_from(key) {
        Err(e) => Ed448Check::BadKey(format!("{:?}", e)),
        Ok(pk) => match pk.verify(message, signature, None) {
            Ok(()) => Ed448Check::Valid,
            Err(e) => Ed448Check::Refused(format!("{:?}", e)),
        },
    }
}

/// What `ed448_rust::PrivateKey::sign` gives for the seed and the message, with an
/// empty context.
pub uninterp spec fn ed448_signature(seed: Seq<u8>, message: Seq<u8>) -> Seq<u8>;

/// `ed448_rust::PrivateKey::try_from` and `ed448_rust::PrivateKey::sign` without a
/// context: the signature, which has 114 bytes. It fails exactly where the seed is not
/// 57 bytes long; the failure is its debug text, of which nothing is claimed.
#[verifier::external_body]
pub(crate) fn ed448_sign(seed: &[u8], message: &[u8]) -> (r: Result<Vec<u8>, String>)
    ensures
        match r {
            Ok(s) => seed@.len() == 57 && s@ == ed448_signature(seed@, message@) && s@.len() == 114,
            Err(_) => seed@.len() != 57,
        },
{
    match ed448_rust::PrivateKey::try_from(seed) {
        Err(e) => Err(format!("{:?}", e)),
        Ok(key) => match key.sign(message, None) {
            Ok(s) => Ok(s.to_vec()),
            Err(e) => Err(format!("{:?}", e)),
        },
    }
}

/// The number that bytes stand for in big-endian two's complement.
pub open spec fn signed_value(b: Seq<u8>) -> int {
    if b.len() > 0 && b[0] >= 128 {
        be_nat(b) as int - vstd::arithmetic::power::pow(256, b.len())
    } else {
        be_nat(b) as int
    }
}

/// Is there no shorter two's complement of the same number? There is one where the
/// first byte only repeats the sign.
pub open spec fn shortest_signed(b: Seq<u8>) -> bool {
    &&& b.len() >= 1
    &&& b.len() >= 2 ==> !(b[0] == 0 && b[1] < 128) && !(b[0] == 255 && b[1] >= 128)
}

/// `num_bigint::BigInt::to_signed_bytes_be`: the shortest big-endian two's complement
/// of the number, which is a single zero for zero.
#[verifier::external_body]
pub(crate) fn signed_bytes_be(n: i128) -> (r: Vec<u8>)
    ensures
        signed_value(r@) == n,
        shortest_signed(r@),
{
    num_bigint::BigInt::from(n).to_signed_bytes_be()
}

/// Is the character white space, by the Unicode property White_Space?
pub open spec fn is_white(c: char) -> bool {
    let n = c as u32;
    ||| 0x09 <= n <= 0x0d
    ||| n == 0x20 || n == 0x85 || n == 0xa0 || n == 0x1680
    ||| 0x2000 <= n <= 0x200a
    ||| n == 0x2028 || n == 0x2029 || n == 0x202f || n == 0x205f || n == 0x3000
}

/// A text without the white space at its two ends.
pub open spec fn trimmed(text: Seq<char>) -> Seq<char>
    decreases text.len(),
{
    if text.len() == 0 {
        text
    } else if is_white(text[0]) {
        trimmed(text.drop_first())
    } else if is_white(text.last()) {
        trimmed(text.drop_last())
    } else {
        text
    }
}

/// `str::trim`: the text without the white space at its two ends, where white space is
/// what has the Unicode property White_Space.
#[verifier::external_body]
pub(crate) fn trim_text(text: &str) -> (r: String)
    ensures
        r@ == trimmed(text@),
{
    text.trim().to_owned()
}

} // verus!
