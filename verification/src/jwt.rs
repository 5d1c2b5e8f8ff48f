use vstd::prelude::*;

use crate::errors::JwtError;
use crate::role::Role;

verus! {

// ---------------------------------------------------------------------------
// The trusted boundary around jsonwebtoken's crypto.
// ---------------------------------------------------------------------------

/// The base64url signature that HMAC-SHA512 under `key` assigns to the
/// UTF-8 bytes of `msg`: a function of key and message alone.
pub uninterp spec fn hs512_sig_of(key: Seq<u8>, msg: Seq<char>) -> Seq<char>;

/// Relies on `jsonwebtoken::crypto::sign` with `Algorithm::HS512` and a
/// secret key: it HMAC-SHA512s the message bytes and base64url-encodes the
/// tag without padding.  For an HMAC key the call cannot fail: the key
/// family matches, and HMAC accepts keys of any length.  The base64url
/// alphabet (`A`–`Z`, `a`–`z`, `0`–`9`, `-`, `_`) holds no `'.'`.
#[verifier::external_body]
fn sign_hs512(key: &[u8], msg: &str) -> (r: String)
    ensures
        r@ == hs512_sig_of(key@, msg@),
        forall|i: int| 0 <= i < r@.len() ==> r@[i] != '.',
{
    jsonwebtoken::crypto::sign(
        msg.as_bytes(),
        &jsonwebtoken::EncodingKey::from_secret(key),
        jsonwebtoken::Algorithm::HS512,
    ).unwrap()
}

/// Relies on `jsonwebtoken::crypto::verify` with `Algorithm::HS512`: it
/// base64url-decodes the given signature (rejecting non-canonical text)
/// and compares the raw tag against a recomputed HMAC-SHA512 of the
/// message.  So it answers true exactly when the text equals the canonical
/// signature that `sign` returns; a decode failure is a failed comparison.
#[verifier::external_body]
pub(crate) fn verify_hs512(key: &[u8], msg: &str, sig: &str) -> (r: bool)
    ensures
        r == (sig@ == hs512_sig_of(key@, msg@)),
{
    jsonwebtoken::crypto::verify(
        sig,
        msg.as_bytes(),
        &jsonwebtoken::DecodingKey::from_secret(key),
        jsonwebtoken::Algorithm::HS512,
    ).unwrap_or(false)
}

/// Relies on std's `String::push`: appends exactly one character.
#[verifier::external_body]
fn push_char(s: &mut String, c: char)
    ensures
        final(s)@ == old(s)@.push(c),
{
    s.push(c);
}

// ---------------------------------------------------------------------------
// The token format.
// ---------------------------------------------------------------------------

/// The symmetric signing key.
pub open spec fn spec_secret() -> Seq<u8> {
    seq![49u8, 50u8, 51u8]
}

pub(crate) fn secret_bytes() -> (r: Vec<u8>)
    ensures
        r@ == spec_secret(),
{
    let mut v: Vec<u8> = Vec::new();
    v.push(49);
    v.push(50);
    v.push(51);
    proof {
        assert(v@ =~= spec_secret());
    }
    v
}

/// The claim set carried inside a token.
pub struct Claims {
    pub sub: usize,
    pub role: String,
    pub exp: usize,
}

#[verifier::ext_equal]
pub struct ClaimsV {
    pub sub: int,
    pub role: Seq<char>,
    pub exp: int,
}

impl View for Claims {
    type V = ClaimsV;

    open spec fn view(&self) -> ClaimsV {
        ClaimsV { sub: self.sub as int, role: self.role@, exp: self.exp as int }
    }
}

/// Decimal digits of `n`, most significant first.
pub open spec fn dec_digits(n: int) -> Seq<char>
    decreases n,
{
    if n < 10 {
        seq!["0123456789"@[if 0 <= n {
            n
        } else {
            0
        }]]
    } else {
        dec_digits(n / 10).push("0123456789"@[n % 10])
    }
}

/// The claim set as the JSON text the token carries.
pub open spec fn claims_json(c: ClaimsV) -> Seq<char> {
    "{\"sub\":"@ + dec_digits(c.sub) + ",\"role\":\""@ + c.role + "\",\"exp\":"@ + dec_digits(
        c.exp,
    ) + "}"@
}

/// The fixed token header.
pub open spec fn header_json() -> Seq<char> {
    "{\"typ\":\"JWT\",\"alg\":\"HS512\"}"@
}

/// The base64url alphabet.
pub open spec fn b64url_alphabet() -> Seq<char> {
    "ABCDEFGHIJKLMNOPQRSTUVWXYZabcdefghijklmnopqrstuvwxyz0123456789-_"@
}

/// Base64url, without padding, of a text of character codes below 128 —
/// for ASCII text the character codes are the UTF-8 bytes.
pub open spec fn spec_b64url(s: Seq<char>) -> Seq<char>
    decreases s.len(),
{
    let a = b64url_alphabet();
    if s.len() == 0 {
        Seq::empty()
    } else if s.len() == 1 {
        let v0 = s[0] as int;
        seq![a[v0 / 4], a[(v0 % 4) * 16]]
    } else if s.len() == 2 {
        let v0 = s[0] as int;
        let v1 = s[1] as int;
        seq![a[v0 / 4], a[(v0 % 4) * 16 + v1 / 16], a[(v1 % 16) * 4]]
    } else {
        let v0 = s[0] as int;
        let v1 = s[1] as int;
        let v2 = s[2] as int;
        seq![
            a[v0 / 4],
            a[(v0 % 4) * 16 + v1 / 16],
            a[(v1 % 16) * 4 + v2 / 64],
            a[v2 % 64],
        ] + spec_b64url(s.skip(3))
    }
}

/// Value of a base64url alphabet character; -1 for any other
/// character.
pub open spec fn b64_val(c: char) -> int {
    if c == 'A' {
        0
    } else if c == 'B' {
        1
    } else if c == 'C' {
        2
    } else if c == 'D' {
        3
    } else if c == 'E' {
        4
    } else if c == 'F' {
        5
    } else if c == 'G' {
        6
    } else if c == 'H' {
        7
    } else if c == 'I' {
        8
    } else if c == 'J' {
        9
    } else if c == 'K' {
        10
    } else if c == 'L' {
        11
    } else if c == 'M' {
        12
    } else if c == 'N' {
        13
    } else if c == 'O' {
        14
    } else if c == 'P' {
        15
    } else if c == 'Q' {
        16
    } else if c == 'R' {
        17
    } else if c == 'S' {
        18
    } else if c == 'T' {
        19
    } else if c == 'U' {
        20
    } else if c == 'V' {
        21
    } else if c == 'W' {
        22
    } else if c == 'X' {
        23
    } else if c == 'Y' {
        24
    } else if c == 'Z' {
        25
    } else if c == 'a' {
        26
    } else if c == 'b' {
        27
    } else if c == 'c' {
        28
    } else if c == 'd' {
        29
    } else if c == 'e' {
        30
    } else if c == 'f' {
        31
    } else if c == 'g' {
        32
    } else if c == 'h' {
        33
    } else if c == 'i' {
        34
    } else if c == 'j' {
        35
    } else if c == 'k' {
        36
    } else if c == 'l' {
        37
    } else if c == 'm' {
        38
    } else if c == 'n' {
        39
    } else if c == 'o' {
        40
    } else if c == 'p' {
        41
    } else if c == 'q' {
        42
    } else if c == 'r' {
        43
    } else if c == 's' {
        44
    } else if c == 't' {
        45
    } else if c == 'u' {
        46
    } else if c == 'v' {
        47
    } else if c == 'w' {
        48
    } else if c == 'x' {
        49
    } else if c == 'y' {
        50
    } else if c == 'z' {
        51
    } else if c == '0' {
        52
    } else if c == '1' {
        53
    } else if c == '2' {
        54
    } else if c == '3' {
        55
    } else if c == '4' {
        56
    } else if c == '5' {
        57
    } else if c == '6' {
        58
    } else if c == '7' {
        59
    } else if c == '8' {
        60
    } else if c == '9' {
        61
    } else if c == '-' {
        62
    } else if c == '_' {
        63
    } else {
        -1
    }
}

/// Executable counterpart of [`b64_val`].
fn b64_char_val(c: char) -> (r: i32)
    ensures
        r == b64_val(c),
{
    match c {
        'A' => 0,
        'B' => 1,
        'C' => 2,
        'D' => 3,
        'E' => 4,
        'F' => 5,
        'G' => 6,
        'H' => 7,
        'I' => 8,
        'J' => 9,
        'K' => 10,
        'L' => 11,
        'M' => 12,
        'N' => 13,
        'O' => 14,
        'P' => 15,
        'Q' => 16,
        'R' => 17,
        'S' => 18,
        'T' => 19,
        'U' => 20,
        'V' => 21,
        'W' => 22,
        'X' => 23,
        'Y' => 24,
        'Z' => 25,
        'a' => 26,
        'b' => 27,
        'c' => 28,
        'd' => 29,
        'e' => 30,
        'f' => 31,
        'g' => 32,
        'h' => 33,
        'i' => 34,
        'j' => 35,
        'k' => 36,
        'l' => 37,
        'm' => 38,
        'n' => 39,
        'o' => 40,
        'p' => 41,
        'q' => 42,
        'r' => 43,
        's' => 44,
        't' => 45,
        'u' => 46,
        'v' => 47,
        'w' => 48,
        'x' => 49,
        'y' => 50,
        'z' => 51,
        '0' => 52,
        '1' => 53,
        '2' => 54,
        '3' => 55,
        '4' => 56,
        '5' => 57,
        '6' => 58,
        '7' => 59,
        '8' => 60,
        '9' => 61,
        '-' => 62,
        '_' => 63,
        _ => -1,
    }
}

/// Each alphabet character decodes back to its own index, and none
/// of them is a dot; settled case by case over the 64 characters.
pub proof fn lemma_alphabet_val(v: int)
    requires
        0 <= v < 64,
    ensures
        b64_val(b64url_alphabet()[v]) == v,
        b64url_alphabet()[v] != '.',
{
    reveal_strlit("ABCDEFGHIJKLMNOPQRSTUVWXYZabcdefghijklmnopqrstuvwxyz0123456789-_");
    if v == 0 {
        assert(b64url_alphabet()[0] == 'A');
    } else if v == 1 {
        assert(b64url_alphabet()[1] == 'B');
    } else if v == 2 {
        assert(b64url_alphabet()[2] == 'C');
    } else if v == 3 {
        assert(b64url_alphabet()[3] == 'D');
    } else if v == 4 {
        assert(b64url_alphabet()[4] == 'E');
    } else if v == 5 {
        assert(b64url_alphabet()[5] == 'F');
    } else if v == 6 {
        assert(b64url_alphabet()[6] == 'G');
    } else if v == 7 {
        assert(b64url_alphabet()[7] == 'H');
    } else if v == 8 {
        assert(b64url_alphabet()[8] == 'I');
    } else if v == 9 {
        assert(b64url_alphabet()[9] == 'J');
    } else if v == 10 {
        assert(b64url_alphabet()[10] == 'K');
    } else if v == 11 {
        assert(b64url_alphabet()[11] == 'L');
    } else if v == 12 {
        assert(b64url_alphabet()[12] == 'M');
    } else if v == 13 {
        assert(b64url_alphabet()[13] == 'N');
    } else if v == 14 {
        assert(b64url_alphabet()[14] == 'O');
    } else if v == 15 {
        assert(b64url_alphabet()[15] == 'P');
    } else if v == 16 {
        assert(b64url_alphabet()[16] == 'Q');
    } else if v == 17 {
        assert(b64url_alphabet()[17] == 'R');
    } else if v == 18 {
        assert(b64url_alphabet()[18] == 'S');
    } else if v == 19 {
        assert(b64url_alphabet()[19] == 'T');
    } else if v == 20 {
        assert(b64url_alphabet()[20] == 'U');
    } else if v == 21 {
        assert(b64url_alphabet()[21] == 'V');
    } else if v == 22 {
        assert(b64url_alphabet()[22] == 'W');
    } else if v == 23 {
        assert(b64url_alphabet()[23] == 'X');
    } else if v == 24 {
        assert(b64url_alphabet()[24] == 'Y');
    } else if v == 25 {
        assert(b64url_alphabet()[25] == 'Z');
    } else if v == 26 {
        assert(b64url_alphabet()[26] == 'a');
    } else if v == 27 {
        assert(b64url_alphabet()[27] == 'b');
    } else if v == 28 {
        assert(b64url_alphabet()[28] == 'c');
    } else if v == 29 {
        assert(b64url_alphabet()[29] == 'd');
    } else if v == 30 {
        assert(b64url_alphabet()[30] == 'e');
    } else if v == 31 {
        assert(b64url_alphabet()[31] == 'f');
    } else if v == 32 {
        assert(b64url_alphabet()[32] == 'g');
    } else if v == 33 {
        assert(b64url_alphabet()[33] == 'h');
    } else if v == 34 {
        assert(b64url_alphabet()[34] == 'i');
    } else if v == 35 {
        assert(b64url_alphabet()[35] == 'j');
    } else if v == 36 {
        assert(b64url_alphabet()[36] == 'k');
    } else if v == 37 {
        assert(b64url_alphabet()[37] == 'l');
    } else if v == 38 {
        assert(b64url_alphabet()[38] == 'm');
    } else if v == 39 {
        assert(b64url_alphabet()[39] == 'n');
    } else if v == 40 {
        assert(b64url_alphabet()[40] == 'o');
    } else if v == 41 {
        assert(b64url_alphabet()[41] == 'p');
    } else if v == 42 {
        assert(b64url_alphabet()[42] == 'q');
    } else if v == 43 {
        assert(b64url_alphabet()[43] == 'r');
    } else if v == 44 {
        assert(b64url_alphabet()[44] == 's');
    } else if v == 45 {
        assert(b64url_alphabet()[45] == 't');
    } else if v == 46 {
        assert(b64url_alphabet()[46] == 'u');
    } else if v == 47 {
        assert(b64url_alphabet()[47] == 'v');
    } else if v == 48 {
        assert(b64url_alphabet()[48] == 'w');
    } else if v == 49 {
        assert(b64url_alphabet()[49] == 'x');
    } else if v == 50 {
        assert(b64url_alphabet()[50] == 'y');
    } else if v == 51 {
        assert(b64url_alphabet()[51] == 'z');
    } else if v == 52 {
        assert(b64url_alphabet()[52] == '0');
    } else if v == 53 {
        assert(b64url_alphabet()[53] == '1');
    } else if v == 54 {
        assert(b64url_alphabet()[54] == '2');
    } else if v == 55 {
        assert(b64url_alphabet()[55] == '3');
    } else if v == 56 {
        assert(b64url_alphabet()[56] == '4');
    } else if v == 57 {
        assert(b64url_alphabet()[57] == '5');
    } else if v == 58 {
        assert(b64url_alphabet()[58] == '6');
    } else if v == 59 {
        assert(b64url_alphabet()[59] == '7');
    } else if v == 60 {
        assert(b64url_alphabet()[60] == '8');
    } else if v == 61 {
        assert(b64url_alphabet()[61] == '9');
    } else if v == 62 {
        assert(b64url_alphabet()[62] == '-');
    } else if v == 63 {
        assert(b64url_alphabet()[63] == '_');
    }
}

/// Inverse of [`spec_b64url`]: accepts exactly the canonical
/// padding-free encodings and hands back the encoded character codes.
pub open spec fn spec_b64url_decode(s: Seq<char>) -> Option<Seq<char>>
    decreases s.len(),
{
    if s.len() == 0 {
        Some(Seq::empty())
    } else if s.len() == 1 {
        None
    } else if s.len() == 2 {
        let v0 = b64_val(s[0]);
        let v1 = b64_val(s[1]);
        if v0 < 0 || v1 < 0 || v1 % 16 != 0 {
            None
        } else {
            Some(seq![((v0 * 4 + v1 / 16) as u8) as char])
        }
    } else if s.len() == 3 {
        let v0 = b64_val(s[0]);
        let v1 = b64_val(s[1]);
        let v2 = b64_val(s[2]);
        if v0 < 0 || v1 < 0 || v2 < 0 || v2 % 4 != 0 {
            None
        } else {
            Some(
                seq![
                    ((v0 * 4 + v1 / 16) as u8) as char,
                    (((v1 % 16) * 16 + v2 / 4) as u8) as char,
                ],
            )
        }
    } else {
        let v0 = b64_val(s[0]);
        let v1 = b64_val(s[1]);
        let v2 = b64_val(s[2]);
        let v3 = b64_val(s[3]);
        if v0 < 0 || v1 < 0 || v2 < 0 || v3 < 0 {
            None
        } else {
            match spec_b64url_decode(s.skip(4)) {
                None => None,
                Some(rest) => Some(
                    seq![
                        ((v0 * 4 + v1 / 16) as u8) as char,
                        (((v1 % 16) * 16 + v2 / 4) as u8) as char,
                        (((v2 % 4) * 64 + v3) as u8) as char,
                    ] + rest,
                ),
            }
        }
    }
}

/// Decoding undoes encoding on every ASCII text.
pub proof fn lemma_b64url_round_trip(s: Seq<char>)
    requires
        all_ascii(s),
    ensures
        spec_b64url_decode(spec_b64url(s)) == Some(s),
    decreases s.len(),
{
    let e = spec_b64url(s);
    if s.len() == 0 {
        assert(spec_b64url_decode(e) == Some(Seq::<char>::empty()));
        assert(Seq::<char>::empty() =~= s);
    } else if s.len() == 1 {
        assert(0 <= (s[0] as int) < 128);
        let u0 = s[0] as int;
        assert(0 <= u0 < 128);
        assert((u0 as u8) as int == u0);
        assert(((u0 as u8) as char) as int == u0);
        assert(s[0] == ((u0 as u8) as char));
        lemma_alphabet_val(u0 / 4);
        lemma_alphabet_val((u0 % 4) * 16);
        assert(b64_val(e[0]) == u0 / 4 && b64_val(e[1]) == (u0 % 4) * 16);
        assert((u0 / 4) * 4 + ((u0 % 4) * 16) / 16 == u0);
        assert(spec_b64url_decode(e) matches Some(d) && d =~= s);
    } else if s.len() == 2 {
        assert(0 <= (s[0] as int) < 128 && 0 <= (s[1] as int) < 128);
        let u0 = s[0] as int;
        let u1 = s[1] as int;
        assert(0 <= u0 < 128);
        assert((u0 as u8) as int == u0);
        assert(((u0 as u8) as char) as int == u0);
        assert(s[0] == ((u0 as u8) as char));
        assert(0 <= u1 < 128);
        assert((u1 as u8) as int == u1);
        assert(((u1 as u8) as char) as int == u1);
        assert(s[1] == ((u1 as u8) as char));
        lemma_alphabet_val(u0 / 4);
        lemma_alphabet_val((u0 % 4) * 16 + u1 / 16);
        lemma_alphabet_val((u1 % 16) * 4);
        assert(b64_val(e[0]) == u0 / 4 && b64_val(e[1]) == (u0 % 4) * 16 + u1 / 16 && b64_val(
            e[2],
        ) == (u1 % 16) * 4);
        assert((u0 / 4) * 4 + ((u0 % 4) * 16 + u1 / 16) / 16 == u0);
        assert((((u0 % 4) * 16 + u1 / 16) % 16) * 16 + ((u1 % 16) * 4) / 4 == u1);
        assert(spec_b64url_decode(e) matches Some(d) && d =~= s);
    } else {
        assert(0 <= (s[0] as int) < 128 && 0 <= (s[1] as int) < 128 && 0 <= (s[2] as int)
            < 128);
        let u0 = s[0] as int;
        let u1 = s[1] as int;
        let u2 = s[2] as int;
        assert(0 <= u0 < 128);
        assert((u0 as u8) as int == u0);
        assert(((u0 as u8) as char) as int == u0);
        assert(s[0] == ((u0 as u8) as char));
        assert(0 <= u1 < 128);
        assert((u1 as u8) as int == u1);
        assert(((u1 as u8) as char) as int == u1);
        assert(s[1] == ((u1 as u8) as char));
        assert(0 <= u2 < 128);
        assert((u2 as u8) as int == u2);
        assert(((u2 as u8) as char) as int == u2);
        assert(s[2] == ((u2 as u8) as char));
        lemma_alphabet_val(u0 / 4);
        lemma_alphabet_val((u0 % 4) * 16 + u1 / 16);
        lemma_alphabet_val((u1 % 16) * 4 + u2 / 64);
        lemma_alphabet_val(u2 % 64);
        assert(e.len() >= 4);
        assert(b64_val(e[0]) == u0 / 4 && b64_val(e[1]) == (u0 % 4) * 16 + u1 / 16 && b64_val(
            e[2],
        ) == (u1 % 16) * 4 + u2 / 64 && b64_val(e[3]) == u2 % 64);
        assert((u0 / 4) * 4 + ((u0 % 4) * 16 + u1 / 16) / 16 == u0);
        assert((((u0 % 4) * 16 + u1 / 16) % 16) * 16 + ((u1 % 16) * 4 + u2 / 64) / 4 == u1);
        assert((((u1 % 16) * 4 + u2 / 64) % 4) * 64 + u2 % 64 == u2);
        assert(e.skip(4) =~= spec_b64url(s.skip(3)));
        assert(all_ascii(s.skip(3)));
        lemma_b64url_round_trip(s.skip(3));
        assert(spec_b64url_decode(e) matches Some(d) && d =~= s);
    }
}

/// Base64url decoding; the executable counterpart of
/// [`spec_b64url_decode`].
#[verifier::rlimit(100)]
pub fn b64url_decode(s: &str) -> (r: Option<String>)
    ensures
        match r {
            Some(t) => spec_b64url_decode(s@) == Some(t@),
            None => spec_b64url_decode(s@) is None,
        },
{
    let n = s.unicode_len();
    let mut out = String::new();
    let mut i: usize = 0;
    proof {
        assert(s@.skip(0) =~= s@);
    }
    while n - i >= 4
        invariant
            i <= n,
            n == s@.len(),
            match spec_b64url_decode(s@) {
                Some(t) => spec_b64url_decode(s@.skip(i as int)) matches Some(rest) && t == out@
                    + rest,
                None => spec_b64url_decode(s@.skip(i as int)) is None,
            },
        decreases n - i,
    {
        let v0 = b64_char_val(s.get_char(i));
        let v1 = b64_char_val(s.get_char(i + 1));
        let v2 = b64_char_val(s.get_char(i + 2));
        let v3 = b64_char_val(s.get_char(i + 3));
        let ghost tail = s@.skip(i as int);
        if v0 < 0 || v1 < 0 || v2 < 0 || v3 < 0 {
            proof {
                assert(tail[0] == s@[i as int] && tail[1] == s@[i as int + 1] && tail[2] == s@[
                    i as int + 2
                ] && tail[3] == s@[i as int + 3]);
                assert(spec_b64url_decode(tail) is None);
            }
            return None;
        }
        push_char(&mut out, (((v0 * 4 + v1 / 16) as u32) as u8) as char);
        push_char(&mut out, ((((v1 % 16) * 16 + v2 / 4) as u32) as u8) as char);
        push_char(&mut out, ((((v2 % 4) * 64 + v3) as u32) as u8) as char);
        proof {
            assert(tail.len() >= 4);
            assert(tail[0] == s@[i as int] && tail[1] == s@[i as int + 1] && tail[2] == s@[
                i as int + 2
            ] && tail[3] == s@[i as int + 3]);
            assert(tail.skip(4) =~= s@.skip(i as int + 4));
        }
        i += 4;
    }
    let ghost tail = s@.skip(i as int);
    if n - i == 0 {
        proof {
            assert(tail.len() == 0);
            assert(out@ + Seq::<char>::empty() =~= out@);
        }
        Some(out)
    } else if n - i == 1 {
        proof {
            assert(tail.len() == 1);
            assert(spec_b64url_decode(tail) is None);
        }
        None
    } else if n - i == 2 {
        let v0 = b64_char_val(s.get_char(i));
        let v1 = b64_char_val(s.get_char(i + 1));
        proof {
            assert(tail.len() == 2);
            assert(tail[0] == s@[i as int] && tail[1] == s@[i as int + 1]);
        }
        if v0 < 0 || v1 < 0 || v1 % 16 != 0 {
            return None;
        }
        let ghost out0 = out@;
        push_char(&mut out, (((v0 * 4 + v1 / 16) as u32) as u8) as char);
        proof {
            assert(spec_b64url_decode(tail) matches Some(rest) && out@ =~= out0 + rest);
        }
        Some(out)
    } else {
        let v0 = b64_char_val(s.get_char(i));
        let v1 = b64_char_val(s.get_char(i + 1));
        let v2 = b64_char_val(s.get_char(i + 2));
        proof {
            assert(tail.len() == 3);
            assert(tail[0] == s@[i as int] && tail[1] == s@[i as int + 1] && tail[2] == s@[
                i as int + 2
            ]);
        }
        if v0 < 0 || v1 < 0 || v2 < 0 || v2 % 4 != 0 {
            return None;
        }
        let ghost out0 = out@;
        push_char(&mut out, (((v0 * 4 + v1 / 16) as u32) as u8) as char);
        push_char(&mut out, ((((v1 % 16) * 16 + v2 / 4) as u32) as u8) as char);
        proof {
            assert(spec_b64url_decode(tail) matches Some(rest) && out@ =~= out0 + rest);
        }
        Some(out)
    }
}


/// All character codes of `s` lie below 128.
pub open spec fn all_ascii(s: Seq<char>) -> bool {
    forall|i: int| 0 <= i < s.len() ==> 0 <= ((#[trigger] s[i]) as int) < 128
}

/// The signing input of a token: base64url of the header, a dot, base64url
/// of the claim JSON.
pub open spec fn signing_input(c: ClaimsV) -> Seq<char> {
    spec_b64url(header_json()) + seq!['.'] + spec_b64url(claims_json(c))
}

/// The complete token: the signing input, a dot, its signature.
pub open spec fn spec_token(c: ClaimsV) -> Seq<char> {
    signing_input(c) + seq!['.'] + hs512_sig_of(spec_secret(), signing_input(c))
}



/// Every character the encoder emits comes from the alphabet, so none of
/// them is a dot.
pub proof fn lemma_b64url_in_alphabet(s: Seq<char>)
    requires
        all_ascii(s),
    ensures
        forall|k: int| 0 <= k < spec_b64url(s).len() ==> (#[trigger] spec_b64url(s)[k]) != '.',
    decreases s.len(),
{
    let e = spec_b64url(s);
    if s.len() == 0 {
    } else if s.len() == 1 {
        assert(0 <= (s[0] as int) < 128);
        lemma_alphabet_val((s[0] as int) / 4);
        lemma_alphabet_val(((s[0] as int) % 4) * 16);
        assert forall|k: int| 0 <= k < e.len() implies (#[trigger] e[k]) != '.' by {}
    } else if s.len() == 2 {
        assert(0 <= (s[0] as int) < 128 && 0 <= (s[1] as int) < 128);
        lemma_alphabet_val((s[0] as int) / 4);
        lemma_alphabet_val(((s[0] as int) % 4) * 16 + (s[1] as int) / 16);
        lemma_alphabet_val(((s[1] as int) % 16) * 4);
        assert forall|k: int| 0 <= k < e.len() implies (#[trigger] e[k]) != '.' by {}
    } else {
        assert(0 <= (s[0] as int) < 128 && 0 <= (s[1] as int) < 128 && 0 <= (s[2] as int) < 128);
        lemma_alphabet_val((s[0] as int) / 4);
        lemma_alphabet_val(((s[0] as int) % 4) * 16 + (s[1] as int) / 16);
        lemma_alphabet_val(((s[1] as int) % 16) * 4 + (s[2] as int) / 64);
        lemma_alphabet_val((s[2] as int) % 64);
        assert(all_ascii(s.skip(3)));
        lemma_b64url_in_alphabet(s.skip(3));
        assert forall|k: int| 0 <= k < e.len() implies (#[trigger] e[k]) != '.' by {
            if k >= 4 {
                assert(e[k] == spec_b64url(s.skip(3))[k - 4]);
            }
        }
    }
}


// ---------------------------------------------------------------------------
// The claim-set parser.
// ---------------------------------------------------------------------------

/// Whether `c` is a decimal digit.
pub open spec fn is_digit(c: char) -> bool {
    48 <= (c as int) <= 57
}

/// Each digit character's code, settled case by case.
pub proof fn lemma_digit_char(d: int)
    requires
        0 <= d < 10,
    ensures
        ("0123456789"@[d]) as int == 48 + d,
{
    reveal_strlit("0123456789");
    if d == 0 {
        assert(("0123456789"@[0]) as int == 48);
    } else if d == 1 {
        assert(("0123456789"@[1]) as int == 49);
    } else if d == 2 {
        assert(("0123456789"@[2]) as int == 50);
    } else if d == 3 {
        assert(("0123456789"@[3]) as int == 51);
    } else if d == 4 {
        assert(("0123456789"@[4]) as int == 52);
    } else if d == 5 {
        assert(("0123456789"@[5]) as int == 53);
    } else if d == 6 {
        assert(("0123456789"@[6]) as int == 54);
    } else if d == 7 {
        assert(("0123456789"@[7]) as int == 55);
    } else if d == 8 {
        assert(("0123456789"@[8]) as int == 56);
    } else if d == 9 {
        assert(("0123456789"@[9]) as int == 57);
    }
}

/// Value of an all-digit text, most significant first.
pub open spec fn parse_nat(s: Seq<char>) -> int
    decreases s.len(),
{
    if s.len() == 0 {
        0
    } else {
        parse_nat(s.drop_last()) * 10 + (s.last() as int - 48)
    }
}

/// End of the digit run that starts at `p`.
pub open spec fn digits_end(s: Seq<char>, p: int) -> int
    decreases s.len() - p,
{
    if 0 <= p < s.len() && is_digit(s[p]) {
        digits_end(s, p + 1)
    } else {
        p
    }
}

/// First position at or after `p` holding a double quote, or the end.
pub open spec fn quote_end(s: Seq<char>, p: int) -> int
    decreases s.len() - p,
{
    if 0 <= p < s.len() {
        if s[p] == '"' {
            p
        } else {
            quote_end(s, p + 1)
        }
    } else {
        p
    }
}

/// The decimal rendering of a number parses back to it; its characters
/// are digits, it is never empty, and it never starts with a spurious
/// zero.
pub proof fn lemma_dec_digits_props(n: int)
    requires
        n >= 0,
    ensures
        dec_digits(n).len() >= 1,
        forall|i: int| 0 <= i < dec_digits(n).len() ==> is_digit(#[trigger] dec_digits(n)[i]),
        parse_nat(dec_digits(n)) == n,
        n >= 1 ==> (dec_digits(n)[0] as int) != 48,
        n >= 10 ==> dec_digits(n).len() >= 2,
    decreases n,
{
    reveal_strlit("0123456789");
    if n < 10 {
        lemma_digit_char(n);
        let d = dec_digits(n);
        assert(d =~= seq!["0123456789"@[n]]);
        assert(d.drop_last() =~= Seq::<char>::empty());
        assert((d[0] as int) == 48 + n);
        assert(is_digit(d[0]));
        assert(parse_nat(Seq::<char>::empty()) == 0);
        assert(parse_nat(d) == n);
    } else {
        lemma_dec_digits_props(n / 10);
        lemma_digit_char(n % 10);
        let d = dec_digits(n);
        let t = dec_digits(n / 10);
        assert(d == t.push("0123456789"@[n % 10]));
        assert(d.drop_last() =~= t);
        assert forall|i: int| 0 <= i < d.len() implies is_digit(#[trigger] d[i]) by {
            if i < d.len() - 1 {
                assert(d[i] == t[i]);
            }
        }
        assert(d[0] == t[0]);
    }
}

/// If every character of `s` between `p` and `q` is a digit and the one
/// at `q` is not, the digit run from `p` ends exactly at `q`.
pub proof fn lemma_digits_end_is(s: Seq<char>, p: int, q: int)
    requires
        0 <= p <= q <= s.len(),
        forall|i: int| p <= i < q ==> is_digit(#[trigger] s[i]),
        q < s.len() ==> !is_digit(s[q]),
    ensures
        digits_end(s, p) == q,
    decreases q - p,
{
    if p < q {
        lemma_digits_end_is(s, p + 1, q);
    }
}

/// The same characterization for the quote scan.
pub proof fn lemma_quote_end_is(s: Seq<char>, p: int, q: int)
    requires
        0 <= p <= q <= s.len(),
        forall|i: int| p <= i < q ==> (#[trigger] s[i]) != '"',
        q < s.len() ==> s[q] == '"',
    ensures
        quote_end(s, p) == q,
    decreases q - p,
{
    if p < q {
        lemma_quote_end_is(s, p + 1, q);
    }
}

/// A digit run's value only grows as the run extends.
pub proof fn lemma_parse_nat_prefix(s: Seq<char>, k: int)
    requires
        0 <= k <= s.len(),
        forall|i: int| 0 <= i < s.len() ==> is_digit(#[trigger] s[i]),
    ensures
        parse_nat(s) >= parse_nat(s.take(k)),
        parse_nat(s) >= 0,
    decreases s.len() - k,
{
    if k == s.len() {
        assert(s.take(k) =~= s);
        lemma_parse_nat_nonneg(s);
    } else {
        lemma_parse_nat_prefix(s, k + 1);
        assert(s.take(k + 1).drop_last() =~= s.take(k));
        lemma_parse_nat_nonneg(s.take(k));
    }
}

proof fn lemma_parse_nat_nonneg(s: Seq<char>)
    requires
        forall|i: int| 0 <= i < s.len() ==> is_digit(#[trigger] s[i]),
    ensures
        parse_nat(s) >= 0,
    decreases s.len(),
{
    if s.len() > 0 {
        assert(forall|i: int| 0 <= i < s.drop_last().len() ==> is_digit(
            #[trigger] s.drop_last()[i],
        ));
        lemma_parse_nat_nonneg(s.drop_last());
    }
}

/// The claim-set parser: accepts exactly the texts this library's
/// [`claims_json`] emits — the fixed field order, canonical decimal
/// numbers that fit the platform, and a quote-free role name.
pub open spec fn spec_parse_claims(s: Seq<char>) -> Option<ClaimsV> {
    if s.len() < 7 || s.subrange(0, 7) != "{\"sub\":"@ {
        None
    } else {
        let d1e = digits_end(s, 7);
        if d1e == 7 || (s[7] == '0' && d1e > 8) {
            None
        } else {
            let sub = parse_nat(s.subrange(7, d1e));
            if sub > usize::MAX {
                None
            } else if d1e + 9 > s.len() || s.subrange(d1e, d1e + 9) != ",\"role\":\""@ {
                None
            } else {
                let rs = d1e + 9;
                let re = quote_end(s, rs);
                if re >= s.len() {
                    None
                } else {
                    let role = s.subrange(rs, re);
                    if re + 8 > s.len() || s.subrange(re, re + 8) != "\",\"exp\":"@ {
                        None
                    } else {
                        let es = re + 8;
                        let d2e = digits_end(s, es);
                        if d2e == es || (s[es] == '0' && d2e > es + 1) {
                            None
                        } else {
                            let exp = parse_nat(s.subrange(es, d2e));
                            if exp > usize::MAX {
                                None
                            } else if d2e + 1 != s.len() || s[d2e] != '}' {
                                None
                            } else {
                                Some(ClaimsV { sub: sub, role: role, exp: exp })
                            }
                        }
                    }
                }
            }
        }
    }
}



/// Whether `c` is a decimal digit; the executable counterpart of
/// [`is_digit`].
fn is_digit_char(c: char) -> (r: bool)
    ensures
        r == is_digit(c),
{
    let v = c as u32;
    48 <= v && v <= 57
}

/// Whether the text carries `lit` verbatim at position `p`.
fn expect_at(s: &str, p: usize, lit: &str) -> (r: bool)
    ensures
        r == (p + lit@.len() <= s@.len() && s@.subrange(p as int, p + lit@.len()) == lit@),
{
    let n = s.unicode_len();
    let m = lit.unicode_len();
    if p > n || m > n - p {
        return false;
    }
    let mut j: usize = 0;
    while j < m
        invariant
            j <= m,
            m == lit@.len(),
            n == s@.len(),
            p + m <= n,
            forall|t: int| 0 <= t < j ==> s@[p + t] == lit@[t],
        decreases m - j,
    {
        if s.get_char(p + j) != lit.get_char(j) {
            proof {
                assert(s@.subrange(p as int, p + lit@.len())[j as int] != lit@[j as int]);
            }
            return false;
        }
        j += 1;
    }
    proof {
        assert(s@.subrange(p as int, p + lit@.len()) =~= lit@);
    }
    true
}

/// Parse the canonical decimal run that starts at `p`: its value and its
/// end.  Rejected: an empty run, a spurious leading zero, a value beyond
/// the platform's integer.
fn parse_number(s: &str, p: usize) -> (r: Option<(usize, usize)>)
    requires
        p <= s@.len(),
    ensures
        match r {
            Some(v) => {
                &&& v.1 == digits_end(s@, p as int)
                &&& p < v.1 <= s@.len()
                &&& !((s@[p as int] as int) == 48 && v.1 > p + 1)
                &&& parse_nat(s@.subrange(p as int, v.1 as int)) == v.0
            },
            None => {
                ||| digits_end(s@, p as int) == p
                ||| ((s@[p as int] as int) == 48 && digits_end(s@, p as int) > p + 1)
                ||| parse_nat(s@.subrange(p as int, digits_end(s@, p as int))) > usize::MAX
            },
        },
{
    let n = s.unicode_len();
    let mut e: usize = p;
    while e < n && is_digit_char(s.get_char(e))
        invariant
            p <= e <= n,
            n == s@.len(),
            forall|t: int| p <= t < e ==> is_digit(#[trigger] s@[t]),
        decreases n - e,
    {
        e += 1;
    }
    proof {
        lemma_digits_end_is(s@, p as int, e as int);
    }
    if e == p {
        return None;
    }
    if e > p + 1 && s.get_char(p) as u32 == 48 {
        return None;
    }
    let ghost whole = s@.subrange(p as int, e as int);
    let mut acc: usize = 0;
    let mut i: usize = p;
    proof {
        assert(s@.subrange(p as int, p as int) =~= Seq::<char>::empty());
    }
    while i < e
        invariant
            p <= i <= e <= n,
            n == s@.len(),
            digits_end(s@, p as int) == e,
            whole == s@.subrange(p as int, e as int),
            forall|t: int| p <= t < e ==> is_digit(#[trigger] s@[t]),
            acc == parse_nat(s@.subrange(p as int, i as int)),
        decreases e - i,
    {
        let d = (s.get_char(i) as u32 - 48) as usize;
        if acc > (usize::MAX - d) / 10 {
            proof {
                assert(s@.subrange(p as int, i as int + 1).drop_last() =~= s@.subrange(
                    p as int,
                    i as int,
                ));
                assert(s@.subrange(p as int, i as int + 1).last() == s@[i as int]);
                assert(parse_nat(s@.subrange(p as int, i as int + 1)) == acc * 10 + d);
                assert(acc * 10 + d > usize::MAX);
                assert(forall|t: int|
                    0 <= t < whole.len() ==> is_digit(#[trigger] whole[t]));
                lemma_parse_nat_prefix(whole, i + 1 - p);
                assert(whole.take(i + 1 - p) =~= s@.subrange(p as int, i as int + 1));
                assert(parse_nat(whole) > usize::MAX);
            }
            return None;
        }
        proof {
            assert(s@.subrange(p as int, i as int + 1).drop_last() =~= s@.subrange(
                p as int,
                i as int,
            ));
            assert(s@.subrange(p as int, i as int + 1).last() == s@[i as int]);
        }
        acc = acc * 10 + d;
        i += 1;
    }
    Some((acc, e))
}

/// Read the characters up to the closing quote, starting at `p`.
fn read_role(s: &str, p: usize) -> (r: Option<(String, usize)>)
    requires
        p <= s@.len(),
    ensures
        match r {
            Some(v) => {
                &&& v.1 == quote_end(s@, p as int)
                &&& p <= v.1 < s@.len()
                &&& v.0@ == s@.subrange(p as int, v.1 as int)
            },
            None => quote_end(s@, p as int) >= s@.len(),
        },
{
    let n = s.unicode_len();
    let mut out = String::new();
    let mut i: usize = p;
    proof {
        assert(s@.subrange(p as int, p as int) =~= Seq::<char>::empty());
    }
    while i < n && s.get_char(i) != '"'
        invariant
            p <= i <= n,
            n == s@.len(),
            forall|t: int| p <= t < i ==> (#[trigger] s@[t]) != '"',
            out@ == s@.subrange(p as int, i as int),
        decreases n - i,
    {
        push_char(&mut out, s.get_char(i));
        proof {
            assert(s@.subrange(p as int, i as int + 1).drop_last() =~= s@.subrange(
                p as int,
                i as int,
            ));
            assert(s@.subrange(p as int, i as int + 1).last() == s@[i as int]);
            assert(out@ =~= s@.subrange(p as int, i as int + 1));
        }
        i += 1;
    }
    proof {
        lemma_quote_end_is(s@, p as int, i as int);
    }
    if i >= n {
        None
    } else {
        Some((out, i))
    }
}

/// The claim-set parser; the executable counterpart of
/// [`spec_parse_claims`].
pub fn parse_claims(s: &str) -> (r: Option<Claims>)
    ensures
        match r {
            Some(c) => spec_parse_claims(s@) == Some(c@),
            None => spec_parse_claims(s@) is None,
        },
{
    proof {
        reveal_strlit("{\"sub\":");
        reveal_strlit(",\"role\":\"");
        reveal_strlit("\",\"exp\":");
        reveal_strlit("}");
    }
    let n = s.unicode_len();
    if !expect_at(s, 0, "{\"sub\":") {
        return None;
    }
    let (sub, d1e) = match parse_number(s, 7) {
        None => {
            return None;
        },
        Some(v) => v,
    };
    if !expect_at(s, d1e, ",\"role\":\"") {
        return None;
    }
    let rs = d1e + 9;
    let (role, re) = match read_role(s, rs) {
        None => {
            return None;
        },
        Some(v) => v,
    };
    if !expect_at(s, re, "\",\"exp\":") {
        return None;
    }
    let es = re + 8;
    let (exp, d2e) = match parse_number(s, es) {
        None => {
            return None;
        },
        Some(v) => v,
    };
    if d2e >= n || n - d2e != 1 {
        return None;
    }
    if s.get_char(d2e) != '}' {
        return None;
    }
    Some(Claims { sub, role, exp })
}

/// The parser undoes the printer on every claim set whose numbers fit
/// the platform and whose role name holds no quote.
pub proof fn lemma_parse_claims_round_trip(c: ClaimsV)
    requires
        0 <= c.sub <= usize::MAX,
        0 <= c.exp <= usize::MAX,
        forall|i: int| 0 <= i < c.role.len() ==> (#[trigger] c.role[i]) != '"',
    ensures
        spec_parse_claims(claims_json(c)) == Some(c),
{
    reveal_strlit("{\"sub\":");
    reveal_strlit(",\"role\":\"");
    reveal_strlit("\",\"exp\":");
    reveal_strlit("}");
    let s = claims_json(c);
    let ds1 = dec_digits(c.sub);
    let ds2 = dec_digits(c.exp);
    lemma_dec_digits_props(c.sub);
    lemma_dec_digits_props(c.exp);
    let d1e = 7 + ds1.len() as int;
    let rs = d1e + 9;
    let re = rs + c.role.len() as int;
    let es = re + 8;
    let d2e = es + ds2.len() as int;
    assert(s.len() == d2e + 1);
    assert(s.subrange(0, 7) =~= "{\"sub\":"@);
    assert forall|t: int| 7 <= t < d1e implies is_digit(#[trigger] s[t]) by {
        assert(s[t] == ds1[t - 7]);
    }
    assert(s[d1e] == ",\"role\":\""@[0]);
    assert(s[d1e] == ',');
    assert(!is_digit(s[d1e]));
    lemma_digits_end_is(s, 7, d1e);
    assert(s.subrange(7, d1e) =~= ds1);
    if c.sub >= 10 {
        assert(s[7] == ds1[0]);
        assert((s[7] as int) != 48);
    }
    assert(s.subrange(d1e, d1e + 9) =~= ",\"role\":\""@);
    assert forall|t: int| rs <= t < re implies (#[trigger] s[t]) != '"' by {
        assert(s[t] == c.role[t - rs]);
    }
    assert(s[re] == "\",\"exp\":"@[0]);
    assert(s[re] == '"');
    lemma_quote_end_is(s, rs, re);
    assert(s.subrange(rs, re) =~= c.role);
    assert(s.subrange(re, re + 8) =~= "\",\"exp\":"@);
    assert forall|t: int| es <= t < d2e implies is_digit(#[trigger] s[t]) by {
        assert(s[t] == ds2[t - es]);
    }
    assert(s[d2e] == "}"@[0]);
    assert(!is_digit(s[d2e]));
    lemma_digits_end_is(s, es, d2e);
    assert(s.subrange(es, d2e) =~= ds2);
    if c.exp >= 10 {
        assert(s[es] == ds2[0]);
        assert((s[es] as int) != 48);
    }
    assert(spec_parse_claims(s) matches Some(p) && p =~= c);
}



/// An all-digit text with value at least one (its first digit is not a
/// zero) parses to at least one.
proof fn lemma_parse_nat_first_digit(s: Seq<char>)
    requires
        s.len() >= 1,
        forall|i: int| 0 <= i < s.len() ==> is_digit(#[trigger] s[i]),
        s[0] != '0',
    ensures
        parse_nat(s) >= 1,
    decreases s.len(),
{
    if s.len() == 1 {
        assert(parse_nat(s.drop_last()) == 0) by {
            assert(s.drop_last() =~= Seq::<char>::empty());
        }
        if (s[0] as int) == 48 {
            assert(((s[0] as int) as u8) as char == s[0]);
            reveal_strlit("0123456789");
            lemma_digit_char(0);
            assert(s[0] == '0');
        }
    } else {
        assert(s.drop_last()[0] == s[0]);
        lemma_parse_nat_first_digit(s.drop_last());
        assert(48 <= (s.last() as int) <= 57);
    }
}

/// The decimal rendering is the one canonical digit text of each value:
/// an all-digit text without a spurious leading zero renders its own
/// value.
proof fn lemma_parse_nat_canonical(ds: Seq<char>)
    requires
        ds.len() >= 1,
        forall|i: int| 0 <= i < ds.len() ==> is_digit(#[trigger] ds[i]),
        ds.len() > 1 ==> ds[0] != '0',
    ensures
        ds == dec_digits(parse_nat(ds)),
    decreases ds.len(),
{
    reveal_strlit("0123456789");
    let n = parse_nat(ds);
    lemma_parse_nat_nonneg(ds);
    if ds.len() == 1 {
        assert(parse_nat(ds.drop_last()) == 0) by {
            assert(ds.drop_last() =~= Seq::<char>::empty());
        }
        assert(n == (ds[0] as int) - 48);
        lemma_digit_char(n);
        assert(((ds[0] as int) as u8) as char == ds[0]);
        assert((("0123456789"@[n] as int) as u8) as char == "0123456789"@[n]);
        assert(ds =~= dec_digits(n));
    } else {
        let dsp = ds.drop_last();
        let d = (ds.last() as int) - 48;
        assert(forall|i: int| 0 <= i < dsp.len() ==> is_digit(#[trigger] dsp[i]));
        assert(dsp[0] == ds[0]);
        lemma_parse_nat_first_digit(dsp);
        assert(n == parse_nat(dsp) * 10 + d);
        assert(0 <= d < 10);
        assert(n >= 10);
        assert(n / 10 == parse_nat(dsp) && n % 10 == d);
        lemma_parse_nat_canonical(dsp);
        lemma_digit_char(d);
        assert(((ds.last() as int) as u8) as char == ds.last());
        assert((("0123456789"@[d] as int) as u8) as char == "0123456789"@[d]);
        assert(ds.last() == "0123456789"@[d]);
        assert(ds =~= dec_digits(n / 10).push("0123456789"@[n % 10]));
    }
}

/// The parser accepts nothing but the printer's output: a text it maps
/// to a claim set is that claim set's print.
pub proof fn lemma_parse_claims_sound(s: Seq<char>, c: ClaimsV)
    requires
        spec_parse_claims(s) == Some(c),
    ensures
        s == claims_json(c),
        0 <= c.sub <= usize::MAX,
        0 <= c.exp <= usize::MAX,
        forall|i: int| 0 <= i < c.role.len() ==> (#[trigger] c.role[i]) != '"',
{
    let d1e = digits_end(s, 7);
    let rs = d1e + 9;
    let re = quote_end(s, rs);
    let es = re + 8;
    let d2e = digits_end(s, es);
    let ds1 = s.subrange(7, d1e);
    let ds2 = s.subrange(es, d2e);
    lemma_digits_end_bounds(s, 7);
    lemma_digits_end_bounds(s, es);
    lemma_quote_end_bounds(s, rs);
    assert(forall|i: int| 0 <= i < ds1.len() ==> is_digit(#[trigger] ds1[i])) by {
        lemma_digits_end_digits(s, 7);
    }
    assert(forall|i: int| 0 <= i < ds2.len() ==> is_digit(#[trigger] ds2[i])) by {
        lemma_digits_end_digits(s, es);
    }
    lemma_parse_nat_nonneg(ds1);
    lemma_parse_nat_nonneg(ds2);
    assert(ds1.len() > 1 ==> ds1[0] != '0') by {
        if ds1.len() > 1 && (s[7] as int) == 48 {
            reveal_strlit("0123456789");
            lemma_digit_char(0);
            assert(((s[7] as int) as u8) as char == s[7]);
            assert(s[7] == '0');
        }
        assert(ds1[0] == s[7]);
        if ds1.len() > 1 {
            assert(d1e > 8);
        }
    }
    assert(ds2.len() > 1 ==> ds2[0] != '0') by {
        if ds2.len() > 1 && (s[es] as int) == 48 {
            reveal_strlit("0123456789");
            lemma_digit_char(0);
            assert(((s[es] as int) as u8) as char == s[es]);
            assert(s[es] == '0');
        }
        assert(ds2[0] == s[es]);
        if ds2.len() > 1 {
            assert(d2e > es + 1);
        }
    }
    lemma_parse_nat_canonical(ds1);
    lemma_parse_nat_canonical(ds2);
    assert(ds1 == dec_digits(c.sub));
    assert(ds2 == dec_digits(c.exp));
    assert(forall|i: int| rs <= i < re ==> (#[trigger] s[i]) != '"') by {
        lemma_quote_end_clear(s, rs);
    }
    assert forall|i: int| 0 <= i < c.role.len() implies (#[trigger] c.role[i]) != '"' by {
        assert(c.role[i] == s[rs + i]);
    }
    reveal_strlit("{\"sub\":");
    reveal_strlit(",\"role\":\"");
    reveal_strlit("\",\"exp\":");
    reveal_strlit("}");
    assert(s.len() == d2e + 1);
    assert(s.subrange(d2e, d2e + 1) =~= "}"@);
    assert(s =~= s.subrange(0, 7) + s.subrange(7, d1e) + s.subrange(d1e, rs) + s.subrange(
        rs,
        re,
    ) + s.subrange(re, es) + s.subrange(es, d2e) + s.subrange(d2e, d2e + 1));
    assert(s =~= claims_json(c));
}

/// The digit scan never leaves the text.
proof fn lemma_digits_end_bounds(s: Seq<char>, p: int)
    requires
        0 <= p <= s.len(),
    ensures
        p <= digits_end(s, p) <= s.len(),
    decreases s.len() - p,
{
    if p < s.len() && is_digit(s[p]) {
        lemma_digits_end_bounds(s, p + 1);
    }
}

/// Everything the digit scan passed over is a digit.
proof fn lemma_digits_end_digits(s: Seq<char>, p: int)
    requires
        0 <= p <= s.len(),
    ensures
        forall|i: int| p <= i < digits_end(s, p) ==> is_digit(#[trigger] s[i]),
    decreases s.len() - p,
{
    if p < s.len() && is_digit(s[p]) {
        lemma_digits_end_digits(s, p + 1);
    }
}

/// The quote scan never leaves the text.
proof fn lemma_quote_end_bounds(s: Seq<char>, p: int)
    requires
        0 <= p <= s.len(),
    ensures
        p <= quote_end(s, p) <= s.len(),
    decreases s.len() - p,
{
    if p < s.len() && s[p] != '"' {
        lemma_quote_end_bounds(s, p + 1);
    }
}

/// Everything the quote scan passed over is quote-free.
proof fn lemma_quote_end_clear(s: Seq<char>, p: int)
    requires
        0 <= p <= s.len(),
    ensures
        forall|i: int| p <= i < quote_end(s, p) ==> (#[trigger] s[i]) != '"',
    decreases s.len() - p,
{
    if p < s.len() && s[p] != '"' {
        lemma_quote_end_clear(s, p + 1);
    }
}


// ---------------------------------------------------------------------------
// Executable encoding.
// ---------------------------------------------------------------------------

/// Decimal rendering of `n`; the executable counterpart of
/// [`dec_digits`].
fn dec_u64(n: u64) -> (r: String)
    ensures
        r@ == dec_digits(n as int),
    decreases n,
{
    proof {
        reveal_strlit("0123456789");
    }
    if n < 10 {
        let mut s = String::new();
        let c = "0123456789".get_char(n as usize);
        push_char(&mut s, c);
        proof {
            assert(s@ =~= dec_digits(n as int));
        }
        s
    } else {
        let mut s = dec_u64(n / 10);
        let c = "0123456789".get_char((n % 10) as usize);
        push_char(&mut s, c);
        s
    }
}

/// Base64url, without padding; the executable counterpart of
/// [`spec_b64url`].
pub(crate) fn b64url_of_str(s: &str) -> (r: String)
    requires
        all_ascii(s@),
    ensures
        r@ == spec_b64url(s@),
{
    proof {
        reveal_strlit("ABCDEFGHIJKLMNOPQRSTUVWXYZabcdefghijklmnopqrstuvwxyz0123456789-_");
    }
    let alphabet = "ABCDEFGHIJKLMNOPQRSTUVWXYZabcdefghijklmnopqrstuvwxyz0123456789-_";
    let n = s.unicode_len();
    let mut out = String::new();
    let mut i: usize = 0;
    proof {
        assert(s@.skip(0) =~= s@);
        assert(out@ + spec_b64url(s@) =~= spec_b64url(s@));
    }
    while n - i >= 3
        invariant
            all_ascii(s@),
            alphabet@ == b64url_alphabet(),
            alphabet@.len() == 64,
            i <= n,
            n == s@.len(),
            spec_b64url(s@) == out@ + spec_b64url(s@.skip(i as int)),
        decreases n - i,
    {
        let v0 = s.get_char(i) as u32;
        let v1 = s.get_char(i + 1) as u32;
        let v2 = s.get_char(i + 2) as u32;
        let ghost tail = s@.skip(i as int);
        push_char(&mut out, alphabet.get_char((v0 / 4) as usize));
        push_char(&mut out, alphabet.get_char(((v0 % 4) * 16 + v1 / 16) as usize));
        push_char(&mut out, alphabet.get_char(((v1 % 16) * 4 + v2 / 64) as usize));
        push_char(&mut out, alphabet.get_char((v2 % 64) as usize));
        proof {
            assert(tail.len() >= 3);
            assert(tail[0] == s@[i as int] && tail[1] == s@[i as int + 1] && tail[2] == s@[
                i as int + 2
            ]);
            assert(tail.skip(3) =~= s@.skip(i as int + 3));
        }
        i += 3;
    }
    let ghost tail = s@.skip(i as int);
    if n - i == 2 {
        let v0 = s.get_char(i) as u32;
        let v1 = s.get_char(i + 1) as u32;
        push_char(&mut out, alphabet.get_char((v0 / 4) as usize));
        push_char(&mut out, alphabet.get_char(((v0 % 4) * 16 + v1 / 16) as usize));
        push_char(&mut out, alphabet.get_char(((v1 % 16) * 4) as usize));
        proof {
            assert(tail.len() == 2);
            assert(tail[0] == s@[i as int] && tail[1] == s@[i as int + 1]);
        }
    } else if n - i == 1 {
        let v0 = s.get_char(i) as u32;
        push_char(&mut out, alphabet.get_char((v0 / 4) as usize));
        push_char(&mut out, alphabet.get_char(((v0 % 4) * 16) as usize));
        proof {
            assert(tail.len() == 1);
            assert(tail[0] == s@[i as int]);
        }
    } else {
        proof {
            assert(tail.len() == 0);
        }
    }
    proof {
        assert(out@ =~= spec_b64url(s@));
    }
    out
}

/// The token for a claim set; the executable counterpart of
/// [`spec_token`].
fn token_for_claims(sub: u64, role: Role, exp: u64) -> (r: String)
    ensures
        r@ == spec_token(
            ClaimsV { sub: sub as int, role: role.spec_name(), exp: exp as int },
        ),
{
    let ghost c = ClaimsV { sub: sub as int, role: role.spec_name(), exp: exp as int };
    proof {
        reveal_strlit("{\"typ\":\"JWT\",\"alg\":\"HS512\"}");
        reveal_strlit("{\"sub\":");
        reveal_strlit(",\"role\":\"");
        reveal_strlit("\",\"exp\":");
        reveal_strlit("}");
        reveal_strlit(".");
        reveal_strlit("admin");
        reveal_strlit("moderator");
        reveal_strlit("user");
        reveal_strlit("0123456789");
    }
    let mut payload = String::from_str("{\"sub\":");
    payload.append(dec_u64(sub).as_str());
    payload.append(",\"role\":\"");
    payload.append(role.name().as_str());
    payload.append("\",\"exp\":");
    payload.append(dec_u64(exp).as_str());
    payload.append("}");
    proof {
        assert(payload@ == claims_json(c));
        lemma_dec_digits_ascii(sub as int);
        lemma_dec_digits_ascii(exp as int);
        assert(all_ascii(claims_json(c)));
        assert(all_ascii(header_json()));
    }
    let header_b64 = b64url_of_str("{\"typ\":\"JWT\",\"alg\":\"HS512\"}");
    let payload_b64 = b64url_of_str(payload.as_str());
    let mut msg = header_b64;
    msg.append(".");
    msg.append(payload_b64.as_str());
    proof {
        assert(msg@ == signing_input(c));
    }
    let key = secret_bytes();
    let sig = sign_hs512(key.as_slice(), msg.as_str());
    let mut token = msg;
    token.append(".");
    token.append(sig.as_str());
    proof {
        assert(token@ == spec_token(c));
    }
    token
}

/// Every decimal digit is an ASCII character.
pub proof fn lemma_dec_digits_ascii(n: int)
    ensures
        all_ascii(dec_digits(n)),
    decreases n,
{
    reveal_strlit("0123456789");
    if n >= 10 {
        lemma_dec_digits_ascii(n / 10);
        assert forall|i: int| 0 <= i < dec_digits(n).len() implies 0 <= ((
        #[trigger] dec_digits(n)[i]) as int) < 128 by {
            if i < dec_digits(n).len() - 1 {
                assert(dec_digits(n)[i] == dec_digits(n / 10)[i]);
            }
        }
    }
}

/// Seconds in the year a token stays valid.
pub open spec fn spec_token_lifetime() -> int {
    31536000
}

/// A fresh token for the user at a given clock reading: subject, role
/// name, and an expiry one year out.  A clock reading that the expiry
/// arithmetic cannot represent is a creation error.
pub fn jwt_for_time(uid: i32, role: Role, now: i64) -> (r: Result<String, JwtError>)
    requires
        uid >= 0,
    ensures
        r is Ok <==> 0 <= now && now + spec_token_lifetime() <= i64::MAX,
        r matches Ok(t) ==> t@ == spec_token(
            ClaimsV {
                sub: uid as int,
                role: role.spec_name(),
                exp: now + spec_token_lifetime(),
            },
        ),
        r is Err ==> r == Err::<String, JwtError>(JwtError::TokenCreation),
{
    if now < 0 || now > i64::MAX - 31536000 {
        return Err(JwtError::TokenCreation);
    }
    let exp = (now + 31536000) as u64;
    Ok(token_for_claims(uid as u64, role, exp))
}

/// A fresh token for the user, expiring a year from now on the wall
/// clock.
pub fn generate_jwt(uid: i32, role: Role) -> (r: Result<String, JwtError>)
    requires
        uid >= 0,
    ensures
        r matches Ok(t) ==> exists|exp: int|
            t@ == #[trigger] spec_token(
                ClaimsV { sub: uid as int, role: role.spec_name(), exp: exp },
            ),
        r is Err ==> r == Err::<String, JwtError>(JwtError::TokenCreation),
{
    let now = crate::clock::now_ts();
    let r = jwt_for_time(uid, role, now);
    proof {
        if r is Ok {
            assert(r->Ok_0@ == spec_token(
                ClaimsV {
                    sub: uid as int,
                    role: role.spec_name(),
                    exp: now as int + spec_token_lifetime(),
                },
            ));
        }
    }
    r
}

/// The text with every leading `"Bearer "` prefix removed.
pub open spec fn strip_bearer(s: Seq<char>) -> Seq<char>
    decreases s.len(),
{
    if s.len() >= 7 && s.subrange(0, 7) == "Bearer "@ {
        strip_bearer(s.skip(7))
    } else {
        s
    }
}

/// Extract the bearer token from an `Authorization` header, when one was
/// sent: the header must carry the `"Bearer "` scheme, and every
/// repetition of the prefix is stripped.
pub fn jwt_from_header(header: Option<&String>) -> (r: Result<String, JwtError>)
    ensures
        header is None ==> r == Err::<String, JwtError>(JwtError::NoAuthHeader),
        header matches Some(h) ==> if h@.len() >= 7 && h@.subrange(0, 7) == "Bearer "@ {
            r matches Ok(t) && t@ == strip_bearer(h@)
        } else {
            r == Err::<String, JwtError>(JwtError::InvalidAuthHeader)
        },
{
    proof {
        reveal_strlit("Bearer ");
    }
    match header {
        None => Err(JwtError::NoAuthHeader),
        Some(h) => {
            if !expect_at(h.as_str(), 0, "Bearer ") {
                return Err(JwtError::InvalidAuthHeader);
            }
            let n = h.as_str().unicode_len();
            let mut start: usize = 0;
            proof {
                assert(h@.skip(0) =~= h@);
            }
            while expect_at(h.as_str(), start, "Bearer ")
                invariant
                    header == Some(h),
                    start <= n,
                    n == h@.len(),
                    "Bearer "@.len() == 7,
                    strip_bearer(h@) == strip_bearer(h@.skip(start as int)),
                decreases n - start,
            {
                proof {
                    assert(h@.skip(start as int).subrange(0, 7) =~= h@.subrange(
                        start as int,
                        start as int + 7,
                    ));
                    assert(h@.skip(start as int).skip(7) =~= h@.skip(start as int + 7));
                }
                start += 7;
            }
            proof {
                let tail = h@.skip(start as int);
                if tail.len() >= 7 {
                    assert(tail.subrange(0, 7) =~= h@.subrange(start as int, start as int + 7));
                }
                assert(strip_bearer(tail) == tail);
                assert(h@.subrange(start as int, n as int) =~= tail);
            }
            let rest = h.as_str().substring_char(start, n);
            Ok(rest.to_owned())
        },
    }
}

} // verus!
