use base64::engine::general_purpose;
use base64::Engine;
use vstd::prelude::*;
use vstd::string::*;
use vstd::utf8::encode_utf8;

verus! {

/// The symbol of the standard base64 alphabet (RFC 4648) for a six-bit
/// value: `A`-`Z`, `a`-`z`, `0`-`9`, `+`, `/`.
pub open spec fn base64_symbol(v: int) -> char {
    if v < 26 {
        ((65 + v) as u32) as char
    } else if v < 52 {
        ((97 + v - 26) as u32) as char
    } else if v < 62 {
        ((48 + v - 52) as u32) as char
    } else if v == 62 {
        '+'
    } else {
        '/'
    }
}

/// Standard base64 with padding: each group of three bytes becomes four
/// symbols of six bits each; a final group of one or two bytes is filled
/// with zero bits and the text is padded with `=` to a multiple of four.
pub open spec fn base64_standard(bytes: Seq<u8>) -> Seq<char>
    decreases bytes.len(),
{
    let b0 = bytes[0] as int;
    let b1 = bytes[1] as int;
    let b2 = bytes[2] as int;
    if bytes.len() == 0 {
        Seq::empty()
    } else if bytes.len() == 1 {
        seq![base64_symbol(b0 / 4), base64_symbol((b0 % 4) * 16), '=', '=']
    } else if bytes.len() == 2 {
        seq![base64_symbol(b0 / 4), base64_symbol((b0 % 4) * 16 + b1 / 16), base64_symbol((b1 % 16) * 4), '=']
    } else {
        seq![
            base64_symbol(b0 / 4),
            base64_symbol((b0 % 4) * 16 + b1 / 16),
            base64_symbol((b1 % 16) * 4 + b2 / 64),
            base64_symbol(b2 % 64),
        ] + base64_standard(bytes.skip(3))
    }
}

/// `general_purpose::STANDARD.encode` of the `base64` crate: standard base64
/// with padding. It panics when the length of the output does not fit in a
/// `usize`, which the bound on the input rules out.
#[verifier::external_body]
fn base64_encode(bytes: &[u8]) -> (text: String)
    requires
        bytes@.len() < usize::MAX / 2,
    ensures
        text@ == base64_standard(bytes@),
{
    general_purpose::STANDARD.encode(bytes)
}

/// The six-bit value of a symbol of the standard base64 alphabet.
pub open spec fn base64_value(c: char) -> int {
    let x = c as u32 as int;
    if 65 <= x <= 90 {
        x - 65
    } else if 97 <= x <= 122 {
        x - 97 + 26
    } else if 48 <= x <= 57 {
        x - 48 + 52
    } else if c == '+' {
        62
    } else {
        63
    }
}

/// Standard base64 decoding of padded text: each group of four symbols
/// gives three bytes, or fewer when it ends in `=`, which ends the text.
pub open spec fn base64_decode(text: Seq<char>) -> Seq<u8>
    decreases text.len(),
{
    if text.len() < 4 {
        Seq::empty()
    } else {
        let v0 = base64_value(text[0]);
        let v1 = base64_value(text[1]);
        let v2 = base64_value(text[2]);
        let v3 = base64_value(text[3]);
        let b0 = (v0 * 4 + v1 / 16) as u8;
        let b1 = ((v1 % 16) * 16 + v2 / 4) as u8;
        let b2 = ((v2 % 4) * 64 + v3) as u8;
        if text[2] == '=' {
            seq![b0]
        } else if text[3] == '=' {
            seq![b0, b1]
        } else {
            seq![b0, b1, b2] + base64_decode(text.skip(4))
        }
    }
}

proof fn lemma_symbol_value(v: int)
    requires
        0 <= v < 64,
    ensures
        base64_value(base64_symbol(v)) == v,
        base64_symbol(v) != '=',
{
}

proof fn lemma_group_round_trip(b0: int, b1: int, b2: int)
    requires
        0 <= b0 < 256,
        0 <= b1 < 256,
        0 <= b2 < 256,
    ensures
        0 <= b0 / 4 < 64,
        0 <= (b0 % 4) * 16 + b1 / 16 < 64,
        0 <= (b1 % 16) * 4 + b2 / 64 < 64,
        0 <= b2 % 64 < 64,
        (b0 / 4) * 4 + ((b0 % 4) * 16 + b1 / 16) / 16 == b0,
        (((b0 % 4) * 16 + b1 / 16) % 16) * 16 + ((b1 % 16) * 4 + b2 / 64) / 4 == b1,
        (((b1 % 16) * 4 + b2 / 64) % 4) * 64 + b2 % 64 == b2,
{
    assert(0 <= b0 / 4 < 64) by (nonlinear_arith)
        requires
            0 <= b0 < 256,
    ;
    assert((b0 / 4) * 4 + b0 % 4 == b0) by (nonlinear_arith)
        requires
            0 <= b0 < 256,
    ;
    assert((b1 / 16) * 16 + b1 % 16 == b1) by (nonlinear_arith)
        requires
            0 <= b1 < 256,
    ;
    assert((b2 / 64) * 64 + b2 % 64 == b2) by (nonlinear_arith)
        requires
            0 <= b2 < 256,
    ;
    assert(0 <= b1 / 16 < 16 && 0 <= b2 / 64 < 4 && 0 <= b0 % 4 < 4 && 0 <= b1 % 16 < 16 && 0 <= b2 % 64
        < 64) by (nonlinear_arith)
        requires
            0 <= b0 < 256,
            0 <= b1 < 256,
            0 <= b2 < 256,
    ;
    let q0 = b0 % 4;
    let h1 = b1 / 16;
    let l1 = b1 % 16;
    let h2 = b2 / 64;
    assert(((q0 * 16 + h1) / 16 == q0) && ((q0 * 16 + h1) % 16 == h1)) by (nonlinear_arith)
        requires
            0 <= q0 < 4,
            0 <= h1 < 16,
    ;
    assert(((l1 * 4 + h2) / 4 == l1) && ((l1 * 4 + h2) % 4 == h2)) by (nonlinear_arith)
        requires
            0 <= l1 < 16,
            0 <= h2 < 4,
    ;
}

/// Decoding standard base64 gives back the bytes that were encoded.
pub proof fn lemma_base64_round_trip(bytes: Seq<u8>)
    ensures
        base64_decode(base64_standard(bytes)) == bytes,
    decreases bytes.len(),
{
    let b0 = bytes[0] as int;
    let b1 = bytes[1] as int;
    let b2 = bytes[2] as int;
    if bytes.len() == 0 {
    } else {
        let e = base64_standard(bytes);
        if bytes.len() == 1 {
            lemma_group_round_trip(b0, 0, 0);
            lemma_symbol_value(b0 / 4);
            lemma_symbol_value((b0 % 4) * 16);
            assert(base64_decode(e) =~= bytes);
        } else if bytes.len() == 2 {
            lemma_group_round_trip(b0, b1, 0);
            lemma_symbol_value(b0 / 4);
            lemma_symbol_value((b0 % 4) * 16 + b1 / 16);
            lemma_symbol_value((b1 % 16) * 4);
            assert(base64_decode(e) =~= bytes);
        } else {
            lemma_group_round_trip(b0, b1, b2);
            lemma_symbol_value(b0 / 4);
            lemma_symbol_value((b0 % 4) * 16 + b1 / 16);
            lemma_symbol_value((b1 % 16) * 4 + b2 / 64);
            lemma_symbol_value(b2 % 64);
            let rest = bytes.skip(3);
            lemma_base64_round_trip(rest);
            assert(e.skip(4) =~= base64_standard(rest));
            assert(base64_decode(e) =~= seq![bytes[0], bytes[1], bytes[2]] + base64_decode(
                base64_standard(rest),
            ));
            assert(base64_decode(e) =~= bytes);
        }
    }
}

/// The text of an authentication key before encoding:
/// `eth-<address>:<signature>`.
pub open spec fn auth_key_text(address: Seq<char>, signature: Seq<char>) -> Seq<char> {
    "eth-"@ + address + ":"@ + signature
}

/// The key's text starts with `eth-`, holds the whole address, then `:`,
/// and ends with the whole signature: `5 + |address| + |signature|`
/// characters.
pub proof fn lemma_auth_key_text_parts(address: Seq<char>, signature: Seq<char>)
    ensures
        auth_key_text(address, signature).len() == 5 + address.len() + signature.len(),
        auth_key_text(address, signature).take(4) == seq!['e', 't', 'h', '-'],
        auth_key_text(address, signature).subrange(4, 4 + address.len() as int) == address,
        auth_key_text(address, signature)[4 + address.len() as int] == ':',
        auth_key_text(address, signature).skip(5 + address.len() as int) == signature,
{
    reveal_strlit("eth-");
    reveal_strlit(":");
    let t = auth_key_text(address, signature);
    assert(t.take(4) =~= seq!['e', 't', 'h', '-']);
    assert(t.subrange(4, 4 + address.len() as int) =~= address);
    assert(t.skip(5 + address.len() as int) =~= signature);
}

/// The bearer key for the storage service: `eth-<address>:<signature>`,
/// encoded as standard base64 of its UTF-8 bytes. `address` is the wallet's
/// address and `signature` its signature of that address. Decoding the key
/// gives back exactly those bytes.
pub fn encode_auth_key(address: &str, signature: &str) -> (key: String)
    requires
        encode_utf8(auth_key_text(address@, signature@)).len() < usize::MAX / 2,
    ensures
        key@ == base64_standard(encode_utf8(auth_key_text(address@, signature@))),
        base64_decode(key@) == encode_utf8("eth-"@ + address@ + ":"@ + signature@),
{
    let mut plain = String::from_str("eth-");
    plain.append(address);
    plain.append(":");
    plain.append(signature);
    assert(plain@ =~= auth_key_text(address@, signature@));
    let key = base64_encode(plain.as_str().as_bytes());
    proof {
        lemma_base64_round_trip(encode_utf8(auth_key_text(address@, signature@)));
    }
    key
}

} // verus!
