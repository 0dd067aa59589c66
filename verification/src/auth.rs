//! Request authentication data, and the derivation of fresh API keys.
use vstd::prelude::*;

verus! {

/// What a request carried for authentication: the claimed origin, whether
/// it was forced through the override header, and the API key if any.
pub struct AuthenticationInfo {
    pub origin: Option<String>,
    pub overridden: bool,
    pub key: Option<String>,
}

/// The URL-safe base64 alphabet: letters, digits, minus, underscore.
pub open spec fn b64url_char(v: u32) -> u8 {
    if v < 26 {
        (65 + v) as u8
    } else if v < 52 {
        (71 + v) as u8
    } else if v < 62 {
        (v - 4) as u8
    } else if v == 62 {
        45
    } else {
        95
    }
}

fn b64url_char_exec(v: u32) -> (r: u8)
    requires
        v < 64,
    ensures
        r == b64url_char(v),
{
    if v < 26 {
        (65 + v) as u8
    } else if v < 52 {
        (71 + v) as u8
    } else if v < 62 {
        (v - 4) as u8
    } else if v == 62 {
        45
    } else {
        95
    }
}

/// The 24-bit group a key encodes at position `g`.
pub open spec fn apikey_group(random: Seq<u8>, g: int) -> u32 {
    ((random[3 * g] as u32) * 65536 + (random[3 * g + 1] as u32) * 256 + (random[3 * g
        + 2] as u32)) as u32
}

/// Encode eighteen random bytes as a twenty-four letter URL-safe key:
/// each three-byte group becomes four alphabet letters.
pub fn local_apikey(random: &Vec<u8>) -> (r: Vec<u8>)
    requires
        random@.len() == 18,
    ensures
        r@.len() == 24,
        forall|g: int|
            0 <= g < 6 ==> {
                let v = apikey_group(random@, g);
                &&& #[trigger] r@[4 * g] == b64url_char((v >> 18) & 0x3F)
                &&& r@[4 * g + 1] == b64url_char((v >> 12) & 0x3F)
                &&& r@[4 * g + 2] == b64url_char((v >> 6) & 0x3F)
                &&& r@[4 * g + 3] == b64url_char(v & 0x3F)
            },
{
    let mut out: Vec<u8> = Vec::new();
    let mut g: usize = 0;
    while g < 6
        invariant
            g <= 6,
            random@.len() == 18,
            out@.len() == 4 * g,
            forall|j: int|
                0 <= j < g ==> {
                    let v = apikey_group(random@, j);
                    &&& #[trigger] out@[4 * j] == b64url_char((v >> 18) & 0x3F)
                    &&& out@[4 * j + 1] == b64url_char((v >> 12) & 0x3F)
                    &&& out@[4 * j + 2] == b64url_char((v >> 6) & 0x3F)
                    &&& out@[4 * j + 3] == b64url_char(v & 0x3F)
                },
        decreases 6 - g,
    {
        let v: u32 = (random[3 * g] as u32) * 65536 + (random[3 * g + 1] as u32) * 256 + (random[3
            * g + 2] as u32);
        proof {
            assert(((v >> 18) & 0x3F) < 64 && ((v >> 12) & 0x3F) < 64 && ((v >> 6) & 0x3F) < 64
                && (v & 0x3F) < 64) by (bit_vector);
        }
        out.push(b64url_char_exec((v >> 18) & 0x3F));
        out.push(b64url_char_exec((v >> 12) & 0x3F));
        out.push(b64url_char_exec((v >> 6) & 0x3F));
        out.push(b64url_char_exec(v & 0x3F));
        g += 1;
    }
    out
}

} // verus!
