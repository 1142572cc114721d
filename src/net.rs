use vstd::prelude::*;

verus! {

/// hex::FromHexError, the error of hex::decode; only carried until it is mapped to a
/// `LoadError`.
#[verifier::external_type_specification]
#[verifier::external_body]
pub struct ExFromHexError(hex::FromHexError);

/// The lower-case hex digits.
pub open spec fn hex_chars() -> Seq<char> {
    seq!['0', '1', '2', '3', '4', '5', '6', '7', '8', '9', 'a', 'b', 'c', 'd', 'e', 'f']
}

/// Two lower-case hex digits per byte, high digit first.
pub open spec fn hex_lower(b: Seq<u8>) -> Seq<char>
    decreases b.len(),
{
    if b.len() == 0 {
        seq![]
    } else {
        seq![hex_chars()[(b[0] / 16) as int], hex_chars()[(b[0] % 16) as int]] + hex_lower(b.drop_first())
    }
}

/// The value of one hex digit, in either case.
pub open spec fn hex_value(c: u8) -> Option<u8> {
    if 65 <= c <= 70 {
        Some((c - 55) as u8)
    } else if 97 <= c <= 102 {
        Some((c - 87) as u8)
    } else if 48 <= c <= 57 {
        Some((c - 48) as u8)
    } else {
        None
    }
}

/// The bytes that pairs of hex digits stand for; `None` for an odd length or a byte that
/// is no hex digit.
pub open spec fn unhex(s: Seq<u8>) -> Option<Seq<u8>>
    decreases s.len(),
{
    if s.len() % 2 != 0 {
        None
    } else if s.len() == 0 {
        Some(seq![])
    } else {
        match (hex_value(s[0]), hex_value(s[1]), unhex(s.subrange(2, s.len() as int))) {
            (Some(h), Some(l), Some(rest)) => Some(seq![(h * 16 + l) as u8] + rest),
            _ => None,
        }
    }
}

/// Relies on hex::encode: two lower-case hex digits per byte, high digit first.
#[verifier::external_body]
pub(crate) fn encode_hex(data: &[u8]) -> (r: String)
    ensures
        r@ == hex_lower(data@),
{
    hex::encode(data)
}

/// Relies on hex::decode: pairs of hex digits in either case, high digit first; an odd
/// length or any other byte is an error.
#[verifier::external_body]
fn decode_hex(data: &[u8]) -> (r: Result<Vec<u8>, hex::FromHexError>)
    ensures
        r is Ok <==> unhex(data@) is Some,
        r is Ok ==> r->Ok_0@ == unhex(data@)->Some_0,
{
    hex::decode(data)
}

/// Where a node serves the data of modules.
pub struct NetCfg {
    node_base_url: String,
}

impl NetCfg {
    pub closed spec fn base(&self) -> Seq<char> {
        self.node_base_url@
    }

    pub fn new(node_base_url: String) -> (r: NetCfg)
        ensures
            r.base() == node_base_url@,
    {
        NetCfg { node_base_url }
    }

    pub fn node_base_url(&self) -> (r: &str)
        ensures
            r@ == self.base(),
    {
        self.node_base_url.as_str()
    }
}

/// The answer of a node that found the data asked for.
pub struct LoaderResponse {
    pub result: Response,
}

/// The hex-encoded data in an answer.
pub struct Response {
    pub value: String,
}

/// The answer of a node that failed.
pub struct LoaderErrorResponse {
    pub error: String,
}

/// Why no module was loaded from a node.
#[derive(Clone, Copy, Debug, PartialEq, Eq, Structural)]
pub enum LoadError {
    /// The node answered with no data.
    NotFound,
    /// The data was not hex.
    InvalidHex,
}

/// The address where a node serves the data at `path` of account `address`: the base
/// URL, then `vm/data/`, the address in hex, `/` and the path in hex.
pub fn data_url(cfg: &NetCfg, address: &[u8], path: &[u8]) -> (r: String)
    ensures
        r@ == cfg.base() + "vm/data/"@ + hex_lower(address@) + "/"@ + hex_lower(path@),
{
    let mut url = String::from_str(cfg.node_base_url());
    url.append("vm/data/");
    let a = encode_hex(address);
    url.append(a.as_str());
    url.append("/");
    let p = encode_hex(path);
    url.append(p.as_str());
    url
}

/// The module bytes in the `value` of a node's answer: an empty value means that the
/// node has no such module; otherwise the value is hex.
pub fn loaded_bytes(value: &[u8]) -> (r: Result<Vec<u8>, LoadError>)
    ensures
        value@.len() == 0 ==> r == Err::<Vec<u8>, LoadError>(LoadError::NotFound),
        value@.len() > 0 && unhex(value@) is None ==> r == Err::<Vec<u8>, LoadError>(
            LoadError::InvalidHex,
        ),
        value@.len() > 0 && unhex(value@) is Some ==> r is Ok && r->Ok_0@ == unhex(value@)->Some_0,
{
    if value.len() == 0 {
        return Err(LoadError::NotFound);
    }
    match decode_hex(value) {
        Ok(bytes) => Ok(bytes),
        Err(_) => Err(LoadError::InvalidHex),
    }
}

} // verus!
