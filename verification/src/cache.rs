//! The name of the cache file that holds the amplitudes of a processed point: the
//! hex MD5 digest of a key made of the file path and the processing settings.
use vstd::prelude::*;
use vstd::string::StringExecFns;

verus! {

/// The MD5 digest of a byte sequence, as `md5::compute` gives it.
pub uninterp spec fn md5_of(data: Seq<u8>) -> Seq<u8>;

/// Calls `md5::compute`. Claimed: the digest is the named result `md5_of` of the
/// data, and it has 16 bytes (`md5::Digest` wraps `[u8; 16]`).
#[verifier::external_body]
fn md5_digest(data: &[u8]) -> (r: Vec<u8>)
    ensures
        r@ == md5_of(data@),
        r@.len() == 16,
{
    md5::compute(data).0.to_vec()
}

/// The lowercase hex digit of a value below sixteen.
pub open spec fn hex_digit(n: int) -> char {
    if n < 10 {
        (48 + n) as char
    } else {
        (87 + n) as char
    }
}

/// The lowercase hex text of a byte sequence: two digits per byte, high nibble first.
pub open spec fn spec_hex_lower(data: Seq<u8>) -> Seq<char> {
    Seq::new(
        2 * data.len(),
        |i: int|
            if i % 2 == 0 {
                hex_digit(data[i / 2] as int / 16)
            } else {
                hex_digit(data[i / 2] as int % 16)
            },
    )
}

/// Calls `hex::encode`. Claimed, as its source shows: each byte becomes two
/// lowercase hex digits, the high nibble first.
#[verifier::external_body]
fn hex_encode(data: &[u8]) -> (r: String)
    ensures
        r@ == spec_hex_lower(data@),
{
    hex::encode(data)
}

/// The text of a flag, as `format!` writes a `bool`.
pub open spec fn bool_text(b: bool) -> Seq<char> {
    if b {
        "true"@
    } else {
        "false"@
    }
}

/// The key of a processed point: `process_file-{path}-{algorithm}-{convert_to_kev}`,
/// where `algorithm` is the JSON text of the algorithm.
pub open spec fn spec_raw_cache_key(filepath: Seq<char>, algorithm_json: Seq<char>, convert_to_kev: bool) -> Seq<
    char,
> {
    "process_file-"@ + filepath + "-"@ + algorithm_json + "-"@ + bool_text(convert_to_kev)
}

/// The name of the cache file of a processed point: the hex MD5 digest of the UTF-8
/// bytes of its key.
pub open spec fn spec_cache_file_name(filepath: Seq<char>, algorithm_json: Seq<char>, convert_to_kev: bool) -> Seq<
    char,
> {
    spec_hex_lower(md5_of(vstd::utf8::encode_utf8(spec_raw_cache_key(filepath, algorithm_json, convert_to_kev))))
}

/// The key of a processed point.
pub fn raw_cache_key(filepath: &str, algorithm_json: &str, convert_to_kev: bool) -> (r: String)
    ensures
        r@ == spec_raw_cache_key(filepath@, algorithm_json@, convert_to_kev),
{
    let mut raw = String::new();
    raw.append("process_file-");
    raw.append(filepath);
    raw.append("-");
    raw.append(algorithm_json);
    raw.append("-");
    if convert_to_kev {
        raw.append("true");
    } else {
        raw.append("false");
    }
    raw
}

/// The name of the cache file of a processed point.
pub fn cache_file_name(filepath: &str, algorithm_json: &str, convert_to_kev: bool) -> (r: String)
    ensures
        r@ == spec_cache_file_name(filepath@, algorithm_json@, convert_to_kev),
        r@.len() == 32,
{
    let raw = raw_cache_key(filepath, algorithm_json, convert_to_kev);
    let digest = md5_digest(raw.as_str().as_bytes());
    hex_encode(digest.as_slice())
}

} // verus!
