//! The calls into other crates and into the standard library whose results are
//! believed rather than proved.
//!
//! Each function makes one call. What a call returns either is stated or gets a
//! name: a function of the arguments that contracts can speak of.

use std::io::Read;

use vstd::prelude::*;
use vstd::utf8::{decode_utf8, valid_utf8};

use crate::text::opt_text;

verus! {

/// The contents of an optional byte vector.
pub open spec fn opt_bytes(v: Option<Vec<u8>>) -> Option<Seq<u8>> {
    match v {
        Some(v) => Some(v@),
        None => None,
    }
}

/// The registrable domain of a host name by the public suffix list that `addr`
/// carries; none where the host name has none.
pub uninterp spec fn root_domain(host: Seq<char>) -> Option<Seq<char>>;

/// `addr::parse_dns_name`, then `root` of the name it returns. The result is
/// named; nothing more is said of it.
#[verifier::external_body]
pub(crate) fn find_root_domain(host: &str) -> (r: Option<String>)
    ensures
        opt_text(r) == root_domain(host@),
{
    addr::parse_dns_name(host).ok().and_then(|name| name.root().map(|root| root.to_owned()))
}

/// The ASCII form of a domain name by the rules of IDNA; none where they reject it.
pub uninterp spec fn ascii_domain(domain: Seq<char>) -> Option<Seq<char>>;

/// `idna::domain_to_ascii`. The result is named; nothing more is said of it.
#[verifier::external_body]
pub(crate) fn domain_to_ascii(domain: &str) -> (r: Option<String>)
    ensures
        opt_text(r) == ascii_domain(domain@),
{
    idna::domain_to_ascii(domain).ok()
}

/// Whether a regular expression matches somewhere in a text; none where the
/// expression is not valid, or too large once compiled. How large it is counted
/// depends on the width of a pointer, so of two targets one may refuse a very large
/// expression that the other takes; on any one target the verdict is a function of
/// the expression and the text.
pub uninterp spec fn regex_verdict(expression: Seq<char>, text: Seq<char>) -> Option<bool>;

/// `regex::Regex::new`, then `is_match` of the expression it returns. The
/// result is named; nothing more is said of it.
#[verifier::external_body]
pub(crate) fn regex_matches(expression: &str, text: &str) -> (r: Option<bool>)
    ensures
        r == regex_verdict(expression@, text@),
{
    regex::Regex::new(expression).ok().map(|regex| regex.is_match(text))
}

/// The bytes that a text encodes in standard Base64; none where it encodes none.
pub uninterp spec fn base64_bytes(text: Seq<char>) -> Option<Seq<u8>>;

/// `base64::decode`. The result is named; nothing more is said of it.
#[verifier::external_body]
pub(crate) fn base64_decode(text: &str) -> (r: Option<Vec<u8>>)
    ensures
        opt_bytes(r) == base64_bytes(text@),
{
    base64::decode(text).ok()
}

/// The gzip member made of some data at the default level; none where
/// compression fails.
pub uninterp spec fn gzip_member(data: Seq<u8>) -> Option<Seq<u8>>;

/// The data of the first gzip member of some bytes; none where they are no
/// whole member.
pub uninterp spec fn gzip_data(bytes: Seq<u8>) -> Option<Seq<u8>>;

/// `flate2::read::GzEncoder`, read to its end. The result is named; a result
/// starts with the two bytes that mark a gzip member, and decompresses to the
/// data it was made of.
#[verifier::external_body]
pub(crate) fn gzip(data: &[u8]) -> (r: Option<Vec<u8>>)
    ensures
        opt_bytes(r) == gzip_member(data@),
        r matches Some(member) ==> {
            &&& seq![0x1fu8, 0x8bu8].is_prefix_of(member@)
            &&& gzip_data(member@) == Some(data@)
        },
{
    let mut member = Vec::new();
    let mut encoder = flate2::read::GzEncoder::new(data, flate2::Compression::default());
    encoder.read_to_end(&mut member).ok().map(|_| member)
}

/// `flate2::read::GzDecoder`, read to its end. The result is named; nothing
/// more is said of it.
#[verifier::external_body]
pub(crate) fn gunzip(bytes: &[u8]) -> (r: Option<Vec<u8>>)
    ensures
        opt_bytes(r) == gzip_data(bytes@),
{
    let mut data = Vec::new();
    let mut decoder = flate2::read::GzDecoder::new(bytes);
    decoder.read_to_end(&mut data).ok().map(|_| data)
}

/// `String::from_utf8` of the standard library: the text that the bytes encode
/// in UTF-8, on valid UTF-8 and on nothing else.
#[verifier::external_body]
pub(crate) fn text_of_utf8(bytes: Vec<u8>) -> (r: Option<String>)
    ensures
        r is Some <==> valid_utf8(bytes@),
        r matches Some(s) ==> s@ == decode_utf8(bytes@),
{
    String::from_utf8(bytes).ok()
}

} // verus!
