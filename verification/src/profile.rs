//! Profiles as files hold them: compressed or plain.

use crate::decode::decode_profile;
use crate::decode::decoded;
use crate::proto::Profile;
use crate::proto::ProfileModel;
use crate::wire::Malformed;
use vstd::prelude::*;

verus! {

/// The error that `std::io` reports for compressed data that cannot be read.
#[verifier::external_type_specification]
#[verifier::external_body]
pub struct ExIoError(std::io::Error);

/// Errors that can occur during profile parsing.
#[derive(Debug)]
pub enum ParseError {
    /// The compressed data cannot be read.
    Io(std::io::Error),
    /// The data is not a profile message.
    Decode(Malformed),
    /// There is no data.
    Empty,
}

/// The data starts with the two bytes that mark gzip.
pub open spec fn gzip_marked(data: Seq<u8>) -> bool {
    data.len() >= 2 && data[0] == 0x1f && data[1] == 0x8b
}

/// What the first gzip member of `data` decompresses to; `None` where it is
/// damaged or incomplete.
pub uninterp spec fn gunzip(data: Seq<u8>) -> Option<Seq<u8>>;

/// The bytes of the profile message in `data`.
pub open spec fn payload(data: Seq<u8>) -> Option<Seq<u8>> {
    if gzip_marked(data) {
        gunzip(data)
    } else {
        Some(data)
    }
}

/// The entry of the string table at `index`; the empty string where there is none.
pub open spec fn string_at(profile: ProfileModel, index: i64) -> Seq<char> {
    if 0 <= index < profile.string_table.len() {
        profile.string_table[index as int]
    } else {
        seq![]
    }
}

/// Check if data starts with gzip magic bytes (0x1f 0x8b).
pub fn is_gzip(data: &[u8]) -> (r: bool)
    ensures
        r == gzip_marked(data@),
{
    data.len() >= 2 && data[0] == 0x1f && data[1] == 0x8b
}

/// Reading a `flate2::read::GzDecoder` to its end gives what the first gzip
/// member of the data decompresses to, or an error; which of the two, and the
/// bytes, depend on the data alone.
#[verifier::external_body]
fn decompress(data: &[u8]) -> (r: Result<Vec<u8>, std::io::Error>)
    ensures
        match r {
            Ok(bytes) => gunzip(data@) == Some(bytes@),
            Err(_) => gunzip(data@) is None,
        },
{
    let mut decoder = flate2::read::GzDecoder::new(data);
    let mut bytes: Vec<u8> = Vec::new();
    std::io::Read::read_to_end(&mut decoder, &mut bytes)?;
    Ok(bytes)
}

/// Parse a pprof profile from raw bytes.
/// Handles both gzip-compressed and raw protobuf formats.
pub fn parse_profile(data: &[u8]) -> (r: Result<Profile, ParseError>)
    ensures
        match r {
            Ok(profile) => data@.len() > 0 && (payload(data@) matches Some(bytes) && decoded(bytes)
                == Ok::<_, Malformed>(profile@)),
            Err(ParseError::Empty) => data@.len() == 0,
            Err(ParseError::Io(_)) => data@.len() > 0 && payload(data@) is None,
            Err(ParseError::Decode(cause)) => data@.len() > 0 && (payload(data@) matches Some(bytes)
                && decoded(bytes) matches Err(fault) && fault == cause),
        },
{
    if data.len() == 0 {
        return Err(ParseError::Empty);
    }
    if is_gzip(data) {
        match decompress(data) {
            Ok(bytes) => parse_message(bytes.as_slice()),
            Err(e) => Err(ParseError::Io(e)),
        }
    } else {
        parse_message(data)
    }
}

/// Parse a profile from the bytes of its message.
pub fn parse_message(bytes: &[u8]) -> (r: Result<Profile, ParseError>)
    ensures
        match r {
            Ok(profile) => decoded(bytes@) == Ok::<_, Malformed>(profile@),
            Err(e) => e matches ParseError::Decode(cause) && (decoded(bytes@) matches Err(fault)
                && fault == cause),
        },
{
    match decode_profile(bytes) {
        Ok(profile) => Ok(profile),
        Err(e) => Err(ParseError::Decode(e)),
    }
}

/// Resolve a string from the profile's string table by index.
/// Returns empty string if index is out of bounds or negative.
pub fn resolve_string(profile: &Profile, index: i64) -> (s: &str)
    ensures
        s@ == string_at(profile@, index),
{
    if index < 0 || index as u64 >= profile.string_table.len() as u64 {
        proof {
            reveal_strlit("");
        }
        assert(""@ =~= seq![]);
        return "";
    }
    profile.string_table[index as usize].as_str()
}

/// Data is taken for compressed by its first two bytes alone; any other is the message.
pub proof fn lemma_payload(data: Seq<u8>, more: Seq<u8>)
    ensures
        data.len() >= 2 && data[0] == 0x1f && data[1] == 0x8b ==> payload(data) == gunzip(data),
        data.len() < 2 || data[0] != 0x1f || data[1] != 0x8b ==> payload(data) == Some(data),
        data.len() >= 2 ==> gzip_marked(data + more) == gzip_marked(data),
{
}

/// A string is the entry of the table at its index; an index outside of the table stands
/// for no text.
pub proof fn lemma_string_at(profile: ProfileModel, index: i64)
    ensures
        index < 0 || index >= profile.string_table.len() ==> string_at(profile, index).len() == 0,
        0 <= index < profile.string_table.len() ==> string_at(profile, index)
            == profile.string_table[index as int],
{
}

} // verus!
