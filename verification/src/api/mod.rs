use vstd::prelude::*;
use std::collections::HashMap;
use vstd::string::StringExecFns;
use base64::Engine;
use sha2::Digest;

pub mod git;
pub mod modes;

use self::modes::Mode;

verus! {

/// Declares `::url::Url` of the `url` crate, which packages carry as their locations.
#[verifier::external_type_specification]
#[verifier::external_body]
pub struct ExUrl(::url::Url);

/// The absolute path of a file.
#[derive(Clone, Debug, Eq, PartialEq, Hash)]
pub struct AbsoluteFilePath(pub String);

/// A path relative to a package's root.
#[derive(Clone, Debug, Eq, PartialEq, Hash)]
pub struct RelativePath(pub String);

/// The name of a package.
#[derive(Clone, Debug, Eq, PartialEq, Hash)]
pub struct PackageName(pub String);

/// Where each package can be found.
#[derive(Clone, Debug, Eq, PartialEq)]
pub struct Registry(HashMap<PackageName, ::url::Url>);

/// What went wrong in handling packages.
#[derive(Debug)]
pub enum Error {
    Unknown,
}

/// A dependency on a package, as written by a user, with where it was locked.
pub struct SymbolicDependency {
    name: PackageName,
    url: ::url::Url,
    locked_url: LockedUrl,
}

/// A location of a package with the exact location it was locked to, and its hash.
pub struct LockedUrl {
    original: ::url::Url,
    locked: ::url::Url,
    sri: Sri,
}

/// A subresource-integrity hash: a SHA-256 digest.
pub struct Sri {
    sha256: [u8; 32],
}

/// The character of a 6-bit value in the standard Base64 alphabet: `A`-`Z`, `a`-`z`, `0`-`9`,
/// `+`, `/`.
pub open spec fn base64_char(v: int) -> char {
    if v < 26 {
        (65 + v) as char
    } else if v < 52 {
        (97 + (v - 26)) as char
    } else if v < 62 {
        (48 + (v - 52)) as char
    } else if v == 62 {
        '+'
    } else {
        '/'
    }
}

/// The standard Base64 encoding of `bytes` with padding (RFC 4648, section 4): each group of three
/// bytes becomes four characters; a last group of one or two bytes becomes two or three
/// characters and `=` padding up to four.
pub open spec fn base64_standard(bytes: Seq<u8>) -> Seq<char>
    decreases bytes.len(),
{
    if bytes.len() == 0 {
        seq![]
    } else if bytes.len() == 1 {
        let b0 = bytes[0] as int;
        seq![base64_char(b0 / 4), base64_char((b0 % 4) * 16), '=', '=']
    } else if bytes.len() == 2 {
        let b0 = bytes[0] as int;
        let b1 = bytes[1] as int;
        seq![base64_char(b0 / 4), base64_char((b0 % 4) * 16 + b1 / 16), base64_char((b1 % 16) * 4), '=']
    } else {
        let b0 = bytes[0] as int;
        let b1 = bytes[1] as int;
        let b2 = bytes[2] as int;
        seq![
            base64_char(b0 / 4),
            base64_char((b0 % 4) * 16 + b1 / 16),
            base64_char((b1 % 16) * 4 + b2 / 64),
            base64_char(b2 % 64),
        ] + base64_standard(bytes.skip(3))
    }
}

/// The standard Base64 encoding of `bytes`, with padding.
/// Calls `Engine::encode` of the `base64` crate on `base64::prelude::BASE64_STANDARD` (the standard
/// alphabet, padded), whose result is the encoding that `base64_standard` states. The bound on the
/// length keeps the crate's size computation, which panics on overflow, in range.
#[verifier::external_body]
fn base64_encode(bytes: &[u8]) -> (r: String)
    requires
        bytes@.len() <= usize::MAX / 2,
    ensures
        r@ == base64_standard(bytes@),
{
    base64::prelude::BASE64_STANDARD.encode(bytes)
}

/// What SHA-256 (FIPS 180-4) makes of some bytes: a digest of 32 bytes.
pub uninterp spec fn sha256_of(data: Seq<u8>) -> Seq<u8>;

/// The SHA-256 digest of `data`.
/// Calls `Digest::digest` of the `sha2` crate on `Sha256`, whose result is a function of the data
/// alone; it is named by `sha256_of`, and nothing more of it is stated.
#[verifier::external_body]
fn sha256_digest(data: &[u8]) -> (r: [u8; 32])
    ensures
        r@ == sha256_of(data@),
{
    sha2::Sha256::digest(data).into()
}

impl Sri {
    /// The hash with the given digest.
    pub fn new(sha256: [u8; 32]) -> (r: Self)
        ensures
            r.digest() == sha256@,
    {
        Sri { sha256 }
    }

    /// The hash of `data`.
    pub fn of_bytes(data: &[u8]) -> (r: Self)
        ensures
            r.digest() == sha256_of(data@),
    {
        Sri { sha256: sha256_digest(data) }
    }

    /// The digest.
    pub closed spec fn digest(self) -> Seq<u8> {
        self.sha256@
    }

    /// The digest's bytes.
    pub fn digest_bytes(&self) -> (r: [u8; 32])
        ensures
            r@ == self.digest(),
    {
        self.sha256
    }

    /// The text of the hash: `sha-` and the standard Base64 encoding of the digest.
    pub fn to_text(&self) -> (r: String)
        ensures
            r@ == "sha-"@ + base64_standard(self.digest()),
    {
        let mut r = String::from_str("sha-");
        let enc = base64_encode(self.sha256.as_slice());
        r.append(enc.as_str());
        r
    }
}

/// What a target builds.
#[derive(Clone, Debug, Eq, PartialEq, Hash)]
pub enum TargetKind {
    Lib,
    DunePackage,
}

/// A target of a package: its name, its kind and its sources.
#[derive(Clone, Debug, Eq, PartialEq, Hash)]
pub struct Target<M: Mode> {
    pub name: String,
    pub kind: TargetKind,
    pub sources: Vec<M::Source>,
}

/// The known packages, each with its location.
#[derive(Clone, Debug)]
pub struct PackageRepo {
    map: HashMap<PackageName, ::url::Url>,
}

} // verus!
