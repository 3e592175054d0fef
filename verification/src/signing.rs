//! Value types of the artifact-signing manifest format.

use vstd::prelude::*;

verus! {

/// Who produced a signature.
pub struct SignerInfo {
    pub name: String,
    pub email: Option<String>,
    pub key_id: String,
    pub public_key: String,
}

/// The checksums recorded for one signed file.
pub struct FileChecksums {
    pub sha256: String,
    pub sha512: String,
    pub blake3: String,
}

/// The signature over one file.
pub struct FileSignature {
    pub path: String,
    pub size: u64,
    pub checksums: FileChecksums,
    pub signature: String,
}

/// What a signature vouches for.
#[derive(Clone, Copy, PartialEq, Eq, Structural, Debug)]
pub enum SignaturePurpose {
    Package,
    Update,
    ISO,
    Repository,
    Certificate,
}

} // verus!
