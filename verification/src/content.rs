//! Content that is digested piece by piece, and what tells a file from a later one at its path.
use sha2::Digest;
use vstd::prelude::*;

use crate::bytes::{le_bytes, put_u64};
use crate::codec::{hex_of, sha256, sha256_of, to_hex};
use crate::error::Error;
use crate::source::ContentIdentity;
use crate::skv_source::lowered;
use crate::source_open::check_scan;
use crate::text::utf8;

verus! {

/// A SHA-256 digest under way. `sha2::Sha256` stands for a generic type over numbers at type
/// level that Verus does not take, so the state is held out of its sight.
#[verifier::external_body]
pub struct ContentDigest {
    state: sha2::Sha256,
}

/// The bytes that a digest under way has taken in.
pub uninterp spec fn digested(digest: ContentDigest) -> Seq<u8>;

/// `sha2::Sha256::new`: a digest that has taken in nothing.
#[verifier::external_body]
fn digest_new() -> (r: ContentDigest)
    ensures
        digested(r) == Seq::<u8>::empty(),
{
    ContentDigest { state: sha2::Sha256::new() }
}

/// `sha2::Digest::update`: the bytes are taken in behind those before.
#[verifier::external_body]
fn digest_update(digest: &mut ContentDigest, bytes: &[u8])
    ensures
        digested(*final(digest)) == digested(*old(digest)) + bytes@,
{
    digest.state.update(bytes);
}

/// `sha2::Digest::finalize`: the 32 bytes of the digest of all bytes taken in, the same that
/// digesting them at once gives.
#[verifier::external_body]
fn digest_finish(digest: ContentDigest) -> (r: Vec<u8>)
    ensures
        r@ == sha256_of(digested(digest)),
        r@.len() == 32,
{
    digest.state.finalize().to_vec()
}

/// A scan of the whole content of a file or a remote object.
pub struct ContentScan {
    digest: ContentDigest,
    scanned: u64,
}

impl View for ContentScan {
    type V = Seq<u8>;

    /// The bytes that were scanned.
    closed spec fn view(&self) -> Seq<u8> {
        digested(self.digest)
    }
}

impl ContentScan {
    pub closed spec fn wf(&self) -> bool {
        self.scanned == digested(self.digest).len()
    }

    pub fn new() -> (r: ContentScan)
        ensures
            r.wf(),
            r@ == Seq::<u8>::empty(),
    {
        ContentScan { digest: digest_new(), scanned: 0 }
    }

    /// Take in the next bytes of the content.
    pub fn take(&mut self, bytes: &[u8])
        requires
            old(self).wf(),
            old(self)@.len() + bytes@.len() <= u64::MAX,
        ensures
            final(self).wf(),
            final(self)@ == old(self)@ + bytes@,
    {
        digest_update(&mut self.digest, bytes);
        self.scanned = self.scanned + bytes.len() as u64;
    }

    /// How many bytes were scanned.
    pub fn scanned(&self) -> (r: u64)
        requires
            self.wf(),
        ensures
            r == self@.len(),
    {
        self.scanned
    }

    /// The digest of what was scanned, in hexadecimal.
    pub fn sha256(self) -> (r: String)
        ensures
            r@ == hex_of(sha256_of(self@)),
            r@.len() == 64,
    {
        to_hex(digest_finish(self.digest).as_slice())
    }

    /// Hold what was scanned against a declared identity, and a local file against its
    /// fingerprint before the scan.
    pub fn check(self, identity: &ContentIdentity, remote: bool, unchanged: bool) -> (r: Result<
        (),
        Error,
    >)
        ensures
            r == (if !lowered(utf8(hex_of(sha256_of(self@))), utf8(identity.sha256@)) {
                Err::<(), Error>(
                    if remote {
                        Error::RemoteDigest
                    } else {
                        Error::LocalDigest
                    },
                )
            } else if !remote && !unchanged {
                Err(Error::SourceChanged)
            } else {
                Ok(())
            }),
    {
        let computed: String = self.sha256();
        check_scan(computed.as_str(), identity, remote, unchanged)
    }

    /// Hold the whole content of a serving object against its declared digest.
    pub fn check_object(self, identity: &ContentIdentity) -> (r: Result<(), Error>)
        ensures
            r == (if lowered(utf8(hex_of(sha256_of(self@))), utf8(identity.sha256@)) {
                Ok::<(), Error>(())
            } else {
                Err(Error::SkvContent)
            }),
    {
        let computed: String = self.sha256();
        match check_scan(computed.as_str(), identity, true, true) {
            Ok(_) => Ok(()),
            Err(_) => Err(Error::SkvContent),
        }
    }
}

/// A signed number as the unsigned one of the same eight bytes.
pub open spec fn twos(value: i64) -> nat {
    if value >= 0 {
        value as nat
    } else {
        (value + 0x1_0000_0000_0000_0000) as nat
    }
}

/// What a file's signature digests: its path, its length, when it was modified, and where and
/// when the file system changed it.
pub open spec fn signature_bytes(
    path: Seq<u8>,
    length: u64,
    modified: Seq<char>,
    dev: u64,
    ino: u64,
    ctime: i64,
    ctime_nsec: i64,
) -> Seq<u8> {
    path + le_bytes(length as nat, 8) + utf8(modified) + le_bytes(dev as nat, 8) + le_bytes(
        ino as nat,
        8,
    ) + le_bytes(twos(ctime), 8) + le_bytes(twos(ctime_nsec), 8)
}

fn put_number(bytes: &mut Vec<u8>, value: u64)
    ensures
        final(bytes)@ == old(bytes)@ + le_bytes(value as nat, 8),
{
    let ghost before = bytes@;
    let mut eight: [u8; 8] = [0, 0, 0, 0, 0, 0, 0, 0];
    put_u64(&mut eight, 0, value);
    assert(eight@.subrange(0, 8) =~= eight@);
    let mut i: usize = 0;
    while i < 8
        invariant
            i <= 8,
            eight@ == le_bytes(value as nat, 8),
            eight@.len() == 8,
            bytes@ == before + eight@.take(i as int),
        decreases 8 - i,
    {
        bytes.push(eight[i]);
        assert(bytes@ =~= before + eight@.take(i + 1));
        i += 1;
    }
    assert(eight@.take(8) =~= eight@);
}

fn unsigned(value: i64) -> (r: u64)
    ensures
        r == twos(value),
{
    if value >= 0 {
        value as u64
    } else {
        (value as i128 + 0x1_0000_0000_0000_0000i128) as u64
    }
}

/// What tells a local file from a later one at the same path.
pub fn local_signature(
    path: &[u8],
    length: u64,
    modified: &str,
    dev: u64,
    ino: u64,
    ctime: i64,
    ctime_nsec: i64,
) -> (r: String)
    ensures
        r@ == "skv-local-stat-sha256:"@ + hex_of(
            sha256_of(signature_bytes(path@, length, modified@, dev, ino, ctime, ctime_nsec)),
        ),
{
    let mut bytes: Vec<u8> = vstd::slice::slice_to_vec(path);
    put_number(&mut bytes, length);
    bytes.extend_from_slice(modified.as_bytes());
    put_number(&mut bytes, dev);
    put_number(&mut bytes, ino);
    put_number(&mut bytes, unsigned(ctime));
    put_number(&mut bytes, unsigned(ctime_nsec));
    assert(bytes@ =~= signature_bytes(path@, length, modified@, dev, ino, ctime, ctime_nsec));
    let mut text: String = "skv-local-stat-sha256:".to_owned();
    text.append(to_hex(sha256(bytes.as_slice()).as_slice()).as_str());
    text
}

} // verus!
