//! Complete verification of a serving object: its directory and its decoded payloads are
//! digested in order, and every stored summary is held against a recomputed one.
use vstd::prelude::*;

use crate::bytes::{le_bytes, put_u64};
use crate::codec::{blake3_of, hex_of, to_hex};
use crate::error::Error;
use crate::skv_compile::stored_state;
use crate::skv_directory::{page_refusal, state_of, summary_of, validate_page, SummaryBits};
use crate::skv_header::{Header, RECORD, RECORDS_PER_PAGE};
use crate::skv_reader::DIRECTORY_RANGE_PAGES;
use crate::text::same;

verus! {

/// A BLAKE3 digest under way.
#[verifier::external_type_specification]
#[verifier::external_body]
pub struct ExHasher(blake3::Hasher);

/// The bytes that a digest under way has taken in.
pub uninterp spec fn taken_in(hasher: blake3::Hasher) -> Seq<u8>;

/// `blake3::Hasher::new`: a digest that has taken in nothing.
#[verifier::external_body]
fn hasher_new() -> (r: blake3::Hasher)
    ensures
        taken_in(r) == Seq::<u8>::empty(),
{
    blake3::Hasher::new()
}

/// `blake3::Hasher::update`: the bytes are taken in behind those before.
#[verifier::external_body]
fn hasher_update(hasher: &mut blake3::Hasher, bytes: &[u8])
    ensures
        taken_in(*final(hasher)) == taken_in(*old(hasher)) + bytes@,
{
    hasher.update(bytes);
}

/// `blake3::Hasher::finalize`: the digest of all bytes taken in, the same that hashing them
/// at once gives.
#[verifier::external_body]
fn hasher_finish(hasher: &blake3::Hasher) -> (r: Vec<u8>)
    ensures
        r@ == blake3_of(taken_in(*hasher)),
{
    hasher.finalize().as_bytes().to_vec()
}

/// An audit of one object.
pub struct Audit {
    directory: blake3::Hasher,
    logical: blake3::Hasher,
    next_page: usize,
    states: usize,
}

impl Audit {
    /// The bytes of the directory that were taken in.
    pub closed spec fn pages_taken(&self) -> Seq<u8> {
        taken_in(self.directory)
    }

    /// The numbers and payloads that were taken in.
    pub closed spec fn payloads_taken(&self) -> Seq<u8> {
        taken_in(self.logical)
    }

    /// How many pages of the directory were taken in.
    pub closed spec fn pages(&self) -> int {
        self.next_page as int
    }

    /// How many summaries were held against recomputed ones.
    pub closed spec fn checked(&self) -> int {
        self.states as int
    }

    /// The number of the directory page that is taken in next.
    pub fn next_page(&self) -> (r: usize)
        ensures
            r == self.pages(),
    {
        self.next_page
    }

    /// How many summaries were held against recomputed ones.
    pub fn verified_states(&self) -> (r: usize)
        ensures
            r == self.checked(),
    {
        self.states
    }

    /// Both audits have taken in the same.
    pub open spec fn same_digests(&self, other: &Audit) -> bool {
        self.pages_taken() == other.pages_taken() && self.payloads_taken()
            == other.payloads_taken()
    }

    pub fn new() -> (r: Audit)
        ensures
            r.pages_taken() == Seq::<u8>::empty(),
            r.payloads_taken() == Seq::<u8>::empty(),
            r.pages() == 0,
            r.checked() == 0,
    {
        Audit { directory: hasher_new(), logical: hasher_new(), next_page: 0, states: 0 }
    }

    /// Take in the next page of the directory.
    pub fn page(&mut self, records: usize, page: &[u8]) -> (r: Result<(), Error>)
        requires
            old(self).pages() * RECORDS_PER_PAGE < records,
        ensures
            match page_refusal(records as int, old(self).pages(), page@) {
                Some(e) => {
                    &&& r == Err::<(), Error>(e)
                    &&& *final(self) == *old(self)
                },
                None => {
                    &&& r is Ok
                    &&& final(self).pages_taken() == old(self).pages_taken() + page@
                    &&& final(self).payloads_taken() == old(self).payloads_taken()
                    &&& final(self).pages() == old(self).pages() + 1
                    &&& final(self).checked() == old(self).checked()
                },
            },
    {
        validate_page(records, self.next_page, page)?;
        hasher_update(&mut self.directory, page);
        self.next_page = self.next_page + 1;
        Ok(())
    }

    /// The digest of the directory pages that were taken in.
    pub fn directory_digest(&self) -> (r: String)
        ensures
            r@ == hex_of(blake3_of(self.pages_taken())),
    {
        to_hex(hasher_finish(&self.directory).as_slice())
    }

    /// Hold the directory against the digest that the header declares.
    pub fn directory_matches(&self, header: &Header) -> (r: Result<(), Error>)
        ensures
            r == (if hex_of(blake3_of(self.pages_taken())) == header.directory_digest@ {
                Ok::<(), Error>(())
            } else {
                Err(Error::AuditDirectory)
            }),
    {
        let digest: String = self.directory_digest();
        if same(digest.as_str(), header.directory_digest.as_str()) {
            Ok(())
        } else {
            Err(Error::AuditDirectory)
        }
    }

    /// Take in the decoded samples and masks of a leaf record, under its number.
    pub fn payload(&mut self, id: usize, decoded: &[u8])
        ensures
            final(self).payloads_taken() == old(self).payloads_taken() + le_bytes(id as nat, 8)
                + decoded@,
            final(self).pages_taken() == old(self).pages_taken(),
            final(self).pages() == old(self).pages(),
            final(self).checked() == old(self).checked(),
    {
        let mut number: Vec<u8> = vec![0; 8];
        put_u64(number.as_mut_slice(), 0, id as u64);
        assert(number@ =~= le_bytes(id as nat, 8));
        hasher_update(&mut self.logical, number.as_slice());
        hasher_update(&mut self.logical, decoded);
    }

    /// The digest of all payloads, held against the one that the header declares where that
    /// is asked for.
    pub fn logical_digest(&self, header: &Header, check: bool) -> (r: Result<String, Error>)
        ensures
            ({
                let digest = hex_of(blake3_of(self.payloads_taken()));
                if check && digest != header.logical_digest@ {
                    r is Err && r->Err_0 == Error::AuditLogical
                } else {
                    r matches Ok(text) && text@ == digest
                }
            }),
    {
        let digest = to_hex(hasher_finish(&self.logical).as_slice());
        if check && !same(digest.as_str(), header.logical_digest.as_str()) {
            return Err(Error::AuditLogical);
        }
        Ok(digest)
    }

    /// Hold a stored summary against what was recomputed from the samples or the children.
    pub fn summary(&mut self, record: &[u8], computed: Option<SummaryBits>) -> (r: Result<
        (),
        Error,
    >)
        requires
            record@.len() == RECORD,
            old(self).checked() < usize::MAX,
        ensures
            match summary_of(record@) {
                None => r is Ok && *final(self) == *old(self),
                Some(stored) => match computed {
                    None => r == Err::<(), Error>(Error::AuditRecompute) && *final(self) == *old(self),
                    Some(bits) => if stored_state(bits) == stored {
                        &&& r is Ok
                        &&& final(self).checked() == old(self).checked() + 1
                        &&& final(self).pages() == old(self).pages()
                        &&& final(self).same_digests(old(self))
                    } else {
                        &&& r == Err::<(), Error>(Error::AuditSummary)
                        &&& *final(self) == *old(self)
                    },
                },
            },
    {
        let stored = match state_of(record) {
            Some(stored) => stored,
            None => return Ok(()),
        };
        let bits = match computed {
            Some(bits) => bits,
            None => return Err(Error::AuditRecompute),
        };
        let min: u64 = if bits.count == 0 {
            0
        } else {
            bits.min
        };
        let max: u64 = if bits.count == 0 {
            0
        } else {
            bits.max
        };
        if !(stored.sum_high == bits.sum_high && stored.sum_low == bits.sum_low && stored.count
            == bits.count && stored.min == min && stored.max == max) {
            return Err(Error::AuditSummary);
        }
        self.states = self.states + 1;
        Ok(())
    }
}

/// Whether a packet must be read for a record: it is the first of its group, or another group
/// was read last.
pub fn needs_packet(header: &Header, id: usize, held: Option<usize>) -> (r: bool)
    requires
        header.shaped(),
    ensures
        r == (held is None || held->0 != header.canonical(id as int).0),
{
    match header.canonical_group(id) {
        Ok(g) => match held {
            Some(leader) => leader != g.0,
            None => true,
        },
        Err(_) => true,
    }
}

/// The reads that a complete local verification may make. Each record can read itself, its
/// canonical group leader, and four children, each possibly resolving a leader: ten descriptor
/// calls, each loading at most a range of pages, and its payload.
pub open spec fn audit_limit(header: &Header, reads: int, prior: int) -> int {
    let limit = reads + header.record_count() * (10 * DIRECTORY_RANGE_PAGES + 1)
        + header.page_count();
    if limit > prior {
        limit
    } else {
        prior
    }
}

/// The read limit of a complete verification. A remote object keeps its ordinary limit.
pub fn verification_limit(header: &Header, local: bool, reads: usize, prior: usize) -> (r: Result<
    usize,
    Error,
>)
    requires
        header.shaped(),
    ensures
        if !local {
            r == Ok::<usize, Error>(prior)
        } else if reads + header.record_count() * (10 * DIRECTORY_RANGE_PAGES + 1)
            + header.page_count() > usize::MAX {
            r is Err && r->Err_0 == Error::AuditBudget
        } else {
            r matches Ok(limit) && limit == audit_limit(header, reads as int, prior as int)
        },
{
    if !local {
        return Ok(prior);
    }
    let records: usize = header.records();
    let pages: usize = header.pages();
    let extra: usize = match records.checked_mul(10 * DIRECTORY_RANGE_PAGES + 1) {
        Some(calls) => match calls.checked_add(pages) {
            Some(extra) => extra,
            None => return Err(Error::AuditBudget),
        },
        None => return Err(Error::AuditBudget),
    };
    match reads.checked_add(extra) {
        None => Err(Error::AuditBudget),
        Some(limit) => Ok(
            if limit > prior {
                limit
            } else {
                prior
            },
        ),
    }
}

} // verus!
