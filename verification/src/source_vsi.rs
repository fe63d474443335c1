//! Bookkeeping of a read-only virtual file over bounded conditional range requests: which
//! names are registered, one operation at a time per source, the first failure of a source,
//! and what a positioned read asks of the transport. The transport itself is the caller's.
use vstd::prelude::*;
use vstd::string::StringExecFns;

use crate::cancel::{ended, Cancel};
use crate::digits::{decimal_is_injective, decimal_of, push_decimal};
use crate::error::Error;
use crate::layout::min_of;
use crate::model::{ceil_div, lemma_ceil_div};
use crate::text::same;

verus! {

/// Sources that may be registered at a time.
pub const MAX_SOURCES: usize = 128;

/// The largest read that a decoder may ask for.
pub const MAX_DECODER_READ: usize = 268435456;

/// Ranges that are prepared together.
pub const PREPARED_RANGES: usize = 128;

/// Ranges in one request.
pub const MAX_RANGES: usize = 4096;

/// What stopped an operation on a remote source.
#[derive(Debug)]
pub enum RemoteError {
    /// The library refused it.
    Refused(Error),
    /// The source failed before, with this message.
    Failed(String),
    /// The transport refused it, with this message.
    Transport(String),
}

/// The name of the source with this number, below the registered prefix.
pub open spec fn name_of(number: u64) -> Seq<char> {
    decimal_of(number as nat) + ".tif"@
}

/// The complete path of the source with this number.
pub open spec fn path_of(number: u64) -> Seq<char> {
    "/vsiskarve/"@ + name_of(number)
}

/// Sources with the same path have the same number.
pub proof fn paths_are_distinct(a: u64, b: u64)
    requires
        path_of(a) == path_of(b),
    ensures
        a == b,
{
    let p = "/vsiskarve/"@.len();
    assert(path_of(a).skip(p as int) =~= name_of(a));
    assert(path_of(b).skip(p as int) =~= name_of(b));
    lemma_names_distinct(a, b);
}

proof fn lemma_names_distinct(a: u64, b: u64)
    requires
        name_of(a) == name_of(b),
    ensures
        a == b,
{
    let n = name_of(a).len() - ".tif"@.len();
    assert(name_of(a).take(n) =~= decimal_of(a as nat));
    assert(name_of(b).take(n) =~= decimal_of(b as nat));
    decimal_is_injective(a as nat, b as nat);
}

fn name(number: u64) -> (r: String)
    ensures
        r@ == name_of(number),
{
    let mut text: String = String::new();
    push_decimal(&mut text, number);
    text.append(".tif");
    assert(text@ =~= name_of(number));
    text
}

fn path(number: u64) -> (r: String)
    ensures
        r@ == path_of(number),
{
    let mut text: String = "/vsiskarve/".to_owned();
    let tail = name(number);
    text.append(tail.as_str());
    assert(text@ =~= path_of(number));
    text
}

/// The numbers of the registered sources, and the number that the next one gets.
pub struct Registry {
    pub next: u64,
    pub numbers: Vec<u64>,
    /// Every number that was used up, in order.
    pub issued: Ghost<Seq<u64>>,
}

impl Registry {
    /// No number is registered twice, and no more sources than may be are. Each number was used
    /// up before, and until all are, the next one is the one after them.
    pub open spec fn valid(&self) -> bool {
        &&& self.numbers@.no_duplicates()
        &&& self.numbers@.len() <= MAX_SOURCES
        &&& forall|i: int|
            0 <= i < self.numbers@.len() ==> self.issued@.contains(#[trigger] self.numbers@[i])
        &&& forall|i: int|
            0 <= i < self.issued@.len() && i < u64::MAX ==> #[trigger] self.issued@[i] == i + 1
        &&& self.issued@.len() < u64::MAX ==> self.next == self.issued@.len() + 1
    }

    pub fn new() -> (r: Self)
        ensures
            r.valid(),
            r.numbers@.len() == 0,
            r.next == 1,
            r.issued@.len() == 0,
    {
        Registry { next: 1, numbers: Vec::new(), issued: Ghost(Seq::empty()) }
    }

    fn position(&self, number: u64) -> (r: Option<usize>)
        ensures
            match r {
                Some(i) => i < self.numbers@.len() && self.numbers@[i as int] == number,
                None => !self.numbers@.contains(number),
            },
    {
        let mut i: usize = 0;
        while i < self.numbers.len()
            invariant
                i <= self.numbers@.len(),
                forall|k: int| 0 <= k < i ==> self.numbers@[k] != number,
            decreases self.numbers@.len() - i,
        {
            if self.numbers[i] == number {
                return Some(i);
            }
            i += 1;
        }
        None
    }

    /// Take a number. One is used up even where the registry is full.
    pub fn register(&mut self) -> (r: Result<u64, Error>)
        requires
            old(self).valid(),
        ensures
            final(self).valid(),
            final(self).next == if old(self).next == u64::MAX {
                0u64
            } else {
                (old(self).next + 1) as u64
            },
            final(self).issued@ == old(self).issued@.push(old(self).next),
            if old(self).numbers@.len() < MAX_SOURCES {
                &&& r == Ok::<u64, Error>(old(self).next)
                &&& forall|n: u64|
                    final(self).numbers@.contains(n) <==> n == old(self).next || old(self).numbers@.contains(n)
            } else {
                &&& r == Err::<u64, Error>(Error::RemoteHandles)
                &&& final(self).numbers@ == old(self).numbers@
            },
    {
        let number: u64 = self.next;
        self.next = number.wrapping_add(1);
        self.issued = Ghost(self.issued@.push(number));
        proof {
            assert(self.issued@[old(self).issued@.len() as int] == number);
            assert forall|i: int| 0 <= i < self.numbers@.len() implies self.issued@.contains(
                #[trigger] self.numbers@[i],
            ) by {
                let n = self.numbers@[i];
                assert(old(self).issued@.contains(n));
                let k = old(self).issued@.index_of(n);
                assert(self.issued@[k] == n);
            }
        }
        if self.numbers.len() >= MAX_SOURCES {
            return Err(Error::RemoteHandles);
        }
        let ghost before = self.numbers@;
        if self.position(number).is_none() {
            self.numbers.push(number);
            proof {
                assert forall|n: u64|
                    self.numbers@.contains(n) <==> n == number || before.contains(n) by {
                    if before.contains(n) {
                        let i = before.index_of(n);
                        assert(self.numbers@[i] == n);
                    }
                    assert(self.numbers@[before.len() as int] == number);
                }
            }
        }
        Ok(number)
    }

    /// Forget a source.
    pub fn remove(&mut self, number: u64)
        requires
            old(self).valid(),
        ensures
            final(self).valid(),
            final(self).next == old(self).next,
            final(self).issued == old(self).issued,
            forall|n: u64|
                final(self).numbers@.contains(n) <==> n != number && old(self).numbers@.contains(n),
    {
        let ghost before = self.numbers@;
        if let Some(i) = self.position(number) {
            self.numbers.remove(i);
            proof {
                let after = self.numbers@;
                assert forall|n: u64|
                    after.contains(n) <==> n != number && before.contains(n) by {
                    if after.contains(n) {
                        let j = after.index_of(n);
                        assert(before[if j < i {
                            j
                        } else {
                            j + 1
                        }] == n);
                    }
                    if n != number && before.contains(n) {
                        let j = before.index_of(n);
                        assert(after[if j < i {
                            j
                        } else {
                            j - 1
                        }] == n);
                    }
                }
            }
        }
    }

    /// The source that a name below the prefix stands for.
    pub fn lookup(&self, text: &str) -> (r: Option<u64>)
        ensures
            match r {
                Some(n) => self.numbers@.contains(n) && name_of(n) == text@,
                None => forall|n: u64| #[trigger]
                    self.numbers@.contains(n) ==> name_of(n) != text@,
            },
    {
        let mut i: usize = 0;
        while i < self.numbers.len()
            invariant
                i <= self.numbers@.len(),
                forall|k: int| 0 <= k < i ==> name_of(#[trigger] self.numbers@[k]) != text@,
            decreases self.numbers@.len() - i,
        {
            let candidate = name(self.numbers[i]);
            if same(candidate.as_str(), text) {
                return Some(self.numbers[i]);
            }
            i += 1;
        }
        None
    }
}

/// The name of a registered source finds it again, and no other.
pub proof fn a_registered_name_is_found(registry: &Registry, number: u64, found: Option<u64>)
    requires
        registry.numbers@.contains(number),
        match found {
            Some(n) => registry.numbers@.contains(n) && name_of(n) == name_of(number),
            None => forall|n: u64| #[trigger]
                registry.numbers@.contains(n) ==> name_of(n) != name_of(number),
        },
    ensures
        found == Some(number),
{
    if let Some(n) = found {
        lemma_names_distinct(n, number);
    }
}

/// A new path differs from every path that was given out before, whether its source is still
/// registered or not, as long as the numbers last.
pub proof fn a_new_path_differs_from_every_earlier_one(registry: &Registry, i: int)
    requires
        registry.valid(),
        registry.issued@.len() < u64::MAX,
        0 <= i < registry.issued@.len(),
    ensures
        path_of(registry.next) != path_of(registry.issued@[i]),
{
    assert(registry.issued@[i] == i + 1);
    if path_of(registry.next) == path_of(registry.issued@[i]) {
        paths_are_distinct(registry.next, registry.issued@[i]);
    }
}

/// What a transport reports of the object that it reads: its length, its largest range, its
/// counters and its identity.
#[derive(Debug)]
pub struct Remote<M, I> {
    pub length: u64,
    pub max_range_bytes: u64,
    pub metrics: M,
    pub identity: I,
}

/// One registered remote source.
#[derive(Debug)]
pub struct Registration<M, I> {
    pub number: u64,
    pub path: String,
    pub remote: Remote<M, I>,
    pub small_read_page_bytes: usize,
    /// Whether an operation is under way.
    pub busy: bool,
    /// The first failure, which ends the use of the source.
    pub error: Option<String>,
}

/// The answer of a source that failed before, or what the transport answers when it is asked.
pub open spec fn asked<F: FnOnce() -> Result<(), String>>(
    error: Option<String>,
    call: F,
    r: Result<(), RemoteError>,
) -> bool {
    match error {
        Some(text) => r matches Err(RemoteError::Failed(e)) && e@ == text@,
        None => exists|answer: Result<(), String>|
            #![trigger call.ensures((), answer)]
            call.ensures((), answer) && match answer {
                Ok(_) => r is Ok,
                Err(e) => r == Err::<(), RemoteError>(RemoteError::Transport(e)),
            },
    }
}

impl<M, I> Registration<M, I> {
    /// Register a source under a path of its own.
    pub fn new(
        registry: &mut Registry,
        remote: Remote<M, I>,
        small_read_page_bytes: usize,
    ) -> (r: Result<Self, Error>)
        requires
            old(registry).valid(),
        ensures
            final(registry).valid(),
            final(registry).next == if old(registry).next == u64::MAX {
                0u64
            } else {
                (old(registry).next + 1) as u64
            },
            final(registry).issued@ == old(registry).issued@.push(old(registry).next),
            if old(registry).numbers@.len() < MAX_SOURCES {
                &&& r matches Ok(source)
                &&& source.number == old(registry).next
                &&& source.path@ == path_of(source.number)
                &&& source.remote == remote
                &&& source.small_read_page_bytes == small_read_page_bytes
                &&& !source.busy
                &&& source.error is None
                &&& forall|n: u64|
                    final(registry).numbers@.contains(n) <==> n == source.number || old(registry).numbers@.contains(n)
            } else {
                &&& r is Err
                &&& r->Err_0 == Error::RemoteHandles
                &&& final(registry).numbers@ == old(registry).numbers@
            },
    {
        let number: u64 = match registry.register() {
            Ok(number) => number,
            Err(e) => return Err(e),
        };
        Ok(
            Registration {
                number,
                path: path(number),
                remote,
                small_read_page_bytes,
                busy: false,
                error: None,
            },
        )
    }

    /// Begin the only operation on this source.
    pub fn operation<C: Cancel>(&mut self, cancel: &C) -> (r: Result<(), Error>)
        ensures
            ended(
                cancel,
                r,
                if old(self).busy {
                    r == Err::<(), Error>(Error::RemoteBusy)
                } else {
                    r is Ok
                },
            ),
            *final(self) == (Registration { busy: old(self).busy || r is Ok, ..*old(self) }),
    {
        if cancel.requested() {
            return Err(Error::Cancelled);
        }
        if self.busy {
            return Err(Error::RemoteBusy);
        }
        self.busy = true;
        Ok(())
    }

    /// End the operation.
    pub fn release(&mut self)
        ensures
            *final(self) == (Registration { busy: false, ..*old(self) }),
    {
        self.busy = false;
    }

    /// Record a failure. The first one stays.
    pub fn fail(&mut self, message: String)
        ensures
            *final(self) == (Registration {
                error: if old(self).error is Some {
                    old(self).error
                } else {
                    Some(message)
                },
                ..*old(self)
            }),
    {
        if self.error.is_none() {
            self.error = Some(message);
        }
    }

    /// Refuse a source that failed.
    pub fn check_error(&self) -> (r: Result<(), RemoteError>)
        ensures
            match self.error {
                Some(text) => r matches Err(RemoteError::Failed(e)) && e@ == text@,
                None => r is Ok,
            },
    {
        match &self.error {
            Some(text) => Err(RemoteError::Failed(text.clone())),
            None => Ok(()),
        }
    }

    /// What every step of an operation asks first: a stop request, then a failure before.
    pub fn check<C: Cancel>(&self, cancel: &C) -> (r: Result<(), Error>)
        ensures
            r == Err::<(), Error>(Error::Cancelled) ==> self.busy && !cancel.never(),
            self.busy && cancel.always() ==> r == Err::<(), Error>(Error::Cancelled),
            r != Err::<(), Error>(Error::Cancelled) ==> r == (if self.error is Some {
                Err::<(), Error>(Error::RemoteFailed)
            } else {
                Ok(())
            }),
    {
        if self.busy && cancel.requested() {
            return Err(Error::Cancelled);
        }
        if self.error.is_some() {
            return Err(Error::RemoteFailed);
        }
        Ok(())
    }

    /// The counters of the transport.
    pub fn metrics(&self) -> (r: &M)
        ensures
            *r == self.remote.metrics,
    {
        &self.remote.metrics
    }

    fn ask<F: FnOnce() -> Result<(), String>>(&self, call: F) -> (r: Result<(), RemoteError>)
        requires
            call.requires(()),
        ensures
            asked(self.error, call, r),
    {
        match self.check_error() {
            Ok(()) => {},
            Err(e) => return Err(e),
        }
        match call() {
            Ok(()) => Ok(()),
            Err(e) => Err(RemoteError::Transport(e)),
        }
    }

    /// Ask the transport whether the object is still the one that was opened.
    pub fn verify<F: FnOnce() -> Result<(), String>>(&self, verify_remote: F) -> (r: Result<
        (),
        RemoteError,
    >)
        requires
            verify_remote.requires(()),
        ensures
            asked(self.error, verify_remote, r),
    {
        self.ask(verify_remote)
    }

    /// Have the transport start counting a query.
    pub fn begin_query_budget<F: FnOnce() -> Result<(), String>>(&self, begin: F) -> (r: Result<
        (),
        RemoteError,
    >)
        requires
            begin.requires(()),
        ensures
            asked(self.error, begin, r),
    {
        self.ask(begin)
    }

    /// Have the transport start a query that is verified, renewing its counts or not.
    pub fn begin_verified_query<F: FnOnce(bool) -> Result<(), String>>(
        &self,
        renew: bool,
        begin: F,
    ) -> (r: Result<(), RemoteError>)
        requires
            begin.requires((renew,)),
        ensures
            match self.error {
                Some(text) => r matches Err(RemoteError::Failed(e)) && e@ == text@,
                None => exists|answer: Result<(), String>|
                    #![trigger begin.ensures((renew,), answer)]
                    begin.ensures((renew,), answer) && match answer {
                        Ok(_) => r is Ok,
                        Err(e) => r == Err::<(), RemoteError>(RemoteError::Transport(e)),
                    },
            },
    {
        match self.check_error() {
            Ok(()) => {},
            Err(e) => return Err(e),
        }
        match begin(renew) {
            Ok(()) => Ok(()),
            Err(e) => Err(RemoteError::Transport(e)),
        }
    }

    /// Have the transport end a query that is verified.
    pub fn end_verified_query<F: FnOnce() -> Result<(), String>>(&self, end: F) -> (r: Result<
        (),
        RemoteError,
    >)
        requires
            end.requires(()),
        ensures
            asked(self.error, end, r),
    {
        self.ask(end)
    }

    /// The identity under which the object was registered.
    pub fn registered_identity(&self) -> (r: &I)
        ensures
            *r == self.remote.identity,
    {
        &self.remote.identity
    }

    /// The largest range that the transport reads at once.
    pub fn range_bound(&self) -> (r: usize)
        requires
            self.remote.max_range_bytes <= usize::MAX,
        ensures
            r == self.remote.max_range_bytes,
    {
        self.remote.max_range_bytes as usize
    }
}

/// Where an open virtual file stands.
#[derive(Clone, Copy, Debug, PartialEq, Eq, Structural)]
pub struct Handle {
    pub position: u64,
    pub eof: bool,
}

/// From where an offset of a move counts.
#[derive(Clone, Copy, Debug, PartialEq, Eq, Structural)]
pub enum Whence {
    Start,
    Current,
    End,
}

/// Where a move of `offset` leads to. Counted from the start an offset is unsigned, else it
/// is the 64-bit two's complement number with its bits.
pub open spec fn target_of(handle: Handle, offset: u64, whence: Whence, length: u64) -> int {
    let signed = if offset < 0x8000_0000_0000_0000 {
        offset as int
    } else {
        offset - 0x1_0000_0000_0000_0000
    };
    match whence {
        Whence::Start => offset as int,
        Whence::Current => handle.position + signed,
        Whence::End => length + signed,
    }
}

/// The move that a numbered origin stands for.
pub fn whence_of(value: i32) -> (r: Option<Whence>)
    ensures
        r == (if value == 0 {
            Some(Whence::Start)
        } else if value == 1 {
            Some(Whence::Current)
        } else if value == 2 {
            Some(Whence::End)
        } else {
            None
        }),
{
    match value {
        0 => Some(Whence::Start),
        1 => Some(Whence::Current),
        2 => Some(Whence::End),
        _ => None,
    }
}

/// Whether a file may be opened this way: only for reading.
pub fn readable_mode(mode: &[u8]) -> (r: bool)
    ensures
        r == (mode@ == seq![114u8] || mode@ == seq![114u8, 98u8]),
{
    let n: usize = mode.len();
    if n == 1 {
        assert(mode@ =~= seq![114u8] <==> mode@[0] == 114);
        mode[0] == 114
    } else if n == 2 {
        assert(mode@ =~= seq![114u8, 98u8] <==> mode@[0] == 114 && mode@[1] == 98);
        mode[0] == 114 && mode[1] == 98
    } else {
        false
    }
}

impl Handle {
    /// A file that was just opened.
    pub fn open() -> (r: Self)
        ensures
            r == (Handle { position: 0, eof: false }),
    {
        Handle { position: 0, eof: false }
    }

    /// Move within the file. A move outside of it changes nothing.
    pub fn seek(&mut self, offset: u64, whence: Whence, length: u64) -> (r: bool)
        ensures
            r == (0 <= target_of(*old(self), offset, whence, length) <= length),
            *final(self) == (if r {
                Handle {
                    position: target_of(*old(self), offset, whence, length) as u64,
                    eof: false,
                }
            } else {
                *old(self)
            }),
    {
        let base: u64 = match whence {
            Whence::Start => 0,
            Whence::Current => self.position,
            Whence::End => length,
        };
        let next: u64 = if offset < 0x8000_0000_0000_0000 || whence == Whence::Start {
            match base.checked_add(offset) {
                Some(next) => next,
                None => return false,
            }
        } else {
            let back: u64 = u64::MAX - offset + 1;
            if back > base {
                return false;
            }
            base - back
        };
        if next > length {
            return false;
        }
        self.position = next;
        self.eof = false;
        true
    }

    /// Account for a read that gave `read` of the `wanted` bytes, in items of `size` bytes.
    pub fn advance(&mut self, read: usize, wanted: usize, size: usize) -> (r: usize)
        requires
            read <= wanted,
            size > 0,
            old(self).position + read <= u64::MAX,
        ensures
            *final(self) == (Handle {
                position: (old(self).position + read) as u64,
                eof: read < wanted,
            }),
            r == read as int / size as int,
    {
        self.position = self.position + read as u64;
        self.eof = read < wanted;
        read / size
    }
}

/// How many bytes `count` items of `size` bytes are, where a decoder may ask for them.
pub fn decoder_bytes(size: usize, count: usize) -> (r: Result<usize, Error>)
    ensures
        r == (if size * count > usize::MAX {
            Err::<usize, Error>(Error::RemoteReadSize)
        } else if size * count > MAX_DECODER_READ {
            Err(Error::RemoteReadBound)
        } else {
            Ok((size * count) as usize)
        }),
{
    match size.checked_mul(count) {
        None => Err(Error::RemoteReadSize),
        Some(bytes) => if bytes > MAX_DECODER_READ {
            Err(Error::RemoteReadBound)
        } else {
            Ok(bytes)
        },
    }
}

/// How many bytes a read of `wanted` bytes at `offset` gives.
pub open spec fn readable(length: u64, offset: u64, wanted: usize) -> int {
    if wanted <= length - offset {
        wanted as int
    } else {
        length - offset
    }
}

/// The `i`-th range of a read, where each holds at most `max_range` bytes.
pub open spec fn piece(offset: u64, bytes: int, max_range: u64, i: int) -> (u64, u64) {
    let begin = i * max_range;
    (
        (offset + begin) as u64,
        if bytes - begin < max_range {
            (bytes - begin) as u64
        } else {
            max_range
        },
    )
}

/// The ranges that a read of `wanted` bytes at `offset` asks for: side by side, in order,
/// each but the last as large as a range may be.
pub fn read_ranges(length: u64, offset: u64, wanted: usize, max_range: u64) -> (r: Result<
    Vec<(u64, u64)>,
    Error,
>)
    requires
        max_range > 0,
    ensures
        if offset > length {
            r is Err && r->Err_0 == Error::RemoteOffset
        } else {
            let bytes = readable(length, offset, wanted);
            &&& r matches Ok(ranges)
            &&& ranges@.len() == ceil_div(bytes, max_range as int)
            &&& forall|i: int|
                0 <= i < ranges@.len() ==> #[trigger] ranges@[i] == piece(
                    offset,
                    bytes,
                    max_range,
                    i,
                )
        },
{
    if offset > length {
        return Err(Error::RemoteOffset);
    }
    let rest: u64 = length - offset;
    let bytes: u64 = if wanted as u64 <= rest {
        wanted as u64
    } else {
        rest
    };
    let mut ranges: Vec<(u64, u64)> = Vec::new();
    let mut begin: u64 = 0;
    proof {
        assert(0 * (max_range as int) == 0) by (nonlinear_arith);
        lemma_ceil_div(bytes as int, max_range as int);
    }
    while begin < bytes
        invariant
            max_range > 0,
            bytes <= length - offset,
            bytes == readable(length, offset, wanted),
            begin == min_of(ranges@.len() * max_range, bytes as int),
            begin == bytes ==> ranges@.len() == ceil_div(bytes as int, max_range as int),
            begin < bytes ==> begin == ranges@.len() * max_range,
            forall|i: int|
                0 <= i < ranges@.len() ==> #[trigger] ranges@[i] == piece(
                    offset,
                    bytes as int,
                    max_range,
                    i,
                ),
        decreases bytes - begin,
    {
        let n: u64 = if bytes - begin < max_range {
            bytes - begin
        } else {
            max_range
        };
        let ghost k = ranges@.len() as int;
        ranges.push((offset + begin, n));
        proof {
            assert((k + 1) * max_range == k * max_range + max_range) by (nonlinear_arith);
            if begin + n == bytes {
                lemma_ceil_at(bytes as int, max_range as int, k + 1);
            }
        }
        begin = begin + n;
    }
    Ok(ranges)
}

proof fn lemma_ceil_at(a: int, b: int, k: int)
    requires
        b > 0,
        k >= 1,
        (k - 1) * b < a <= k * b,
    ensures
        ceil_div(a, b) == k,
{
    let q = ceil_div(a, b);
    lemma_ceil_div(a, b);
    assert(q == k) by (nonlinear_arith)
        requires
            b > 0,
            (k - 1) * b < a <= k * b,
            (q - 1) * b < a <= q * b,
    ;
}

/// One range begins before another, or as early and is shorter.
pub open spec fn before(a: (u64, u64), b: (u64, u64)) -> bool {
    a.0 < b.0 || a.0 == b.0 && a.1 < b.1
}

/// Each range comes before the ones behind it.
pub open spec fn ascending(demands: Seq<(u64, u64)>) -> bool {
    forall|i: int, j: int| 0 <= i < j < demands.len() ==> before(demands[i], demands[j])
}

/// `demands` holds the ranges of `ranges` in order, each once.
pub open spec fn arranged(demands: Seq<(u64, u64)>, ranges: Seq<(u64, u64)>) -> bool {
    &&& ascending(demands)
    &&& forall|d: (u64, u64)| #[trigger] demands.contains(d) <==> ranges.contains(d)
}

/// No range reaches into the next one.
pub open spec fn spaced(demands: Seq<(u64, u64)>) -> bool {
    forall|i: int| 0 <= i < demands.len() - 1 ==> #[trigger] apart(demands, i)
}

/// Range `i` ends where the next one begins, or before.
pub open spec fn apart(demands: Seq<(u64, u64)>, i: int) -> bool {
    demands[i].0 + demands[i].1 <= demands[i + 1].0
}

/// A range that a transport would not read at once.
pub open spec fn unfit(range: (u64, u64), max_range: u64) -> bool {
    range.1 == 0 || range.1 > max_range
}

/// There is one order of the ranges.
pub proof fn an_arrangement_is_unique(
    a: Seq<(u64, u64)>,
    b: Seq<(u64, u64)>,
    ranges: Seq<(u64, u64)>,
)
    requires
        arranged(a, ranges),
        arranged(b, ranges),
    ensures
        a == b,
{
    lemma_same_members(a, b);
}

proof fn lemma_same_members(a: Seq<(u64, u64)>, b: Seq<(u64, u64)>)
    requires
        ascending(a),
        ascending(b),
        forall|d: (u64, u64)| #[trigger] a.contains(d) <==> b.contains(d),
    ensures
        a == b,
    decreases a.len(),
{
    if a.len() == 0 {
        if b.len() > 0 {
            assert(b.contains(b[0]));
            assert(a.contains(b[0]));
        }
        assert(a =~= b);
    } else {
        assert(a.contains(a.last()));
        assert(b.contains(a.last()));
        let j = b.index_of(a.last());
        assert(b.contains(b.last()));
        assert(a.contains(b.last()));
        let i = a.index_of(b.last());
        assert(a.last() == b.last()) by {
            if j < b.len() - 1 {
                assert(before(b[j], b.last()));
                if i < a.len() - 1 {
                    assert(before(a[i], a.last()));
                }
            }
        }
        let c = a.drop_last();
        let e = b.drop_last();
        assert forall|d: (u64, u64)| #[trigger] c.contains(d) <==> e.contains(d) by {
            if c.contains(d) {
                let k = c.index_of(d);
                assert(a[k] == d);
                assert(before(d, a.last()));
                assert(a.contains(d));
                let m = b.index_of(d);
                assert(m < b.len() - 1);
                assert(e[m] == d);
            }
            if e.contains(d) {
                let k = e.index_of(d);
                assert(b[k] == d);
                assert(before(d, b.last()));
                assert(b.contains(d));
                assert(a.contains(d));
                let m = a.index_of(d);
                assert(m < a.len() - 1);
                assert(c[m] == d);
            }
        }
        lemma_same_members(c, e);
        assert(a =~= c.push(a.last()));
        assert(b =~= e.push(b.last()));
    }
}

/// Put a range in its place, unless it is there.
fn insert_demand(demands: &mut Vec<(u64, u64)>, range: (u64, u64))
    requires
        ascending(old(demands)@),
    ensures
        ascending(final(demands)@),
        forall|d: (u64, u64)| #[trigger]
            final(demands)@.contains(d) <==> d == range || old(demands)@.contains(d),
{
    let ghost before_it = demands@;
    let mut at: usize = 0;
    while at < demands.len() && (demands[at].0 < range.0 || demands[at].0 == range.0
        && demands[at].1 < range.1)
        invariant
            at <= demands@.len(),
            demands@ == before_it,
            forall|k: int| 0 <= k < at ==> before(#[trigger] demands@[k], range),
        decreases demands@.len() - at,
    {
        at += 1;
    }
    if at < demands.len() && demands[at].0 == range.0 && demands[at].1 == range.1 {
        assert(demands@[at as int] == range);
        return ;
    }
    demands.insert(at, range);
    proof {
        let after = demands@;
        assert forall|i: int, j: int| 0 <= i < j < after.len() implies before(
            after[i],
            after[j],
        ) by {
            if at < before_it.len() {
                assert(before(range, before_it[at as int]));
            }
            if i == at && j > at + 1 {
                assert(before(before_it[at as int], before_it[j - 1]));
            }
        }
        assert forall|d: (u64, u64)| #[trigger] after.contains(d) <==> d == range
            || before_it.contains(d) by {
            if before_it.contains(d) {
                let k = before_it.index_of(d);
                assert(after[if k < at {
                    k
                } else {
                    k + 1
                }] == d);
            }
            assert(after[at as int] == range);
            if after.contains(d) && d != range {
                let k = after.index_of(d);
                assert(before_it[if k < at {
                    k
                } else {
                    k - 1
                }] == d);
            }
        }
    }
}

/// The ranges in order, each once.
pub fn arrange(ranges: &[(u64, u64)]) -> (r: Vec<(u64, u64)>)
    ensures
        arranged(r@, ranges@),
{
    let mut demands: Vec<(u64, u64)> = Vec::new();
    let mut i: usize = 0;
    while i < ranges.len()
        invariant
            i <= ranges@.len(),
            ascending(demands@),
            forall|d: (u64, u64)| #[trigger]
                demands@.contains(d) <==> ranges@.take(i as int).contains(d),
        decreases ranges@.len() - i,
    {
        let range: (u64, u64) = ranges[i];
        let ghost had = demands@;
        insert_demand(&mut demands, range);
        proof {
            let old_part = ranges@.take(i as int);
            let part = ranges@.take(i + 1);
            assert(part =~= old_part.push(range));
            assert forall|d: (u64, u64)| #[trigger] demands@.contains(d) <==> part.contains(d) by {
                if old_part.contains(d) {
                    let k = old_part.index_of(d);
                    assert(part[k] == d);
                }
                assert(part[i as int] == range);
                if part.contains(d) && d != range {
                    let k = part.index_of(d);
                    assert(old_part[k] == d);
                }
                assert(had.contains(d) <==> old_part.contains(d));
            }
        }
        i += 1;
    }
    assert(ranges@.take(ranges@.len() as int) =~= ranges@);
    demands
}

/// Whether no range reaches into the next one.
pub fn is_spaced(demands: &[(u64, u64)]) -> (r: bool)
    ensures
        r == spaced(demands@),
{
    let mut j: usize = 1;
    while j < demands.len()
        invariant
            1 <= j,
            forall|k: int|
                0 <= k < j - 1 && k < demands@.len() - 1 ==> #[trigger] apart(demands@, k),
        decreases demands@.len() - j,
    {
        let fits = match demands[j - 1].0.checked_add(demands[j - 1].1) {
            Some(end) => end <= demands[j].0,
            None => false,
        };
        if !fits {
            assert(!apart(demands@, j - 1));
            return false;
        }
        j += 1;
    }
    true
}

/// The ranges to prepare before a decoder's request is answered in its own order: none where
/// one cannot be read at once, or where two overlap.
pub fn prefetch_demands(ranges: &[(u64, u64)], max_range: u64) -> (r: Option<Vec<(u64, u64)>>)
    ensures
        match r {
            Some(demands) => {
                &&& arranged(demands@, ranges@)
                &&& spaced(demands@)
                &&& forall|i: int| 0 <= i < ranges@.len() ==> !unfit(#[trigger] ranges@[i], max_range)
            },
            None => {
                ||| exists|i: int| 0 <= i < ranges@.len() && unfit(#[trigger] ranges@[i], max_range)
                ||| exists|demands: Seq<(u64, u64)>| #[trigger]
                    arranged(demands, ranges@) && !spaced(demands)
            },
        },
{
    let mut i: usize = 0;
    while i < ranges.len()
        invariant
            i <= ranges@.len(),
            forall|k: int| 0 <= k < i ==> !unfit(#[trigger] ranges@[k], max_range),
        decreases ranges@.len() - i,
    {
        let range: (u64, u64) = ranges[i];
        if range.1 == 0 || range.1 > max_range {
            assert(unfit(ranges@[i as int], max_range));
            return None;
        }
        i += 1;
    }
    let demands = arrange(ranges);
    if is_spaced(demands.as_slice()) {
        Some(demands)
    } else {
        assert(arranged(demands@, ranges@) && !spaced(demands@));
        None
    }
}

/// Whether a request for several ranges may name this many.
pub fn accepts_ranges(count: i32) -> (r: bool)
    ensures
        r == (0 <= count <= MAX_RANGES),
{
    count >= 0 && count as usize <= MAX_RANGES
}

/// The ranges that are prepared before range `i` is read: none within a batch, and the whole
/// batch where one begins.
pub open spec fn batch_at(i: int, count: int) -> Option<(int, int)> {
    if i % PREPARED_RANGES as int != 0 {
        None
    } else if i + PREPARED_RANGES < count {
        Some((i, i + PREPARED_RANGES))
    } else {
        Some((i, count))
    }
}

pub fn prepared_batch(i: usize, count: usize) -> (r: Option<(usize, usize)>)
    requires
        i < count <= MAX_RANGES,
    ensures
        match batch_at(i as int, count as int) {
            None => r is None,
            Some(b) => r matches Some(found) && found.0 == b.0 && found.1 == b.1,
        },
{
    if i % PREPARED_RANGES != 0 {
        None
    } else if i + PREPARED_RANGES < count {
        Some((i, i + PREPARED_RANGES))
    } else {
        Some((i, count))
    }
}

/// Every range is prepared in one batch, which begins at or before it.
pub proof fn batches_take_every_range(i: int, count: int)
    requires
        0 <= i < count,
    ensures
        ({
            let first = i - i % PREPARED_RANGES as int;
            &&& 0 <= first <= i
            &&& batch_at(first, count) matches Some(b) && b.0 <= i < b.1
            &&& forall|j: int|
                0 <= j < count && (#[trigger] batch_at(j, count) matches Some(b) && b.0 <= i < b.1)
                    ==> j == first
        }),
{
}

} // verus!
