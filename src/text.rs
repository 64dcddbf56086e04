//! The text-protocol adapter: one request in flight at a time. It does no
//! I/O itself: the caller writes out what it queues, feeds in what the server
//! sends, and repeats a request that waits for more of its reply.
use vstd::prelude::*;
use crate::error::{Error, Status, poisons, lossy_text, utf8_lossy};
use crate::version::{Version, semver_of, version_matches, parse_semver};
use crate::reply::{
    tail_from,
    distinct_keys, lemma_values_are_a_map,
    short_line, missing_line,
    tok_value, tok_end, tok_stored, tok_error, tok_client_error, tok_server_error, ascii, no_space,
    words, number, value_header, has_key, starts, error_reply, lemma_header_of, lemma_split_word,
    lemma_split_last, MAX_LINE,
    header_at, status_reply, numeric_reply, version_reply, values_from, stats_from, read_header,
    parse_status_line, parse_numeric_line, parse_version_line, parse_values, parse_stats, Stream,
    Item, ItemModel, item_views, pair_views, MAX_VALUE,
};
use crate::wire::{
    valid_key, check_key, push_all, push_dec, dec, StoreVerb, KeyVerb, BareVerb, encode_store,
    encode_key_command, encode_retrieval, encode_flush, encode_bare, store_command, key_command,
    retrieval_command, flush_command, bare_command, key_views, crlf, SP, CR, LF, pow10,
    lemma_dec_len, lemma_dec_digits, lemma_dec_round_trip, is_digit,
};

verus! {

pub type MemCachedResult<T> = Result<T, Error>;

/// A text-protocol connection, driven from outside: the bytes the server
/// sent are handed in with `receive`, and the bytes for the server are taken
/// from `output`. `pos` is how much of `input` finished replies consumed;
/// `committed` is where the commands of finished requests end in `output`.
/// A request whose reply has not fully arrived fails with `NeedMore`, keeps
/// its commands after `committed`, and is finished by calling it again once
/// more bytes arrived: the call rebuilds its commands from `committed`. A
/// waiting request must be repeated with the same arguments before any other
/// request, since the server answers the commands already sent.
pub struct TextProto {
    pub input: Vec<u8>,
    pub pos: usize,
    pub output: Vec<u8>,
    pub committed: usize,
    pub poisoned: bool,
}

/// The error kept for a status: server and client errors keep their message.
pub open spec fn err_view(st: Status, d: Seq<u8>) -> (Status, Option<Seq<u8>>) {
    (
        st,
        if st == Status::ClientError || st == Status::ServerError {
            Some(d)
        } else {
            None
        },
    )
}

/// How a status reply settles a request that succeeds on `success`: failures
/// the protocol defines are kept, any other status is a protocol error.
pub open spec fn settle(st: Status, success: Status) -> Status {
    if st == success || st == Status::NotStored || st == Status::Exists || st == Status::NotFound
        || st == Status::ClientError || st == Status::ServerError || st == Status::ProtocolError
        || st == Status::NeedMore {
        st
    } else {
        Status::ProtocolError
    }
}

/// The status reply at `p`: status, message and the position after it.
pub open spec fn status_at(s: Seq<u8>, p: int) -> (Status, Seq<u8>, int) {
    match header_at(s, p) {
        Some((l, q)) => (status_reply(l).0, status_reply(l).1, q),
        None => (short_line(s, p), Seq::empty(), p),
    }
}

/// The reply to `incr`/`decr` at `p` and the position after it.
pub open spec fn numeric_at(s: Seq<u8>, p: int) -> (Result<u64, (Status, Seq<u8>)>, int) {
    match header_at(s, p) {
        Some((l, q)) => (numeric_reply(l), q),
        None => (Err((short_line(s, p), Seq::empty())), p),
    }
}

proof fn lemma_values_bounds(s: Seq<u8>, p: int, with_cas: bool)
    requires
        0 <= p <= s.len(),
    ensures
        values_from(s, p, with_cas, Seq::empty()) matches Stream::Done(_, q) ==> q <= s.len(),
        values_from(s, p, with_cas, Seq::empty()) matches Stream::Fail(_, _, q) ==> q <= s.len(),
{
    crate::reply::lemma_values_end(s, p, with_cas, Seq::empty());
}

proof fn lemma_stats_bounds(s: Seq<u8>, p: int)
    requires
        0 <= p <= s.len(),
    ensures
        stats_from(s, p, Seq::empty()) matches Stream::Done(_, q) ==> q <= s.len(),
        stats_from(s, p, Seq::empty()) matches Stream::Fail(_, _, q) ==> q <= s.len(),
{
    crate::reply::lemma_stats_end(s, p, Seq::empty());
}

proof fn lemma_header_in_bounds(s: Seq<u8>, p: int)
    ensures
        header_at(s, p) matches Some((l, q)) ==> p < q <= s.len(),
{
    crate::reply::lemma_line_end_bounds(s, p);
}

fn check_keys(keys: &Vec<Vec<u8>>) -> (r: bool)
    ensures
        r == TextProto::valid_keys(key_views(keys@)),
{
    let ghost ks = key_views(keys@);
    if keys.len() == 0 {
        return false;
    }
    let mut i: usize = 0;
    while i < keys.len()
        invariant
            i <= keys@.len(),
            ks == key_views(keys@),
            forall|j: int| 0 <= j < i ==> valid_key(#[trigger] ks[j]),
        decreases keys@.len() - i,
    {
        if !check_key(keys[i].as_slice()) {
            assert(ks[i as int] == keys@[i as int]@);
            return false;
        }
        i = i + 1;
    }
    true
}

fn error_of(st: Status, d: Vec<u8>) -> (e: Error)
    ensures
        e@ == err_view(st, d@),
{
    if st == Status::ClientError || st == Status::ServerError {
        Error { status: st, detail: Some(d) }
    } else {
        Error { status: st, detail: None }
    }
}

fn plain_error(st: Status) -> (e: Error)
    ensures
        e@ == (st, None::<Seq<u8>>),
{
    Error { status: st, detail: None }
}

impl TextProto {
    pub open spec fn wf(&self) -> bool {
        self.pos <= self.input@.len() && self.committed <= self.output@.len()
    }

    /// The commands of finished requests.
    pub open spec fn base(&self) -> Seq<u8> {
        self.output@.subrange(0, self.committed as int)
    }

    /// The request waits for more of its reply.
    pub open spec fn waits<T>(r: MemCachedResult<T>) -> bool {
        r is Err && r->Err_0.status == Status::NeedMore
    }

    /// A finished request commits what it wrote; a waiting one does not.
    pub open spec fn settled_commit<T>(&self, before: &TextProto, r: MemCachedResult<T>) -> bool {
        self.committed == if TextProto::waits(r) {
            before.committed as int
        } else {
            self.output@.len() as int
        }
    }

    /// Nothing was read or written and the connection state is as it was.
    pub open spec fn same(&self, other: &TextProto) -> bool {
        &&& self.input@ == other.input@
        &&& self.pos == other.pos
        &&& self.output@ == other.output@
        &&& self.committed == other.committed
        &&& self.poisoned == other.poisoned
    }

    /// The request was turned away before any I/O: on a poisoned connection,
    /// or for arguments the protocol cannot carry.
    pub open spec fn turned_away<T>(&self, after: &TextProto, r: MemCachedResult<T>) -> bool {
        &&& self.same(after)
        &&& r is Err
        &&& r->Err_0@ == (if self.poisoned {
            (Status::Poisoned, None::<Seq<u8>>)
        } else {
            (Status::InvalidArgument, None::<Seq<u8>>)
        })
    }

    /// A failure with status `st` poisons the connection exactly when it is a
    /// framing or transport failure.
    pub open spec fn settled_poison<T>(&self, r: MemCachedResult<T>) -> bool {
        self.poisoned == (r is Err && poisons(r->Err_0.status))
    }

    /// One command `cmd` was written and a status reply expected to be
    /// `success` was read from `before`'s position.
    pub open spec fn status_step(
        before: &TextProto,
        after: &TextProto,
        cmd: Seq<u8>,
        success: Status,
        r: MemCachedResult<()>,
    ) -> bool {
        let (st, d, q) = status_at(before.input@, before.pos as int);
        let out = settle(st, success);
        &&& after.input@ == before.input@
        &&& after.output@ == before.base() + cmd
        &&& after.pos == q
        &&& if out == success {
            r is Ok
        } else {
            r is Err && r->Err_0@ == err_view(out, d)
        }
        &&& after.settled_poison(r)
        &&& after.settled_commit(before, r)
    }

    /// A new connection over a stream whose server side has sent `stream`.
    pub fn new(stream: Vec<u8>) -> (r: TextProto)
        ensures
            r.wf(),
            r.input@ == stream@,
            r.pos == 0,
            r.output@.len() == 0,
            !r.poisoned,
    {
        TextProto { input: stream, pos: 0, output: Vec::new(), committed: 0, poisoned: false }
    }

    /// Bytes the server sent after the connection was made.
    pub fn receive(&mut self, bytes: &[u8])
        requires
            old(self).wf(),
        ensures
            final(self).wf(),
            final(self).input@ == old(self).input@ + bytes@,
            final(self).pos == old(self).pos,
            final(self).output@ == old(self).output@,
            final(self).poisoned == old(self).poisoned,
    {
        push_all(&mut self.input, bytes);
    }

    /// A read, write or flush on the stream failed: the connection is
    /// poisoned and the failure is reported as a transport error.
    pub fn transport_failed(&mut self) -> (e: Error)
        requires
            old(self).wf(),
        ensures
            final(self).wf(),
            e@ == (Status::Io, None::<Seq<u8>>),
            final(self).poisoned,
            final(self).input@ == old(self).input@,
            final(self).pos == old(self).pos,
            final(self).output@ == old(self).output@,
            final(self).committed == old(self).committed,
    {
        self.poisoned = true;
        plain_error(Status::Io)
    }

    /// The stream ended while a reply was still expected: a premature end of
    /// a frame, which poisons the connection.
    pub fn stream_ended(&mut self) -> (e: Error)
        requires
            old(self).wf(),
        ensures
            final(self).wf(),
            e@ == (Status::ProtocolError, None::<Seq<u8>>),
            final(self).poisoned,
            final(self).input@ == old(self).input@,
            final(self).pos == old(self).pos,
            final(self).output@ == old(self).output@,
            final(self).committed == old(self).committed,
    {
        self.poisoned = true;
        plain_error(Status::ProtocolError)
    }

    /// Drops the input that finished replies consumed.
    pub fn discard_read(&mut self)
        requires
            old(self).wf(),
        ensures
            final(self).wf(),
            final(self).input@ == old(self).input@.subrange(old(self).pos as int, old(self).input@.len() as int),
            final(self).pos == 0,
            final(self).output@ == old(self).output@,
            final(self).committed == old(self).committed,
            final(self).poisoned == old(self).poisoned,
    {
        self.input = tail_from(self.input.as_slice(), self.pos);
        self.pos = 0;
    }

    /// Drops the first `n` bytes of output, which belong to finished requests
    /// and were handed to the stream.
    pub fn discard_written(&mut self, n: usize)
        requires
            old(self).wf(),
            n <= old(self).committed,
        ensures
            final(self).wf(),
            final(self).output@ == old(self).output@.subrange(n as int, old(self).output@.len() as int),
            final(self).committed == old(self).committed - n,
            final(self).input@ == old(self).input@,
            final(self).pos == old(self).pos,
            final(self).poisoned == old(self).poisoned,
    {
        self.output = tail_from(self.output.as_slice(), n);
        self.committed = self.committed - n;
    }

    /// What has been written to the server.
    pub fn written(&self) -> (r: &Vec<u8>)
        ensures
            r@ == self.output@,
    {
        &self.output
    }

    /// Whether an earlier framing or transport failure poisoned the connection.
    pub fn is_poisoned(&self) -> (r: bool)
        ensures
            r == self.poisoned,
    {
        self.poisoned
    }

    fn send(&mut self, cmd: &Vec<u8>)
        ensures
            final(self).output@ == old(self).output@ + cmd@,
            final(self).committed == old(self).committed,
            final(self).input == old(self).input,
            final(self).pos == old(self).pos,
            final(self).poisoned == old(self).poisoned,
    {
        push_all(&mut self.output, cmd.as_slice());
    }

    /// Drops the commands of an unfinished request, to be written anew.
    fn restart(&mut self)
        requires
            old(self).wf(),
        ensures
            final(self).wf(),
            final(self).output@ == old(self).base(),
            final(self).base() == old(self).base(),
            final(self).committed == old(self).committed,
            final(self).committed == final(self).output@.len(),
            final(self).input == old(self).input,
            final(self).pos == old(self).pos,
            final(self).poisoned == old(self).poisoned,
    {
        self.output.truncate(self.committed);
        assert(self.base() =~= self.output@);
    }

    /// Commits what a request wrote, unless it waits for more of its reply.
    fn finish<T>(&mut self, r: &MemCachedResult<T>)
        requires
            old(self).wf(),
        ensures
            final(self).wf(),
            final(self).settled_commit(old(self), *r),
            final(self).output == old(self).output,
            final(self).input == old(self).input,
            final(self).pos == old(self).pos,
            final(self).poisoned == old(self).poisoned,
    {
        let waits = match r {
            Err(e) => e.status == Status::NeedMore,
            Ok(_) => false,
        };
        if !waits {
            self.committed = self.output.len();
        }
    }

    /// Writes `cmd` and reads a status reply that succeeds on `success`.
    fn exchange_status(&mut self, cmd: &Vec<u8>, success: Status) -> (r: MemCachedResult<()>)
        requires
            old(self).wf(),
            !old(self).poisoned,
            success != Status::ProtocolError,
            success != Status::NeedMore,
            old(self).committed == old(self).output@.len(),
        ensures
            final(self).wf(),
            TextProto::status_step(old(self), final(self), cmd@, success, r),
    {
        assert(old(self).base() =~= old(self).output@);
        self.send(cmd);
        let ghost s = self.input@;
        let ghost p = self.pos as int;
        let r = match read_header(&self.input, self.pos) {
            None => {
                let st = missing_line(&self.input, self.pos);
                if st == Status::ProtocolError {
                    self.poisoned = true;
                }
                Err(plain_error(st))
            },
            Some((l, q)) => {
                proof {
                    lemma_header_in_bounds(s, p);
                    assert(header_at(s, p) == Some((l@, q as int)));
                    assert(status_at(s, p) == (status_reply(l@).0, status_reply(l@).1, q as int));
                }
                let (st, d) = parse_status_line(&l);
                self.pos = q;
                let out = if st == success || st == Status::NotStored || st == Status::Exists
                    || st == Status::NotFound || st == Status::ClientError || st
                    == Status::ServerError || st == Status::ProtocolError {
                    st
                } else {
                    Status::ProtocolError
                };
                if out == success {
                    Ok(())
                } else {
                    if out == Status::ProtocolError {
                        self.poisoned = true;
                    }
                    Err(error_of(out, d))
                }
            },
        };
        self.finish(&r);
        r
    }

    fn store(
        &mut self,
        verb: StoreVerb,
        key: &[u8],
        value: &[u8],
        flags: u32,
        expiration: u32,
        cas: u64,
        noreply: bool,
    ) -> (r: MemCachedResult<()>)
        requires
            old(self).wf(),
        ensures
            TextProto::store_outcome(
                old(self),
                final(self),
                verb,
                key@,
                value@,
                flags,
                expiration,
                cas,
                noreply,
                r,
            ),
    {
        if self.poisoned {
            return Err(plain_error(Status::Poisoned));
        }
        if !check_key(key) || value.len() > MAX_VALUE {
            return Err(plain_error(Status::InvalidArgument));
        }
        self.restart();
        let cmd = encode_store(verb, key, value, flags, expiration, cas, noreply);
        if noreply {
            self.send(&cmd);
            self.committed = self.output.len();
            Ok(())
        } else {
            self.exchange_status(&cmd, Status::Stored)
        }
    }

    /// The outcome of a storage command: turned away, written without a
    /// reply under `noreply`, or written and settled by a `STORED` reply.
    pub open spec fn store_outcome(
        before: &TextProto,
        after: &TextProto,
        verb: StoreVerb,
        key: Seq<u8>,
        value: Seq<u8>,
        flags: u32,
        expiration: u32,
        cas: u64,
        noreply: bool,
        r: MemCachedResult<()>,
    ) -> bool {
        &&& after.wf()
        &&& if before.poisoned || !valid_key(key) || value.len() > MAX_VALUE {
            before.turned_away(after, r)
        } else if noreply {
            &&& r is Ok
            &&& after.output@ == before.base() + store_command(
                verb,
                key,
                value,
                flags,
                expiration,
                cas,
                true,
            )
            &&& after.committed == after.output@.len()
            &&& after.input@ == before.input@
            &&& after.pos == before.pos
            &&& !after.poisoned
        } else {
            TextProto::status_step(
                before,
                after,
                store_command(verb, key, value, flags, expiration, cas, false),
                Status::Stored,
                r,
            )
        }
    }

    /// The outcome of `delete` or `touch`, which succeed on `success`.
    pub open spec fn key_outcome(
        before: &TextProto,
        after: &TextProto,
        verb: KeyVerb,
        key: Seq<u8>,
        arg: u64,
        noreply: bool,
        success: Status,
        r: MemCachedResult<()>,
    ) -> bool {
        &&& after.wf()
        &&& if before.poisoned || !valid_key(key) {
            before.turned_away(after, r)
        } else if noreply {
            &&& r is Ok
            &&& after.output@ == before.base() + key_command(verb, key, arg, true)
            &&& after.committed == after.output@.len()
            &&& after.input@ == before.input@
            &&& after.pos == before.pos
            &&& !after.poisoned
        } else {
            TextProto::status_step(before, after, key_command(verb, key, arg, false), success, r)
        }
    }

    /// The operation is not representable on the text protocol: it fails
    /// with `Unsupported` and reads or writes nothing.
    pub open spec fn unsupported<T>(before: &TextProto, after: &TextProto, r: MemCachedResult<T>) -> bool {
        &&& before.same(after)
        &&& r is Err
        &&& r->Err_0@ == (Status::Unsupported, None::<Seq<u8>>)
    }

    pub fn set(&mut self, key: &[u8], value: &[u8], flags: u32, expiration: u32) -> (r:
        MemCachedResult<()>)
        requires
            old(self).wf(),
        ensures
            TextProto::store_outcome(
                old(self),
                final(self),
                StoreVerb::SetCmd,
                key@,
                value@,
                flags,
                expiration,
                0,
                false,
                r,
            ),
    {
        self.store(StoreVerb::SetCmd, key, value, flags, expiration, 0, false)
    }

    pub fn add(&mut self, key: &[u8], value: &[u8], flags: u32, expiration: u32) -> (r:
        MemCachedResult<()>)
        requires
            old(self).wf(),
        ensures
            TextProto::store_outcome(
                old(self),
                final(self),
                StoreVerb::Add,
                key@,
                value@,
                flags,
                expiration,
                0,
                false,
                r,
            ),
    {
        self.store(StoreVerb::Add, key, value, flags, expiration, 0, false)
    }

    pub fn replace(&mut self, key: &[u8], value: &[u8], flags: u32, expiration: u32) -> (r:
        MemCachedResult<()>)
        requires
            old(self).wf(),
        ensures
            TextProto::store_outcome(
                old(self),
                final(self),
                StoreVerb::Replace,
                key@,
                value@,
                flags,
                expiration,
                0,
                false,
                r,
            ),
    {
        self.store(StoreVerb::Replace, key, value, flags, expiration, 0, false)
    }

    pub fn append(&mut self, key: &[u8], value: &[u8]) -> (r: MemCachedResult<()>)
        requires
            old(self).wf(),
        ensures
            TextProto::store_outcome(
                old(self),
                final(self),
                StoreVerb::Append,
                key@,
                value@,
                0,
                0,
                0,
                false,
                r,
            ),
    {
        self.store(StoreVerb::Append, key, value, 0, 0, 0, false)
    }

    pub fn prepend(&mut self, key: &[u8], value: &[u8]) -> (r: MemCachedResult<()>)
        requires
            old(self).wf(),
        ensures
            TextProto::store_outcome(
                old(self),
                final(self),
                StoreVerb::Prepend,
                key@,
                value@,
                0,
                0,
                0,
                false,
                r,
            ),
    {
        self.store(StoreVerb::Prepend, key, value, 0, 0, 0, false)
    }

    pub fn set_noreply(&mut self, key: &[u8], value: &[u8], flags: u32, expiration: u32) -> (r:
        MemCachedResult<()>)
        requires
            old(self).wf(),
        ensures
            TextProto::store_outcome(
                old(self),
                final(self),
                StoreVerb::SetCmd,
                key@,
                value@,
                flags,
                expiration,
                0,
                true,
                r,
            ),
    {
        self.store(StoreVerb::SetCmd, key, value, flags, expiration, 0, true)
    }

    pub fn add_noreply(&mut self, key: &[u8], value: &[u8], flags: u32, expiration: u32) -> (r:
        MemCachedResult<()>)
        requires
            old(self).wf(),
        ensures
            TextProto::store_outcome(
                old(self),
                final(self),
                StoreVerb::Add,
                key@,
                value@,
                flags,
                expiration,
                0,
                true,
                r,
            ),
    {
        self.store(StoreVerb::Add, key, value, flags, expiration, 0, true)
    }

    pub fn replace_noreply(&mut self, key: &[u8], value: &[u8], flags: u32, expiration: u32) -> (r:
        MemCachedResult<()>)
        requires
            old(self).wf(),
        ensures
            TextProto::store_outcome(
                old(self),
                final(self),
                StoreVerb::Replace,
                key@,
                value@,
                flags,
                expiration,
                0,
                true,
                r,
            ),
    {
        self.store(StoreVerb::Replace, key, value, flags, expiration, 0, true)
    }

    pub fn append_noreply(&mut self, key: &[u8], value: &[u8]) -> (r: MemCachedResult<()>)
        requires
            old(self).wf(),
        ensures
            TextProto::store_outcome(
                old(self),
                final(self),
                StoreVerb::Append,
                key@,
                value@,
                0,
                0,
                0,
                true,
                r,
            ),
    {
        self.store(StoreVerb::Append, key, value, 0, 0, 0, true)
    }

    pub fn prepend_noreply(&mut self, key: &[u8], value: &[u8]) -> (r: MemCachedResult<()>)
        requires
            old(self).wf(),
        ensures
            TextProto::store_outcome(
                old(self),
                final(self),
                StoreVerb::Prepend,
                key@,
                value@,
                0,
                0,
                0,
                true,
                r,
            ),
    {
        self.store(StoreVerb::Prepend, key, value, 0, 0, 0, true)
    }

    /// Stores `value` only if the item's CAS token is still `cas` (the `cas`
    /// command). The text reply carries no new token.
    pub fn set_cas(&mut self, key: &[u8], value: &[u8], flags: u32, expiration: u32, cas: u64) -> (r:
        MemCachedResult<()>)
        requires
            old(self).wf(),
        ensures
            TextProto::store_outcome(
                old(self),
                final(self),
                StoreVerb::Cas,
                key@,
                value@,
                flags,
                expiration,
                cas,
                false,
                r,
            ),
    {
        self.store(StoreVerb::Cas, key, value, flags, expiration, cas, false)
    }

    /// Replaces an existing item whose CAS token is still `cas`: the `cas`
    /// command, which answers `NOT_FOUND` for a missing item.
    pub fn replace_cas(
        &mut self,
        key: &[u8],
        value: &[u8],
        flags: u32,
        expiration: u32,
        cas: u64,
    ) -> (r: MemCachedResult<()>)
        requires
            old(self).wf(),
        ensures
            TextProto::store_outcome(
                old(self),
                final(self),
                StoreVerb::Cas,
                key@,
                value@,
                flags,
                expiration,
                cas,
                false,
                r,
            ),
    {
        self.store(StoreVerb::Cas, key, value, flags, expiration, cas, false)
    }

    fn key_request(&mut self, verb: KeyVerb, key: &[u8], arg: u64, noreply: bool, success: Status) -> (r:
        MemCachedResult<()>)
        requires
            old(self).wf(),
            success != Status::ProtocolError,
            success != Status::NeedMore,
        ensures
            TextProto::key_outcome(old(self), final(self), verb, key@, arg, noreply, success, r),
    {
        if self.poisoned {
            return Err(plain_error(Status::Poisoned));
        }
        if !check_key(key) {
            return Err(plain_error(Status::InvalidArgument));
        }
        self.restart();
        let cmd = encode_key_command(verb, key, arg, noreply);
        if noreply {
            self.send(&cmd);
            self.committed = self.output.len();
            Ok(())
        } else {
            self.exchange_status(&cmd, success)
        }
    }

    pub fn delete(&mut self, key: &[u8]) -> (r: MemCachedResult<()>)
        requires
            old(self).wf(),
        ensures
            TextProto::key_outcome(
                old(self),
                final(self),
                KeyVerb::Delete,
                key@,
                0,
                false,
                Status::Deleted,
                r,
            ),
    {
        self.key_request(KeyVerb::Delete, key, 0, false, Status::Deleted)
    }

    pub fn delete_noreply(&mut self, key: &[u8]) -> (r: MemCachedResult<()>)
        requires
            old(self).wf(),
        ensures
            TextProto::key_outcome(
                old(self),
                final(self),
                KeyVerb::Delete,
                key@,
                0,
                true,
                Status::Deleted,
                r,
            ),
    {
        self.key_request(KeyVerb::Delete, key, 0, true, Status::Deleted)
    }

    pub fn touch(&mut self, key: &[u8], expiration: u32) -> (r: MemCachedResult<()>)
        requires
            old(self).wf(),
        ensures
            TextProto::key_outcome(
                old(self),
                final(self),
                KeyVerb::Touch,
                key@,
                expiration as u64,
                false,
                Status::Touched,
                r,
            ),
    {
        self.key_request(KeyVerb::Touch, key, expiration as u64, false, Status::Touched)
    }

    /// `incr ... noreply`. No reply is read, so the initial-value fallback
    /// cannot run: `initial` and `expiration` are not used.
    pub fn increment_noreply(&mut self, key: &[u8], amount: u64, initial: u64, expiration: u32) -> (r:
        MemCachedResult<()>)
        requires
            old(self).wf(),
        ensures
            TextProto::key_outcome(
                old(self),
                final(self),
                KeyVerb::Incr,
                key@,
                amount,
                true,
                Status::Stored,
                r,
            ),
    {
        self.key_request(KeyVerb::Incr, key, amount, true, Status::Stored)
    }

    /// `decr ... noreply`. No reply is read, so the initial-value fallback
    /// cannot run: `initial` and `expiration` are not used.
    pub fn decrement_noreply(&mut self, key: &[u8], amount: u64, initial: u64, expiration: u32) -> (r:
        MemCachedResult<()>)
        requires
            old(self).wf(),
        ensures
            TextProto::key_outcome(
                old(self),
                final(self),
                KeyVerb::Decr,
                key@,
                amount,
                true,
                Status::Stored,
                r,
            ),
    {
        self.key_request(KeyVerb::Decr, key, amount, true, Status::Stored)
    }

    /// `flush_all`: invalidates every item after `expiration`.
    pub fn flush(&mut self, expiration: u32) -> (r: MemCachedResult<()>)
        requires
            old(self).wf(),
        ensures
            final(self).wf(),
            if old(self).poisoned {
                old(self).turned_away(final(self), r)
            } else {
                TextProto::status_step(
                    old(self),
                    final(self),
                    flush_command(expiration, false),
                    Status::Okay,
                    r,
                )
            },
    {
        if self.poisoned {
            return Err(plain_error(Status::Poisoned));
        }
        self.restart();
        let cmd = encode_flush(expiration, false);
        self.exchange_status(&cmd, Status::Okay)
    }

    /// `quit`: the server closes the connection without a reply.
    pub fn quit(&mut self) -> (r: MemCachedResult<()>)
        requires
            old(self).wf(),
        ensures
            final(self).wf(),
            if old(self).poisoned {
                old(self).turned_away(final(self), r)
            } else {
                &&& r is Ok
                &&& final(self).output@ == old(self).base() + bare_command(BareVerb::Quit)
                &&& final(self).committed == final(self).output@.len()
                &&& final(self).input@ == old(self).input@
                &&& final(self).pos == old(self).pos
                &&& !final(self).poisoned
            },
    {
        if self.poisoned {
            return Err(plain_error(Status::Poisoned));
        }
        self.restart();
        let cmd = encode_bare(BareVerb::Quit);
        self.send(&cmd);
        self.committed = self.output.len();
        Ok(())
    }

    /// The binary protocol's no-op has no text counterpart.
    pub fn send_noop(&mut self) -> (r: MemCachedResult<u32>)
        ensures
            TextProto::unsupported(old(self), final(self), r),
    {
        Err(plain_error(Status::Unsupported))
    }

    pub fn noop(&mut self) -> (r: MemCachedResult<()>)
        ensures
            TextProto::unsupported(old(self), final(self), r),
    {
        match self.send_noop() {
            Ok(_) => Ok(()),
            Err(e) => Err(e),
        }
    }

    pub fn add_cas(&mut self, key: &[u8], value: &[u8], flags: u32, expiration: u32) -> (r:
        MemCachedResult<u64>)
        ensures
            TextProto::unsupported(old(self), final(self), r),
    {
        Err(plain_error(Status::Unsupported))
    }

    pub fn increment_cas(
        &mut self,
        key: &[u8],
        amount: u64,
        initial: u64,
        expiration: u32,
        cas: u64,
    ) -> (r: MemCachedResult<(u64, u64)>)
        ensures
            TextProto::unsupported(old(self), final(self), r),
    {
        Err(plain_error(Status::Unsupported))
    }

    pub fn decrement_cas(
        &mut self,
        key: &[u8],
        amount: u64,
        initial: u64,
        expiration: u32,
        cas: u64,
    ) -> (r: MemCachedResult<(u64, u64)>)
        ensures
            TextProto::unsupported(old(self), final(self), r),
    {
        Err(plain_error(Status::Unsupported))
    }

    pub fn append_cas(&mut self, key: &[u8], value: &[u8], cas: u64) -> (r: MemCachedResult<u64>)
        ensures
            TextProto::unsupported(old(self), final(self), r),
    {
        Err(plain_error(Status::Unsupported))
    }

    pub fn prepend_cas(&mut self, key: &[u8], value: &[u8], cas: u64) -> (r: MemCachedResult<u64>)
        ensures
            TextProto::unsupported(old(self), final(self), r),
    {
        Err(plain_error(Status::Unsupported))
    }

    pub fn touch_cas(&mut self, key: &[u8], expiration: u32, cas: u64) -> (r: MemCachedResult<u64>)
        ensures
            TextProto::unsupported(old(self), final(self), r),
    {
        Err(plain_error(Status::Unsupported))
    }

    pub fn list_mechanisms(&mut self) -> (r: MemCachedResult<Vec<String>>)
        ensures
            TextProto::unsupported(old(self), final(self), r),
    {
        Err(plain_error(Status::Unsupported))
    }

    pub fn auth_start(&mut self, mech: &str, init: &[u8]) -> (r: MemCachedResult<AuthResponse>)
        ensures
            TextProto::unsupported(old(self), final(self), r),
    {
        Err(plain_error(Status::Unsupported))
    }

    pub fn auth_continue(&mut self, mech: &str, data: &[u8]) -> (r: MemCachedResult<AuthResponse>)
        ensures
            TextProto::unsupported(old(self), final(self), r),
    {
        Err(plain_error(Status::Unsupported))
    }

    /// The keys are all valid and there is at least one.
    pub open spec fn valid_keys(keys: Seq<Seq<u8>>) -> bool {
        keys.len() >= 1 && forall|i: int| 0 <= i < keys.len() ==> valid_key(#[trigger] keys[i])
    }

    /// A retrieval command for `keys` was written and a `VALUE` stream read.
    pub open spec fn fetch_step(
        before: &TextProto,
        after: &TextProto,
        keys: Seq<Seq<u8>>,
        with_cas: bool,
        r: MemCachedResult<Vec<Item>>,
    ) -> bool {
        &&& after.wf()
        &&& after.input@ == before.input@
        &&& after.output@ == before.base() + retrieval_command(with_cas, keys)
        &&& match values_from(before.input@, before.pos as int, with_cas, Seq::empty()) {
            Stream::Done(items, q) => r is Ok && item_views(r->Ok_0@) == items && after.pos == q,
            Stream::Fail(st, d, q) => r is Err && r->Err_0@ == err_view(st, d) && after.pos == (if st
                == Status::NeedMore {
                before.pos as int
            } else {
                q
            }),
        }
        &&& after.settled_poison(r)
        &&& after.settled_commit(before, r)
    }

    fn fetch(&mut self, keys: &Vec<Vec<u8>>, with_cas: bool) -> (r: MemCachedResult<Vec<Item>>)
        requires
            old(self).wf(),
        ensures
            if old(self).poisoned || !TextProto::valid_keys(key_views(keys@)) {
                final(self).wf() && old(self).turned_away(final(self), r)
            } else {
                TextProto::fetch_step(
                    old(self),
                    final(self),
                    key_views(keys@),
                    with_cas,
                    r,
                )
            },
    {
        if self.poisoned {
            return Err(plain_error(Status::Poisoned));
        }
        if !check_keys(keys) {
            return Err(plain_error(Status::InvalidArgument));
        }
        self.restart();
        let cmd = encode_retrieval(with_cas, keys);
        self.send(&cmd);
        proof {
            lemma_values_bounds(self.input@, self.pos as int, with_cas);
        }
        let r = match parse_values(&self.input, self.pos, with_cas) {
            Ok((items, q)) => {
                self.pos = q;
                Ok(items)
            },
            Err((st, d, q)) => {
                if st != Status::NeedMore {
                    self.pos = q;
                }
                if st == Status::ProtocolError || st == Status::Io {
                    self.poisoned = true;
                }
                Err(error_of(st, d))
            },
        };
        self.finish(&r);
        r
    }

    /// The outcome of a single-key retrieval: the one entry for `key`,
    /// `NotFound` when the reply holds none, a protocol error when it holds
    /// another key or more than one.
    pub open spec fn single_outcome(s: Seq<u8>, p: int, key: Seq<u8>, with_cas: bool) -> (Result<
        ItemModel,
        (Status, Option<Seq<u8>>),
    >, int) {
        match values_from(s, p, with_cas, Seq::empty()) {
            Stream::Done(items, q) => if items.len() == 0 {
                (Err((Status::NotFound, None)), q)
            } else if items.len() == 1 && items[0].0 == key {
                (Ok(items[0]), q)
            } else {
                (Err((Status::ProtocolError, None)), q)
            },
            Stream::Fail(st, d, q) => (Err(err_view(st, d)), if st == Status::NeedMore {
                p
            } else {
                q
            }),
        }
    }

    /// A single-key retrieval of `key` was made; on success `holds` relates
    /// the entry read to the result.
    pub open spec fn single_step<T>(
        before: &TextProto,
        after: &TextProto,
        key: Seq<u8>,
        with_cas: bool,
        r: MemCachedResult<T>,
        holds: spec_fn(ItemModel, T) -> bool,
    ) -> bool {
        &&& after.wf()
        &&& if before.poisoned || !valid_key(key) {
            before.turned_away(after, r)
        } else {
            let (o, q) = TextProto::single_outcome(before.input@, before.pos as int, key, with_cas);
            &&& after.input@ == before.input@
            &&& after.output@ == before.base() + retrieval_command(with_cas, seq![key])
            &&& after.pos == q
            &&& match o {
                Ok(it) => r is Ok && holds(it, r->Ok_0),
                Err(e) => r is Err && r->Err_0@ == e,
            }
            &&& after.settled_poison(r)
            &&& after.settled_commit(before, r)
        }
    }

    fn fetch_one(&mut self, key: &[u8], with_cas: bool) -> (r: MemCachedResult<Item>)
        requires
            old(self).wf(),
        ensures
            TextProto::single_step(
                old(self),
                final(self),
                key@,
                with_cas,
                r,
                |it: ItemModel, x: Item| x.view() == it,
            ),
    {
        let mut k: Vec<u8> = Vec::new();
        push_all(&mut k, key);
        let keys = vec![k];
        proof {
            assert(key_views(keys@) =~= seq![key@]);
        }
        let mut items = match self.fetch(&keys, with_cas) {
            Ok(items) => items,
            Err(e) => {
                return Err(e);
            },
        };
        proof {
            if items@.len() > 0 {
                assert(item_views(items@)[0] == items@[0].view());
            }
        }
        if items.len() == 0 {
            return Err(plain_error(Status::NotFound));
        }
        if items.len() == 1 && crate::reply::bytes_eq(items[0].key.as_slice(), key) {
            let it = items.pop().unwrap();
            return Ok(it);
        }
        self.poisoned = true;
        Err(plain_error(Status::ProtocolError))
    }

    /// `get`: the value and flags stored under `key`.
    pub fn get(&mut self, key: &[u8]) -> (r: MemCachedResult<(Vec<u8>, u32)>)
        requires
            old(self).wf(),
        ensures
            TextProto::single_step(
                old(self),
                final(self),
                key@,
                false,
                r,
                |it: ItemModel, x: (Vec<u8>, u32)| x.0@ == it.1 && x.1 == it.2,
            ),
    {
        match self.fetch_one(key, false) {
            Ok(it) => Ok((it.data, it.flags)),
            Err(e) => Err(e),
        }
    }

    /// `get`, also returning the key the server echoed.
    pub fn getk(&mut self, key: &[u8]) -> (r: MemCachedResult<(Vec<u8>, Vec<u8>, u32)>)
        requires
            old(self).wf(),
        ensures
            TextProto::single_step(
                old(self),
                final(self),
                key@,
                false,
                r,
                |it: ItemModel, x: (Vec<u8>, Vec<u8>, u32)| x.0@ == it.0 && x.1@ == it.1 && x.2
                    == it.2,
            ),
    {
        match self.fetch_one(key, false) {
            Ok(it) => Ok((it.key, it.data, it.flags)),
            Err(e) => Err(e),
        }
    }

    /// `gets`: the value, flags and CAS token stored under `key`.
    pub fn get_cas(&mut self, key: &[u8]) -> (r: MemCachedResult<(Vec<u8>, u32, u64)>)
        requires
            old(self).wf(),
        ensures
            TextProto::single_step(
                old(self),
                final(self),
                key@,
                true,
                r,
                |it: ItemModel, x: (Vec<u8>, u32, u64)| x.0@ == it.1 && x.1 == it.2 && x.2 == it.3,
            ),
    {
        match self.fetch_one(key, true) {
            Ok(it) => Ok((it.data, it.flags, it.cas)),
            Err(e) => Err(e),
        }
    }

    /// `gets`, also returning the key the server echoed.
    pub fn getk_cas(&mut self, key: &[u8]) -> (r: MemCachedResult<(Vec<u8>, Vec<u8>, u32, u64)>)
        requires
            old(self).wf(),
        ensures
            TextProto::single_step(
                old(self),
                final(self),
                key@,
                true,
                r,
                |it: ItemModel, x: (Vec<u8>, Vec<u8>, u32, u64)| x.0@ == it.0 && x.1@ == it.1 && x.2
                    == it.2 && x.3 == it.3,
            ),
    {
        match self.fetch_one(key, true) {
            Ok(it) => Ok((it.key, it.data, it.flags, it.cas)),
            Err(e) => Err(e),
        }
    }

    /// One `get` for all `keys`: exactly the entries of the reply, in the
    /// order the server sent them; keys it did not return are absent.
    pub fn get_multi(&mut self, keys: &Vec<Vec<u8>>) -> (r: MemCachedResult<Vec<Item>>)
        requires
            old(self).wf(),
        ensures
            if old(self).poisoned || !TextProto::valid_keys(key_views(keys@)) {
                final(self).wf() && old(self).turned_away(final(self), r)
            } else {
                TextProto::fetch_step(old(self), final(self), key_views(keys@), false, r)
            },
            r is Ok ==> distinct_keys(item_views(r->Ok_0@)),
    {
        proof {
            if !self.poisoned {
                lemma_values_are_a_map(self.input@, self.pos as int, false, Seq::empty());
            }
        }
        self.fetch(keys, false)
    }

    /// Writes `cmd` and reads an `incr`/`decr` reply; the connection's poison
    /// flag is left to the caller.
    fn exchange_numeric(&mut self, cmd: &Vec<u8>) -> (r: Result<u64, (Status, Vec<u8>)>)
        requires
            old(self).wf(),
        ensures
            final(self).wf(),
            final(self).committed == old(self).committed,
            final(self).input@ == old(self).input@,
            final(self).output@ == old(self).output@ + cmd@,
            final(self).poisoned == old(self).poisoned,
            final(self).pos == numeric_at(old(self).input@, old(self).pos as int).1,
            match numeric_at(old(self).input@, old(self).pos as int).0 {
                Ok(n) => r == Ok::<u64, (Status, Vec<u8>)>(n),
                Err((st, d)) => r is Err && (r->Err_0).0 == st && (r->Err_0).1@ == d,
            },
    {
        self.send(cmd);
        let ghost s = self.input@;
        let ghost p = self.pos as int;
        match read_header(&self.input, self.pos) {
            None => Err((missing_line(&self.input, self.pos), Vec::new())),
            Some((l, q)) => {
                proof {
                    lemma_header_in_bounds(s, p);
                }
                self.pos = q;
                parse_numeric_line(&l)
            },
        }
    }

    /// Writes `cmd` and reads a status reply; the connection's poison flag is
    /// left to the caller.
    fn exchange_raw_status(&mut self, cmd: &Vec<u8>) -> (r: (Status, Vec<u8>))
        requires
            old(self).wf(),
        ensures
            final(self).wf(),
            final(self).committed == old(self).committed,
            final(self).input@ == old(self).input@,
            final(self).output@ == old(self).output@ + cmd@,
            final(self).poisoned == old(self).poisoned,
            final(self).pos == status_at(old(self).input@, old(self).pos as int).2,
            r.0 == status_at(old(self).input@, old(self).pos as int).0,
            r.1@ == status_at(old(self).input@, old(self).pos as int).1,
    {
        self.send(cmd);
        let ghost s = self.input@;
        let ghost p = self.pos as int;
        match read_header(&self.input, self.pos) {
            None => (missing_line(&self.input, self.pos), Vec::new()),
            Some((l, q)) => {
                proof {
                    lemma_header_in_bounds(s, p);
                }
                self.pos = q;
                parse_status_line(&l)
            },
        }
    }

    /// `incr`/`decr` with the `initial` value emulated: on `NOT_FOUND` the
    /// key is created with `add <key> 0 <exptime> <len>` holding `initial`;
    /// if that is `NOT_STORED` (another client created it) the arithmetic is
    /// tried once more. Returns the result, what was written, and where the
    /// replies ended.
    pub open spec fn arith_outcome(
        s: Seq<u8>,
        p: int,
        verb: KeyVerb,
        key: Seq<u8>,
        amount: u64,
        initial: u64,
        expiration: u32,
    ) -> (Result<u64, (Status, Option<Seq<u8>>)>, Seq<u8>, int) {
        let c1 = key_command(verb, key, amount, false);
        let (r1, q1) = numeric_at(s, p);
        match r1 {
            Ok(n) => (Ok(n), c1, q1),
            Err((st, d)) => if st == Status::NeedMore {
                (Err((Status::NeedMore, None)), c1, p)
            } else if st != Status::NotFound {
                (Err(err_view(st, d)), c1, q1)
            } else {
                let c2 = store_command(StoreVerb::Add, key, dec(initial as nat), 0, expiration, 0, false);
                let (st2, d2, q2) = status_at(s, q1);
                let out2 = settle(st2, Status::Stored);
                if out2 == Status::Stored {
                    (Ok(initial), c1 + c2, q2)
                } else if out2 == Status::NeedMore {
                    (Err((Status::NeedMore, None)), c1 + c2, p)
                } else if out2 != Status::NotStored {
                    (Err(err_view(out2, d2)), c1 + c2, q2)
                } else {
                    let (r3, q3) = numeric_at(s, q2);
                    (
                        match r3 {
                            Ok(n) => Ok(n),
                            Err((st3, d3)) => Err(err_view(st3, d3)),
                        },
                        c1 + c2 + c1,
                        if r3 is Err && r3->Err_0.0 == Status::NeedMore {
                            p
                        } else {
                            q3
                        },
                    )
                }
            },
        }
    }

    pub open spec fn arith_step(
        before: &TextProto,
        after: &TextProto,
        verb: KeyVerb,
        key: Seq<u8>,
        amount: u64,
        initial: u64,
        expiration: u32,
        r: MemCachedResult<u64>,
    ) -> bool {
        &&& after.wf()
        &&& if before.poisoned || !valid_key(key) {
            before.turned_away(after, r)
        } else {
            let (o, w, q) = TextProto::arith_outcome(
                before.input@,
                before.pos as int,
                verb,
                key,
                amount,
                initial,
                expiration,
            );
            &&& after.input@ == before.input@
            &&& after.output@ == before.base() + w
            &&& after.pos == q
            &&& match o {
                Ok(n) => r == Ok::<u64, Error>(n),
                Err(e) => r is Err && r->Err_0@ == e,
            }
            &&& after.settled_poison(r)
            &&& after.settled_commit(before, r)
        }
    }

    fn arith(&mut self, verb: KeyVerb, key: &[u8], amount: u64, initial: u64, expiration: u32) -> (r:
        MemCachedResult<u64>)
        requires
            old(self).wf(),
            verb == KeyVerb::Incr || verb == KeyVerb::Decr,
        ensures
            TextProto::arith_step(old(self), final(self), verb, key@, amount, initial, expiration, r),
    {
        if self.poisoned {
            return Err(plain_error(Status::Poisoned));
        }
        if !check_key(key) {
            return Err(plain_error(Status::InvalidArgument));
        }
        self.restart();
        let r = self.arith_steps(verb, key, amount, initial, expiration);
        self.finish(&r);
        r
    }

    fn arith_steps(&mut self, verb: KeyVerb, key: &[u8], amount: u64, initial: u64, expiration: u32) -> (r:
        MemCachedResult<u64>)
        requires
            old(self).wf(),
            !old(self).poisoned,
            valid_key(key@),
            old(self).committed == old(self).output@.len(),
            verb == KeyVerb::Incr || verb == KeyVerb::Decr,
        ensures
            final(self).wf(),
            final(self).committed == old(self).committed,
            ({
                let (o, w, q) = TextProto::arith_outcome(
                    old(self).input@,
                    old(self).pos as int,
                    verb,
                    key@,
                    amount,
                    initial,
                    expiration,
                );
                &&& final(self).input@ == old(self).input@
                &&& final(self).output@ == old(self).output@ + w
                &&& final(self).pos == q
                &&& match o {
                    Ok(n) => r == Ok::<u64, Error>(n),
                    Err(e) => r is Err && r->Err_0@ == e,
                }
                &&& final(self).settled_poison(r)
            }),
    {
        let ghost s0 = self.input@;
        let ghost out0 = self.output@;
        let p0 = self.pos;
        let cmd = encode_key_command(verb, key, amount, false);
        let first = self.exchange_numeric(&cmd);
        let (st, d) = match first {
            Ok(n) => {
                return Ok(n);
            },
            Err(e) => e,
        };
        if st == Status::NeedMore {
            self.pos = p0;
            return Err(plain_error(Status::NeedMore));
        }
        if st != Status::NotFound {
            if st == Status::ProtocolError || st == Status::Io {
                self.poisoned = true;
            }
            return Err(error_of(st, d));
        }
        let mut text: Vec<u8> = Vec::new();
        push_dec(&mut text, initial);
        assert(text@ =~= dec(initial as nat));
        let add = encode_store(StoreVerb::Add, key, text.as_slice(), 0, expiration, 0, false);
        let (st2, d2) = self.exchange_raw_status(&add);
        assert(self.output@ =~= out0 + (cmd@ + add@));
        let out2 = if st2 == Status::Stored || st2 == Status::NotStored || st2 == Status::Exists
            || st2 == Status::NotFound || st2 == Status::ClientError || st2 == Status::ServerError
            || st2 == Status::ProtocolError || st2 == Status::NeedMore {
            st2
        } else {
            Status::ProtocolError
        };
        if out2 == Status::Stored {
            return Ok(initial);
        }
        if out2 == Status::NeedMore {
            self.pos = p0;
            return Err(plain_error(Status::NeedMore));
        }
        if out2 != Status::NotStored {
            if out2 == Status::ProtocolError {
                self.poisoned = true;
            }
            return Err(error_of(out2, d2));
        }
        let third = self.exchange_numeric(&cmd);
        assert(self.output@ =~= out0 + (cmd@ + add@ + cmd@));
        match third {
            Ok(n) => Ok(n),
            Err((st3, d3)) => {
                if st3 == Status::NeedMore {
                    self.pos = p0;
                }
                if st3 == Status::ProtocolError || st3 == Status::Io {
                    self.poisoned = true;
                }
                Err(error_of(st3, d3))
            },
        }
    }

    /// `incr`; `initial` is stored when the key is absent.
    pub fn increment(&mut self, key: &[u8], amount: u64, initial: u64, expiration: u32) -> (r:
        MemCachedResult<u64>)
        requires
            old(self).wf(),
        ensures
            TextProto::arith_step(
                old(self),
                final(self),
                KeyVerb::Incr,
                key@,
                amount,
                initial,
                expiration,
                r,
            ),
    {
        self.arith(KeyVerb::Incr, key, amount, initial, expiration)
    }

    /// `decr` (the server stops at zero); `initial` is stored when the key is
    /// absent.
    pub fn decrement(&mut self, key: &[u8], amount: u64, initial: u64, expiration: u32) -> (r:
        MemCachedResult<u64>)
        requires
            old(self).wf(),
        ensures
            TextProto::arith_step(
                old(self),
                final(self),
                KeyVerb::Decr,
                key@,
                amount,
                initial,
                expiration,
                r,
            ),
    {
        self.arith(KeyVerb::Decr, key, amount, initial, expiration)
    }

    /// The reply to `version` at `p`: the version `semver` reads from the
    /// text after `VERSION `, or the failure, and the position after it. Text
    /// that is no version is a protocol error that keeps the text.
    pub open spec fn version_outcome(s: Seq<u8>, p: int) -> (Result<
        (u64, u64, u64, Seq<char>, Seq<char>),
        (Status, Option<Seq<u8>>),
    >, int) {
        match header_at(s, p) {
            None => (Err((short_line(s, p), None)), p),
            Some((l, q)) => match version_reply(l) {
                Ok(v) => match semver_of(utf8_lossy(v)) {
                    Some(m) => (Ok(m), q),
                    None => (Err((Status::ProtocolError, Some(v))), q),
                },
                Err((st, d)) => (Err(err_view(st, d)), q),
            },
        }
    }

    /// `version`: the server's semantic version.
    pub fn version(&mut self) -> (r: MemCachedResult<Version>)
        requires
            old(self).wf(),
        ensures
            final(self).wf(),
            if old(self).poisoned {
                old(self).turned_away(final(self), r)
            } else {
                let (o, q) = TextProto::version_outcome(old(self).input@, old(self).pos as int);
                &&& final(self).input@ == old(self).input@
                &&& final(self).output@ == old(self).base() + bare_command(BareVerb::Version)
                &&& final(self).pos == q
                &&& match o {
                    Ok(m) => r is Ok && version_matches(r->Ok_0, m),
                    Err(e) => r is Err && r->Err_0@ == e,
                }
                &&& final(self).settled_poison(r)
                &&& final(self).settled_commit(old(self), r)
            },
    {
        if self.poisoned {
            return Err(plain_error(Status::Poisoned));
        }
        self.restart();
        let r = self.version_steps();
        self.finish(&r);
        r
    }

    fn version_steps(&mut self) -> (r: MemCachedResult<Version>)
        requires
            old(self).wf(),
            !old(self).poisoned,
            old(self).committed == old(self).output@.len(),
        ensures
            final(self).wf(),
            final(self).committed == old(self).committed,
            if old(self).poisoned {
                old(self).turned_away(final(self), r)
            } else {
                let (o, q) = TextProto::version_outcome(old(self).input@, old(self).pos as int);
                &&& final(self).input@ == old(self).input@
                &&& final(self).output@ == old(self).base() + bare_command(BareVerb::Version)
                &&& final(self).pos == q
                &&& match o {
                    Ok(m) => r is Ok && version_matches(r->Ok_0, m),
                    Err(e) => r is Err && r->Err_0@ == e,
                }
                &&& final(self).settled_poison(r)
            },
    {
        assert(old(self).base() =~= old(self).output@);
        let cmd = encode_bare(BareVerb::Version);
        self.send(&cmd);
        let ghost s = self.input@;
        let ghost p = self.pos as int;
        let (l, q) = match read_header(&self.input, self.pos) {
            None => {
                let st = missing_line(&self.input, self.pos);
                if st == Status::ProtocolError {
                    self.poisoned = true;
                }
                return Err(plain_error(st));
            },
            Some(h) => h,
        };
        proof {
            lemma_header_in_bounds(s, p);
        }
        self.pos = q;
        match parse_version_line(&l) {
            Ok(v) => {
                let text = lossy_text(v.as_slice());
                match parse_semver(text.as_str()) {
                    Some(ver) => Ok(ver),
                    None => {
                        self.poisoned = true;
                        Err(Error { status: Status::ProtocolError, detail: Some(v) })
                    },
                }
            },
            Err((st, d)) => {
                if st == Status::ProtocolError || st == Status::Io {
                    self.poisoned = true;
                }
                Err(error_of(st, d))
            },
        }
    }

    /// `stats`: the server's statistics, in the order it sent them.
    pub fn stat(&mut self) -> (r: MemCachedResult<Vec<(String, String)>>)
        requires
            old(self).wf(),
        ensures
            final(self).wf(),
            if old(self).poisoned {
                old(self).turned_away(final(self), r)
            } else {
                &&& final(self).input@ == old(self).input@
                &&& final(self).output@ == old(self).base() + bare_command(BareVerb::Stats)
                &&& match stats_from(old(self).input@, old(self).pos as int, Seq::empty()) {
                    Stream::Done(pairs, q) => {
                        &&& r is Ok
                        &&& final(self).pos == q
                        &&& r->Ok_0@.len() == pairs.len()
                        &&& forall|i: int|
                            0 <= i < pairs.len() ==> (#[trigger] r->Ok_0@[i]).0@ == utf8_lossy(
                                pairs[i].0,
                            ) && r->Ok_0@[i].1@ == utf8_lossy(pairs[i].1)
                    },
                    Stream::Fail(st, d, q) => r is Err && r->Err_0@ == err_view(st, d)
                        && final(self).pos == (if st == Status::NeedMore {
                        old(self).pos as int
                    } else {
                        q
                    }),
                }
                &&& final(self).settled_poison(r)
                &&& final(self).settled_commit(old(self), r)
            },
    {
        if self.poisoned {
            return Err(plain_error(Status::Poisoned));
        }
        self.restart();
        let r = self.stat_steps();
        self.finish(&r);
        r
    }

    fn stat_steps(&mut self) -> (r: MemCachedResult<Vec<(String, String)>>)
        requires
            old(self).wf(),
            !old(self).poisoned,
            old(self).committed == old(self).output@.len(),
        ensures
            final(self).wf(),
            final(self).committed == old(self).committed,
            if old(self).poisoned {
                old(self).turned_away(final(self), r)
            } else {
                &&& final(self).input@ == old(self).input@
                &&& final(self).output@ == old(self).base() + bare_command(BareVerb::Stats)
                &&& match stats_from(old(self).input@, old(self).pos as int, Seq::empty()) {
                    Stream::Done(pairs, q) => {
                        &&& r is Ok
                        &&& final(self).pos == q
                        &&& r->Ok_0@.len() == pairs.len()
                        &&& forall|i: int|
                            0 <= i < pairs.len() ==> (#[trigger] r->Ok_0@[i]).0@ == utf8_lossy(
                                pairs[i].0,
                            ) && r->Ok_0@[i].1@ == utf8_lossy(pairs[i].1)
                    },
                    Stream::Fail(st, d, q) => r is Err && r->Err_0@ == err_view(st, d)
                        && final(self).pos == (if st == Status::NeedMore {
                        old(self).pos as int
                    } else {
                        q
                    }),
                }
                &&& final(self).settled_poison(r)
            },
    {
        assert(old(self).base() =~= old(self).output@);
        let cmd = encode_bare(BareVerb::Stats);
        self.send(&cmd);
        proof {
            lemma_stats_bounds(self.input@, self.pos as int);
        }
        match parse_stats(&self.input, self.pos) {
            Ok((pairs, q)) => {
                self.pos = q;
                let mut out: Vec<(String, String)> = Vec::new();
                let mut i: usize = 0;
                while i < pairs.len()
                    invariant
                        i <= pairs@.len(),
                        out@.len() == i,
                        forall|j: int|
                            0 <= j < i ==> (#[trigger] out@[j]).0@ == utf8_lossy(pairs@[j].0@)
                                && out@[j].1@ == utf8_lossy(pairs@[j].1@),
                    decreases pairs@.len() - i,
                {
                    let name = lossy_text(pairs[i].0.as_slice());
                    let value = lossy_text(pairs[i].1.as_slice());
                    out.push((name, value));
                    i = i + 1;
                }
                proof {
                    assert forall|j: int| 0 <= j < pairs@.len() implies pair_views(pairs@)[j] == (
                        pairs@[j].0@,
                        pairs@[j].1@,
                    ) by {}
                }
                Ok(out)
            },
            Err((st, d, q)) => {
                if st != Status::NeedMore {
                    self.pos = q;
                }
                if st == Status::ProtocolError || st == Status::Io {
                    self.poisoned = true;
                }
                Err(error_of(st, d))
            },
        }
    }

    pub open spec fn conn(&self) -> Conn {
        (self.pos as int, self.base(), self.poisoned)
    }

    /// `set` for each entry in turn, in the caller's order; every entry is
    /// tried, and the keys that failed come back with their errors, in order.
    /// An entry whose reply has not fully arrived ends the call with a
    /// `NeedMore` failure; the call is then repeated from that entry.
    pub fn set_multi(&mut self, kv: &Vec<(Vec<u8>, Vec<u8>, u32, u32)>) -> (r: Result<
        (),
        Vec<(Vec<u8>, Error)>,
    >)
        requires
            old(self).wf(),
        ensures
            final(self).wf(),
            final(self).input@ == old(self).input@,
            final(self).conn() == set_all(old(self).input@, old(self).conn(), entry_views(kv@)).0,
            match r {
                Ok(_) => set_all(old(self).input@, old(self).conn(), entry_views(kv@)).1.len() == 0,
                Err(f) => f@.len() > 0 && failure_views(f@) == set_all(
                    old(self).input@,
                    old(self).conn(),
                    entry_views(kv@),
                ).1,
            },
    {
        let ghost s0 = self.input@;
        let ghost c0 = self.conn();
        let ghost ev = entry_views(kv@);
        let mut fails: Vec<(Vec<u8>, Error)> = Vec::new();
        let mut i: usize = 0;
        let mut stop = false;
        assert(ev.subrange(0, 0) =~= Seq::<(Seq<u8>, Seq<u8>, u32, u32)>::empty());
        assert(failure_views(fails@) =~= Seq::<Failure>::empty());
        while i < kv.len()
            invariant
                i <= kv@.len(),
                ev == entry_views(kv@),
                self.wf(),
                self.input@ == s0,
                stop == stopped(failure_views(fails@)),
                (self.conn(), failure_views(fails@)) == set_all(s0, c0, ev.subrange(0, i as int)),
            decreases kv@.len() - i,
        {
            let ghost before = self.conn();
            let ghost fv = failure_views(fails@);
            proof {
                let pre = ev.subrange(0, i as int);
                let next = ev.subrange(0, i + 1);
                assert(next.drop_last() =~= pre);
                assert(next.last() == (kv@[i as int].0@, kv@[i as int].1@, kv@[i as int].2, kv@[i as int].3));
            }
            if !stop {
                let r1 = self.set(kv[i].0.as_slice(), kv[i].1.as_slice(), kv[i].2, kv[i].3);
                match r1 {
                    Ok(_) => {},
                    Err(e) => {
                        stop = e.status == Status::NeedMore;
                        let mut k: Vec<u8> = Vec::new();
                        push_all(&mut k, kv[i].0.as_slice());
                        fails.push((k, e));
                        assert(failure_views(fails@) =~= fv.push((kv@[i as int].0@, e@)));
                    },
                }
            }
            i = i + 1;
        }
        assert(ev.subrange(0, i as int) =~= ev);
        if fails.len() == 0 {
            Ok(())
        } else {
            Err(fails)
        }
    }

    /// `delete` for each key in turn; every key is tried, and the keys that
    /// failed come back with their errors, in order. An entry whose reply has
    /// not fully arrived ends the call with a `NeedMore` failure; the call is
    /// then repeated from that entry.
    pub fn delete_multi(&mut self, keys: &Vec<Vec<u8>>) -> (r: Result<(), Vec<(Vec<u8>, Error)>>)
        requires
            old(self).wf(),
        ensures
            final(self).wf(),
            final(self).input@ == old(self).input@,
            final(self).conn() == delete_all(old(self).input@, old(self).conn(), key_views(keys@)).0,
            match r {
                Ok(_) => delete_all(old(self).input@, old(self).conn(), key_views(keys@)).1.len()
                    == 0,
                Err(f) => f@.len() > 0 && failure_views(f@) == delete_all(
                    old(self).input@,
                    old(self).conn(),
                    key_views(keys@),
                ).1,
            },
    {
        let ghost s0 = self.input@;
        let ghost c0 = self.conn();
        let ghost ks = key_views(keys@);
        let mut fails: Vec<(Vec<u8>, Error)> = Vec::new();
        let mut i: usize = 0;
        let mut stop = false;
        assert(ks.subrange(0, 0) =~= Seq::<Seq<u8>>::empty());
        assert(failure_views(fails@) =~= Seq::<Failure>::empty());
        while i < keys.len()
            invariant
                i <= keys@.len(),
                ks == key_views(keys@),
                self.wf(),
                self.input@ == s0,
                stop == stopped(failure_views(fails@)),
                (self.conn(), failure_views(fails@)) == delete_all(s0, c0, ks.subrange(0, i as int)),
            decreases keys@.len() - i,
        {
            let ghost fv = failure_views(fails@);
            proof {
                let pre = ks.subrange(0, i as int);
                let next = ks.subrange(0, i + 1);
                assert(next.drop_last() =~= pre);
                assert(next.last() == keys@[i as int]@);
            }
            if !stop {
                let r1 = self.delete(keys[i].as_slice());
                match r1 {
                    Ok(_) => {},
                    Err(e) => {
                        stop = e.status == Status::NeedMore;
                        let mut k: Vec<u8> = Vec::new();
                        push_all(&mut k, keys[i].as_slice());
                        fails.push((k, e));
                        assert(failure_views(fails@) =~= fv.push((keys@[i as int]@, e@)));
                    },
                }
            }
            i = i + 1;
        }
        assert(ks.subrange(0, i as int) =~= ks);
        if fails.len() == 0 {
            Ok(())
        } else {
            Err(fails)
        }
    }

    /// `incr` for each entry (key, amount, initial, expiration) in turn;
    /// every entry is tried. The new values when all succeeded, one per entry
    /// in the caller's order (a key given twice is counted twice), else the
    /// keys that failed with their errors, in order. An entry whose reply has
    /// not fully arrived ends the call with a `NeedMore` failure.
    pub fn increment_multi(&mut self, kv: &Vec<(Vec<u8>, u64, u64, u32)>) -> (r: Result<
        Vec<(Vec<u8>, u64)>,
        Vec<(Vec<u8>, Error)>,
    >)
        requires
            old(self).wf(),
        ensures
            final(self).wf(),
            final(self).input@ == old(self).input@,
            final(self).conn() == incr_all(old(self).input@, old(self).conn(), incr_views(kv@)).0,
            match r {
                Ok(v) => incr_all(old(self).input@, old(self).conn(), incr_views(kv@)).2.len() == 0
                    && counter_views(v@) == incr_all(
                    old(self).input@,
                    old(self).conn(),
                    incr_views(kv@),
                ).1,
                Err(f) => f@.len() > 0 && failure_views(f@) == incr_all(
                    old(self).input@,
                    old(self).conn(),
                    incr_views(kv@),
                ).2,
            },
    {
        let ghost s0 = self.input@;
        let ghost c0 = self.conn();
        let ghost ev = incr_views(kv@);
        let mut vals: Vec<(Vec<u8>, u64)> = Vec::new();
        let mut fails: Vec<(Vec<u8>, Error)> = Vec::new();
        let mut i: usize = 0;
        let mut stop = false;
        assert(ev.subrange(0, 0) =~= Seq::<(Seq<u8>, u64, u64, u32)>::empty());
        assert(failure_views(fails@) =~= Seq::<Failure>::empty());
        assert(counter_views(vals@) =~= Seq::<(Seq<u8>, u64)>::empty());
        while i < kv.len()
            invariant
                i <= kv@.len(),
                ev == incr_views(kv@),
                self.wf(),
                self.input@ == s0,
                stop == stopped(failure_views(fails@)),
                (self.conn(), counter_views(vals@), failure_views(fails@)) == incr_all(
                    s0,
                    c0,
                    ev.subrange(0, i as int),
                ),
            decreases kv@.len() - i,
        {
            let ghost fv = failure_views(fails@);
            let ghost cv = counter_views(vals@);
            proof {
                let pre = ev.subrange(0, i as int);
                let next = ev.subrange(0, i + 1);
                assert(next.drop_last() =~= pre);
                assert(next.last() == (kv@[i as int].0@, kv@[i as int].1, kv@[i as int].2, kv@[i as int].3));
            }
            if !stop {
                let r1 = self.increment(kv[i].0.as_slice(), kv[i].1, kv[i].2, kv[i].3);
                let mut k: Vec<u8> = Vec::new();
                push_all(&mut k, kv[i].0.as_slice());
                match r1 {
                    Ok(n) => {
                        vals.push((k, n));
                        assert(counter_views(vals@) =~= cv.push((kv@[i as int].0@, n)));
                    },
                    Err(e) => {
                        stop = e.status == Status::NeedMore;
                        fails.push((k, e));
                        assert(failure_views(fails@) =~= fv.push((kv@[i as int].0@, e@)));
                    },
                }
            }
            i = i + 1;
        }
        assert(ev.subrange(0, i as int) =~= ev);
        if fails.len() == 0 {
            Ok(vals)
        } else {
            Err(fails)
        }
    }
}

/// A step of a SASL exchange.
pub enum AuthResponse {
    Continue(Vec<u8>),
    Succeeded,
    Failed,
}

/// What a connection's state is, seen from a fixed input: read position,
/// bytes written, poisoned.
pub type Conn = (int, Seq<u8>, bool);

pub type Failure = (Seq<u8>, (Status, Option<Seq<u8>>));

/// One request that writes `cmd` and expects the status `success`; it is
/// turned away when the connection is poisoned or `args_ok` fails.
pub open spec fn write_model(s: Seq<u8>, c: Conn, args_ok: bool, cmd: Seq<u8>, success: Status) -> (
    Conn,
    Option<(Status, Option<Seq<u8>>)>,
) {
    if c.2 {
        (c, Some((Status::Poisoned, None)))
    } else if !args_ok {
        (c, Some((Status::InvalidArgument, None)))
    } else {
        let (x, d, q) = status_at(s, c.0);
        let out = settle(x, success);
        if out == Status::NeedMore {
            (c, Some((Status::NeedMore, None)))
        } else if out == success {
            ((q, c.1 + cmd, false), None)
        } else {
            ((q, c.1 + cmd, poisons(out)), Some(err_view(out, d)))
        }
    }
}

/// `set` for each entry in turn, collecting the keys that failed.
pub open spec fn set_all(s: Seq<u8>, c: Conn, kv: Seq<(Seq<u8>, Seq<u8>, u32, u32)>) -> (
    Conn,
    Seq<Failure>,
)
    decreases kv.len(),
{
    if kv.len() == 0 {
        (c, Seq::empty())
    } else {
        let (c1, fails) = set_all(s, c, kv.drop_last());
        let (k, v, f, x) = kv.last();
        if stopped(fails) {
            (c1, fails)
        } else {
        let (c2, e) = write_model(
            s,
            c1,
            valid_key(k) && v.len() <= MAX_VALUE,
            store_command(StoreVerb::SetCmd, k, v, f, x, 0, false),
            Status::Stored,
        );
        (
            c2,
            match e {
                Some(err) => fails.push((k, err)),
                None => fails,
            },
        )
        }
    }
}

/// `delete` for each key in turn, collecting the keys that failed.
pub open spec fn delete_all(s: Seq<u8>, c: Conn, keys: Seq<Seq<u8>>) -> (Conn, Seq<Failure>)
    decreases keys.len(),
{
    if keys.len() == 0 {
        (c, Seq::empty())
    } else {
        let (c1, fails) = delete_all(s, c, keys.drop_last());
        let k = keys.last();
        if stopped(fails) {
            (c1, fails)
        } else {
        let (c2, e) = write_model(
            s,
            c1,
            valid_key(k),
            key_command(KeyVerb::Delete, k, 0, false),
            Status::Deleted,
        );
        (
            c2,
            match e {
                Some(err) => fails.push((k, err)),
                None => fails,
            },
        )
        }
    }
}

/// One `incr` (with the `initial` emulation) on connection state `c`.
pub open spec fn incr_model(s: Seq<u8>, c: Conn, key: Seq<u8>, amount: u64, initial: u64, exp: u32) -> (
    Conn,
    Result<u64, (Status, Option<Seq<u8>>)>,
) {
    if c.2 {
        (c, Err((Status::Poisoned, None)))
    } else if !valid_key(key) {
        (c, Err((Status::InvalidArgument, None)))
    } else {
        let (o, w, q) = TextProto::arith_outcome(s, c.0, KeyVerb::Incr, key, amount, initial, exp);
        if o is Err && o->Err_0.0 == Status::NeedMore {
            (c, o)
        } else {
            ((q, c.1 + w, o is Err && poisons(o->Err_0.0)), o)
        }
    }
}

/// `incr` for each entry in turn: the new values and the failures, in order.
pub open spec fn incr_all(s: Seq<u8>, c: Conn, kv: Seq<(Seq<u8>, u64, u64, u32)>) -> (
    Conn,
    Seq<(Seq<u8>, u64)>,
    Seq<Failure>,
)
    decreases kv.len(),
{
    if kv.len() == 0 {
        (c, Seq::empty(), Seq::empty())
    } else {
        let (c1, vals, fails) = incr_all(s, c, kv.drop_last());
        let (k, a, init, x) = kv.last();
        if stopped(fails) {
            (c1, vals, fails)
        } else {
            let (c2, o) = incr_model(s, c1, k, a, init, x);
            match o {
                Ok(n) => (c2, vals.push((k, n)), fails),
                Err(err) => (c2, vals, fails.push((k, err))),
            }
        }
    }
}

pub open spec fn counter_views(v: Seq<(Vec<u8>, u64)>) -> Seq<(Seq<u8>, u64)> {
    v.map_values(|e: (Vec<u8>, u64)| (e.0@, e.1))
}

pub open spec fn incr_views(v: Seq<(Vec<u8>, u64, u64, u32)>) -> Seq<(Seq<u8>, u64, u64, u32)> {
    v.map_values(|e: (Vec<u8>, u64, u64, u32)| (e.0@, e.1, e.2, e.3))
}

/// The last failure is an entry whose reply has not fully arrived: nothing
/// after it is sent, and the call is to be repeated from that entry.
pub open spec fn stopped(fails: Seq<Failure>) -> bool {
    fails.len() > 0 && (fails.last().1).0 == Status::NeedMore
}

pub open spec fn failure_views(v: Seq<(Vec<u8>, Error)>) -> Seq<Failure> {
    v.map_values(|f: (Vec<u8>, Error)| (f.0@, f.1@))
}

pub open spec fn entry_views(v: Seq<(Vec<u8>, Vec<u8>, u32, u32)>) -> Seq<(Seq<u8>, Seq<u8>, u32, u32)> {
    v.map_values(|e: (Vec<u8>, Vec<u8>, u32, u32)| (e.0@, e.1@, e.2, e.3))
}

/// The `VALUE` line a server sends for an item.
pub open spec fn value_line(key: Seq<u8>, flags: u32, len: nat) -> Seq<u8> {
    tok_value() + seq![SP] + key + seq![SP] + dec(flags as nat) + seq![SP] + dec(len)
}

/// The server's reply to `get` for one item holding `value`.
pub open spec fn value_reply(key: Seq<u8>, value: Seq<u8>, flags: u32) -> Seq<u8> {
    value_line(key, flags, value.len()) + crlf() + value + crlf() + tok_end() + crlf()
}

proof fn lemma_piece(s: Seq<u8>, p: int, m: Seq<u8>, a: int, b: int)
    requires
        0 <= p,
        p + m.len() <= s.len(),
        s.subrange(p, p + m.len()) == m,
        0 <= a <= b <= m.len(),
    ensures
        s.subrange(p + a, p + b) == m.subrange(a, b),
        forall|j: int| a <= j < b ==> s[p + j] == m[j],
{
    assert forall|j: int| a <= j < b implies s[p + j] == m[j] by {
        assert(s.subrange(p, p + m.len())[j] == s[p + j]);
    }
    assert(s.subrange(p + a, p + b) =~= m.subrange(a, b));
}

proof fn lemma_digits_plain(n: nat)
    ensures
        no_space(dec(n)),
        ascii(dec(n)),
        forall|i: int| 0 <= i < dec(n).len() ==> dec(n)[i] != CR && dec(n)[i] != LF,
{
    lemma_dec_digits(n);
    assert forall|i: int| 0 <= i < dec(n).len() implies dec(n)[i] != SP && dec(n)[i] < 128 && dec(
        n,
    )[i] != CR && dec(n)[i] != LF by {
        assert(is_digit(dec(n)[i]));
    }
}

proof fn lemma_number_of_dec(n: nat, max: nat)
    requires
        n <= max,
    ensures
        number(dec(n), max) == Some(n),
{
    lemma_dec_digits(n);
    lemma_dec_round_trip(n);
}

proof fn lemma_stored_line(s: Seq<u8>, p: int)
    requires
        0 <= p,
        p + 8 <= s.len(),
        s.subrange(p, p + 8) == tok_stored() + crlf(),
    ensures
        status_at(s, p) == (Status::Stored, Seq::<u8>::empty(), p + 8),
{
    let m = tok_stored() + crlf();
    lemma_piece(s, p, m, 0, 6);
    assert(m.subrange(0, 6) =~= tok_stored());
    assert(s[p + 6] == m[6] && s[p + 7] == m[7]);
    assert(ascii(tok_stored()));
    assert forall|i: int| 0 <= i < tok_stored().len() implies tok_stored()[i] != CR by {}
    lemma_header_of(s, p, tok_stored());
}

proof fn lemma_end_line(s: Seq<u8>, p: int)
    requires
        0 <= p,
        p + 5 <= s.len(),
        s.subrange(p, p + 5) == tok_end() + crlf(),
    ensures
        header_at(s, p) == Some((tok_end(), p + 5)),
{
    let m = tok_end() + crlf();
    lemma_piece(s, p, m, 0, 3);
    assert(m.subrange(0, 3) =~= tok_end());
    assert(s[p + 3] == m[3] && s[p + 4] == m[4]);
    assert(ascii(tok_end()));
    assert forall|i: int| 0 <= i < tok_end().len() implies tok_end()[i] != CR by {}
    lemma_header_of(s, p, tok_end());
}

/// The words of a `VALUE` line and what they say.
proof fn lemma_value_line(key: Seq<u8>, flags: u32, n: nat)
    requires
        valid_key(key),
        ascii(key),
        n <= MAX_VALUE,
    ensures
        ascii(value_line(key, flags, n)),
        forall|i: int| 0 <= i < value_line(key, flags, n).len() ==> value_line(key, flags, n)[i] != CR,
        value_line(key, flags, n).len() <= MAX_LINE,
        value_header(value_line(key, flags, n), false) == Some((key, flags, n, 0u64)),
        error_reply(value_line(key, flags, n)) is None,
        value_line(key, flags, n) != tok_end(),
{
    let l = value_line(key, flags, n);
    let ll = l.len() as int;
    lemma_digits_plain(flags as nat);
    lemma_digits_plain(n);
    assert((flags as nat) < pow10(10)) by {
        reveal_with_fuel(pow10, 11);
    }
    assert(n < pow10(7)) by {
        reveal_with_fuel(pow10, 8);
    }
    lemma_dec_len(flags as nat, 10);
    lemma_dec_len(n, 7);
    let kl = key.len() as int;
    let fl = dec(flags as nat).len() as int;
    let nl = dec(n).len() as int;
    assert(ll == 8 + kl + fl + nl);
    assert forall|i: int| 0 <= i < ll implies l[i] != CR && l[i] < 128 by {
        if 6 <= i < 6 + kl {
            assert(l[i] == key[i - 6]);
        } else if 7 + kl <= i < 7 + kl + fl {
            assert(l[i] == dec(flags as nat)[i - 7 - kl]);
        } else if 8 + kl + fl <= i {
            assert(l[i] == dec(n)[i - 8 - kl - fl]);
        }
    }
    assert(l.subrange(0, 5) =~= tok_value());
    assert(l.subrange(6, 6 + kl) =~= key);
    assert(l.subrange(7 + kl, 7 + kl + fl) =~= dec(flags as nat));
    assert(l.subrange(8 + kl + fl, 8 + kl + fl + nl) =~= dec(n));
    assert(no_space(tok_value()));
    assert(no_space(key));
    lemma_split_word(l, 0, tok_value(), Seq::empty());
    lemma_split_word(l, 6, key, Seq::<Seq<u8>>::empty().push(tok_value()));
    lemma_split_word(l, 7 + kl, dec(flags as nat), Seq::<Seq<u8>>::empty().push(tok_value()).push(key));
    lemma_split_last(
        l,
        8 + kl + fl,
        dec(n),
        Seq::<Seq<u8>>::empty().push(tok_value()).push(key).push(dec(flags as nat)),
    );
    let w = seq![tok_value(), key, dec(flags as nat), dec(n)];
    assert(words(l) =~= w);
    lemma_number_of_dec(flags as nat, u32::MAX as nat);
    lemma_number_of_dec(n, MAX_VALUE as nat);
    assert(l[0] == 86u8);
    assert(!starts(l, tok_client_error())) by {
        if starts(l, tok_client_error()) {
            assert(l.subrange(0, 13)[0] == l[0]);
        }
    }
    assert(!starts(l, tok_server_error())) by {
        if starts(l, tok_server_error()) {
            assert(l.subrange(0, 13)[0] == l[0]);
        }
    }
    assert(l != tok_error()) by {
        assert(l.len() != tok_error().len());
    }
    assert(l != tok_end()) by {
        assert(l.len() != tok_end().len());
    }
}

/// The reply to `get` for one item parses back to that item.
proof fn lemma_value_reply(s: Seq<u8>, p: int, key: Seq<u8>, value: Seq<u8>, flags: u32)
    requires
        valid_key(key),
        ascii(key),
        value.len() <= MAX_VALUE,
        0 <= p,
        p + value_reply(key, value, flags).len() <= s.len(),
        s.subrange(p, p + value_reply(key, value, flags).len()) == value_reply(key, value, flags),
    ensures
        values_from(s, p, false, Seq::empty()) == Stream::Done(
            seq![(key, value, flags, 0u64)],
            p + value_reply(key, value, flags).len(),
        ),
{
    let ni = value.len() as int;
    let l = value_line(key, flags, value.len());
    let ll = l.len() as int;
    let m = value_reply(key, value, flags);
    lemma_value_line(key, flags, value.len());
    assert(m.subrange(0, ll) =~= l);
    lemma_piece(s, p, m, 0, ll + 2);
    lemma_piece(s, p, m, 0, ll);
    assert(m[ll] == CR && m[ll + 1] == LF);
    lemma_header_of(s, p, l);
    let d = p + ll + 2;
    assert(m.subrange(ll + 2, ll + 2 + ni) =~= value);
    lemma_piece(s, p, m, ll + 2, ll + 4 + ni);
    lemma_piece(s, p, m, ll + 2, ll + 2 + ni);
    assert(m[ll + 2 + ni] == CR && m[ll + 3 + ni] == LF);
    let e = d + ni + 2;
    assert(m.subrange(ll + 4 + ni, ll + 9 + ni) =~= tok_end() + crlf());
    lemma_piece(s, p, m, ll + 4 + ni, ll + 9 + ni);
    lemma_end_line(s, e);
    assert(!has_key(Seq::empty(), key));
    let items = seq![(key, value, flags, 0u64)];
    assert(Seq::<ItemModel>::empty().push((key, s.subrange(d, d + ni), flags, 0u64)) =~= items);
    assert(values_from(s, e, false, items) == Stream::Done(items, e + 5));
}

/// Set, then get: when the server acknowledges a `set` with `STORED` and then
/// answers `get` with the item as stored, the `set` settles as success and
/// the `get` yields exactly the value and flags that were sent. Keys with
/// bytes outside ASCII are left out: a header line holding one is refused.
pub proof fn lemma_set_get_round_trip(
    s: Seq<u8>,
    p: int,
    key: Seq<u8>,
    value: Seq<u8>,
    flags: u32,
)
    requires
        valid_key(key),
        ascii(key),
        value.len() <= MAX_VALUE,
        0 <= p,
        p + 8 + value_reply(key, value, flags).len() <= s.len(),
        s.subrange(p, p + 8 + value_reply(key, value, flags).len()) == tok_stored() + crlf()
            + value_reply(key, value, flags),
    ensures
        status_at(s, p) == (Status::Stored, Seq::<u8>::empty(), p + 8),
        settle(status_at(s, p).0, Status::Stored) == Status::Stored,
        TextProto::single_outcome(s, p + 8, key, false) == (
            Ok::<ItemModel, (Status, Option<Seq<u8>>)>((key, value, flags, 0u64)),
            p + 8 + value_reply(key, value, flags).len(),
        ),
{
    let vr = value_reply(key, value, flags);
    let m = tok_stored() + crlf() + vr;
    lemma_piece(s, p, m, 0, 8);
    assert(m.subrange(0, 8) =~= tok_stored() + crlf());
    lemma_stored_line(s, p);
    let vl = vr.len() as int;
    lemma_piece(s, p, m, 8, 8 + vl);
    assert(m.subrange(8, 8 + vl) =~= vr);
    lemma_value_reply(s, p + 8, key, value, flags);
}

} // verus!
