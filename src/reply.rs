//! Framing and parsing of server replies.
use vstd::prelude::*;
use crate::error::Status;
use crate::wire::{CR, LF, SP, dec_value, all_digits, is_digit, valid_key, check_key};

verus! {

/// Longest header line accepted.
pub const MAX_LINE: usize = 65536;

/// Largest value block accepted.
pub const MAX_VALUE: usize = 1048576;

/// Index of the first CRLF at or after `p`.
pub open spec fn line_end(s: Seq<u8>, p: int) -> Option<int>
    decreases s.len() - p,
{
    if p < 0 || p + 1 >= s.len() {
        None
    } else if s[p] == CR && s[p + 1] == LF {
        Some(p)
    } else {
        line_end(s, p + 1)
    }
}

pub open spec fn ascii(s: Seq<u8>) -> bool {
    forall|i: int| 0 <= i < s.len() ==> #[trigger] s[i] < 128
}

/// The header line starting at `p` and the position after its CRLF, when a
/// complete line of at most `MAX_LINE` ASCII bytes is there.
pub open spec fn header_at(s: Seq<u8>, p: int) -> Option<(Seq<u8>, int)> {
    match line_end(s, p) {
        Some(e) => {
            let l = s.subrange(p, e);
            if l.len() <= MAX_LINE && ascii(l) {
                Some((l, e + 2))
            } else {
                None
            }
        },
        None => None,
    }
}

pub proof fn lemma_line_end_bounds(s: Seq<u8>, p: int)
    ensures
        line_end(s, p) is Some ==> p <= line_end(s, p)->0 && line_end(s, p)->0 + 2 <= s.len()
            && s[line_end(s, p)->0] == CR && s[line_end(s, p)->0 + 1] == LF,
    decreases s.len() - p,
{
    if p >= 0 && p + 1 < s.len() {
        if !(s[p] == CR && s[p + 1] == LF) {
            lemma_line_end_bounds(s, p + 1);
            assert(line_end(s, p) == line_end(s, p + 1));
        } else {
            assert(line_end(s, p) == Some(p));
        }
    } else {
        assert(line_end(s, p) is None);
    }
}

/// Reads the header line at `p`.
pub fn read_header(s: &Vec<u8>, p: usize) -> (r: Option<(Vec<u8>, usize)>)
    ensures
        match header_at(s@, p as int) {
            Some((l, q)) => r is Some && (r->0).0@ == l && (r->0).1 == q,
            None => r is None,
        },
{
    proof {
        lemma_line_end_bounds(s@, p as int);
    }
    if p >= s.len() {
        assert(line_end(s@, p as int) is None);
        return None;
    }
    let mut i: usize = p;
    while i < s.len() - 1 && !(s[i] == CR && s[i + 1] == LF)
        invariant
            p <= i <= s@.len(),
            p < s@.len(),
            line_end(s@, p as int) == line_end(s@, i as int),
        decreases s@.len() - i,
    {
        i = i + 1;
    }
    if i >= s.len() - 1 {
        assert(line_end(s@, i as int) is None);
        return None;
    }
    assert(line_end(s@, p as int) == Some(i as int));
    if i - p > MAX_LINE {
        return None;
    }
    let mut line: Vec<u8> = Vec::new();
    let mut j: usize = p;
    while j < i
        invariant
            p <= j <= i,
            i + 1 < s@.len(),
            line@ == s@.subrange(p as int, j as int),
            forall|k: int| p <= k < j ==> s@[k] < 128,
            line_end(s@, p as int) == Some(i as int),
        decreases i - j,
    {
        if s[j] >= 128 {
            proof {
                assert(s@.subrange(p as int, i as int)[j - p] == s@[j as int]);
                assert(!ascii(s@.subrange(p as int, i as int)));
                assert(header_at(s@, p as int) is None);
            }
            return None;
        }
        line.push(s[j]);
        j = j + 1;
        assert(line@ =~= s@.subrange(p as int, j as int));
    }
    proof {
        assert(ascii(line@));
        assert(line@ == s@.subrange(p as int, i as int));
        assert(header_at(s@, p as int) == Some((line@, i + 2)));
    }
    Some((line, i + 2))
}

/// Why no header could be read at `p`: the line has not fully arrived yet,
/// or it arrived and breaks the framing rules.
pub open spec fn short_line(s: Seq<u8>, p: int) -> Status {
    if line_end(s, p) is None {
        Status::NeedMore
    } else {
        Status::ProtocolError
    }
}

/// Tells an unfinished line from a malformed one.
pub fn missing_line(s: &Vec<u8>, p: usize) -> (r: Status)
    ensures
        r == short_line(s@, p as int),
{
    if p >= s.len() {
        return Status::NeedMore;
    }
    let mut i: usize = p;
    while i < s.len() - 1 && !(s[i] == CR && s[i + 1] == LF)
        invariant
            p <= i <= s@.len(),
            p < s@.len(),
            line_end(s@, p as int) == line_end(s@, i as int),
        decreases s@.len() - i,
    {
        i = i + 1;
    }
    if i >= s.len() - 1 {
        Status::NeedMore
    } else {
        Status::ProtocolError
    }
}

/// Splits `s` at spaces, from index `i`, with the word under way `cur` and the
/// words already complete `acc`.
pub open spec fn split_from(s: Seq<u8>, i: int, cur: Seq<u8>, acc: Seq<Seq<u8>>) -> Seq<Seq<u8>>
    decreases s.len() - i,
{
    if i < 0 || i >= s.len() {
        acc.push(cur)
    } else if s[i] == SP {
        split_from(s, i + 1, Seq::empty(), acc.push(cur))
    } else {
        split_from(s, i + 1, cur.push(s[i]), acc)
    }
}

/// The space-separated words of a line; two adjacent spaces give an empty word.
pub open spec fn words(s: Seq<u8>) -> Seq<Seq<u8>> {
    split_from(s, 0, Seq::empty(), Seq::empty())
}

pub open spec fn views(v: Seq<Vec<u8>>) -> Seq<Seq<u8>> {
    v.map_values(|w: Vec<u8>| w@)
}

/// Splits a line into its space-separated words.
pub fn split_words(s: &Vec<u8>) -> (r: Vec<Vec<u8>>)
    ensures
        views(r@) == words(s@),
{
    let mut acc: Vec<Vec<u8>> = Vec::new();
    let mut cur: Vec<u8> = Vec::new();
    let mut i: usize = 0;
    assert(views(acc@) =~= Seq::<Seq<u8>>::empty());
    assert(cur@ =~= Seq::<u8>::empty());
    while i < s.len()
        invariant
            i <= s@.len(),
            words(s@) == split_from(s@, i as int, cur@, views(acc@)),
        decreases s@.len() - i,
    {
        if s[i] == SP {
            let ghost before = acc@;
            let ghost word = cur@;
            acc.push(cur);
            cur = Vec::new();
            assert(views(acc@) =~= views(before).push(word));
            assert(cur@ =~= Seq::<u8>::empty());
        } else {
            cur.push(s[i]);
        }
        i = i + 1;
    }
    let ghost before = acc@;
    let ghost word = cur@;
    acc.push(cur);
    assert(views(acc@) =~= views(before).push(word));
    acc
}

/// A decimal number of at most `max`: one or more digits.
pub open spec fn number(s: Seq<u8>, max: nat) -> Option<nat> {
    if 1 <= s.len() && all_digits(s) && dec_value(s) <= max {
        Some(dec_value(s))
    } else {
        None
    }
}

proof fn lemma_dec_value_grows(s: Seq<u8>, i: int)
    requires
        0 <= i <= s.len(),
        all_digits(s),
    ensures
        dec_value(s.subrange(0, i)) <= dec_value(s),
    decreases s.len() - i,
{
    if i < s.len() {
        lemma_dec_value_grows(s, i + 1);
        assert(s.subrange(0, i + 1).drop_last() =~= s.subrange(0, i));
        assert(is_digit(s[i]));
    }
    else {
        assert(s.subrange(0, i) =~= s);
    }
}

/// Parses a decimal number of at most `max`.
pub fn parse_number(s: &[u8], max: u64) -> (r: Option<u64>)
    ensures
        match number(s@, max as nat) {
            Some(n) => r == Some(n as u64),
            None => r is None,
        },
{
    if s.len() == 0 {
        return None;
    }
    let mut acc: u64 = 0;
    let mut i: usize = 0;
    while i < s.len()
        invariant
            i <= s@.len(),
            1 <= s@.len(),
            acc as nat == dec_value(s@.subrange(0, i as int)),
            acc <= max,
            all_digits(s@.subrange(0, i as int)),
        decreases s@.len() - i,
    {
        let b = s[i];
        if b < 48 || b > 57 {
            assert(!is_digit(s@[i as int]));
            return None;
        }
        let d: u64 = (b - 48) as u64;
        proof {
            assert(s@.subrange(0, i + 1).drop_last() =~= s@.subrange(0, i as int));
            assert(all_digits(s@.subrange(0, i + 1))) by {
                assert forall|k: int| 0 <= k < i + 1 implies is_digit(
                    #[trigger] s@.subrange(0, i + 1)[k],
                ) by {
                    if k < i {
                        assert(s@.subrange(0, i + 1)[k] == s@.subrange(0, i as int)[k]);
                    }
                }
            }
        }
        if d > max || acc > (max - d) / 10 {
            proof {
                if d <= max {
                    assert(acc * 10 + d > max) by (nonlinear_arith)
                        requires
                            acc > (max - d) / 10,
                            d <= max,
                    ;
                }
                assert(dec_value(s@.subrange(0, i + 1)) == acc * 10 + d);
                if all_digits(s@) {
                    lemma_dec_value_grows(s@, i + 1);
                }
            }
            return None;
        }
        assert(acc * 10 + d <= max) by (nonlinear_arith)
            requires
                acc <= (max - d) / 10,
                d <= max,
        ;
        acc = acc * 10 + d;
        i = i + 1;
    }
    assert(s@.subrange(0, i as int) =~= s@);
    Some(acc)
}

// Reply tokens.
pub open spec fn tok_stored() -> Seq<u8> {
    seq![83u8, 84, 79, 82, 69, 68]
}

pub open spec fn tok_not_stored() -> Seq<u8> {
    seq![78u8, 79, 84, 95, 83, 84, 79, 82, 69, 68]
}

pub open spec fn tok_exists() -> Seq<u8> {
    seq![69u8, 88, 73, 83, 84, 83]
}

pub open spec fn tok_not_found() -> Seq<u8> {
    seq![78u8, 79, 84, 95, 70, 79, 85, 78, 68]
}

pub open spec fn tok_deleted() -> Seq<u8> {
    seq![68u8, 69, 76, 69, 84, 69, 68]
}

pub open spec fn tok_touched() -> Seq<u8> {
    seq![84u8, 79, 85, 67, 72, 69, 68]
}

pub open spec fn tok_ok() -> Seq<u8> {
    seq![79u8, 75]
}

pub open spec fn tok_error() -> Seq<u8> {
    seq![69u8, 82, 82, 79, 82]
}

pub open spec fn tok_client_error() -> Seq<u8> {
    seq![67u8, 76, 73, 69, 78, 84, 95, 69, 82, 82, 79, 82, 32]
}

pub open spec fn tok_server_error() -> Seq<u8> {
    seq![83u8, 69, 82, 86, 69, 82, 95, 69, 82, 82, 79, 82, 32]
}

pub open spec fn tok_end() -> Seq<u8> {
    seq![69u8, 78, 68]
}

pub open spec fn tok_value() -> Seq<u8> {
    seq![86u8, 65, 76, 85, 69]
}

pub open spec fn tok_stat() -> Seq<u8> {
    seq![83u8, 84, 65, 84]
}

pub open spec fn tok_version() -> Seq<u8> {
    seq![86u8, 69, 82, 83, 73, 79, 78, 32]
}

fn bytes_stored() -> (r: Vec<u8>)
    ensures
        r@ == tok_stored(),
{
    vec![83u8, 84, 79, 82, 69, 68]
}

fn bytes_not_stored() -> (r: Vec<u8>)
    ensures
        r@ == tok_not_stored(),
{
    vec![78u8, 79, 84, 95, 83, 84, 79, 82, 69, 68]
}

fn bytes_exists() -> (r: Vec<u8>)
    ensures
        r@ == tok_exists(),
{
    vec![69u8, 88, 73, 83, 84, 83]
}

fn bytes_not_found() -> (r: Vec<u8>)
    ensures
        r@ == tok_not_found(),
{
    vec![78u8, 79, 84, 95, 70, 79, 85, 78, 68]
}

fn bytes_deleted() -> (r: Vec<u8>)
    ensures
        r@ == tok_deleted(),
{
    vec![68u8, 69, 76, 69, 84, 69, 68]
}

fn bytes_touched() -> (r: Vec<u8>)
    ensures
        r@ == tok_touched(),
{
    vec![84u8, 79, 85, 67, 72, 69, 68]
}

fn bytes_ok() -> (r: Vec<u8>)
    ensures
        r@ == tok_ok(),
{
    vec![79u8, 75]
}

fn bytes_error() -> (r: Vec<u8>)
    ensures
        r@ == tok_error(),
{
    vec![69u8, 82, 82, 79, 82]
}

fn bytes_client_error() -> (r: Vec<u8>)
    ensures
        r@ == tok_client_error(),
{
    vec![67u8, 76, 73, 69, 78, 84, 95, 69, 82, 82, 79, 82, 32]
}

fn bytes_server_error() -> (r: Vec<u8>)
    ensures
        r@ == tok_server_error(),
{
    vec![83u8, 69, 82, 86, 69, 82, 95, 69, 82, 82, 79, 82, 32]
}

fn bytes_end() -> (r: Vec<u8>)
    ensures
        r@ == tok_end(),
{
    vec![69u8, 78, 68]
}

fn bytes_value() -> (r: Vec<u8>)
    ensures
        r@ == tok_value(),
{
    vec![86u8, 65, 76, 85, 69]
}

fn bytes_stat() -> (r: Vec<u8>)
    ensures
        r@ == tok_stat(),
{
    vec![83u8, 84, 65, 84]
}

fn bytes_version() -> (r: Vec<u8>)
    ensures
        r@ == tok_version(),
{
    vec![86u8, 69, 82, 83, 73, 79, 78, 32]
}

/// `pre` is a prefix of `l`.
pub open spec fn starts(l: Seq<u8>, pre: Seq<u8>) -> bool {
    pre.len() <= l.len() && l.subrange(0, pre.len() as int) == pre
}

/// Byte-wise equality.
pub fn bytes_eq(a: &[u8], b: &[u8]) -> (r: bool)
    ensures
        r == (a@ == b@),
{
    if a.len() != b.len() {
        return false;
    }
    let mut i: usize = 0;
    while i < a.len()
        invariant
            i <= a@.len(),
            a@.len() == b@.len(),
            forall|k: int| 0 <= k < i ==> a@[k] == b@[k],
        decreases a@.len() - i,
    {
        if a[i] != b[i] {
            return false;
        }
        i = i + 1;
    }
    assert(a@ =~= b@);
    true
}

/// Whether `l` begins with `pre`.
pub fn starts_with(l: &[u8], pre: &[u8]) -> (r: bool)
    ensures
        r == starts(l@, pre@),
{
    if pre.len() > l.len() {
        return false;
    }
    let mut i: usize = 0;
    while i < pre.len()
        invariant
            i <= pre@.len() <= l@.len(),
            forall|k: int| 0 <= k < i ==> l@[k] == pre@[k],
        decreases pre@.len() - i,
    {
        if l[i] != pre[i] {
            assert(l@.subrange(0, pre@.len() as int)[i as int] != pre@[i as int]);
            return false;
        }
        i = i + 1;
    }
    assert(l@.subrange(0, pre@.len() as int) =~= pre@);
    true
}

/// The bytes of `l` from index `k` on.
pub fn tail_from(l: &[u8], k: usize) -> (r: Vec<u8>)
    requires
        k <= l@.len(),
    ensures
        r@ == l@.subrange(k as int, l@.len() as int),
{
    let mut out: Vec<u8> = Vec::new();
    let mut i: usize = k;
    while i < l.len()
        invariant
            k <= i <= l@.len(),
            out@ == l@.subrange(k as int, i as int),
        decreases l@.len() - i,
    {
        out.push(l[i]);
        i = i + 1;
        assert(out@ =~= l@.subrange(k as int, i as int));
    }
    out
}

/// An error line: `ERROR`, `CLIENT_ERROR <msg>` or `SERVER_ERROR <msg>`, with
/// the status it stands for and the message.
pub open spec fn error_reply(l: Seq<u8>) -> Option<(Status, Seq<u8>)> {
    if l == tok_error() {
        Some((Status::ProtocolError, Seq::empty()))
    } else if starts(l, tok_client_error()) {
        Some((Status::ClientError, l.subrange(13, l.len() as int)))
    } else if starts(l, tok_server_error()) {
        Some((Status::ServerError, l.subrange(13, l.len() as int)))
    } else {
        None
    }
}

/// What a one-line status reply means.
pub open spec fn status_reply(l: Seq<u8>) -> (Status, Seq<u8>) {
    if l == tok_stored() {
        (Status::Stored, Seq::empty())
    } else if l == tok_not_stored() {
        (Status::NotStored, Seq::empty())
    } else if l == tok_exists() {
        (Status::Exists, Seq::empty())
    } else if l == tok_not_found() {
        (Status::NotFound, Seq::empty())
    } else if l == tok_deleted() {
        (Status::Deleted, Seq::empty())
    } else if l == tok_touched() {
        (Status::Touched, Seq::empty())
    } else if l == tok_ok() {
        (Status::Okay, Seq::empty())
    } else {
        match error_reply(l) {
            Some(e) => e,
            None => (Status::ProtocolError, Seq::empty()),
        }
    }
}

/// Recognises an error line.
pub fn parse_error_line(l: &Vec<u8>) -> (r: Option<(Status, Vec<u8>)>)
    ensures
        match error_reply(l@) {
            Some((st, d)) => r is Some && (r->0).0 == st && (r->0).1@ == d,
            None => r is None,
        },
{
    if bytes_eq(l.as_slice(), bytes_error().as_slice()) {
        return Some((Status::ProtocolError, Vec::new()));
    }
    if starts_with(l.as_slice(), bytes_client_error().as_slice()) {
        return Some((Status::ClientError, tail_from(l.as_slice(), 13)));
    }
    if starts_with(l.as_slice(), bytes_server_error().as_slice()) {
        return Some((Status::ServerError, tail_from(l.as_slice(), 13)));
    }
    None
}

/// Decodes a one-line status reply.
pub fn parse_status_line(l: &Vec<u8>) -> (r: (Status, Vec<u8>))
    ensures
        r.0 == status_reply(l@).0,
        r.1@ == status_reply(l@).1,
{
    let ls = l.as_slice();
    if bytes_eq(ls, bytes_stored().as_slice()) {
        return (Status::Stored, Vec::new());
    }
    if bytes_eq(ls, bytes_not_stored().as_slice()) {
        return (Status::NotStored, Vec::new());
    }
    if bytes_eq(ls, bytes_exists().as_slice()) {
        return (Status::Exists, Vec::new());
    }
    if bytes_eq(ls, bytes_not_found().as_slice()) {
        return (Status::NotFound, Vec::new());
    }
    if bytes_eq(ls, bytes_deleted().as_slice()) {
        return (Status::Deleted, Vec::new());
    }
    if bytes_eq(ls, bytes_touched().as_slice()) {
        return (Status::Touched, Vec::new());
    }
    if bytes_eq(ls, bytes_ok().as_slice()) {
        return (Status::Okay, Vec::new());
    }
    match parse_error_line(l) {
        Some(e) => e,
        None => (Status::ProtocolError, Vec::new()),
    }
}

/// What a reply to `incr`/`decr` means: the new counter value, or a status.
pub open spec fn numeric_reply(l: Seq<u8>) -> Result<u64, (Status, Seq<u8>)> {
    match number(l, u64::MAX as nat) {
        Some(n) => Ok(n as u64),
        None => if l == tok_not_found() {
            Err((Status::NotFound, Seq::empty()))
        } else {
            match error_reply(l) {
                Some(e) => Err(e),
                None => Err((Status::ProtocolError, Seq::empty())),
            }
        },
    }
}

/// Decodes a reply to `incr`/`decr`.
pub fn parse_numeric_line(l: &Vec<u8>) -> (r: Result<u64, (Status, Vec<u8>)>)
    ensures
        match numeric_reply(l@) {
            Ok(n) => r == Ok::<u64, (Status, Vec<u8>)>(n),
            Err((st, d)) => r is Err && (r->Err_0).0 == st && (r->Err_0).1@ == d,
        },
{
    match parse_number(l.as_slice(), u64::MAX) {
        Some(n) => Ok(n),
        None => {
            if bytes_eq(l.as_slice(), bytes_not_found().as_slice()) {
                return Err((Status::NotFound, Vec::new()));
            }
            match parse_error_line(l) {
                Some(e) => Err(e),
                None => Err((Status::ProtocolError, Vec::new())),
            }
        },
    }
}

/// What a reply to `version` means: the version text, or a status.
pub open spec fn version_reply(l: Seq<u8>) -> Result<Seq<u8>, (Status, Seq<u8>)> {
    if starts(l, tok_version()) {
        Ok(l.subrange(8, l.len() as int))
    } else {
        match error_reply(l) {
            Some(e) => Err(e),
            None => Err((Status::ProtocolError, Seq::empty())),
        }
    }
}

/// Decodes a reply to `version`.
pub fn parse_version_line(l: &Vec<u8>) -> (r: Result<Vec<u8>, (Status, Vec<u8>)>)
    ensures
        match version_reply(l@) {
            Ok(v) => r is Ok && r->Ok_0@ == v,
            Err((st, d)) => r is Err && (r->Err_0).0 == st && (r->Err_0).1@ == d,
        },
{
    if starts_with(l.as_slice(), bytes_version().as_slice()) {
        return Ok(tail_from(l.as_slice(), 8));
    }
    match parse_error_line(l) {
        Some(e) => Err(e),
        None => Err((Status::ProtocolError, Vec::new())),
    }
}

/// Where a multi-line reply ended: its result and the position after it, or
/// the status it failed with, that status's message and the position after
/// the line that ended it.
pub enum Stream<T> {
    Done(T, int),
    Fail(Status, Seq<u8>, int),
}

/// One entry of a `VALUE` stream: key, data, flags, CAS token.
pub type ItemModel = (Seq<u8>, Seq<u8>, u32, u64);

/// A value returned by the server.
#[derive(Clone, Debug)]
pub struct Item {
    pub key: Vec<u8>,
    pub data: Vec<u8>,
    pub flags: u32,
    pub cas: u64,
}

impl Item {
    pub open spec fn view(&self) -> ItemModel {
        (self.key@, self.data@, self.flags, self.cas)
    }
}

pub open spec fn item_views(v: Seq<Item>) -> Seq<ItemModel> {
    v.map_values(|i: Item| i.view())
}

pub open spec fn has_key(acc: Seq<ItemModel>, key: Seq<u8>) -> bool {
    exists|j: int| 0 <= j < acc.len() && (#[trigger] acc[j]).0 == key
}

/// The fields of a `VALUE <key> <flags> <bytes> [<cas>]` line: key, flags,
/// byte count and CAS token (0 where none is expected).
pub open spec fn value_header(l: Seq<u8>, with_cas: bool) -> Option<(Seq<u8>, u32, nat, u64)> {
    let w = words(l);
    if w.len() == (if with_cas {
        5int
    } else {
        4int
    }) && w[0] == tok_value() && valid_key(w[1]) && number(w[2], u32::MAX as nat) is Some
        && number(w[3], MAX_VALUE as nat) is Some && (!with_cas || number(
        w[4],
        u64::MAX as nat,
    ) is Some) {
        Some(
            (
                w[1],
                number(w[2], u32::MAX as nat)->0 as u32,
                number(w[3], MAX_VALUE as nat)->0,
                if with_cas {
                    number(w[4], u64::MAX as nat)->0 as u64
                } else {
                    0u64
                },
            ),
        )
    } else {
        None
    }
}

/// A `VALUE ... END` stream read from `p`, after the entries `acc`. Each
/// entry's block is exactly the declared count of bytes and a CRLF; a key
/// seen twice, a malformed line or a premature end is a protocol error; an
/// error line ends the stream with its status.
pub open spec fn values_from(s: Seq<u8>, p: int, with_cas: bool, acc: Seq<ItemModel>) -> Stream<
    Seq<ItemModel>,
>
    decreases s.len() - p,
{
    match header_at(s, p) {
        None => Stream::Fail(short_line(s, p), Seq::empty(), p),
        Some((l, q)) => if l == tok_end() {
            Stream::Done(acc, q)
        } else if error_reply(l) is Some {
            Stream::Fail((error_reply(l)->0).0, (error_reply(l)->0).1, q)
        } else {
            match value_header(l, with_cas) {
                None => Stream::Fail(short_line(s, p), Seq::empty(), p),
                Some((key, flags, n, cas)) => if p < q && q + n + 2 <= s.len() && s[q + n] == CR
                    && s[q + n + 1] == LF && !has_key(acc, key) {
                    values_from(
                        s,
                        q + n + 2,
                        with_cas,
                        acc.push((key, s.subrange(q, q + n), flags, cas)),
                    )
                } else if q + n + 2 > s.len() {
                    Stream::Fail(Status::NeedMore, Seq::empty(), p)
                } else {
                    Stream::Fail(Status::ProtocolError, Seq::empty(), p)
                },
            }
        },
    }
}

/// A `VALUE` stream ends within the bytes received.
pub proof fn lemma_values_end(s: Seq<u8>, p: int, with_cas: bool, acc: Seq<ItemModel>)
    requires
        0 <= p <= s.len(),
    ensures
        values_from(s, p, with_cas, acc) matches Stream::Done(_, q) ==> q <= s.len(),
        values_from(s, p, with_cas, acc) matches Stream::Fail(_, _, q) ==> q <= s.len(),
    decreases s.len() - p,
{
    lemma_line_end_bounds(s, p);
    match header_at(s, p) {
        None => {},
        Some((l, q)) => {
            if l != tok_end() && error_reply(l) is None {
                match value_header(l, with_cas) {
                    None => {},
                    Some((key, flags, n, cas)) => {
                        if p < q && q + n + 2 <= s.len() && s[q + n] == CR && s[q + n + 1] == LF
                            && !has_key(acc, key) {
                            lemma_values_end(
                                s,
                                q + n + 2,
                                with_cas,
                                acc.push((key, s.subrange(q, q + n), flags, cas)),
                            );
                        }
                    },
                }
            }
        },
    }
}

fn copy_range(s: &Vec<u8>, a: usize, b: usize) -> (r: Vec<u8>)
    requires
        a <= b <= s@.len(),
    ensures
        r@ == s@.subrange(a as int, b as int),
{
    let mut out: Vec<u8> = Vec::new();
    let mut i: usize = a;
    while i < b
        invariant
            a <= i <= b <= s@.len(),
            out@ == s@.subrange(a as int, i as int),
        decreases b - i,
    {
        out.push(s[i]);
        i = i + 1;
        assert(out@ =~= s@.subrange(a as int, i as int));
    }
    out
}

fn find_key(items: &Vec<Item>, key: &Vec<u8>) -> (r: bool)
    ensures
        r == has_key(item_views(items@), key@),
{
    let mut i: usize = 0;
    while i < items.len()
        invariant
            i <= items@.len(),
            forall|j: int| 0 <= j < i ==> items@[j].key@ != key@,
        decreases items@.len() - i,
    {
        if bytes_eq(items[i].key.as_slice(), key.as_slice()) {
            assert(item_views(items@)[i as int].0 == key@);
            return true;
        }
        i = i + 1;
    }
    assert forall|j: int| 0 <= j < item_views(items@).len() implies (#[trigger] item_views(
        items@,
    )[j]).0 != key@ by {
        assert(item_views(items@)[j].0 == items@[j].key@);
    }
    false
}

/// Decodes the fields of a `VALUE` line.
fn parse_value_header(l: &Vec<u8>, with_cas: bool) -> (r: Option<(Vec<u8>, u32, usize, u64)>)
    ensures
        match value_header(l@, with_cas) {
            Some((k, f, n, c)) => r is Some && (r->0).0@ == k && (r->0).1 == f && (r->0).2 == n
                && (r->0).3 == c,
            None => r is None,
        },
{
    let w = split_words(l);
    let want: usize = if with_cas {
        5
    } else {
        4
    };
    if w.len() != want {
        return None;
    }
    assert(views(w@)[0] == w@[0]@);
    assert(views(w@)[1] == w@[1]@);
    assert(views(w@)[2] == w@[2]@);
    assert(views(w@)[3] == w@[3]@);
    if !bytes_eq(w[0].as_slice(), bytes_value().as_slice()) {
        return None;
    }
    if !check_key(w[1].as_slice()) {
        return None;
    }
    let flags = match parse_number(w[2].as_slice(), 4294967295u64) {
        Some(f) => f as u32,
        None => {
            return None;
        },
    };
    let n = match parse_number(w[3].as_slice(), MAX_VALUE as u64) {
        Some(n) => n as usize,
        None => {
            return None;
        },
    };
    let mut cas: u64 = 0;
    if with_cas {
        assert(views(w@)[4] == w@[4]@);
        match parse_number(w[4].as_slice(), u64::MAX) {
            Some(c) => {
                cas = c;
            },
            None => {
                return None;
            },
        }
    }
    Some((w[1].clone(), flags, n, cas))
}

/// Decodes a `VALUE ... END` stream starting at `p0`.
pub fn parse_values(s: &Vec<u8>, p0: usize, with_cas: bool) -> (r: Result<
    (Vec<Item>, usize),
    (Status, Vec<u8>, usize),
>)
    ensures
        match values_from(s@, p0 as int, with_cas, Seq::empty()) {
            Stream::Done(items, q) => r is Ok && item_views((r->Ok_0).0@) == items && (r->Ok_0).1
                == q,
            Stream::Fail(st, d, q) => r is Err && (r->Err_0).0 == st && (r->Err_0).1@ == d && (r->Err_0).2
                == q,
        },
{
    let mut items: Vec<Item> = Vec::new();
    let mut p: usize = p0;
    assert(item_views(items@) =~= Seq::<ItemModel>::empty());
    loop
        invariant
            values_from(s@, p0 as int, with_cas, Seq::empty()) == values_from(
                s@,
                p as int,
                with_cas,
                item_views(items@),
            ),
        decreases s@.len() - p,
    {
        proof {
            lemma_line_end_bounds(s@, p as int);
        }
        let (l, q) = match read_header(s, p) {
            Some(h) => h,
            None => {
                return Err((missing_line(s, p), Vec::new(), p));
            },
        };
        if bytes_eq(l.as_slice(), bytes_end().as_slice()) {
            return Ok((items, q));
        }
        match parse_error_line(&l) {
            Some(e) => {
                return Err((e.0, e.1, q));
            },
            None => {},
        }
        let (key, flags, n, cas) = match parse_value_header(&l, with_cas) {
            Some(h) => h,
            None => {
                return Err((Status::ProtocolError, Vec::new(), p));
            },
        };
        if n > s.len() - q || s.len() - q - n < 2 {
            return Err((Status::NeedMore, Vec::new(), p));
        }
        if s[q + n] != CR || s[q + n + 1] != LF {
            return Err((Status::ProtocolError, Vec::new(), p));
        }
        if find_key(&items, &key) {
            return Err((Status::ProtocolError, Vec::new(), p));
        }
        let data = copy_range(s, q, q + n);
        let ghost before = items@;
        let item = Item { key, data, flags, cas };
        items.push(item);
        assert(item_views(items@) =~= item_views(before).push(
            (key@, s@.subrange(q as int, q + n), flags, cas),
        ));
        p = q + n + 2;
    }
}

/// A `STAT <name> <value> ... END` stream read from `p`, after the pairs
/// `acc`, in the order the server sent them.
pub open spec fn stats_from(s: Seq<u8>, p: int, acc: Seq<(Seq<u8>, Seq<u8>)>) -> Stream<
    Seq<(Seq<u8>, Seq<u8>)>,
>
    decreases s.len() - p,
{
    match header_at(s, p) {
        None => Stream::Fail(short_line(s, p), Seq::empty(), p),
        Some((l, q)) => if l == tok_end() {
            Stream::Done(acc, q)
        } else if error_reply(l) is Some {
            Stream::Fail((error_reply(l)->0).0, (error_reply(l)->0).1, q)
        } else if words(l).len() == 3 && words(l)[0] == tok_stat() && p < q && q <= s.len() {
            stats_from(s, q, acc.push((words(l)[1], words(l)[2])))
        } else {
            Stream::Fail(Status::ProtocolError, Seq::empty(), p)
        },
    }
}

/// A `STAT` stream ends within the bytes received.
pub proof fn lemma_stats_end(s: Seq<u8>, p: int, acc: Seq<(Seq<u8>, Seq<u8>)>)
    requires
        0 <= p <= s.len(),
    ensures
        stats_from(s, p, acc) matches Stream::Done(_, q) ==> q <= s.len(),
        stats_from(s, p, acc) matches Stream::Fail(_, _, q) ==> q <= s.len(),
    decreases s.len() - p,
{
    lemma_line_end_bounds(s, p);
    match header_at(s, p) {
        None => {},
        Some((l, q)) => {
            if l != tok_end() && error_reply(l) is None && words(l).len() == 3 && words(l)[0]
                == tok_stat() && p < q && q <= s.len() {
                lemma_stats_end(s, q, acc.push((words(l)[1], words(l)[2])));
            }
        },
    }
}

pub open spec fn pair_views(v: Seq<(Vec<u8>, Vec<u8>)>) -> Seq<(Seq<u8>, Seq<u8>)> {
    v.map_values(|e: (Vec<u8>, Vec<u8>)| (e.0@, e.1@))
}

/// Decodes a `STAT ... END` stream starting at `p0`.
pub fn parse_stats(s: &Vec<u8>, p0: usize) -> (r: Result<
    (Vec<(Vec<u8>, Vec<u8>)>, usize),
    (Status, Vec<u8>, usize),
>)
    ensures
        match stats_from(s@, p0 as int, Seq::empty()) {
            Stream::Done(st, q) => r is Ok && pair_views((r->Ok_0).0@) == st && (r->Ok_0).1 == q,
            Stream::Fail(st, d, q) => r is Err && (r->Err_0).0 == st && (r->Err_0).1@ == d && (r->Err_0).2
                == q,
        },
{
    let mut pairs: Vec<(Vec<u8>, Vec<u8>)> = Vec::new();
    let mut p: usize = p0;
    assert(pair_views(pairs@) =~= Seq::<(Seq<u8>, Seq<u8>)>::empty());
    loop
        invariant
            stats_from(s@, p0 as int, Seq::empty()) == stats_from(
                s@,
                p as int,
                pair_views(pairs@),
            ),
        decreases s@.len() - p,
    {
        proof {
            lemma_line_end_bounds(s@, p as int);
        }
        let (l, q) = match read_header(s, p) {
            Some(h) => h,
            None => {
                return Err((missing_line(s, p), Vec::new(), p));
            },
        };
        if bytes_eq(l.as_slice(), bytes_end().as_slice()) {
            return Ok((pairs, q));
        }
        match parse_error_line(&l) {
            Some(e) => {
                return Err((e.0, e.1, q));
            },
            None => {},
        }
        let w = split_words(&l);
        if w.len() != 3 {
            return Err((Status::ProtocolError, Vec::new(), p));
        }
        assert(views(w@)[0] == w@[0]@);
        assert(views(w@)[1] == w@[1]@);
        assert(views(w@)[2] == w@[2]@);
        if !bytes_eq(w[0].as_slice(), bytes_stat().as_slice()) {
            return Err((Status::ProtocolError, Vec::new(), p));
        }
        let name = w[1].clone();
        let value = w[2].clone();
        let ghost before = pairs@;
        pairs.push((name, value));
        assert(pair_views(pairs@) =~= pair_views(before).push((w@[1]@, w@[2]@)));
        p = q;
    }
}

/// A line whose bytes hold no CR is read whole, up to the CRLF that follows it.
pub proof fn lemma_line_end_at(s: Seq<u8>, p: int, e: int)
    requires
        0 <= p <= e,
        e + 1 < s.len(),
        s[e] == CR,
        s[e + 1] == LF,
        forall|i: int| p <= i < e ==> s[i] != CR,
    ensures
        line_end(s, p) == Some(e),
    decreases e - p,
{
    if p < e {
        lemma_line_end_at(s, p + 1, e);
    }
}

/// A short ASCII line without CR, followed by CRLF, is the header at `p`.
pub proof fn lemma_header_of(s: Seq<u8>, p: int, l: Seq<u8>)
    requires
        0 <= p,
        p + l.len() + 1 < s.len(),
        s.subrange(p, p + l.len()) == l,
        s[p + l.len()] == CR,
        s[p + l.len() + 1] == LF,
        forall|i: int| 0 <= i < l.len() ==> l[i] != CR,
        ascii(l),
        l.len() <= MAX_LINE,
    ensures
        header_at(s, p) == Some((l, p + l.len() + 2)),
{
    assert forall|i: int| p <= i < p + l.len() implies s[i] != CR by {
        assert(s[i] == s.subrange(p, p + l.len())[i - p]);
    }
    lemma_line_end_at(s, p, p + l.len());
}

/// Bytes without a space extend the word under way.
pub proof fn lemma_split_run(s: Seq<u8>, i: int, k: int, cur: Seq<u8>, acc: Seq<Seq<u8>>)
    requires
        0 <= i,
        0 <= k,
        i + k <= s.len(),
        forall|j: int| i <= j < i + k ==> s[j] != SP,
    ensures
        split_from(s, i, cur, acc) == split_from(s, i + k, cur + s.subrange(i, i + k), acc),
    decreases k,
{
    if k == 0 {
        assert(cur + s.subrange(i, i) =~= cur);
    } else {
        lemma_split_run(s, i + 1, k - 1, cur.push(s[i]), acc);
        assert(cur.push(s[i]) + s.subrange(i + 1, i + k) =~= cur + s.subrange(i, i + k));
    }
}

pub open spec fn no_space(w: Seq<u8>) -> bool {
    forall|i: int| 0 <= i < w.len() ==> w[i] != SP
}

/// A word followed by a space.
pub proof fn lemma_split_word(s: Seq<u8>, i: int, w: Seq<u8>, acc: Seq<Seq<u8>>)
    requires
        0 <= i,
        i + w.len() < s.len(),
        s.subrange(i, i + w.len()) == w,
        no_space(w),
        s[i + w.len()] == SP,
    ensures
        split_from(s, i, Seq::empty(), acc) == split_from(s, i + w.len() + 1, Seq::empty(), acc.push(w)),
{
    assert forall|j: int| i <= j < i + w.len() implies s[j] != SP by {
        assert(s[j] == s.subrange(i, i + w.len())[j - i]);
    }
    lemma_split_run(s, i, w.len() as int, Seq::empty(), acc);
    assert(Seq::<u8>::empty() + w =~= w);
}

/// The last word of a line.
pub proof fn lemma_split_last(s: Seq<u8>, i: int, w: Seq<u8>, acc: Seq<Seq<u8>>)
    requires
        0 <= i,
        i + w.len() == s.len(),
        s.subrange(i, i + w.len()) == w,
        no_space(w),
    ensures
        split_from(s, i, Seq::empty(), acc) == acc.push(w),
{
    assert forall|j: int| i <= j < i + w.len() implies s[j] != SP by {
        assert(s[j] == s.subrange(i, i + w.len())[j - i]);
    }
    lemma_split_run(s, i, w.len() as int, Seq::empty(), acc);
    assert(Seq::<u8>::empty() + w =~= w);
}

/// Some `VALUE` line of the reply from `p` on names `key`.
pub open spec fn named_in_reply(s: Seq<u8>, p: int, key: Seq<u8>, with_cas: bool) -> bool {
    exists|a: int, b: int|
        p <= a < b <= s.len() && #[trigger] value_header(s.subrange(a, b), with_cas) is Some && (
        value_header(s.subrange(a, b), with_cas)->0).0 == key
}

pub open spec fn distinct_keys(items: Seq<ItemModel>) -> bool {
    forall|i: int, j: int| 0 <= i < j < items.len() ==> items[i].0 != items[j].0
}

/// Multi-get results form a map: a `VALUE` stream that parses holds each key
/// at most once, and every entry after those already read (`acc`) stands in
/// the reply as a `VALUE` line followed by its block.
pub proof fn lemma_values_are_a_map(s: Seq<u8>, p: int, with_cas: bool, acc: Seq<ItemModel>)
    requires
        0 <= p,
        distinct_keys(acc),
    ensures
        values_from(s, p, with_cas, acc) matches Stream::Done(items, _) ==> {
            &&& distinct_keys(items)
            &&& items.len() >= acc.len()
            &&& items.subrange(0, acc.len() as int) == acc
            &&& forall|j: int|
                acc.len() <= j < items.len() ==> named_in_reply(
                    s,
                    p,
                    (#[trigger] items[j]).0,
                    with_cas,
                )
        },
    decreases s.len() - p,
{
    lemma_line_end_bounds(s, p);
    match header_at(s, p) {
        None => {},
        Some((l, q)) => {
            if l == tok_end() {
                assert(acc.subrange(0, acc.len() as int) =~= acc);
            } else if error_reply(l) is None {
                match value_header(l, with_cas) {
                    None => {},
                    Some((key, flags, n, cas)) => {
                        if p < q && q + n + 2 <= s.len() && s[q + n] == CR && s[q + n + 1] == LF
                            && !has_key(acc, key) {
                            let it = (key, s.subrange(q, q + n), flags, cas);
                            let acc2 = acc.push(it);
                            assert forall|i: int, j: int|
                                0 <= i < j < acc2.len() implies acc2[i].0 != acc2[j].0 by {
                                if j == acc.len() {
                                    assert(acc2[i] == acc[i]);
                                    assert(!(acc[i].0 == key));
                                }
                            }
                            lemma_values_are_a_map(s, q + n + 2, with_cas, acc2);
                            match values_from(s, q + n + 2, with_cas, acc2) {
                                Stream::Done(items, _) => {
                                    assert(items.subrange(0, acc.len() as int) =~= acc2.subrange(
                                        0,
                                        acc.len() as int,
                                    ));
                                    assert(acc2.subrange(0, acc.len() as int) =~= acc);
                                    assert(items[acc.len() as int] == acc2[acc.len() as int]);
                                    let e = (q - 2) as int;
                                    assert(s.subrange(p, e) == l);
                                    assert forall|j: int|
                                        acc.len() <= j < items.len() implies named_in_reply(
                                        s,
                                        p,
                                        (#[trigger] items[j]).0,
                                        with_cas,
                                    ) by {
                                        if j == acc.len() {
                                            assert(value_header(s.subrange(p, e), with_cas) is Some);
                                        } else {
                                            assert(named_in_reply(s, q + n + 2, items[j].0, with_cas));
                                            let (a, b) = choose|a: int, b: int|
                                                q + n + 2 <= a < b <= s.len() && #[trigger] value_header(
                                                    s.subrange(a, b),
                                                    with_cas,
                                                ) is Some && (value_header(s.subrange(a, b), with_cas)->0).0
                                                    == items[j].0;
                                            assert(value_header(s.subrange(a, b), with_cas) is Some);
                                        }
                                    }
                                },
                                Stream::Fail(..) => {},
                            }
                        }
                    },
                }
            }
        },
    }
}

} // verus!
