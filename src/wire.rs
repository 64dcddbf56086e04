//! Command encoding for the memcached text protocol.
use vstd::prelude::*;

verus! {

pub const CR: u8 = 13;
pub const LF: u8 = 10;
pub const SP: u8 = 32;
pub const MAX_KEY_LEN: usize = 250;

/// The two-byte line terminator.
pub open spec fn crlf() -> Seq<u8> {
    seq![CR, LF]
}

/// A key is 1..=250 bytes and holds no space, CR or LF.
pub open spec fn valid_key(k: Seq<u8>) -> bool {
    &&& 1 <= k.len() <= MAX_KEY_LEN
    &&& forall|i: int| 0 <= i < k.len() ==> k[i] != SP && k[i] != CR && k[i] != LF
}

/// Decimal digits of `n`, most significant first, without leading zeros.
pub open spec fn dec(n: nat) -> Seq<u8>
    decreases n,
{
    if n < 10 {
        seq![(48 + n) as u8]
    } else {
        dec(n / 10).push((48 + n % 10) as u8)
    }
}

/// Value of a string of decimal digits.
pub open spec fn dec_value(s: Seq<u8>) -> nat
    decreases s.len(),
{
    if s.len() == 0 {
        0
    } else {
        dec_value(s.drop_last()) * 10 + (s.last() - 48) as nat
    }
}

pub open spec fn is_digit(b: u8) -> bool {
    48 <= b <= 57
}

pub open spec fn all_digits(s: Seq<u8>) -> bool {
    forall|i: int| 0 <= i < s.len() ==> is_digit(#[trigger] s[i])
}

pub proof fn lemma_dec_digits(n: nat)
    ensures
        dec(n).len() >= 1,
        all_digits(dec(n)),
    decreases n,
{
    if n >= 10 {
        lemma_dec_digits(n / 10);
        assert forall|i: int| 0 <= i < dec(n).len() implies is_digit(#[trigger] dec(n)[i]) by {
            if i < dec(n).len() - 1 {
                assert(dec(n)[i] == dec(n / 10)[i]);
            }
        }
    }
}

/// Printing a number in decimal and reading it back gives the number.
pub proof fn lemma_dec_round_trip(n: nat)
    ensures
        dec_value(dec(n)) == n,
    decreases n,
{
    if n < 10 {
        assert(dec(n).drop_last() =~= Seq::<u8>::empty());
        assert(dec(n).last() == (48 + n) as u8);
        assert(dec_value(dec(n)) == dec_value(Seq::<u8>::empty()) * 10 + (dec(n).last() - 48) as nat);
    } else {
        lemma_dec_round_trip(n / 10);
        assert(dec(n).drop_last() =~= dec(n / 10));
        assert(dec(n).last() == (48 + n % 10) as u8);
        assert(dec(n).last() - 48 == n % 10);
        assert(dec_value(dec(n)) == dec_value(dec(n / 10)) * 10 + n % 10);
        assert((n / 10) * 10 + n % 10 == n) by (nonlinear_arith);
    }
}

pub open spec fn pow10(k: nat) -> nat
    decreases k,
{
    if k == 0 {
        1
    } else {
        10 * pow10((k - 1) as nat)
    }
}

/// A number below `10^k` has at most `k` digits.
pub proof fn lemma_dec_len(n: nat, k: nat)
    requires
        n < pow10(k),
        1 <= k,
    ensures
        dec(n).len() <= k,
    decreases n,
{
    if n >= 10 {
        if k == 1 {
            assert(pow10(1) == 10) by {
                reveal_with_fuel(pow10, 2);
            }
        } else {
            let k1 = (k - 1) as nat;
            assert(pow10(k) == 10 * pow10(k1));
            assert(n / 10 < pow10(k1)) by (nonlinear_arith)
                requires
                    n < 10 * pow10(k1),
            ;
            lemma_dec_len(n / 10, k1);
        }
    }
}

/// Appends the decimal digits of `n`.
pub fn push_dec(out: &mut Vec<u8>, n: u64)
    ensures
        final(out)@ == old(out)@ + dec(n as nat),
    decreases n,
{
    if n >= 10 {
        push_dec(out, n / 10);
    }
    let d: u8 = (n % 10) as u8;
    out.push(48 + d);
    proof {
        if n >= 10 {
            assert(dec(n as nat) == dec((n / 10) as nat).push((48 + n % 10) as u8));
        }
        assert(final(out)@ =~= old(out)@ + dec(n as nat));
    }
}

/// Appends every byte of `s`.
pub fn push_all(out: &mut Vec<u8>, s: &[u8])
    ensures
        final(out)@ == old(out)@ + s@,
{
    let ghost start = out@;
    let mut i: usize = 0;
    while i < s.len()
        invariant
            i <= s@.len(),
            out@ == start + s@.subrange(0, i as int),
        decreases s@.len() - i,
    {
        out.push(s[i]);
        i = i + 1;
        assert(out@ =~= start + s@.subrange(0, i as int));
    }
    assert(s@.subrange(0, i as int) =~= s@);
}

/// Checks the key rules: 1..=250 bytes, no space, CR or LF.
pub fn check_key(k: &[u8]) -> (r: bool)
    ensures
        r == valid_key(k@),
{
    if k.len() < 1 || k.len() > MAX_KEY_LEN {
        return false;
    }
    let mut i: usize = 0;
    while i < k.len()
        invariant
            i <= k@.len(),
            forall|j: int| 0 <= j < i ==> k@[j] != SP && k@[j] != CR && k@[j] != LF,
        decreases k@.len() - i,
    {
        if k[i] == SP || k[i] == CR || k[i] == LF {
            return false;
        }
        i = i + 1;
    }
    true
}

/// The storage commands of the text protocol.
#[derive(PartialEq, Eq, Structural, Clone, Copy, Debug)]
pub enum StoreVerb {
    SetCmd,
    Add,
    Replace,
    Append,
    Prepend,
    Cas,
}

pub open spec fn verb_name(v: StoreVerb) -> Seq<u8> {
    match v {
        StoreVerb::SetCmd => seq![115u8, 101, 116],
        StoreVerb::Add => seq![97u8, 100, 100],
        StoreVerb::Replace => seq![114u8, 101, 112, 108, 97, 99, 101],
        StoreVerb::Append => seq![97u8, 112, 112, 101, 110, 100],
        StoreVerb::Prepend => seq![112u8, 114, 101, 112, 101, 110, 100],
        StoreVerb::Cas => seq![99u8, 97, 115],
    }
}

/// The literal ` noreply` suffix, when asked for.
pub open spec fn noreply_suffix(noreply: bool) -> Seq<u8> {
    if noreply {
        seq![SP, 110u8, 111, 114, 101, 112, 108, 121]
    } else {
        Seq::empty()
    }
}

/// Header line (without its terminator) of a storage command.
pub open spec fn store_header(
    verb: StoreVerb,
    key: Seq<u8>,
    flags: u32,
    exptime: u32,
    len: nat,
    cas: u64,
    noreply: bool,
) -> Seq<u8> {
    verb_name(verb) + seq![SP] + key + seq![SP] + dec(flags as nat) + seq![SP] + dec(exptime as nat)
        + seq![SP] + dec(len) + (if verb == StoreVerb::Cas {
        seq![SP] + dec(cas as nat)
    } else {
        Seq::empty()
    }) + noreply_suffix(noreply)
}

/// A storage command: header, CRLF, the value, CRLF.
pub open spec fn store_command(
    verb: StoreVerb,
    key: Seq<u8>,
    value: Seq<u8>,
    flags: u32,
    exptime: u32,
    cas: u64,
    noreply: bool,
) -> Seq<u8> {
    store_header(verb, key, flags, exptime, value.len(), cas, noreply) + crlf() + value + crlf()
}

fn push_verb(out: &mut Vec<u8>, v: StoreVerb)
    ensures
        final(out)@ == old(out)@ + verb_name(v),
{
    let ghost start = out@;
    match v {
        StoreVerb::SetCmd => {
            out.push(115);
            out.push(101);
            out.push(116);
        },
        StoreVerb::Add => {
            out.push(97);
            out.push(100);
            out.push(100);
        },
        StoreVerb::Replace => {
            out.push(114);
            out.push(101);
            out.push(112);
            out.push(108);
            out.push(97);
            out.push(99);
            out.push(101);
        },
        StoreVerb::Append => {
            out.push(97);
            out.push(112);
            out.push(112);
            out.push(101);
            out.push(110);
            out.push(100);
        },
        StoreVerb::Prepend => {
            out.push(112);
            out.push(114);
            out.push(101);
            out.push(112);
            out.push(101);
            out.push(110);
            out.push(100);
        },
        StoreVerb::Cas => {
            out.push(99);
            out.push(97);
            out.push(115);
        },
    }
    assert(out@ =~= start + verb_name(v));
}

fn push_noreply(out: &mut Vec<u8>, noreply: bool)
    ensures
        final(out)@ == old(out)@ + noreply_suffix(noreply),
{
    let ghost start = out@;
    if noreply {
        out.push(SP);
        out.push(110);
        out.push(111);
        out.push(114);
        out.push(101);
        out.push(112);
        out.push(108);
        out.push(121);
    }
    assert(out@ =~= start + noreply_suffix(noreply));
}

fn push_crlf(out: &mut Vec<u8>)
    ensures
        final(out)@ == old(out)@ + crlf(),
{
    out.push(CR);
    out.push(LF);
    assert(final(out)@ =~= old(out)@ + crlf());
}

/// Encodes a storage command (`set`, `add`, `replace`, `append`, `prepend`,
/// `cas`); the CAS token is written only for `cas`.
pub fn encode_store(
    verb: StoreVerb,
    key: &[u8],
    value: &[u8],
    flags: u32,
    exptime: u32,
    cas: u64,
    noreply: bool,
) -> (r: Vec<u8>)
    ensures
        r@ == store_command(verb, key@, value@, flags, exptime, cas, noreply),
{
    let mut out: Vec<u8> = Vec::new();
    push_verb(&mut out, verb);
    out.push(SP);
    push_all(&mut out, key);
    out.push(SP);
    push_dec(&mut out, flags as u64);
    out.push(SP);
    push_dec(&mut out, exptime as u64);
    out.push(SP);
    push_dec(&mut out, value.len() as u64);
    let ghost before_cas = out@;
    if verb == StoreVerb::Cas {
        out.push(SP);
        push_dec(&mut out, cas);
    }
    assert(out@ =~= before_cas + (if verb == StoreVerb::Cas {
        seq![SP] + dec(cas as nat)
    } else {
        Seq::empty()
    }));
    push_noreply(&mut out, noreply);
    assert(out@ =~= store_header(verb, key@, flags, exptime, value@.len(), cas, noreply));
    push_crlf(&mut out);
    push_all(&mut out, value);
    push_crlf(&mut out);
    assert(out@ =~= store_command(verb, key@, value@, flags, exptime, cas, noreply));
    out
}

/// Commands that name one key and may carry a number.
#[derive(PartialEq, Eq, Structural, Clone, Copy, Debug)]
pub enum KeyVerb {
    Delete,
    Incr,
    Decr,
    Touch,
}

pub open spec fn key_verb_name(v: KeyVerb) -> Seq<u8> {
    match v {
        KeyVerb::Delete => seq![100u8, 101, 108, 101, 116, 101],
        KeyVerb::Incr => seq![105u8, 110, 99, 114],
        KeyVerb::Decr => seq![100u8, 101, 99, 114],
        KeyVerb::Touch => seq![116u8, 111, 117, 99, 104],
    }
}

/// `delete <key>`, `incr <key> <n>`, `decr <key> <n>` or `touch <key> <exptime>`,
/// with the optional `noreply`, terminated by CRLF. `delete` carries no number.
pub open spec fn key_command(v: KeyVerb, key: Seq<u8>, arg: u64, noreply: bool) -> Seq<u8> {
    key_verb_name(v) + seq![SP] + key + (if v == KeyVerb::Delete {
        Seq::empty()
    } else {
        seq![SP] + dec(arg as nat)
    }) + noreply_suffix(noreply) + crlf()
}

/// Space-separated keys, each preceded by a space.
pub open spec fn joined_keys(keys: Seq<Seq<u8>>) -> Seq<u8>
    decreases keys.len(),
{
    if keys.len() == 0 {
        Seq::empty()
    } else {
        joined_keys(keys.drop_last()) + seq![SP] + keys.last()
    }
}

/// `get` (or `gets` when CAS tokens are wanted) followed by the keys.
pub open spec fn retrieval_command(with_cas: bool, keys: Seq<Seq<u8>>) -> Seq<u8> {
    seq![103u8, 101, 116] + (if with_cas {
        seq![115u8]
    } else {
        Seq::empty()
    }) + joined_keys(keys) + crlf()
}

/// `flush_all <exptime>` with the optional `noreply`.
pub open spec fn flush_command(exptime: u32, noreply: bool) -> Seq<u8> {
    seq![102u8, 108, 117, 115, 104, 95, 97, 108, 108, SP] + dec(exptime as nat) + noreply_suffix(
        noreply,
    ) + crlf()
}

/// Commands without arguments.
#[derive(PartialEq, Eq, Structural, Clone, Copy, Debug)]
pub enum BareVerb {
    Version,
    Stats,
    Quit,
}

pub open spec fn bare_command(v: BareVerb) -> Seq<u8> {
    (match v {
        BareVerb::Version => seq![118u8, 101, 114, 115, 105, 111, 110],
        BareVerb::Stats => seq![115u8, 116, 97, 116, 115],
        BareVerb::Quit => seq![113u8, 117, 105, 116],
    }) + crlf()
}

/// Encodes `delete`, `incr`, `decr` or `touch`.
pub fn encode_key_command(v: KeyVerb, key: &[u8], arg: u64, noreply: bool) -> (r: Vec<u8>)
    ensures
        r@ == key_command(v, key@, arg, noreply),
{
    let mut out: Vec<u8> = Vec::new();
    match v {
        KeyVerb::Delete => {
            out.push(100);
            out.push(101);
            out.push(108);
            out.push(101);
            out.push(116);
            out.push(101);
        },
        KeyVerb::Incr => {
            out.push(105);
            out.push(110);
            out.push(99);
            out.push(114);
        },
        KeyVerb::Decr => {
            out.push(100);
            out.push(101);
            out.push(99);
            out.push(114);
        },
        KeyVerb::Touch => {
            out.push(116);
            out.push(111);
            out.push(117);
            out.push(99);
            out.push(104);
        },
    }
    assert(out@ =~= key_verb_name(v));
    out.push(SP);
    push_all(&mut out, key);
    let ghost before_arg = out@;
    if v != KeyVerb::Delete {
        out.push(SP);
        push_dec(&mut out, arg);
    }
    assert(out@ =~= before_arg + (if v == KeyVerb::Delete {
        Seq::empty()
    } else {
        seq![SP] + dec(arg as nat)
    }));
    push_noreply(&mut out, noreply);
    push_crlf(&mut out);
    assert(out@ =~= key_command(v, key@, arg, noreply));
    out
}

pub open spec fn key_views(keys: Seq<Vec<u8>>) -> Seq<Seq<u8>> {
    keys.map_values(|k: Vec<u8>| k@)
}

/// Encodes `get`/`gets` for the given keys.
pub fn encode_retrieval(with_cas: bool, keys: &Vec<Vec<u8>>) -> (r: Vec<u8>)
    ensures
        r@ == retrieval_command(with_cas, key_views(keys@)),
{
    let mut out: Vec<u8> = Vec::new();
    out.push(103);
    out.push(101);
    out.push(116);
    if with_cas {
        out.push(115);
    }
    let ghost head = out@;
    let ghost ks = key_views(keys@);
    let mut i: usize = 0;
    while i < keys.len()
        invariant
            i <= keys@.len(),
            ks == key_views(keys@),
            out@ == head + joined_keys(ks.subrange(0, i as int)),
        decreases keys@.len() - i,
    {
        out.push(SP);
        push_all(&mut out, keys[i].as_slice());
        proof {
            let next = ks.subrange(0, i + 1);
            assert(next.drop_last() =~= ks.subrange(0, i as int));
            assert(next.last() == keys@[i as int]@);
        }
        i = i + 1;
        assert(out@ =~= head + joined_keys(ks.subrange(0, i as int)));
    }
    assert(ks.subrange(0, i as int) =~= ks);
    push_crlf(&mut out);
    assert(out@ =~= retrieval_command(with_cas, ks));
    out
}

/// Encodes `flush_all`.
pub fn encode_flush(exptime: u32, noreply: bool) -> (r: Vec<u8>)
    ensures
        r@ == flush_command(exptime, noreply),
{
    let mut out: Vec<u8> = Vec::new();
    out.push(102);
    out.push(108);
    out.push(117);
    out.push(115);
    out.push(104);
    out.push(95);
    out.push(97);
    out.push(108);
    out.push(108);
    out.push(SP);
    push_dec(&mut out, exptime as u64);
    push_noreply(&mut out, noreply);
    push_crlf(&mut out);
    assert(out@ =~= flush_command(exptime, noreply));
    out
}

/// Encodes `version`, `stats` or `quit`.
pub fn encode_bare(v: BareVerb) -> (r: Vec<u8>)
    ensures
        r@ == bare_command(v),
{
    let mut out: Vec<u8> = Vec::new();
    match v {
        BareVerb::Version => {
            out.push(118);
            out.push(101);
            out.push(114);
            out.push(115);
            out.push(105);
            out.push(111);
            out.push(110);
        },
        BareVerb::Stats => {
            out.push(115);
            out.push(116);
            out.push(97);
            out.push(116);
            out.push(115);
        },
        BareVerb::Quit => {
            out.push(113);
            out.push(117);
            out.push(105);
            out.push(116);
        },
    }
    push_crlf(&mut out);
    assert(out@ =~= bare_command(v));
    out
}

/// No byte of `s` ends a line.
pub open spec fn no_line_break(s: Seq<u8>) -> bool {
    forall|i: int| 0 <= i < s.len() ==> s[i] != CR && s[i] != LF
}

/// Framing of a storage command: for a valid key, the header line holds no CR
/// or LF, so exactly one CRLF ends it; the value follows it with its own
/// CRLF, and the byte count written in the header reads back as the value's
/// length.
pub proof fn lemma_store_framing(
    verb: StoreVerb,
    key: Seq<u8>,
    value: Seq<u8>,
    flags: u32,
    exptime: u32,
    cas: u64,
    noreply: bool,
)
    requires
        valid_key(key),
    ensures
        store_command(verb, key, value, flags, exptime, cas, noreply) == store_header(
            verb,
            key,
            flags,
            exptime,
            value.len(),
            cas,
            noreply,
        ) + crlf() + value + crlf(),
        no_line_break(store_header(verb, key, flags, exptime, value.len(), cas, noreply)),
        dec_value(dec(value.len())) == value.len(),
{
    lemma_dec_digits(flags as nat);
    lemma_dec_digits(exptime as nat);
    lemma_dec_digits(value.len());
    lemma_dec_digits(cas as nat);
    lemma_dec_round_trip(value.len());
    let h = store_header(verb, key, flags, exptime, value.len(), cas, noreply);
    let tail = if verb == StoreVerb::Cas {
        seq![SP] + dec(cas as nat)
    } else {
        Seq::empty()
    };
    assert(no_line_break(verb_name(verb)));
    assert(no_line_break(noreply_suffix(noreply)));
    assert(no_line_break(dec(flags as nat)));
    assert(no_line_break(dec(exptime as nat)));
    assert(no_line_break(dec(value.len())));
    assert(no_line_break(tail)) by {
        assert(no_line_break(dec(cas as nat)));
    }
    assert(no_line_break(seq![SP]));
    lemma_concat_no_break(verb_name(verb), seq![SP]);
    lemma_concat_no_break(verb_name(verb) + seq![SP], key);
    lemma_concat_no_break(verb_name(verb) + seq![SP] + key, seq![SP]);
    lemma_concat_no_break(verb_name(verb) + seq![SP] + key + seq![SP], dec(flags as nat));
    lemma_concat_no_break(verb_name(verb) + seq![SP] + key + seq![SP] + dec(flags as nat), seq![SP]);
    lemma_concat_no_break(
        verb_name(verb) + seq![SP] + key + seq![SP] + dec(flags as nat) + seq![SP],
        dec(exptime as nat),
    );
    lemma_concat_no_break(
        verb_name(verb) + seq![SP] + key + seq![SP] + dec(flags as nat) + seq![SP] + dec(
            exptime as nat,
        ),
        seq![SP],
    );
    lemma_concat_no_break(
        verb_name(verb) + seq![SP] + key + seq![SP] + dec(flags as nat) + seq![SP] + dec(
            exptime as nat,
        ) + seq![SP],
        dec(value.len()),
    );
    lemma_concat_no_break(
        verb_name(verb) + seq![SP] + key + seq![SP] + dec(flags as nat) + seq![SP] + dec(
            exptime as nat,
        ) + seq![SP] + dec(value.len()),
        tail,
    );
    lemma_concat_no_break(
        verb_name(verb) + seq![SP] + key + seq![SP] + dec(flags as nat) + seq![SP] + dec(
            exptime as nat,
        ) + seq![SP] + dec(value.len()) + tail,
        noreply_suffix(noreply),
    );
}

proof fn lemma_concat_no_break(a: Seq<u8>, b: Seq<u8>)
    requires
        no_line_break(a),
        no_line_break(b),
    ensures
        no_line_break(a + b),
{
    assert forall|i: int| 0 <= i < (a + b).len() implies (a + b)[i] != CR && (a + b)[i] != LF by {
        if i >= a.len() {
            assert((a + b)[i] == b[i - a.len()]);
        }
    }
}

} // verus!
