//! The entity codec: a canonical, self-delimiting byte format for the
//! library's entities. Text fields are written as a decimal byte length, a
//! `:`, and the UTF-8 bytes; integers as decimal digits and a `;`; booleans
//! as `t` or `f`. Decoding is the exact inverse: `spec_decode` of any
//! `spec_encode` yields the encoded view back.
//!
//! Writes into the backing store cannot surface a serialization failure, so
//! a failed encode would have to be signalled in-band by the reserved
//! sentinel bytes `fail`. The encoders here are total and proven never to
//! produce the sentinel, and the stores still check for it before writing.

use crate::flag::{Flag, FlagPath, FlagPathView, FlagView, FlagValue};
use crate::user::{Credential, User, UserView};
use vstd::prelude::*;
use vstd::utf8::{decode_utf8, encode_utf8, valid_utf8};

verus! {

/// Why a byte blob failed to decode.
#[derive(Debug, Clone, Copy, PartialEq, Eq, Structural)]
pub enum DecodeError {
    /// A text field's bytes are not valid UTF-8.
    Encoding,
    /// The bytes are not shaped like an encoded entity.
    Schema,
}

/// Byte separating a decimal length from the text it measures.
pub const LEN_SEP: u8 = 58;

/// Byte terminating a decimal integer field.
pub const NUM_END: u8 = 59;

/// Tag byte of the boolean variant of a flag value.
pub const TAG_BOOL: u8 = 98;

/// Byte encoding `true`.
pub const BYTE_TRUE: u8 = 116;

/// Byte encoding `false`.
pub const BYTE_FALSE: u8 = 102;

pub open spec fn is_digit(b: u8) -> bool {
    48 <= b <= 57
}

/// Decimal digits of `n`, most significant first.
pub open spec fn dec_digits(n: nat) -> Seq<u8>
    decreases n,
{
    if n < 10 {
        seq![(48 + n) as u8]
    } else {
        dec_digits(n / 10).push((48 + n % 10) as u8)
    }
}

/// Numeric value of a digit string, folded from the left.
pub open spec fn digits_val(s: Seq<u8>) -> int
    decreases s.len(),
{
    if s.len() == 0 {
        0
    } else {
        digits_val(s.drop_last()) * 10 + (s.last() - 48)
    }
}

pub proof fn lemma_dec_digits(n: nat)
    ensures
        dec_digits(n).len() >= 1,
        forall|i: int| 0 <= i < dec_digits(n).len() ==> is_digit(#[trigger] dec_digits(n)[i]),
        digits_val(dec_digits(n)) == n,
    decreases n,
{
    if n < 10 {
        let s = dec_digits(n);
        assert(s == seq![(48 + n) as u8]);
        assert(s.len() == 1);
        assert(s.drop_last() =~= Seq::<u8>::empty());
        assert(digits_val(s.drop_last()) == 0);
        assert(s.last() == (48 + n) as u8);
        assert(digits_val(s) == digits_val(s.drop_last()) * 10 + (s.last() - 48));
        assert(digits_val(s) == n);
    } else {
        lemma_dec_digits(n / 10);
        let d = (48 + n % 10) as u8;
        assert(dec_digits(n) == dec_digits(n / 10).push(d));
        assert(dec_digits(n).drop_last() =~= dec_digits(n / 10));
        assert(dec_digits(n).last() == d);
        assert(digits_val(dec_digits(n)) == (n / 10) * 10 + n % 10);
        assert((n / 10) * 10 + n % 10 == n) by (nonlinear_arith);
        assert(forall|i: int|
            0 <= i < dec_digits(n).len() ==> is_digit(#[trigger] dec_digits(n)[i])) by {
            assert(forall|i: int|
                0 <= i < dec_digits(n / 10).len() ==> is_digit(#[trigger] dec_digits(n / 10)[i]));
        }
    }
}

/// Appending one digit multiplies the value by ten and adds the digit.
pub proof fn lemma_digits_val_push(s: Seq<u8>, d: u8)
    ensures
        digits_val(s.push(d)) == digits_val(s) * 10 + (d - 48),
{
    assert(s.push(d).drop_last() =~= s);
    assert(s.push(d).last() == d);
}

/// A digit string's value never shrinks as digits are appended.
pub proof fn lemma_digits_val_monotone(s: Seq<u8>, d: u8)
    requires
        digits_val(s) >= 0,
        is_digit(d),
    ensures
        digits_val(s.push(d)) >= digits_val(s),
        digits_val(s.push(d)) >= 0,
{
    lemma_digits_val_push(s, d);
    assert(digits_val(s) * 10 >= digits_val(s)) by (nonlinear_arith)
        requires digits_val(s) >= 0;
}

/// End of the run of decimal digits starting at `i`.
pub open spec fn run_end(s: Seq<u8>, i: int) -> int
    recommends
        0 <= i <= s.len(),
    decreases s.len() - i when 0 <= i <= s.len()
{
    if i < s.len() && is_digit(s[i]) {
        run_end(s, i + 1)
    } else {
        i
    }
}

/// The digit run ends exactly at the first position that is out of range or
/// holds a non-digit.
pub proof fn lemma_run_end_of(s: Seq<u8>, i: int, j: int)
    requires
        0 <= i <= j <= s.len(),
        forall|k: int| i <= k < j ==> is_digit(#[trigger] s[k]),
        j == s.len() || !is_digit(s[j]),
    ensures
        run_end(s, i) == j,
    decreases j - i,
{
    if i < j {
        lemma_run_end_of(s, i + 1, j);
    }
}

/// Parses a decimal number at `i`: the digit run, refused when empty or when
/// its value does not fit in a `u64`.
pub open spec fn spec_parse_num(s: Seq<u8>, i: int) -> Option<(u64, int)> {
    let j = run_end(s, i);
    if j == i {
        None
    } else if digits_val(s.subrange(i, j)) > u64::MAX {
        None
    } else {
        Some((digits_val(s.subrange(i, j)) as u64, j))
    }
}

/// Where the digits of `n` sit at `i` and are followed by a non-digit (or the
/// end), the number parser reads back exactly `n`.
pub proof fn lemma_parse_num_at(s: Seq<u8>, i: int, n: u64)
    requires
        0 <= i,
        i + dec_digits(n as nat).len() <= s.len(),
        s.subrange(i, i + dec_digits(n as nat).len()) == dec_digits(n as nat),
        i + dec_digits(n as nat).len() == s.len() || !is_digit(
            s[i + dec_digits(n as nat).len()],
        ),
    ensures
        spec_parse_num(s, i) == Some((n, i + dec_digits(n as nat).len())),
{
    let dd = dec_digits(n as nat);
    let j = i + dd.len();
    lemma_dec_digits(n as nat);
    assert(forall|k: int| i <= k < j ==> is_digit(#[trigger] s[k])) by {
        assert(forall|k: int| i <= k < j ==> s[k] == dd[k - i]);
    }
    lemma_run_end_of(s, i, j);
    assert(digits_val(s.subrange(i, j)) == n);
}

/// Parses a length-prefixed text field at `i`.
pub open spec fn spec_parse_str(s: Seq<u8>, i: int) -> Result<(Seq<char>, int), DecodeError> {
    match spec_parse_num(s, i) {
        None => Err(DecodeError::Schema),
        Some((n, j)) => if j == s.len() || s[j] != LEN_SEP {
            Err(DecodeError::Schema)
        } else if j + 1 + n > s.len() {
            Err(DecodeError::Schema)
        } else {
            let bytes = s.subrange(j + 1, j + 1 + n);
            if valid_utf8(bytes) {
                Ok((decode_utf8(bytes), j + 1 + n))
            } else {
                Err(DecodeError::Encoding)
            }
        },
    }
}

/// Parses a decimal number terminated by `NUM_END` at `i`.
pub open spec fn spec_parse_u64(s: Seq<u8>, i: int) -> Result<(u64, int), DecodeError> {
    match spec_parse_num(s, i) {
        None => Err(DecodeError::Schema),
        Some((n, j)) => if j == s.len() || s[j] != NUM_END {
            Err(DecodeError::Schema)
        } else {
            Ok((n, j + 1))
        },
    }
}

/// Parses a `t` or `f` byte at `i`.
pub open spec fn spec_parse_bool(s: Seq<u8>, i: int) -> Result<(bool, int), DecodeError> {
    if i < s.len() && s[i] == BYTE_TRUE {
        Ok((true, i + 1))
    } else if i < s.len() && s[i] == BYTE_FALSE {
        Ok((false, i + 1))
    } else {
        Err(DecodeError::Schema)
    }
}

/// Parses a tagged flag value at `i`.
pub open spec fn spec_parse_value(s: Seq<u8>, i: int) -> Result<(FlagValue, int), DecodeError> {
    if i < s.len() && s[i] == TAG_BOOL {
        match spec_parse_bool(s, i + 1) {
            Ok((b, j)) => Ok((FlagValue::Bool(b), j)),
            Err(e) => Err(e),
        }
    } else {
        Err(DecodeError::Schema)
    }
}

/// The encoding of a text field: decimal byte length, `:`, UTF-8 bytes.
pub open spec fn enc_str(s: Seq<char>) -> Seq<u8> {
    dec_digits(encode_utf8(s).len()) + seq![LEN_SEP] + encode_utf8(s)
}

/// The encoding of an integer field: decimal digits, `;`.
pub open spec fn enc_u64(n: u64) -> Seq<u8> {
    dec_digits(n as nat) + seq![NUM_END]
}

/// The encoding of a boolean field.
pub open spec fn enc_bool(b: bool) -> Seq<u8> {
    if b {
        seq![BYTE_TRUE]
    } else {
        seq![BYTE_FALSE]
    }
}

/// The encoding of a flag value: a variant tag, then the variant's payload.
pub open spec fn enc_value(v: FlagValue) -> Seq<u8> {
    match v {
        FlagValue::Bool(b) => seq![TAG_BOOL] + enc_bool(b),
    }
}

/// A view is encodable when each of its text fields fits the length prefix.
pub open spec fn str_encodable(s: Seq<char>) -> bool {
    encode_utf8(s).len() <= u64::MAX
}

/// Where `enc_str(cs)` sits at `i`, the text parser reads back exactly `cs`.
/// The field is self-delimiting: nothing is required of the bytes after it.
pub proof fn lemma_parse_str_at(s: Seq<u8>, i: int, cs: Seq<char>)
    requires
        0 <= i,
        str_encodable(cs),
        i + enc_str(cs).len() <= s.len(),
        s.subrange(i, i + enc_str(cs).len()) == enc_str(cs),
    ensures
        spec_parse_str(s, i) == Ok::<_, DecodeError>((cs, i + enc_str(cs).len())),
{
    broadcast use vstd::utf8::encode_utf8_valid_utf8, vstd::utf8::encode_utf8_decode_utf8;

    let bytes = encode_utf8(cs);
    let n = bytes.len() as u64;
    let dd = dec_digits(n as nat);
    let e = enc_str(cs);
    assert(e == dd + seq![LEN_SEP] + bytes);
    let j = i + dd.len();
    assert(s.subrange(i, j) =~= dd) by {
        assert(forall|k: int| 0 <= k < dd.len() ==> e[k] == dd[k]);
    }
    assert(s[j] == LEN_SEP) by {
        assert(e[dd.len() as int] == LEN_SEP);
    }
    assert(!is_digit(LEN_SEP));
    lemma_parse_num_at(s, i, n);
    assert(spec_parse_num(s, i) == Some((n, j)));
    assert(j + 1 + n <= s.len());
    assert(s.subrange(j + 1, j + 1 + n) =~= bytes) by {
        assert(forall|k: int|
            0 <= k < bytes.len() ==> e[dd.len() + 1 + k] == bytes[k]);
    }
    assert(valid_utf8(bytes));
    assert(decode_utf8(bytes) == cs);
}

/// Where `enc_u64(n)` sits at `i`, the integer parser reads back exactly `n`.
pub proof fn lemma_parse_u64_at(s: Seq<u8>, i: int, n: u64)
    requires
        0 <= i,
        i + enc_u64(n).len() <= s.len(),
        s.subrange(i, i + enc_u64(n).len()) == enc_u64(n),
    ensures
        spec_parse_u64(s, i) == Ok::<_, DecodeError>((n, i + enc_u64(n).len())),
{
    let dd = dec_digits(n as nat);
    let e = enc_u64(n);
    assert(e == dd + seq![NUM_END]);
    let j = i + dd.len();
    assert(s.subrange(i, j) =~= dd) by {
        assert(forall|k: int| 0 <= k < dd.len() ==> e[k] == dd[k]);
    }
    assert(s[j] == NUM_END) by {
        assert(e[dd.len() as int] == NUM_END);
    }
    assert(!is_digit(NUM_END));
    lemma_parse_num_at(s, i, n);
}

/// Where `enc_bool(b)` sits at `i`, the boolean parser reads back exactly `b`.
pub proof fn lemma_parse_bool_at(s: Seq<u8>, i: int, b: bool)
    requires
        0 <= i,
        i + 1 <= s.len(),
        s.subrange(i, i + 1) == enc_bool(b),
    ensures
        spec_parse_bool(s, i) == Ok::<_, DecodeError>((b, i + 1)),
{
    assert(s[i] == enc_bool(b)[0]);
}

/// Where `enc_value(v)` sits at `i`, the value parser reads back exactly `v`.
pub proof fn lemma_parse_value_at(s: Seq<u8>, i: int, v: FlagValue)
    requires
        0 <= i,
        i + enc_value(v).len() <= s.len(),
        s.subrange(i, i + enc_value(v).len()) == enc_value(v),
    ensures
        spec_parse_value(s, i) == Ok::<_, DecodeError>((v, i + enc_value(v).len())),
{
    match v {
        FlagValue::Bool(b) => {
            assert(s[i] == enc_value(v)[0]);
            assert(s.subrange(i + 1, i + 2) =~= enc_bool(b)) by {
                assert(s[i + 1] == enc_value(v)[1]);
            }
            lemma_parse_bool_at(s, i + 1, b);
        },
    }
}


/// The canonical encoding of a flag: key, app, env, value, version, enabled.
pub open spec fn spec_encode_flag(f: FlagView) -> Seq<u8> {
    enc_str(f.key) + enc_str(f.app) + enc_str(f.env) + enc_value(f.value) + enc_u64(f.version)
        + enc_bool(f.enabled)
}

/// A flag view is encodable when each text field fits the length prefix.
/// Every view of a real [`Flag`] is.
pub open spec fn flag_encodable(f: FlagView) -> bool {
    str_encodable(f.key) && str_encodable(f.app) && str_encodable(f.env)
}

/// The canonical decoding of a flag: the six fields in order, with nothing
/// left over.
pub open spec fn spec_decode_flag(s: Seq<u8>) -> Result<FlagView, DecodeError> {
    match spec_parse_str(s, 0) {
        Err(e) => Err(e),
        Ok((key, i1)) => match spec_parse_str(s, i1) {
            Err(e) => Err(e),
            Ok((app, i2)) => match spec_parse_str(s, i2) {
                Err(e) => Err(e),
                Ok((env, i3)) => match spec_parse_value(s, i3) {
                    Err(e) => Err(e),
                    Ok((value, i4)) => match spec_parse_u64(s, i4) {
                        Err(e) => Err(e),
                        Ok((version, i5)) => match spec_parse_bool(s, i5) {
                            Err(e) => Err(e),
                            Ok((enabled, i6)) => if i6 == s.len() {
                                Ok(
                                    FlagView {
                                        key: key,
                                        app: app,
                                        env: env,
                                        value: value,
                                        version: version,
                                        enabled: enabled,
                                    },
                                )
                            } else {
                                Err(DecodeError::Schema)
                            },
                        },
                    },
                },
            },
        },
    }
}

/// Decoding inverts encoding: every encodable flag view comes back unchanged.
#[verifier::rlimit(60)]
#[verifier::spinoff_prover]
pub proof fn lemma_flag_round_trip(f: FlagView)
    requires
        flag_encodable(f),
    ensures
        spec_decode_flag(spec_encode_flag(f)) == Ok::<FlagView, DecodeError>(f),
{
    let s = spec_encode_flag(f);
    let a = enc_str(f.key);
    let b = enc_str(f.app);
    let c = enc_str(f.env);
    let d = enc_value(f.value);
    let e = enc_u64(f.version);
    let g = enc_bool(f.enabled);
    assert(s == a + b + c + d + e + g);
    let i1 = a.len() as int;
    let i2 = i1 + b.len();
    let i3 = i2 + c.len();
    let i4 = i3 + d.len();
    let i5 = i4 + e.len();
    let i6 = i5 + g.len();
    assert(s.len() == i6);
    assert(s.subrange(0, i1) =~= a);
    assert(s.subrange(i1, i2) =~= b);
    assert(s.subrange(i2, i3) =~= c);
    assert(s.subrange(i3, i4) =~= d);
    assert(s.subrange(i4, i5) =~= e);
    assert(s.subrange(i5, i6) =~= g);
    lemma_parse_str_at(s, 0, f.key);
    lemma_parse_str_at(s, i1, f.app);
    lemma_parse_str_at(s, i2, f.env);
    lemma_parse_value_at(s, i3, f.value);
    lemma_parse_u64_at(s, i4, f.version);
    lemma_parse_bool_at(s, i5, f.enabled);
}


/// The reserved sentinel that would stand in for an entity whose encoding
/// failed. The encoders below are total, and no encoding ever equals it.
pub open spec fn sentinel() -> Seq<u8> {
    seq![102u8, 97u8, 105u8, 108u8]
}

/// No encoded flag is the sentinel: an encoding opens with a decimal digit,
/// the sentinel does not.
pub proof fn lemma_flag_not_sentinel(f: FlagView)
    ensures
        spec_encode_flag(f) != sentinel(),
{
    lemma_dec_digits(encode_utf8(f.key).len());
    assert(spec_encode_flag(f)[0] == dec_digits(encode_utf8(f.key).len())[0]);
    assert(is_digit(spec_encode_flag(f)[0]));
    assert(!is_digit(sentinel()[0]));
}

/// Writes the decimal digits of `n` after the bytes already in `out`.
pub fn push_digits(out: &mut Vec<u8>, n: u64)
    ensures
        final(out)@ == old(out)@ + dec_digits(n as nat),
    decreases n,
{
    if n < 10 {
        out.push(48 + n as u8);
        assert(final(out)@ =~= old(out)@ + dec_digits(n as nat));
    } else {
        push_digits(out, n / 10);
        out.push(48 + (n % 10) as u8);
        assert(final(out)@ =~= old(out)@ + dec_digits(n as nat));
    }
}

/// Writes a length-prefixed text field after the bytes already in `out`.
pub fn push_str_field(out: &mut Vec<u8>, s: &str)
    ensures
        final(out)@ == old(out)@ + enc_str(s@),
        str_encodable(s@),
{
    let bytes = s.as_bytes();
    let n = bytes.len();
    push_digits(out, n as u64);
    out.push(LEN_SEP);
    let mut i: usize = 0;
    while i < bytes.len()
        invariant
            i <= bytes.len(),
            bytes@ == encode_utf8(s@),
            out@ == old(out)@ + dec_digits(bytes@.len()) + seq![LEN_SEP] + bytes@.subrange(
                0,
                i as int,
            ),
        decreases bytes.len() - i,
    {
        out.push(bytes[i]);
        assert(out@ =~= old(out)@ + dec_digits(bytes@.len()) + seq![LEN_SEP] + bytes@.subrange(
            0,
            i + 1,
        ));
        i = i + 1;
    }
    assert(bytes@.subrange(0, bytes@.len() as int) =~= bytes@);
    assert(final(out)@ =~= old(out)@ + enc_str(s@));
}

/// Writes an integer field after the bytes already in `out`.
pub fn push_u64_field(out: &mut Vec<u8>, n: u64)
    ensures
        final(out)@ == old(out)@ + enc_u64(n),
{
    push_digits(out, n);
    out.push(NUM_END);
    assert(final(out)@ =~= old(out)@ + enc_u64(n));
}

/// Writes a boolean field after the bytes already in `out`.
pub fn push_bool_field(out: &mut Vec<u8>, b: bool)
    ensures
        final(out)@ == old(out)@ + enc_bool(b),
{
    if b {
        out.push(BYTE_TRUE);
    } else {
        out.push(BYTE_FALSE);
    }
    assert(final(out)@ =~= old(out)@ + enc_bool(b));
}

/// Reads the decimal number whose digits start at `i`, exactly as
/// [`spec_parse_num`] does.
pub fn parse_num(v: &[u8], i: usize) -> (r: Option<(u64, usize)>)
    requires
        i <= v@.len(),
    ensures
        r matches Some(p) ==> spec_parse_num(v@, i as int) == Some((p.0, p.1 as int)) && i
            <= p.1 <= v@.len(),
        r is None ==> spec_parse_num(v@, i as int) is None,
{
    let mut j = i;
    let mut acc: u64 = 0;
    let mut over = false;
    while j < v.len() && 48 <= v[j] && v[j] <= 57
        invariant
            i <= j <= v@.len(),
            forall|k: int| i <= k < j ==> is_digit(#[trigger] v@[k]),
            !over ==> acc == digits_val(v@.subrange(i as int, j as int)),
            over ==> digits_val(v@.subrange(i as int, j as int)) > u64::MAX,
            digits_val(v@.subrange(i as int, j as int)) >= 0,
        decreases v@.len() - j,
    {
        let d = v[j] - 48;
        let ghost pre = v@.subrange(i as int, j as int);
        proof {
            assert(v@.subrange(i as int, j + 1) =~= pre.push(v@[j as int]));
            lemma_digits_val_push(pre, v@[j as int]);
            lemma_digits_val_monotone(pre, v@[j as int]);
        }
        if !over {
            if acc > (u64::MAX - d as u64) / 10 {
                over = true;
                proof {
                    let m = u64::MAX as int;
                    assert(acc * 10 + d > m) by (nonlinear_arith)
                        requires
                            acc > (m - d) / 10,
                            0 <= d <= 9,
                            acc >= 0,
                            m == 0xffff_ffff_ffff_ffff;
                }
            } else {
                proof {
                    let m = u64::MAX as int;
                    assert(acc * 10 + d <= m) by (nonlinear_arith)
                        requires
                            acc <= (m - d) / 10,
                            0 <= d <= 9,
                            acc >= 0,
                            m == 0xffff_ffff_ffff_ffff;
                }
                acc = acc * 10 + d as u64;
            }
        }
        j = j + 1;
    }
    proof {
        lemma_run_end_of(v@, i as int, j as int);
    }
    if j == i {
        None
    } else if over {
        None
    } else {
        Some((acc, j))
    }
}

/// Relies on `String::from_utf8`: it succeeds exactly on valid UTF-8 input
/// and yields the characters those bytes encode.
#[verifier::external_body]
fn utf8_to_string(v: &[u8]) -> (r: Option<String>)
    ensures
        r matches Some(s) ==> valid_utf8(v@) && s@ == decode_utf8(v@),
        r is None ==> !valid_utf8(v@),
{
    match String::from_utf8(v.to_vec()) {
        Ok(s) => Some(s),
        Err(_) => None,
    }
}

/// Reads the text field starting at `i`, exactly as [`spec_parse_str`] does.
pub fn parse_str_field(v: &[u8], i: usize) -> (r: Result<(String, usize), DecodeError>)
    requires
        i <= v@.len(),
    ensures
        r matches Ok(p) ==> spec_parse_str(v@, i as int) == Ok::<_, DecodeError>((
            p.0@,
            p.1 as int,
        )) && i <= p.1 <= v@.len(),
        r matches Err(e) ==> spec_parse_str(v@, i as int) == Err::<(Seq<char>, int), _>(e),
{
    match parse_num(v, i) {
        None => Err(DecodeError::Schema),
        Some((n, j)) => {
            if j == v.len() || v[j] != LEN_SEP {
                Err(DecodeError::Schema)
            } else if n > (v.len() - j - 1) as u64 {
                Err(DecodeError::Schema)
            } else {
                let len = n as usize;
                let bytes = vstd::slice::slice_subrange(v, j + 1, j + 1 + len);
                match utf8_to_string(bytes) {
                    Some(s) => Ok((s, j + 1 + len)),
                    None => Err(DecodeError::Encoding),
                }
            }
        },
    }
}

/// Reads the integer field starting at `i`, exactly as [`spec_parse_u64`]
/// does.
pub fn parse_u64_field(v: &[u8], i: usize) -> (r: Result<(u64, usize), DecodeError>)
    requires
        i <= v@.len(),
    ensures
        r matches Ok(p) ==> spec_parse_u64(v@, i as int) == Ok::<_, DecodeError>((
            p.0,
            p.1 as int,
        )) && i <= p.1 <= v@.len(),
        r matches Err(e) ==> spec_parse_u64(v@, i as int) == Err::<(u64, int), _>(e),
{
    match parse_num(v, i) {
        None => Err(DecodeError::Schema),
        Some((n, j)) => {
            if j == v.len() || v[j] != NUM_END {
                Err(DecodeError::Schema)
            } else {
                Ok((n, j + 1))
            }
        },
    }
}

/// Reads the boolean field starting at `i`, exactly as [`spec_parse_bool`]
/// does.
pub fn parse_bool_field(v: &[u8], i: usize) -> (r: Result<(bool, usize), DecodeError>)
    requires
        i <= v@.len(),
    ensures
        r matches Ok(p) ==> spec_parse_bool(v@, i as int) == Ok::<_, DecodeError>((
            p.0,
            p.1 as int,
        )) && i <= p.1 <= v@.len(),
        r matches Err(e) ==> spec_parse_bool(v@, i as int) == Err::<(bool, int), _>(e),
{
    if i < v.len() && v[i] == BYTE_TRUE {
        Ok((true, i + 1))
    } else if i < v.len() && v[i] == BYTE_FALSE {
        Ok((false, i + 1))
    } else {
        Err(DecodeError::Schema)
    }
}

/// Reads the tagged flag value starting at `i`, exactly as
/// [`spec_parse_value`] does.
pub fn parse_value_field(v: &[u8], i: usize) -> (r: Result<(FlagValue, usize), DecodeError>)
    requires
        i <= v@.len(),
    ensures
        r matches Ok(p) ==> spec_parse_value(v@, i as int) == Ok::<_, DecodeError>((
            p.0,
            p.1 as int,
        )) && i <= p.1 <= v@.len(),
        r matches Err(e) ==> spec_parse_value(v@, i as int) == Err::<(FlagValue, int), _>(e),
{
    if i < v.len() && v[i] == TAG_BOOL {
        match parse_bool_field(v, i + 1) {
            Ok((b, j)) => Ok((FlagValue::Bool(b), j)),
            Err(e) => Err(e),
        }
    } else {
        Err(DecodeError::Schema)
    }
}


/// An entity with a canonical byte encoding. `spec_encode` / `spec_decode`
/// say what the bytes mean; the exec pair computes exactly those functions;
/// the two laws state that decoding inverts encoding and that no encoding is
/// ever the reserved sentinel.
pub trait Codec: View + Sized {
    spec fn spec_encode(v: Self::V) -> Seq<u8>;

    spec fn spec_decode(s: Seq<u8>) -> Result<Self::V, DecodeError>;

    /// Whether a view's text fields fit the length prefixes; every view of a
    /// real entity does, and `encode` proves it of its receiver.
    spec fn encodable(v: Self::V) -> bool;

    proof fn lemma_round_trip(v: Self::V)
        requires
            Self::encodable(v),
        ensures
            Self::spec_decode(Self::spec_encode(v)) == Ok::<Self::V, DecodeError>(v),
    ;

    proof fn lemma_not_sentinel(v: Self::V)
        ensures
            Self::spec_encode(v) != sentinel(),
    ;

    fn encode(&self) -> (r: Vec<u8>)
        ensures
            r@ == Self::spec_encode(self@),
            Self::encodable(self@),
    ;

    fn decode(v: &[u8]) -> (r: Result<Self, DecodeError>)
        ensures
            r matches Ok(x) ==> Self::spec_decode(v@) == Ok::<Self::V, DecodeError>(x@),
            r matches Err(e) ==> Self::spec_decode(v@) == Err::<Self::V, DecodeError>(e),
    ;
}

impl Codec for Flag {
    open spec fn spec_encode(v: FlagView) -> Seq<u8> {
        spec_encode_flag(v)
    }

    open spec fn spec_decode(s: Seq<u8>) -> Result<FlagView, DecodeError> {
        spec_decode_flag(s)
    }

    open spec fn encodable(v: FlagView) -> bool {
        flag_encodable(v)
    }

    proof fn lemma_round_trip(v: FlagView) {
        lemma_flag_round_trip(v);
    }

    proof fn lemma_not_sentinel(v: FlagView) {
        lemma_flag_not_sentinel(v);
    }

    fn encode(&self) -> (r: Vec<u8>) {
        let mut out: Vec<u8> = Vec::new();
        push_str_field(&mut out, self.key());
        push_str_field(&mut out, self.app());
        push_str_field(&mut out, self.env());
        match self.value() {
            FlagValue::Bool(b) => {
                out.push(TAG_BOOL);
                push_bool_field(&mut out, b);
            },
        }
        push_u64_field(&mut out, self.version());
        push_bool_field(&mut out, self.is_enabled());
        proof {
            assert(out@ =~= spec_encode_flag(self@));
        }
        out
    }

    fn decode(v: &[u8]) -> (r: Result<Flag, DecodeError>) {
        let (key, i1) = match parse_str_field(v, 0) {
            Ok(p) => p,
            Err(e) => {
                return Err(e);
            },
        };
        let (app, i2) = match parse_str_field(v, i1) {
            Ok(p) => p,
            Err(e) => {
                return Err(e);
            },
        };
        let (env, i3) = match parse_str_field(v, i2) {
            Ok(p) => p,
            Err(e) => {
                return Err(e);
            },
        };
        let (value, i4) = match parse_value_field(v, i3) {
            Ok(p) => p,
            Err(e) => {
                return Err(e);
            },
        };
        let (version, i5) = match parse_u64_field(v, i4) {
            Ok(p) => p,
            Err(e) => {
                return Err(e);
            },
        };
        let (enabled, i6) = match parse_bool_field(v, i5) {
            Ok(p) => p,
            Err(e) => {
                return Err(e);
            },
        };
        if i6 != v.len() {
            return Err(DecodeError::Schema);
        }
        Ok(Flag::new(key.as_str(), app.as_str(), env.as_str(), value, version, enabled))
    }
}


/// The canonical encoding of a scope: app, then env.
pub open spec fn spec_encode_path(p: FlagPathView) -> Seq<u8> {
    enc_str(p.app) + enc_str(p.env)
}

/// A scope view is encodable when both text fields fit the length prefix.
pub open spec fn path_encodable(p: FlagPathView) -> bool {
    str_encodable(p.app) && str_encodable(p.env)
}

/// The canonical decoding of a scope.
pub open spec fn spec_decode_path(s: Seq<u8>) -> Result<FlagPathView, DecodeError> {
    match spec_parse_str(s, 0) {
        Err(e) => Err(e),
        Ok((app, i1)) => match spec_parse_str(s, i1) {
            Err(e) => Err(e),
            Ok((env, i2)) => if i2 == s.len() {
                Ok(FlagPathView { app: app, env: env })
            } else {
                Err(DecodeError::Schema)
            },
        },
    }
}

/// Decoding inverts encoding for scopes.
pub proof fn lemma_path_round_trip(p: FlagPathView)
    requires
        path_encodable(p),
    ensures
        spec_decode_path(spec_encode_path(p)) == Ok::<FlagPathView, DecodeError>(p),
{
    let s = spec_encode_path(p);
    let a = enc_str(p.app);
    let b = enc_str(p.env);
    let i1 = a.len() as int;
    let i2 = i1 + b.len();
    assert(s.subrange(0, i1) =~= a);
    assert(s.subrange(i1, i2) =~= b);
    lemma_parse_str_at(s, 0, p.app);
    lemma_parse_str_at(s, i1, p.env);
}

/// No encoded scope is the sentinel.
pub proof fn lemma_path_not_sentinel(p: FlagPathView)
    ensures
        spec_encode_path(p) != sentinel(),
{
    lemma_dec_digits(encode_utf8(p.app).len());
    assert(spec_encode_path(p)[0] == dec_digits(encode_utf8(p.app).len())[0]);
    assert(is_digit(spec_encode_path(p)[0]));
    assert(!is_digit(sentinel()[0]));
}

impl Codec for FlagPath {
    open spec fn spec_encode(v: FlagPathView) -> Seq<u8> {
        spec_encode_path(v)
    }

    open spec fn spec_decode(s: Seq<u8>) -> Result<FlagPathView, DecodeError> {
        spec_decode_path(s)
    }

    open spec fn encodable(v: FlagPathView) -> bool {
        path_encodable(v)
    }

    proof fn lemma_round_trip(v: FlagPathView) {
        lemma_path_round_trip(v);
    }

    proof fn lemma_not_sentinel(v: FlagPathView) {
        lemma_path_not_sentinel(v);
    }

    fn encode(&self) -> (r: Vec<u8>) {
        let mut out: Vec<u8> = Vec::new();
        push_str_field(&mut out, self.app());
        push_str_field(&mut out, self.env());
        proof {
            assert(out@ =~= spec_encode_path(self@));
        }
        out
    }

    fn decode(v: &[u8]) -> (r: Result<FlagPath, DecodeError>) {
        let (app, i1) = match parse_str_field(v, 0) {
            Ok(p) => p,
            Err(e) => {
                return Err(e);
            },
        };
        let (env, i2) = match parse_str_field(v, i1) {
            Ok(p) => p,
            Err(e) => {
                return Err(e);
            },
        };
        if i2 != v.len() {
            return Err(DecodeError::Schema);
        }
        Ok(FlagPath::new(app.as_str(), env.as_str()))
    }
}


/// The canonical encoding of a user: uuid, key, the 32 raw digest bytes,
/// then the administrator bit.
pub open spec fn spec_encode_user(u: UserView) -> Seq<u8> {
    enc_str(u.uuid) + enc_str(u.key) + u.hash + enc_bool(u.is_admin)
}

/// A user view is encodable when its text fields fit the length prefix and
/// its digest has the credential length; every view of a real [`User`] does.
pub open spec fn user_encodable(u: UserView) -> bool {
    str_encodable(u.uuid) && str_encodable(u.key) && u.hash.len() == 32
}

/// The canonical decoding of a user.
pub open spec fn spec_decode_user(s: Seq<u8>) -> Result<UserView, DecodeError> {
    match spec_parse_str(s, 0) {
        Err(e) => Err(e),
        Ok((uuid, i1)) => match spec_parse_str(s, i1) {
            Err(e) => Err(e),
            Ok((key, i2)) => if i2 + 32 > s.len() {
                Err(DecodeError::Schema)
            } else {
                match spec_parse_bool(s, i2 + 32) {
                    Err(e) => Err(e),
                    Ok((is_admin, i3)) => if i3 == s.len() {
                        Ok(
                            UserView {
                                uuid: uuid,
                                key: key,
                                hash: s.subrange(i2, i2 + 32),
                                is_admin: is_admin,
                            },
                        )
                    } else {
                        Err(DecodeError::Schema)
                    },
                }
            },
        },
    }
}

/// Decoding inverts encoding for users.
pub proof fn lemma_user_round_trip(u: UserView)
    requires
        user_encodable(u),
    ensures
        spec_decode_user(spec_encode_user(u)) == Ok::<UserView, DecodeError>(u),
{
    let s = spec_encode_user(u);
    let a = enc_str(u.uuid);
    let b = enc_str(u.key);
    let g = enc_bool(u.is_admin);
    let i1 = a.len() as int;
    let i2 = i1 + b.len();
    let i3 = i2 + 32;
    assert(s.subrange(0, i1) =~= a);
    assert(s.subrange(i1, i2) =~= b);
    assert(s.subrange(i2, i3) =~= u.hash);
    assert(s.subrange(i3, i3 + 1) =~= g);
    lemma_parse_str_at(s, 0, u.uuid);
    lemma_parse_str_at(s, i1, u.key);
    lemma_parse_bool_at(s, i3, u.is_admin);
}

/// No encoded user is the sentinel.
pub proof fn lemma_user_not_sentinel(u: UserView)
    ensures
        spec_encode_user(u) != sentinel(),
{
    lemma_dec_digits(encode_utf8(u.uuid).len());
    assert(spec_encode_user(u)[0] == dec_digits(encode_utf8(u.uuid).len())[0]);
    assert(is_digit(spec_encode_user(u)[0]));
    assert(!is_digit(sentinel()[0]));
}

impl Codec for User {
    open spec fn spec_encode(v: UserView) -> Seq<u8> {
        spec_encode_user(v)
    }

    open spec fn spec_decode(s: Seq<u8>) -> Result<UserView, DecodeError> {
        spec_decode_user(s)
    }

    open spec fn encodable(v: UserView) -> bool {
        user_encodable(v)
    }

    proof fn lemma_round_trip(v: UserView) {
        lemma_user_round_trip(v);
    }

    proof fn lemma_not_sentinel(v: UserView) {
        lemma_user_not_sentinel(v);
    }

    fn encode(&self) -> (r: Vec<u8>) {
        let mut out: Vec<u8> = Vec::new();
        push_str_field(&mut out, self.uuid());
        push_str_field(&mut out, self.key());
        let mut i: usize = 0;
        let digest = self.hash();
        while i < 32
            invariant
                i <= 32,
                digest@.len() == 32,
                digest@ == self@.hash,
                out@ == enc_str(self@.uuid) + enc_str(self@.key) + digest@.subrange(0, i as int),
            decreases 32 - i,
        {
            out.push(digest[i]);
            assert(out@ =~= enc_str(self@.uuid) + enc_str(self@.key) + digest@.subrange(0, i + 1));
            i = i + 1;
        }
        push_bool_field(&mut out, self.is_admin());
        proof {
            assert(digest@.subrange(0, 32) =~= digest@);
            assert(out@ =~= spec_encode_user(self@));
        }
        out
    }

    fn decode(v: &[u8]) -> (r: Result<User, DecodeError>) {
        let (uuid, i1) = match parse_str_field(v, 0) {
            Ok(p) => p,
            Err(e) => {
                return Err(e);
            },
        };
        let (key, i2) = match parse_str_field(v, i1) {
            Ok(p) => p,
            Err(e) => {
                return Err(e);
            },
        };
        if v.len() - i2 < 32 {
            return Err(DecodeError::Schema);
        }
        let mut hash: Credential = [0u8; 32];
        let mut i: usize = 0;
        while i < 32
            invariant
                i <= 32,
                i2 + 32 <= v@.len(),
                hash@.len() == 32,
                forall|k: int| 0 <= k < i ==> hash@[k] == v@[i2 + k],
            decreases 32 - i,
        {
            hash[i] = v[i2 + i];
            i = i + 1;
        }
        proof {
            assert(hash@ =~= v@.subrange(i2 as int, i2 + 32));
        }
        let (is_admin, i3) = match parse_bool_field(v, i2 + 32) {
            Ok(p) => p,
            Err(e) => {
                return Err(e);
            },
        };
        if i3 != v.len() {
            return Err(DecodeError::Schema);
        }
        Ok(User::from_parts(uuid, key, hash, is_admin))
    }
}

} // verus!
