//! Percent-decoding of a single key or value, with reconstruction of
//! percent-escaped multi-byte UTF-8 sequences.

use vstd::prelude::*;
use vstd::utf8::is_scalar;

use crate::text::{chars_of, push_char};

verus! {

/// Why a percent-encoded string could not be decoded.
#[derive(Clone, Copy, Debug, PartialEq, Eq, Structural)]
pub enum DecodeError {
    /// A `%` not followed by two hexadecimal digits.
    MalformedEscape,
    /// A multi-byte sequence that ends before all its continuation escapes.
    TruncatedSequence,
    /// An escaped byte that cannot start a UTF-8 sequence.
    InvalidLeadByte,
    /// A continuation byte outside the `10xxxxxx` pattern.
    InvalidContinuation,
    /// A reassembled value that is not a Unicode scalar value.
    InvalidCodepoint,
}

/// An ASCII hexadecimal digit, either case.
pub open spec fn is_hex_digit(c: char) -> bool {
    let v = c as u32;
    (0x30 <= v <= 0x39) || (0x41 <= v <= 0x46) || (0x61 <= v <= 0x66)
}

/// The value of a hexadecimal digit.
pub open spec fn hex_value(c: char) -> u32 {
    let v = c as u32;
    if 0x30 <= v <= 0x39 {
        (v - 0x30) as u32
    } else if 0x41 <= v <= 0x46 {
        (v - 0x41 + 10) as u32
    } else {
        (v - 0x61 + 10) as u32
    }
}

/// The byte written by two hexadecimal digits, high nibble first.
pub open spec fn hex_byte(hi: char, lo: char) -> u32 {
    (hex_value(hi) * 16 + hex_value(lo)) as u32
}

fn hex_digit_value(c: char) -> (r: Option<u32>)
    ensures
        match r {
            Some(v) => is_hex_digit(c) && v == hex_value(c) && v < 16,
            None => !is_hex_digit(c),
        },
{
    let v = c as u32;
    if 0x30 <= v && v <= 0x39 {
        Some(v - 0x30)
    } else if 0x41 <= v && v <= 0x46 {
        Some(v - 0x41 + 10)
    } else if 0x61 <= v && v <= 0x66 {
        Some(v - 0x61 + 10)
    } else {
        None
    }
}


/// Number of continuation bytes announced by a lead byte: one, two or three,
/// or zero when `b` starts no multi-byte sequence.
pub open spec fn continuation_count(b: u32) -> nat {
    if b & 0xE0 == 0xC0 {
        1
    } else if b & 0xF0 == 0xE0 {
        2
    } else if b & 0xF8 == 0xF0 {
        3
    } else {
        0
    }
}

/// The data bits that a lead byte announcing `n` continuation bytes carries.
pub open spec fn lead_bits(b: u32, n: nat) -> u32 {
    if n == 1 {
        b & 0x1F
    } else if n == 2 {
        b & 0x0F
    } else {
        b & 0x07
    }
}

/// Reads one continuation escape `%XX` at position `p`.
pub open spec fn continuation_escape(s: Seq<char>, p: int) -> Result<u32, DecodeError> {
    if p >= s.len() || s[p] != '%' || p + 1 >= s.len() {
        Err(DecodeError::TruncatedSequence)
    } else if !is_hex_digit(s[p + 1]) {
        Err(DecodeError::MalformedEscape)
    } else if p + 2 >= s.len() {
        Err(DecodeError::TruncatedSequence)
    } else if !is_hex_digit(s[p + 2]) {
        Err(DecodeError::MalformedEscape)
    } else {
        Ok(hex_byte(s[p + 1], s[p + 2]))
    }
}

/// Reads `n` consecutive continuation escapes starting at position `p`.
pub open spec fn continuation_escapes(s: Seq<char>, p: int, n: nat) -> Result<
    Seq<u32>,
    DecodeError,
>
    decreases n,
{
    if n == 0 {
        Ok(seq![])
    } else {
        match continuation_escape(s, p) {
            Err(e) => Err(e),
            Ok(b) => match continuation_escapes(s, p + 3, (n - 1) as nat) {
                Err(e) => Err(e),
                Ok(rest) => Ok(seq![b] + rest),
            },
        }
    }
}

/// Shifts in the low six bits of each continuation byte, in order.
pub open spec fn assemble(acc: u32, bytes: Seq<u32>) -> u32
    decreases bytes.len(),
{
    if bytes.len() == 0 {
        acc
    } else {
        assemble((acc << 6) | (bytes[0] & 0x3F), bytes.drop_first())
    }
}

/// Decodes the escape starting with the `%` at position `i`: the character
/// it stands for and the number of continuation escapes that follow it. A
/// byte below 0x80 stands for itself; a lead byte is followed by the
/// continuation escapes it announces, and the whole must spell a scalar value.
pub open spec fn escape_at(s: Seq<char>, i: int) -> Result<(char, nat), DecodeError> {
    if i + 2 >= s.len() || !is_hex_digit(s[i + 1]) || !is_hex_digit(s[i + 2]) {
        Err(DecodeError::MalformedEscape)
    } else {
        let b = hex_byte(s[i + 1], s[i + 2]);
        let n = continuation_count(b);
        if b < 0x80 {
            Ok((b as char, 0))
        } else if n == 0 {
            Err(DecodeError::InvalidLeadByte)
        } else {
            match continuation_escapes(s, i + 3, n) {
                Err(e) => Err(e),
                Ok(bytes) => if exists|j: int| 0 <= j < bytes.len() && bytes[j] & 0xC0 != 0x80 {
                    Err(DecodeError::InvalidContinuation)
                } else {
                    let cp = assemble(lead_bits(b, n), bytes);
                    if is_scalar(cp) {
                        Ok((cp as char, n))
                    } else {
                        Err(DecodeError::InvalidCodepoint)
                    }
                },
            }
        }
    }
}

/// Puts `pre` in front of a successful result; an error stays as it is.
pub open spec fn prepend(pre: Seq<char>, r: Result<Seq<char>, DecodeError>) -> Result<
    Seq<char>,
    DecodeError,
> {
    match r {
        Ok(t) => Ok(pre + t),
        Err(e) => Err(e),
    }
}

/// Decodes `s` from position `i` to its end.
pub open spec fn decode_from(s: Seq<char>, i: int) -> Result<Seq<char>, DecodeError>
    decreases s.len() - i,
{
    if i < 0 || i >= s.len() {
        Ok(seq![])
    } else if s[i] == '+' {
        prepend(seq![' '], decode_from(s, i + 1))
    } else if s[i] != '%' {
        prepend(seq![s[i]], decode_from(s, i + 1))
    } else {
        match escape_at(s, i) {
            Err(e) => Err(e),
            // an escape that decodes lies wholly inside `s`
            Ok((c, n)) => if i + 3 + 3 * n <= s.len() {
                prepend(seq![c], decode_from(s, i + 3 + 3 * n))
            } else {
                Ok(seq![c])
            },
        }
    }
}

/// The percent-decoding of `s`: `+` becomes a space, `%XX` escapes become the
/// characters whose UTF-8 encoding they spell, any other character stays.
pub open spec fn percent_decoded(s: Seq<char>) -> Result<Seq<char>, DecodeError> {
    decode_from(s, 0)
}

/// A string with neither `%` nor `+` decodes to itself.
pub proof fn lemma_plain_text_unchanged(s: Seq<char>)
    requires
        forall|k: int| 0 <= k < s.len() ==> s[k] != '%' && s[k] != '+',
    ensures
        percent_decoded(s) == Ok::<Seq<char>, DecodeError>(s),
{
    lemma_plain_suffix(s, 0);
    assert(s.skip(0) =~= s);
}

proof fn lemma_plain_suffix(s: Seq<char>, i: int)
    requires
        0 <= i <= s.len(),
        forall|k: int| 0 <= k < s.len() ==> s[k] != '%' && s[k] != '+',
    ensures
        decode_from(s, i) == Ok::<Seq<char>, DecodeError>(s.skip(i)),
    decreases s.len() - i,
{
    if i < s.len() {
        lemma_plain_suffix(s, i + 1);
        assert(seq![s[i]] + s.skip(i + 1) =~= s.skip(i));
    } else {
        assert(s.skip(i) =~= seq![]);
    }
}

/// Relies on `char::from_u32`: `Some` exactly for Unicode scalar values.
#[verifier::external_body]
fn char_from_u32(v: u32) -> (r: Option<char>)
    ensures
        match r {
            Some(c) => is_scalar(v) && c == v as char,
            None => !is_scalar(v),
        },
{
    char::from_u32(v)
}

proof fn lemma_prepend_push(a: Seq<char>, c: char, r: Result<Seq<char>, DecodeError>)
    ensures
        prepend(a, prepend(seq![c], r)) == prepend(a.push(c), r),
{
    match r {
        Ok(t) => {
            assert(a + (seq![c] + t) =~= a.push(c) + t);
        },
        Err(_) => {},
    }
}

/// Reads the continuation escape `%XX` at position `p`.
fn read_continuation(cs: &Vec<char>, p: usize) -> (r: Result<u32, DecodeError>)
    ensures
        r == continuation_escape(cs@, p as int),
        r is Ok ==> p + 3 <= cs.len() && r->Ok_0 < 256,
{
    if p >= cs.len() || cs[p] != '%' || cs.len() - p < 2 {
        return Err(DecodeError::TruncatedSequence);
    }
    let hi = match hex_digit_value(cs[p + 1]) {
        Some(h) => h,
        None => return Err(DecodeError::MalformedEscape),
    };
    if cs.len() - p < 3 {
        return Err(DecodeError::TruncatedSequence);
    }
    let lo = match hex_digit_value(cs[p + 2]) {
        Some(l) => l,
        None => return Err(DecodeError::MalformedEscape),
    };
    Ok(hi * 16 + lo)
}

/// Reads `n` consecutive continuation escapes starting at position `p`.
fn read_continuations(cs: &Vec<char>, p: usize, n: usize) -> (r: Result<Vec<u32>, DecodeError>)
    requires
        p <= cs.len(),
        n <= 3,
    ensures
        match r {
            Ok(v) => continuation_escapes(cs@, p as int, n as nat) == Ok::<Seq<u32>, DecodeError>(
                v@,
            ) && p + 3 * n <= cs.len(),
            Err(e) => continuation_escapes(cs@, p as int, n as nat) == Err::<
                Seq<u32>,
                DecodeError,
            >(e),
        },
{
    let ghost s = cs@;
    let ghost whole = continuation_escapes(s, p as int, n as nat);
    let mut bytes: Vec<u32> = Vec::new();
    let mut j: usize = 0;
    let mut q: usize = p;
    while j < n
        invariant
            j <= n <= 3,
            q == p + 3 * j,
            q <= cs.len(),
            s == cs@,
            whole == continuation_escapes(s, p as int, n as nat),
            match continuation_escapes(s, q as int, (n - j) as nat) {
                Ok(rest) => whole == Ok::<Seq<u32>, DecodeError>(bytes@ + rest),
                Err(e) => whole == Err::<Seq<u32>, DecodeError>(e),
            },
        decreases n - j,
    {
        let x = match read_continuation(cs, q) {
            Ok(x) => x,
            Err(e) => return Err(e),
        };
        proof {
            match continuation_escapes(s, q + 3, (n - j - 1) as nat) {
                Ok(rest) => {
                    assert(bytes@ + (seq![x] + rest) =~= bytes@.push(x) + rest);
                },
                Err(_) => {},
            }
        }
        bytes.push(x);
        j = j + 1;
        q = q + 3;
    }
    assert(bytes@ + seq![] =~= bytes@);
    Ok(bytes)
}

/// Whether every byte has the continuation pattern `10xxxxxx`.
fn all_continuation_bytes(bytes: &Vec<u32>) -> (r: bool)
    ensures
        r == !exists|j: int| 0 <= j < bytes@.len() && bytes@[j] & 0xC0 != 0x80,
{
    let mut k: usize = 0;
    while k < bytes.len()
        invariant
            k <= bytes@.len(),
            forall|m: int| 0 <= m < k ==> bytes@[m] & 0xC0 == 0x80,
        decreases bytes.len() - k,
    {
        if bytes[k] & 0xC0 != 0x80 {
            return false;
        }
        k = k + 1;
    }
    true
}

/// Shifts the low six bits of each byte into `lead`, in order.
fn assemble_bytes(lead: u32, bytes: &Vec<u32>) -> (r: u32)
    ensures
        r == assemble(lead, bytes@),
{
    let mut acc: u32 = lead;
    let mut k: usize = 0;
    assert(bytes@.skip(0) =~= bytes@);
    while k < bytes.len()
        invariant
            k <= bytes@.len(),
            assemble(lead, bytes@) == assemble(acc, bytes@.skip(k as int)),
        decreases bytes.len() - k,
    {
        assert(bytes@.skip(k as int).drop_first() =~= bytes@.skip(k + 1));
        acc = (acc << 6) | (bytes[k] & 0x3F);
        k = k + 1;
    }
    assert(bytes@.skip(k as int).len() == 0);
    acc
}

/// Decodes the escape that starts with the `%` at position `i`, together with
/// the continuation escapes of a multi-byte sequence: the character and the
/// number of continuation escapes read.
fn decode_escape(cs: &Vec<char>, i: usize) -> (r: Result<(char, usize), DecodeError>)
    requires
        i < cs.len(),
    ensures
        match r {
            Ok((c, n)) => escape_at(cs@, i as int) == Ok::<(char, nat), DecodeError>((c, n as nat)) && i + 3 + 3 * n
                <= cs.len(),
            Err(e) => escape_at(cs@, i as int) == Err::<(char, nat), DecodeError>(e),
        },
{
    if cs.len() - i < 3 {
        return Err(DecodeError::MalformedEscape);
    }
    let (hi, lo) = match (hex_digit_value(cs[i + 1]), hex_digit_value(cs[i + 2])) {
        (Some(h), Some(l)) => (h, l),
        _ => return Err(DecodeError::MalformedEscape),
    };
    let b: u32 = hi * 16 + lo;
    if b < 0x80 {
        return match char_from_u32(b) {
            Some(c) => Ok((c, 0)),
            None => Err(DecodeError::InvalidCodepoint),
        };
    }
    let n: usize = if b & 0xE0 == 0xC0 {
        1
    } else if b & 0xF0 == 0xE0 {
        2
    } else if b & 0xF8 == 0xF0 {
        3
    } else {
        return Err(DecodeError::InvalidLeadByte);
    };
    let lead: u32 = if n == 1 {
        b & 0x1F
    } else if n == 2 {
        b & 0x0F
    } else {
        b & 0x07
    };
    let bytes = match read_continuations(cs, i + 3, n) {
        Ok(v) => v,
        Err(e) => return Err(e),
    };
    if !all_continuation_bytes(&bytes) {
        return Err(DecodeError::InvalidContinuation);
    }
    let acc = assemble_bytes(lead, &bytes);
    match char_from_u32(acc) {
        Some(c) => Ok((c, n)),
        None => Err(DecodeError::InvalidCodepoint),
    }
}

/// Percent-decodes one key or value: `+` becomes a space, each `%XX` escape
/// the character whose UTF-8 encoding it spells (with the continuation
/// escapes of a multi-byte sequence), and every other character stays. Any
/// malformed escape fails the whole call.
pub fn decode_urlencoded(input: String) -> (r: Result<String, DecodeError>)
    ensures
        match r {
            Ok(out) => percent_decoded(input@) == Ok::<Seq<char>, DecodeError>(out@),
            Err(e) => percent_decoded(input@) == Err::<Seq<char>, DecodeError>(e),
        },
        (forall|k: int| 0 <= k < input@.len() ==> input@[k] != '%' && input@[k] != '+') ==> (
        r is Ok && r->Ok_0@ == input@),
{
    proof {
        if forall|k: int| 0 <= k < input@.len() ==> input@[k] != '%' && input@[k] != '+' {
            lemma_plain_text_unchanged(input@);
        }
    }
    let cs = chars_of(input.as_str());
    let ghost s = cs@;
    let mut out = String::new();
    let mut i: usize = 0;
    assert(prepend(seq![], decode_from(s, 0)) == decode_from(s, 0)) by {
        match decode_from(s, 0) {
            Ok(t) => assert(seq![] + t =~= t),
            Err(_) => {},
        }
    }
    while i < cs.len()
        invariant
            i <= cs.len(),
            s == cs@,
            s == input@,
            percent_decoded(s) == prepend(out@, decode_from(s, i as int)),
        decreases cs.len() - i,
    {
        let c = cs[i];
        if c == '+' {
            proof {
                lemma_prepend_push(out@, ' ', decode_from(s, i + 1));
            }
            push_char(&mut out, ' ');
            i = i + 1;
        } else if c != '%' {
            proof {
                lemma_prepend_push(out@, c, decode_from(s, i + 1));
            }
            push_char(&mut out, c);
            i = i + 1;
        } else {
            match decode_escape(&cs, i) {
                Err(e) => return Err(e),
                Ok((d, n)) => {
                    proof {
                        lemma_prepend_push(out@, d, decode_from(s, i + 3 + 3 * n));
                    }
                    push_char(&mut out, d);
                    i = i + 3 + 3 * n;
                },
            }
        }
    }
    assert(out@ + seq![] =~= out@);
    Ok(out)
}

} // verus!
