//! Message envelope: parse and serialize the payload schema at the byte
//! level.
//!
//! The wire payload is a UTF-8 JSON object with a single integer field,
//! `{"foo": <integer>}`.  [`parse_spec`] is the mathematical definition of
//! which byte sequences are well-formed payloads and what value they carry;
//! [`serialize_spec`] is the canonical rendering of a payload.  The executable
//! [`parse_input`] and [`serialize_output`] are proved against them, and
//! [`lemma_envelope_round_trip`] is the law that parsing a serialized payload
//! reconstructs it exactly.
//!
//! Accepted input follows the JSON grammar for this schema: optional
//! whitespace around each token, a quoted `foo` key, an optional minus sign,
//! no leading zeros, and a value that fits a signed 32-bit integer.  Anything
//! else — including bytes that are not valid UTF-8, which cannot spell this
//! all-ASCII grammar — is rejected with [`TransformError::MalformedPayload`]
//! instead of aborting the instance.

use vstd::prelude::*;

use crate::models::InputModel;

verus! {

/// Why a call on the guest failed.  An explicit error channel: the shim
/// around the library decides whether to surface it or to trap, but the
/// memory-boundary contract is never corrupted by a half-written result.
#[derive(Clone, Copy, Debug, PartialEq, Eq, Structural)]
pub enum TransformError {
    /// The input bytes are not a well-formed payload: not valid UTF-8, not
    /// the expected JSON shape, or an integer outside the 32-bit range.
    MalformedPayload,
}

/// JSON insignificant whitespace: space, tab, line feed, carriage return.
pub open spec fn is_ws(c: u8) -> bool {
    c == 32 || c == 9 || c == 10 || c == 13
}

/// ASCII decimal digit.
pub open spec fn is_digit(c: u8) -> bool {
    48 <= c && c <= 57
}

/// First position at or after `i` holding no whitespace.
pub open spec fn skip_ws(s: Seq<u8>, i: int) -> int
    decreases s.len() - i when 0 <= i <= s.len()
{
    if i < s.len() && is_ws(s[i]) {
        skip_ws(s, i + 1)
    } else {
        i
    }
}

/// First position at or after `i` holding no digit.
pub open spec fn digits_end(s: Seq<u8>, i: int) -> int
    decreases s.len() - i when 0 <= i <= s.len()
{
    if i < s.len() && is_digit(s[i]) {
        digits_end(s, i + 1)
    } else {
        i
    }
}

/// Value of a run of decimal digits, most significant first.
pub open spec fn digits_val(d: Seq<u8>) -> int
    decreases d.len()
{
    if d.len() == 0 {
        0
    } else {
        digits_val(d.drop_last()) * 10 + (d.last() - 48)
    }
}

/// Where the digits of the number at `i` begin: past a leading minus sign,
/// if any.
pub open spec fn num_start(s: Seq<u8>, i: int) -> int {
    if i < s.len() && s[i] == 45 {
        i + 1
    } else {
        i
    }
}

/// Where the number at `i` ends.
pub open spec fn num_end(s: Seq<u8>, i: int) -> int {
    digits_end(s, num_start(s, i))
}

/// Whether a well-formed JSON integer stands at `i`: at least one digit and
/// no leading zero (a single zero digit is allowed).
pub open spec fn num_valid(s: Seq<u8>, i: int) -> bool {
    let d0 = num_start(s, i);
    let de = digits_end(s, d0);
    d0 < de && (s[d0] != 48 || de == d0 + 1)
}

/// The mathematical value of the number at `i`.
pub open spec fn num_val(s: Seq<u8>, i: int) -> int {
    let d0 = num_start(s, i);
    let de = digits_end(s, d0);
    if d0 > i {
        -digits_val(s.subrange(d0, de))
    } else {
        digits_val(s.subrange(d0, de))
    }
}

/// The five bytes of the quoted key: `"foo"`.
pub open spec fn key_seq() -> Seq<u8> {
    seq![34u8, 102u8, 111u8, 111u8, 34u8]
}

/// The payload a byte sequence carries, if it is well-formed:
/// `{"foo": <integer>}` with optional JSON whitespace around each token, the
/// integer written without leading zeros and fitting a signed 32-bit value.
pub open spec fn parse_spec(s: Seq<u8>) -> Option<InputModel> {
    let i0 = skip_ws(s, 0);
    if i0 < s.len() && s[i0] == 123 {
        let i1 = skip_ws(s, i0 + 1);
        if i1 + 5 <= s.len() && s.subrange(i1, i1 + 5) == key_seq() {
            let i2 = skip_ws(s, i1 + 5);
            if i2 < s.len() && s[i2] == 58 {
                let i3 = skip_ws(s, i2 + 1);
                if num_valid(s, i3) {
                    let v = num_val(s, i3);
                    let i4 = skip_ws(s, num_end(s, i3));
                    if i4 < s.len() && s[i4] == 125 && skip_ws(s, i4 + 1) == s.len()
                        && i32::MIN <= v && v <= i32::MAX {
                        Some(InputModel { foo: v as i32 })
                    } else {
                        None
                    }
                } else {
                    None
                }
            } else {
                None
            }
        } else {
            None
        }
    } else {
        None
    }
}

/// Decimal digits of the non-negative `n`, most significant first.
pub open spec fn dec_rep(n: int) -> Seq<u8>
    decreases n when n >= 0
{
    if n < 10 {
        seq![(48 + n) as u8]
    } else {
        dec_rep(n / 10).push((48 + n % 10) as u8)
    }
}

/// Rendering of a signed integer: minus sign, then the digits of the
/// magnitude.
pub open spec fn int_rep(v: int) -> Seq<u8> {
    if v < 0 {
        seq![45u8] + dec_rep(-v)
    } else {
        dec_rep(v)
    }
}

/// Canonical rendering of a payload: `{"foo":<integer>}`, no whitespace.
pub open spec fn serialize_spec(m: InputModel) -> Seq<u8> {
    seq![123u8] + key_seq() + seq![58u8] + int_rep(m.foo as int) + seq![125u8]
}

/// Powers of ten.
pub open spec fn pow10(k: nat) -> int
    decreases k
{
    if k == 0 {
        1
    } else {
        10 * pow10((k - 1) as nat)
    }
}

/// `pow10` is positive and monotonic.
proof fn lemma_pow10_mono(a: nat, b: nat)
    requires
        a <= b,
    ensures
        1 <= pow10(a) <= pow10(b),
    decreases b,
{
    if b == 0 {
    } else if a == b {
        lemma_pow10_mono((a - 1) as nat, (b - 1) as nat);
        assert(pow10(b) == 10 * pow10((b - 1) as nat));
    } else {
        lemma_pow10_mono(a, (b - 1) as nat);
        assert(pow10(b) == 10 * pow10((b - 1) as nat));
    }
}

/// A run of `k` digits has a value below `pow10(k)`.
proof fn lemma_digits_val_upper(d: Seq<u8>)
    requires
        forall|k: int| 0 <= k < d.len() ==> is_digit(#[trigger] d[k]),
    ensures
        0 <= digits_val(d) < pow10(d.len()),
    decreases d.len(),
{
    if d.len() > 0 {
        lemma_digits_val_upper(d.drop_last());
        assert(pow10(d.len()) == 10 * pow10((d.len() - 1) as nat));
        assert(is_digit(d.last()));
    }
}

/// A run of digits with a non-zero leading digit has a value of at least
/// `pow10` of one less than its length.
proof fn lemma_digits_val_lower(d: Seq<u8>)
    requires
        d.len() >= 1,
        forall|k: int| 0 <= k < d.len() ==> is_digit(#[trigger] d[k]),
        d[0] != 48,
    ensures
        digits_val(d) >= pow10((d.len() - 1) as nat),
    decreases d.len(),
{
    if d.len() == 1 {
        assert(digits_val(d) == digits_val(d.drop_last()) * 10 + (d[0] - 48));
        assert(d.drop_last().len() == 0);
    } else {
        lemma_digits_val_lower(d.drop_last());
        assert(pow10((d.len() - 1) as nat) == 10 * pow10((d.len() - 2) as nat));
        assert(is_digit(d.last()));
    }
}

/// Characterization of `digits_end`: it stops exactly at the end of the
/// digit run beginning at `i`.
proof fn lemma_digits_end_at(s: Seq<u8>, i: int, j: int)
    requires
        0 <= i <= j <= s.len(),
        forall|k: int| i <= k < j ==> is_digit(#[trigger] s[k]),
        j < s.len() ==> !is_digit(s[j]),
    ensures
        digits_end(s, i) == j,
    decreases j - i,
{
    if i < j {
        lemma_digits_end_at(s, i + 1, j);
    }
}

/// Every byte of `dec_rep(n)` is a digit; the leading digit is non-zero
/// whenever `n` is; and the run is a single byte exactly when `n < 10`.
proof fn lemma_dec_rep_shape(n: int)
    requires
        n >= 0,
    ensures
        dec_rep(n).len() >= 1,
        forall|k: int| 0 <= k < dec_rep(n).len() ==> is_digit(#[trigger] dec_rep(n)[k]),
        n >= 1 ==> dec_rep(n)[0] != 48,
        n < 10 <==> dec_rep(n).len() == 1,
        n == 0 ==> dec_rep(n) == seq![48u8],
    decreases n,
{
    if n < 10 {
        assert(dec_rep(n) == seq![(48 + n) as u8]);
    } else {
        lemma_dec_rep_shape(n / 10);
        let p = dec_rep(n / 10);
        assert(dec_rep(n) == p.push((48 + n % 10) as u8));
        assert(dec_rep(n)[0] == p[0]);
        assert(forall|k: int| 0 <= k < p.len() ==> #[trigger] dec_rep(n)[k] == p[k]);
        assert(is_digit(dec_rep(n)[p.len() as int]));
    }
}

/// Reading back the digits of `n` yields `n`.
proof fn lemma_dec_rep_val(n: int)
    requires
        n >= 0,
    ensures
        digits_val(dec_rep(n)) == n,
    decreases n,
{
    if n < 10 {
        let d = dec_rep(n);
        assert(d == seq![(48 + n) as u8]);
        assert(d.drop_last() =~= Seq::<u8>::empty());
        assert(digits_val(d) == digits_val(d.drop_last()) * 10 + (d.last() - 48));
    } else {
        lemma_dec_rep_val(n / 10);
        let d = dec_rep(n);
        let p = dec_rep(n / 10);
        assert(d == p.push((48 + n % 10) as u8));
        assert(d.drop_last() =~= p);
        assert(d.last() == (48 + n % 10) as u8);
        assert(digits_val(d) == digits_val(p) * 10 + (n % 10));
    }
}

/// Whitespace scan: executable form of [`skip_ws`].
fn skip_ws_exec(s: &[u8], from: usize) -> (r: usize)
    requires
        from <= s@.len(),
    ensures
        from <= r <= s@.len(),
        r == skip_ws(s@, from as int),
        r < s@.len() ==> !is_ws(s@[r as int]),
{
    let mut i: usize = from;
    while i < s.len() && (s[i] == 32 || s[i] == 9 || s[i] == 10 || s[i] == 13)
        invariant
            from <= i <= s@.len(),
            skip_ws(s@, from as int) == skip_ws(s@, i as int),
        decreases s@.len() - i,
    {
        proof {
            assert(skip_ws(s@, i as int) == skip_ws(s@, i as int + 1));
        }
        i = i + 1;
    }
    proof {
        assert(skip_ws(s@, i as int) == i as int);
    }
    i
}

/// Digit scan: executable form of [`digits_end`].
fn digits_end_exec(s: &[u8], from: usize) -> (r: usize)
    requires
        from <= s@.len(),
    ensures
        from <= r <= s@.len(),
        r == digits_end(s@, from as int),
        forall|k: int| from <= k < r ==> is_digit(#[trigger] s@[k]),
        r < s@.len() ==> !is_digit(s@[r as int]),
{
    let mut i: usize = from;
    while i < s.len() && 48 <= s[i] && s[i] <= 57
        invariant
            from <= i <= s@.len(),
            digits_end(s@, from as int) == digits_end(s@, i as int),
            forall|k: int| from <= k < i ==> is_digit(#[trigger] s@[k]),
        decreases s@.len() - i,
    {
        proof {
            assert(digits_end(s@, i as int) == digits_end(s@, i as int + 1));
        }
        i = i + 1;
    }
    proof {
        assert(digits_end(s@, i as int) == i as int);
    }
    i
}

/// Parse: decode a payload from its bytes.
///
/// Succeeds exactly on the byte sequences that [`parse_spec`] accepts, and
/// then returns exactly the payload [`parse_spec`] assigns them; everything
/// else — invalid UTF-8, a different JSON shape, an out-of-range integer —
/// is a [`TransformError::MalformedPayload`].
pub fn parse_input(s: &[u8]) -> (r: Result<InputModel, TransformError>)
    ensures
        parse_spec(s@) matches Some(m) ==> r == Ok::<InputModel, TransformError>(m),
        parse_spec(s@) is None ==> r == Err::<InputModel, TransformError>(
            TransformError::MalformedPayload),
{
    let i0: usize = skip_ws_exec(s, 0);
    if i0 >= s.len() || s[i0] != 123 {
        return Err(TransformError::MalformedPayload);
    }
    let i1: usize = skip_ws_exec(s, i0 + 1);
    if s.len() - i1 < 5 || s[i1] != 34 || s[i1 + 1] != 102 || s[i1 + 2] != 111
        || s[i1 + 3] != 111 || s[i1 + 4] != 34 {
        proof {
            if i1 + 5 <= s@.len() {
                assert(s@.subrange(i1 as int, i1 as int + 5)[0] == s@[i1 as int]);
                assert(s@.subrange(i1 as int, i1 as int + 5)[1] == s@[i1 as int + 1]);
                assert(s@.subrange(i1 as int, i1 as int + 5)[2] == s@[i1 as int + 2]);
                assert(s@.subrange(i1 as int, i1 as int + 5)[3] == s@[i1 as int + 3]);
                assert(s@.subrange(i1 as int, i1 as int + 5)[4] == s@[i1 as int + 4]);
            }
        }
        return Err(TransformError::MalformedPayload);
    }
    proof {
        assert(s@.subrange(i1 as int, i1 as int + 5) =~= key_seq());
    }
    let i2: usize = skip_ws_exec(s, i1 + 5);
    if i2 >= s.len() || s[i2] != 58 {
        return Err(TransformError::MalformedPayload);
    }
    let i3: usize = skip_ws_exec(s, i2 + 1);
    let neg: bool = i3 < s.len() && s[i3] == 45;
    let d0: usize = if neg { i3 + 1 } else { i3 };
    proof {
        assert(d0 as int == num_start(s@, i3 as int));
    }
    let de: usize = digits_end_exec(s, d0);
    if de == d0 {
        return Err(TransformError::MalformedPayload);
    }
    if s[d0] == 48 && de > d0 + 1 {
        return Err(TransformError::MalformedPayload);
    }
    if de - d0 > 10 {
        // Too many digits: the value cannot fit a 32-bit integer, whatever
        // the rest of the input looks like.
        proof {
            let d = s@.subrange(d0 as int, de as int);
            assert(d[0] == s@[d0 as int]);
            assert(forall|k: int| 0 <= k < d.len() ==> is_digit(#[trigger] d[k]));
            lemma_digits_val_lower(d);
            lemma_pow10_mono(10, (d.len() - 1) as nat);
            reveal_with_fuel(pow10, 11);
            assert(pow10(10) == 10000000000);
        }
        return Err(TransformError::MalformedPayload);
    }
    let mut acc: i64 = 0;
    let mut idx: usize = d0;
    proof {
        assert(s@.subrange(d0 as int, d0 as int) =~= Seq::<u8>::empty());
    }
    while idx < de
        invariant
            d0 <= idx <= de <= s@.len(),
            de - d0 <= 10,
            de == digits_end(s@, d0 as int),
            forall|k: int| d0 <= k < de ==> is_digit(#[trigger] s@[k]),
            acc == digits_val(s@.subrange(d0 as int, idx as int)),
            0 <= acc,
        decreases de - idx,
    {
        proof {
            let sub = s@.subrange(d0 as int, idx as int);
            lemma_digits_val_upper(sub);
            lemma_pow10_mono(sub.len() as nat, 9);
            reveal_with_fuel(pow10, 10);
            assert(pow10(9) == 1000000000);
            let sub2 = s@.subrange(d0 as int, idx as int + 1);
            assert(sub2.drop_last() =~= sub);
            assert(sub2.last() == s@[idx as int]);
        }
        let d: u8 = s[idx] - 48;
        acc = acc * 10 + (d as i64);
        idx = idx + 1;
    }
    let bound: i64 = if neg { 2147483648 } else { 2147483647 };
    if acc > bound {
        return Err(TransformError::MalformedPayload);
    }
    let value: i64 = if neg { -acc } else { acc };
    proof {
        assert(num_val(s@, i3 as int) == value as int);
        assert(num_valid(s@, i3 as int));
    }
    let i4: usize = skip_ws_exec(s, de);
    if i4 >= s.len() || s[i4] != 125 {
        return Err(TransformError::MalformedPayload);
    }
    let i5: usize = skip_ws_exec(s, i4 + 1);
    if i5 != s.len() {
        return Err(TransformError::MalformedPayload);
    }
    Ok(InputModel { foo: value as i32 })
}

/// Append the decimal digits of the non-negative `n`, mirroring [`dec_rep`].
fn push_dec(n: i64, out: &mut Vec<u8>)
    requires
        n >= 0,
    ensures
        final(out)@ == old(out)@ + dec_rep(n as int),
    decreases n,
{
    if n < 10 {
        out.push(48 + (n as u8));
        proof {
            assert(out@ =~= old(out)@ + dec_rep(n as int));
        }
    } else {
        push_dec(n / 10, out);
        let d: u8 = (n % 10) as u8;
        out.push(48 + d);
        proof {
            assert(out@ =~= old(out)@ + dec_rep(n as int));
        }
    }
}

/// Serialize: render a payload into freshly allocated bytes.
///
/// Always succeeds — the payload model has a finite canonical rendering —
/// and returns exactly [`serialize_spec`] of the payload.
pub fn serialize_output(m: &InputModel) -> (r: Vec<u8>)
    ensures
        r@ == serialize_spec(*m),
{
    let mut out: Vec<u8> = Vec::new();
    out.push(123);
    out.push(34);
    out.push(102);
    out.push(111);
    out.push(111);
    out.push(34);
    out.push(58);
    if m.foo < 0 {
        out.push(45);
        let mag: i64 = -(m.foo as i64);
        push_dec(mag, &mut out);
    } else {
        push_dec(m.foo as i64, &mut out);
    }
    out.push(125);
    proof {
        assert(out@ =~= serialize_spec(*m));
    }
    out
}

/// Law: the envelope round-trips.  For every representable payload,
/// parsing its canonical rendering reconstructs the payload exactly.
pub proof fn lemma_envelope_round_trip(m: InputModel)
    ensures
        parse_spec(serialize_spec(m)) == Some(m),
{
    let s = serialize_spec(m);
    let v = m.foo as int;
    let mag = if v < 0 { -v } else { v };
    let ir = int_rep(v);
    lemma_dec_rep_shape(mag);
    lemma_dec_rep_val(mag);
    let dr = dec_rep(mag);
    // Layout: '{' at 0, key at 1..6, ':' at 6, the number at 7, '}' at the end.
    assert(s.len() == 8 + ir.len());
    assert(s[0] == 123);
    assert(s[1] == 34 && s[2] == 102 && s[3] == 111 && s[4] == 111 && s[5] == 34);
    assert(s[6] == 58);
    assert(forall|k: int| 0 <= k < ir.len() ==> s[7 + k] == #[trigger] ir[k]);
    assert(s[s.len() - 1] == 125);

    let d0 = if v < 0 { 8int } else { 7int };
    let de = d0 + dr.len();
    assert(forall|k: int| 0 <= k < dr.len() ==> s[d0 + k] == #[trigger] dr[k]);

    assert(skip_ws(s, 0) == 0);
    assert(skip_ws(s, 1) == 1);
    assert(s.subrange(1, 6) =~= key_seq());
    assert(skip_ws(s, 6) == 6);
    assert(skip_ws(s, 7) == 7);
    assert(num_start(s, 7) == d0);
    assert(forall|k: int| d0 <= k < de ==> is_digit(#[trigger] s[k]));
    assert(!is_digit(s[de]));
    lemma_digits_end_at(s, d0, de);
    assert(num_valid(s, 7));
    assert(s.subrange(d0, de) =~= dr);
    assert(num_val(s, 7) == v);
    assert(skip_ws(s, de) == de);
    assert(s[de] == 125);
    assert(skip_ws(s, de + 1) == s.len());
    assert(parse_spec(s) == Some(InputModel { foo: v as i32 }));
}

} // verus!
