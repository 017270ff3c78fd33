//! Value formats the engine owns: the JSON array of course codes kept
//! in the enrollment store, the boolean text kept in the privacy store,
//! the big-endian user key, and the comma-separated code list of an
//! update command.

use vstd::prelude::*;
use vstd::slice::slice_subrange;
use vstd::string::StringSliceAdditionalSpecFns;

verus! {

/// `[`
pub const LBRACKET: u8 = 91;

/// `]`
pub const RBRACKET: u8 = 93;

/// `,`
pub const COMMA: u8 = 44;

/// `-`
pub const MINUS: u8 = 45;

/// `+`
pub const PLUS: u8 = 43;

/// `0`
pub const ZERO: u8 = 48;

/// The decimal digits of `n`, most significant first.
pub open spec fn spec_digits(n: nat) -> Seq<u8>
    decreases n,
{
    if n < 10 {
        seq![(ZERO + n) as u8]
    } else {
        spec_digits(n / 10) + seq![(ZERO + n % 10) as u8]
    }
}

/// The decimal text of a signed value: a minus sign for negatives,
/// then the digits of the magnitude.
pub open spec fn spec_i64_text(v: int) -> Seq<u8> {
    if v < 0 {
        seq![MINUS] + spec_digits((-v) as nat)
    } else {
        spec_digits(v as nat)
    }
}

/// The comma-joined decimal texts of a code list.
pub open spec fn spec_join_codes(codes: Seq<i64>) -> Seq<u8>
    decreases codes.len(),
{
    if codes.len() == 0 {
        Seq::empty()
    } else if codes.len() == 1 {
        spec_i64_text(codes[0] as int)
    } else {
        spec_i64_text(codes[0] as int) + seq![COMMA] + spec_join_codes(codes.drop_first())
    }
}

/// The stored enrollment value: the code list as a JSON array of
/// decimal integers, `[` codes `]` with no interior spacing.
pub open spec fn spec_enrollment_bytes(codes: Seq<i64>) -> Seq<u8> {
    seq![LBRACKET] + spec_join_codes(codes) + seq![RBRACKET]
}

/// Append the decimal digits of `n`.
fn push_digits(out: &mut Vec<u8>, n: u64)
    ensures
        final(out)@ == old(out)@ + spec_digits(n as nat),
    decreases n,
{
    if n >= 10 {
        push_digits(out, n / 10);
    }
    out.push(ZERO + (n % 10) as u8);
}

/// Append the decimal text of `v`.
fn push_i64_text(out: &mut Vec<u8>, v: i64)
    ensures
        final(out)@ == old(out)@ + spec_i64_text(v as int),
{
    if v < 0 {
        out.push(MINUS);
        let magnitude: u64 = if v == i64::MIN {
            9223372036854775808u64
        } else {
            (-v) as u64
        };
        assert(magnitude == -(v as int));
        push_digits(out, magnitude);
        assert(out@ =~= old(out)@ + spec_i64_text(v as int));
    } else {
        push_digits(out, v as u64);
    }
}

/// Encode a code list as the stored enrollment value.
pub fn encode_enrollment(codes: &Vec<i64>) -> (out: Vec<u8>)
    ensures
        out@ == spec_enrollment_bytes(codes@),
{
    let mut out: Vec<u8> = Vec::new();
    out.push(LBRACKET);
    let n = codes.len();
    let mut i: usize = 0;
    while i < n
        invariant
            i <= n,
            n == codes@.len(),
            out@ == seq![LBRACKET] + spec_join_codes(codes@.take(i as int)),
        decreases n - i,
    {
        if i > 0 {
            out.push(COMMA);
        }
        push_i64_text(&mut out, codes[i]);
        proof {
            lemma_join_codes_snoc(codes@.take(i as int), codes@[i as int]);
            assert(codes@.take(i + 1) =~= codes@.take(i as int).push(codes@[i as int]));
        }
        i = i + 1;
    }
    out.push(RBRACKET);
    proof {
        assert(codes@.take(n as int) =~= codes@);
    }
    out
}

/// Joining a list extended by one code appends a comma (if the list
/// was non-empty) and the code's text.
proof fn lemma_join_codes_snoc(codes: Seq<i64>, tail: i64)
    ensures
        spec_join_codes(codes.push(tail)) == if codes.len() == 0 {
            spec_i64_text(tail as int)
        } else {
            spec_join_codes(codes) + seq![COMMA] + spec_i64_text(tail as int)
        },
    decreases codes.len(),
{
    let pushed = codes.push(tail);
    if codes.len() == 0 {
        assert(pushed.len() == 1);
        assert(pushed[0] == tail);
    } else {
        assert(pushed.len() >= 2);
        assert(pushed[0] == codes[0]);
        assert(pushed.drop_first() =~= codes.drop_first().push(tail));
        lemma_join_codes_snoc(codes.drop_first(), tail);
        if codes.len() == 1 {
            assert(codes.drop_first().len() == 0);
            assert(spec_join_codes(pushed) == spec_i64_text(codes[0] as int) + seq![COMMA]
                + spec_i64_text(tail as int));
            assert(spec_join_codes(codes) == spec_i64_text(codes[0] as int));
        } else {
            assert(spec_join_codes(codes) == spec_i64_text(codes[0] as int) + seq![COMMA]
                + spec_join_codes(codes.drop_first()));
            assert(spec_join_codes(pushed) =~= spec_join_codes(codes) + seq![COMMA]
                + spec_i64_text(tail as int));
        }
    }
}

/// Magnitude of the most negative storable code.
pub const I64_MAGNITUDE_CAP: u64 = 9223372036854775808;

pub open spec fn is_digit(b: u8) -> bool {
    ZERO <= b <= 57
}

pub open spec fn all_digits(ds: Seq<u8>) -> bool {
    forall|i: int| 0 <= i < ds.len() ==> is_digit(#[trigger] ds[i])
}

/// The number a digit run denotes, most significant digit first.
pub open spec fn spec_nat_value(ds: Seq<u8>) -> int
    decreases ds.len(),
{
    if ds.len() == 0 {
        0
    } else {
        spec_nat_value(ds.drop_last()) * 10 + (ds.last() - ZERO)
    }
}

/// Parse a canonical digit run: non-empty, digits only, and no leading
/// zero except for the single digit `0` itself.
pub open spec fn spec_parse_nat(ds: Seq<u8>) -> Option<int> {
    if ds.len() == 0 || !all_digits(ds) || (ds.len() > 1 && ds[0] == ZERO) {
        None
    } else {
        Some(spec_nat_value(ds))
    }
}

/// Parse the canonical decimal text of a signed 64-bit code; this is
/// the exact inverse of [`spec_i64_text`].
pub open spec fn spec_parse_i64(token: Seq<u8>) -> Option<i64> {
    if token.len() >= 1 && token[0] == MINUS {
        match spec_parse_nat(token.drop_first()) {
            Some(n) => if 1 <= n <= I64_MAGNITUDE_CAP {
                Some((-n) as i64)
            } else {
                None
            },
            None => None,
        }
    } else {
        match spec_parse_nat(token) {
            Some(n) => if n <= i64::MAX {
                Some(n as i64)
            } else {
                None
            },
            None => None,
        }
    }
}

/// Position of the first comma, if any.
pub open spec fn spec_first_comma(s: Seq<u8>) -> Option<int>
    decreases s.len(),
{
    if s.len() == 0 {
        None
    } else if s[0] == COMMA {
        Some(0)
    } else {
        match spec_first_comma(s.drop_first()) {
            Some(k) => Some(k + 1),
            None => None,
        }
    }
}

/// Parse a non-empty comma-separated run of canonical decimal codes.
pub open spec fn spec_decode_items(inner: Seq<u8>) -> Option<Seq<i64>>
    decreases inner.len(),
{
    match spec_first_comma(inner) {
        None => match spec_parse_i64(inner) {
            Some(v) => Some(seq![v]),
            None => None,
        },
        Some(k) => if 0 <= k < inner.len() {
            match spec_parse_i64(inner.take(k)) {
                Some(v) => match spec_decode_items(inner.subrange(k + 1, inner.len() as int)) {
                    Some(rest) => Some(seq![v] + rest),
                    None => None,
                },
                None => None,
            }
        } else {
            None
        },
    }
}

/// Parse a stored enrollment value; `None` is a malformed record,
/// which read paths degrade to an empty enrollment.
pub open spec fn spec_decode_enrollment(bytes: Seq<u8>) -> Option<Seq<i64>> {
    if bytes.len() < 2 || bytes[0] != LBRACKET || bytes.last() != RBRACKET {
        None
    } else {
        let inner = bytes.subrange(1, bytes.len() - 1);
        if inner.len() == 0 {
            Some(Seq::empty())
        } else {
            spec_decode_items(inner)
        }
    }
}

/// The code list a stored enrollment value denotes, a malformed value
/// degrading to the empty list.
pub open spec fn spec_codes_or_empty(bytes: Seq<u8>) -> Seq<i64> {
    match spec_decode_enrollment(bytes) {
        Some(codes) => codes,
        None => Seq::empty(),
    }
}

proof fn lemma_first_comma_determined(s: Seq<u8>, k: int)
    requires
        0 <= k <= s.len(),
        forall|j: int| 0 <= j < k ==> #[trigger] s[j] != COMMA,
        k < s.len() ==> s[k] == COMMA,
    ensures
        spec_first_comma(s) == if k == s.len() {
            None::<int>
        } else {
            Some(k)
        },
    decreases s.len(),
{
    if s.len() == 0 {
    } else if s[0] == COMMA {
        assert(k == 0);
    } else {
        assert(k >= 1) by {
            assert(k == 0 ==> s[0] == COMMA);
        }
        let rest = s.drop_first();
        assert(forall|j: int| 0 <= j < k - 1 ==> #[trigger] rest[j] != COMMA) by {
            assert(forall|j: int| 0 <= j < k - 1 ==> rest[j] == s[j + 1]);
        }
        lemma_first_comma_determined(rest, k - 1);
    }
}

proof fn lemma_nat_value_nonneg(ds: Seq<u8>)
    requires
        all_digits(ds),
    ensures
        spec_nat_value(ds) >= 0,
    decreases ds.len(),
{
    if ds.len() > 0 {
        assert(all_digits(ds.drop_last())) by {
            assert(forall|i: int| 0 <= i < ds.len() - 1 ==> ds.drop_last()[i] == ds[i]);
        }
        lemma_nat_value_nonneg(ds.drop_last());
    }
}

/// A digit run's value only grows as digits are appended.
proof fn lemma_nat_value_prefix_le(ds: Seq<u8>, i: int)
    requires
        all_digits(ds),
        0 <= i <= ds.len(),
    ensures
        spec_nat_value(ds.take(i)) <= spec_nat_value(ds),
    decreases ds.len() - i,
{
    if i < ds.len() {
        lemma_nat_value_prefix_le(ds, i + 1);
        assert(ds.take(i + 1).drop_last() =~= ds.take(i));
        assert(all_digits(ds.take(i))) by {
            assert(forall|j: int| 0 <= j < i ==> ds.take(i)[j] == ds[j]);
        }
        lemma_nat_value_nonneg(ds.take(i));
        assert(spec_nat_value(ds.take(i + 1)) == spec_nat_value(ds.take(i)) * 10 + (ds[i] - ZERO));
    } else {
        assert(ds.take(i) =~= ds);
    }
}

/// Read a digit run's value, refusing non-digits and values beyond the
/// largest storable magnitude.
fn parse_digits_value(ds: &[u8]) -> (r: Option<u64>)
    ensures
        match r {
            Some(m) => all_digits(ds@) && spec_nat_value(ds@) == m && m <= I64_MAGNITUDE_CAP,
            None => !all_digits(ds@) || spec_nat_value(ds@) > I64_MAGNITUDE_CAP,
        },
{
    let n = ds.len();
    let mut acc: u64 = 0;
    let mut i: usize = 0;
    while i < n
        invariant
            i <= n,
            n == ds@.len(),
            all_digits(ds@.take(i as int)),
            acc == spec_nat_value(ds@.take(i as int)),
            acc <= I64_MAGNITUDE_CAP,
        decreases n - i,
    {
        let d = ds[i];
        if d < ZERO || d > 57 {
            assert(!all_digits(ds@)) by {
                assert(!is_digit(ds@[i as int]));
            }
            return None;
        }
        let dv = (d - ZERO) as u64;
        let next: u128 = acc as u128 * 10 + dv as u128;
        proof {
            assert(ds@.take(i + 1).drop_last() =~= ds@.take(i as int));
            assert(all_digits(ds@.take(i + 1))) by {
                assert(forall|j: int| 0 <= j < i + 1 ==> ds@.take(i + 1)[j] == ds@[j]);
            }
            assert(next == spec_nat_value(ds@.take(i + 1)));
        }
        if next > I64_MAGNITUDE_CAP as u128 {
            proof {
                if all_digits(ds@) {
                    lemma_nat_value_prefix_le(ds@, i + 1);
                }
            }
            return None;
        }
        acc = next as u64;
        i = i + 1;
    }
    proof {
        assert(ds@.take(n as int) =~= ds@);
    }
    Some(acc)
}

/// Read a canonical digit run, as [`spec_parse_nat`] describes it.
fn parse_nat_canon(ds: &[u8]) -> (r: Option<u64>)
    ensures
        match r {
            Some(m) => spec_parse_nat(ds@) == Some(m as int) && m <= I64_MAGNITUDE_CAP,
            None => match spec_parse_nat(ds@) {
                Some(n) => n > I64_MAGNITUDE_CAP,
                None => true,
            },
        },
{
    if ds.len() == 0 {
        return None;
    }
    if ds.len() > 1 && ds[0] == ZERO {
        return None;
    }
    parse_digits_value(ds)
}

/// Read the canonical decimal text of a signed 64-bit code, as
/// [`spec_parse_i64`] describes it.
fn parse_i64_token(token: &[u8]) -> (r: Option<i64>)
    ensures
        r == spec_parse_i64(token@),
{
    if token.len() >= 1 && token[0] == MINUS {
        let digits = slice_subrange(token, 1, token.len());
        proof {
            assert(digits@ =~= token@.drop_first());
        }
        match parse_nat_canon(digits) {
            Some(m) => {
                if m == 0 {
                    None
                } else if m == I64_MAGNITUDE_CAP {
                    Some(i64::MIN)
                } else {
                    Some(-(m as i64))
                }
            },
            None => None,
        }
    } else {
        match parse_nat_canon(token) {
            Some(m) => {
                if m <= i64::MAX as u64 {
                    Some(m as i64)
                } else {
                    None
                }
            },
            None => None,
        }
    }
}

/// Read a non-empty comma-separated run of canonical decimal codes, as
/// [`spec_decode_items`] describes it.
fn parse_items(inner: &[u8]) -> (r: Option<Vec<i64>>)
    ensures
        match r {
            Some(codes) => spec_decode_items(inner@) == Some(codes@),
            None => spec_decode_items(inner@) is None,
        },
    decreases inner.len(),
{
    let n = inner.len();
    let mut k: usize = 0;
    while k < n && inner[k] != COMMA
        invariant
            k <= n,
            n == inner@.len(),
            forall|j: int| 0 <= j < k ==> #[trigger] inner@[j] != COMMA,
        decreases n - k,
    {
        k = k + 1;
    }
    proof {
        lemma_first_comma_determined(inner@, k as int);
    }
    if k == n {
        match parse_i64_token(inner) {
            Some(v) => {
                let mut codes: Vec<i64> = Vec::new();
                codes.push(v);
                proof {
                    assert(codes@ =~= seq![v]);
                }
                Some(codes)
            },
            None => None,
        }
    } else {
        let head = slice_subrange(inner, 0, k);
        proof {
            assert(head@ =~= inner@.take(k as int));
        }
        match parse_i64_token(head) {
            Some(v) => {
                let rest = slice_subrange(inner, k + 1, n);
                match parse_items(rest) {
                    Some(mut codes) => {
                        codes.insert(0, v);
                        proof {
                            assert(codes@ =~= seq![v] + codes@.drop_first());
                        }
                        Some(codes)
                    },
                    None => None,
                }
            },
            None => None,
        }
    }
}

/// Decode a stored enrollment value, as [`spec_decode_enrollment`]
/// describes it; `None` is a malformed record.
pub fn decode_enrollment(bytes: &Vec<u8>) -> (r: Option<Vec<i64>>)
    ensures
        match r {
            Some(codes) => spec_decode_enrollment(bytes@) == Some(codes@),
            None => spec_decode_enrollment(bytes@) is None,
        },
{
    let n = bytes.len();
    if n < 2 {
        return None;
    }
    if bytes[0] != LBRACKET || bytes[n - 1] != RBRACKET {
        return None;
    }
    let inner = slice_subrange(bytes.as_slice(), 1, n - 1);
    if inner.len() == 0 {
        proof {
            assert(bytes@.subrange(1, bytes@.len() - 1) =~= inner@);
        }
        Some(Vec::new())
    } else {
        proof {
            assert(bytes@.subrange(1, bytes@.len() - 1) =~= inner@);
        }
        parse_items(inner)
    }
}

proof fn lemma_digits_shape(n: nat)
    ensures
        spec_digits(n).len() >= 1,
        all_digits(spec_digits(n)),
        spec_digits(n)[0] == ZERO ==> n == 0,
        n >= 10 ==> spec_digits(n).len() >= 2,
    decreases n,
{
    if n >= 10 {
        lemma_digits_shape(n / 10);
        assert(forall|i: int|
            0 <= i < spec_digits(n).len() - 1 ==> spec_digits(n)[i] == spec_digits(n / 10)[i]);
        assert(is_digit(spec_digits(n).last()));
    }
}

proof fn lemma_nat_value_digits(n: nat)
    ensures
        spec_nat_value(spec_digits(n)) == n,
    decreases n,
{
    if n < 10 {
        assert(spec_digits(n).drop_last() =~= Seq::<u8>::empty());
        assert(spec_nat_value(Seq::<u8>::empty()) == 0);
        assert(spec_digits(n).last() == (ZERO + n) as u8);
        assert(spec_nat_value(spec_digits(n)) == 0 * 10 + ((ZERO + n) as u8 - ZERO));
        assert((ZERO + n) as u8 == ZERO + n);
    } else {
        lemma_nat_value_digits(n / 10);
        assert(spec_digits(n).drop_last() =~= spec_digits(n / 10));
        assert(spec_digits(n).last() == (ZERO + n % 10) as u8);
        assert(n == (n / 10) * 10 + n % 10) by {
            vstd::arithmetic::div_mod::lemma_fundamental_div_mod(n as int, 10);
        }
    }
}

/// Printing then parsing a natural number is the identity.
proof fn lemma_parse_nat_digits(n: nat)
    ensures
        spec_parse_nat(spec_digits(n)) == Some(n as int),
{
    lemma_digits_shape(n);
    lemma_nat_value_digits(n);
    if spec_digits(n).len() > 1 {
        assert(spec_digits(n)[0] != ZERO);
    }
}

/// Printing then parsing a signed 64-bit code is the identity.
proof fn lemma_parse_i64_text(v: i64)
    ensures
        spec_parse_i64(spec_i64_text(v as int)) == Some(v),
{
    let text = spec_i64_text(v as int);
    if v < 0 {
        let magnitude = (-(v as int)) as nat;
        lemma_digits_shape(magnitude);
        lemma_parse_nat_digits(magnitude);
        assert(text[0] == MINUS);
        assert(text.drop_first() =~= spec_digits(magnitude));
        assert(1 <= magnitude <= I64_MAGNITUDE_CAP);
        assert((-(magnitude as int)) as i64 == v);
    } else {
        lemma_digits_shape((v as int) as nat);
        lemma_parse_nat_digits((v as int) as nat);
        assert(text == spec_digits((v as int) as nat));
        assert(text[0] != MINUS);
    }
}

/// A code's text holds only a sign and digits: never a comma or a
/// bracket.
proof fn lemma_i64_text_bytes(v: i64)
    ensures
        forall|i: int|
            0 <= i < spec_i64_text(v as int).len() ==> (#[trigger] spec_i64_text(v as int)[i]
                == MINUS || is_digit(spec_i64_text(v as int)[i])),
{
    if v < 0 {
        lemma_digits_shape((-(v as int)) as nat);
    } else {
        lemma_digits_shape((v as int) as nat);
    }
}

/// Joining then splitting a non-empty code list is the identity.
proof fn lemma_decode_items_join(codes: Seq<i64>)
    requires
        codes.len() >= 1,
    ensures
        spec_decode_items(spec_join_codes(codes)) == Some(codes),
    decreases codes.len(),
{
    let joined = spec_join_codes(codes);
    let head = spec_i64_text(codes[0] as int);
    lemma_i64_text_bytes(codes[0]);
    lemma_parse_i64_text(codes[0]);
    if codes.len() == 1 {
        assert(forall|j: int| 0 <= j < head.len() ==> #[trigger] head[j] != COMMA);
        lemma_first_comma_determined(head, head.len() as int);
        assert(Some(seq![codes[0]]) == Some(codes)) by {
            assert(seq![codes[0]] =~= codes);
        }
    } else {
        let rest = spec_join_codes(codes.drop_first());
        assert(joined == head + seq![COMMA] + rest);
        let k = head.len() as int;
        assert(forall|j: int| 0 <= j < k ==> #[trigger] joined[j] != COMMA) by {
            assert(forall|j: int| 0 <= j < k ==> joined[j] == head[j]);
        }
        assert(joined[k] == COMMA);
        lemma_first_comma_determined(joined, k);
        assert(joined.take(k) =~= head);
        assert(joined.subrange(k + 1, joined.len() as int) =~= rest);
        lemma_decode_items_join(codes.drop_first());
        assert(seq![codes[0]] + codes.drop_first() =~= codes);
    }
}

/// Encoding then decoding an enrollment is the identity: every stored
/// value the engine writes reads back as the list it wrote.
pub proof fn lemma_enrollment_round_trip(codes: Seq<i64>)
    ensures
        spec_decode_enrollment(spec_enrollment_bytes(codes)) == Some(codes),
{
    let bytes = spec_enrollment_bytes(codes);
    assert(bytes[0] == LBRACKET);
    assert(bytes.last() == RBRACKET);
    assert(bytes.subrange(1, bytes.len() - 1) =~= spec_join_codes(codes));
    if codes.len() == 0 {
        assert(Some(Seq::<i64>::empty()) == Some(codes)) by {
            assert(Seq::<i64>::empty() =~= codes);
        }
    } else {
        assert(spec_join_codes(codes).len() >= 1) by {
            if codes.len() >= 2 {
                assert(spec_join_codes(codes) == spec_i64_text(codes[0] as int) + seq![COMMA]
                    + spec_join_codes(codes.drop_first()));
            }
            lemma_digits_shape(if codes[0] < 0 {
                (-(codes[0] as int)) as nat
            } else {
                (codes[0] as int) as nat
            });
        }
        lemma_decode_items_join(codes);
    }
}

/// The stored privacy value: the flag's text, `true` or `false`.
pub open spec fn spec_privacy_bytes(private: bool) -> Seq<u8> {
    if private {
        seq![116u8, 114u8, 117u8, 101u8]
    } else {
        seq![102u8, 97u8, 108u8, 115u8, 101u8]
    }
}

/// Parse a stored privacy value; `None` is a malformed record, which
/// read paths degrade to "public".
pub open spec fn spec_decode_privacy(bytes: Seq<u8>) -> Option<bool> {
    if bytes == spec_privacy_bytes(true) {
        Some(true)
    } else if bytes == spec_privacy_bytes(false) {
        Some(false)
    } else {
        None
    }
}

/// Encode a privacy flag as its stored value.
pub fn encode_privacy(private: bool) -> (out: Vec<u8>)
    ensures
        out@ == spec_privacy_bytes(private),
{
    let mut out: Vec<u8> = Vec::new();
    if private {
        out.push(116);
        out.push(114);
        out.push(117);
        out.push(101);
        proof {
            assert(out@ =~= spec_privacy_bytes(true));
        }
    } else {
        out.push(102);
        out.push(97);
        out.push(108);
        out.push(115);
        out.push(101);
        proof {
            assert(out@ =~= spec_privacy_bytes(false));
        }
    }
    out
}

/// Decode a stored privacy value, as [`spec_decode_privacy`] describes
/// it.
pub fn decode_privacy(bytes: &Vec<u8>) -> (r: Option<bool>)
    ensures
        r == spec_decode_privacy(bytes@),
{
    if bytes.len() == 4 && bytes[0] == 116 && bytes[1] == 114 && bytes[2] == 117 && bytes[3]
        == 101 {
        proof {
            assert(bytes@ =~= spec_privacy_bytes(true));
        }
        Some(true)
    } else if bytes.len() == 5 && bytes[0] == 102 && bytes[1] == 97 && bytes[2] == 108 && bytes[3]
        == 115 && bytes[4] == 101 {
        proof {
            assert(bytes@ =~= spec_privacy_bytes(false));
        }
        Some(false)
    } else {
        proof {
            if bytes@ == spec_privacy_bytes(true) {
                assert(bytes@.len() == 4);
                assert(bytes@[0] == 116 && bytes@[1] == 114 && bytes@[2] == 117 && bytes@[3]
                    == 101);
            }
            if bytes@ == spec_privacy_bytes(false) {
                assert(bytes@.len() == 5);
                assert(bytes@[0] == 102 && bytes@[1] == 97 && bytes@[2] == 108 && bytes@[3] == 115
                    && bytes@[4] == 101);
            }
        }
        None
    }
}

/// The store key of a user: the identifier's eight bytes, big end
/// first.
pub open spec fn spec_user_key(uid: u64) -> Seq<u8> {
    seq![
        (uid >> 56) as u8,
        (uid >> 48) as u8,
        (uid >> 40) as u8,
        (uid >> 32) as u8,
        (uid >> 24) as u8,
        (uid >> 16) as u8,
        (uid >> 8) as u8,
        uid as u8,
    ]
}

/// The byte a key presents at position `i`, a short key padding with
/// zeros.
pub open spec fn spec_key_byte(key: Seq<u8>, i: int) -> u64 {
    if 0 <= i < key.len() {
        key[i] as u64
    } else {
        0u64
    }
}

/// The user identifier a store key of any length denotes: its first
/// eight bytes, big end first, short keys padded with zeros.
pub open spec fn spec_uid_of_key(key: Seq<u8>) -> u64 {
    (spec_key_byte(key, 0) << 56) | (spec_key_byte(key, 1) << 48) | (spec_key_byte(key, 2) << 40)
        | (spec_key_byte(key, 3) << 32) | (spec_key_byte(key, 4) << 24) | (spec_key_byte(key, 5)
        << 16) | (spec_key_byte(key, 6) << 8) | spec_key_byte(key, 7)
}

/// Build a user's store key; it reads back as that user.
pub fn user_key(uid: u64) -> (key: Vec<u8>)
    ensures
        key@ == spec_user_key(uid),
        spec_uid_of_key(key@) == uid,
{
    let mut key: Vec<u8> = Vec::new();
    key.push((uid >> 56) as u8);
    key.push((uid >> 48) as u8);
    key.push((uid >> 40) as u8);
    key.push((uid >> 32) as u8);
    key.push((uid >> 24) as u8);
    key.push((uid >> 16) as u8);
    key.push((uid >> 8) as u8);
    key.push(uid as u8);
    proof {
        assert(key@ =~= spec_user_key(uid));
        assert((((uid >> 56) as u8 as u64) << 56) | (((uid >> 48) as u8 as u64) << 48) | (((uid
            >> 40) as u8 as u64) << 40) | (((uid >> 32) as u8 as u64) << 32) | (((uid
            >> 24) as u8 as u64) << 24) | (((uid >> 16) as u8 as u64) << 16) | (((uid
            >> 8) as u8 as u64) << 8) | (uid as u8 as u64) == uid) by (bit_vector);
    }
    key
}

/// Read the user identifier a store key denotes, as
/// [`spec_uid_of_key`] describes it.
pub fn uid_of_key(key: &Vec<u8>) -> (uid: u64)
    ensures
        uid == spec_uid_of_key(key@),
{
    let n = key.len();
    let b0 = if n > 0 { key[0] } else { 0 };
    let b1 = if n > 1 { key[1] } else { 0 };
    let b2 = if n > 2 { key[2] } else { 0 };
    let b3 = if n > 3 { key[3] } else { 0 };
    let b4 = if n > 4 { key[4] } else { 0 };
    let b5 = if n > 5 { key[5] } else { 0 };
    let b6 = if n > 6 { key[6] } else { 0 };
    let b7 = if n > 7 { key[7] } else { 0 };
    ((b0 as u64) << 56) | ((b1 as u64) << 48) | ((b2 as u64) << 40) | ((b3 as u64) << 32) | ((
    b4 as u64) << 24) | ((b5 as u64) << 16) | ((b6 as u64) << 8) | (b7 as u64)
}

/// The blank bytes an update command's code list may pad its entries
/// with: space, tab, line feed, vertical tab, form feed, carriage
/// return.
pub open spec fn is_ascii_space(b: u8) -> bool {
    b == 32 || (9 <= b <= 13)
}

pub open spec fn spec_trim_front(s: Seq<u8>) -> Seq<u8>
    decreases s.len(),
{
    if s.len() > 0 && is_ascii_space(s[0]) {
        spec_trim_front(s.drop_first())
    } else {
        s
    }
}

pub open spec fn spec_trim_back(s: Seq<u8>) -> Seq<u8>
    decreases s.len(),
{
    if s.len() > 0 && is_ascii_space(s.last()) {
        spec_trim_back(s.drop_last())
    } else {
        s
    }
}

/// A segment with its leading and trailing blanks removed.
pub open spec fn spec_trim(s: Seq<u8>) -> Seq<u8> {
    spec_trim_back(spec_trim_front(s))
}

/// Parse one update-command entry: an optional sign, then digits, the
/// whole entry and nothing else, with the value in signed 64-bit
/// range. Leading zeros are accepted here.
pub open spec fn spec_parse_i64_lenient(t: Seq<u8>) -> Option<i64> {
    if t.len() == 0 {
        None
    } else {
        let neg = t[0] == MINUS;
        let ds = if t[0] == MINUS || t[0] == PLUS {
            t.drop_first()
        } else {
            t
        };
        if ds.len() == 0 || !all_digits(ds) {
            None
        } else {
            let n = spec_nat_value(ds);
            if neg {
                if n <= I64_MAGNITUDE_CAP {
                    Some((-n) as i64)
                } else {
                    None
                }
            } else {
                if n <= i64::MAX {
                    Some(n as i64)
                } else {
                    None
                }
            }
        }
    }
}

/// The comma-separated segments of an update command's code list;
/// empty segments are kept.
pub open spec fn spec_split_commas(s: Seq<u8>) -> Seq<Seq<u8>>
    decreases s.len(),
{
    match spec_first_comma(s) {
        None => seq![s],
        Some(k) => if 0 <= k < s.len() {
            seq![s.take(k)] + spec_split_commas(s.subrange(k + 1, s.len() as int))
        } else {
            seq![s]
        },
    }
}

/// The codes the segments denote, in order, segments that do not parse
/// dropped.
pub open spec fn spec_collect_codes(segments: Seq<Seq<u8>>) -> Seq<i64>
    decreases segments.len(),
{
    if segments.len() == 0 {
        Seq::empty()
    } else {
        match spec_parse_i64_lenient(spec_trim(segments[0])) {
            Some(v) => seq![v] + spec_collect_codes(segments.drop_first()),
            None => spec_collect_codes(segments.drop_first()),
        }
    }
}

/// The code list an update command's text denotes: the text split on
/// commas, each segment trimmed and parsed, failures dropped.
pub open spec fn spec_parse_code_list(s: Seq<u8>) -> Seq<i64> {
    spec_collect_codes(spec_split_commas(s))
}

fn is_space(b: u8) -> (r: bool)
    ensures
        r == is_ascii_space(b),
{
    b == 32 || (9 <= b && b <= 13)
}

proof fn lemma_trim_front_determined(s: Seq<u8>, i: int)
    requires
        0 <= i <= s.len(),
        forall|j: int| 0 <= j < i ==> is_ascii_space(#[trigger] s[j]),
        i < s.len() ==> !is_ascii_space(s[i]),
    ensures
        spec_trim_front(s) == s.subrange(i, s.len() as int),
    decreases s.len(),
{
    if i == 0 {
        assert(s.subrange(0, s.len() as int) =~= s);
    } else {
        assert(is_ascii_space(s[0]));
        let rest = s.drop_first();
        assert(forall|j: int| 0 <= j < i - 1 ==> is_ascii_space(#[trigger] rest[j])) by {
            assert(forall|j: int| 0 <= j < i - 1 ==> rest[j] == s[j + 1]);
        }
        lemma_trim_front_determined(rest, i - 1);
        assert(rest.subrange(i - 1, rest.len() as int) =~= s.subrange(i, s.len() as int));
    }
}

proof fn lemma_trim_back_determined(s: Seq<u8>, j: int)
    requires
        0 <= j <= s.len(),
        forall|l: int| j <= l < s.len() ==> is_ascii_space(#[trigger] s[l]),
        j > 0 ==> !is_ascii_space(s[j - 1]),
    ensures
        spec_trim_back(s) == s.take(j),
    decreases s.len(),
{
    if j == s.len() {
        if s.len() == 0 {
            assert(s.take(0) =~= s);
        } else {
            assert(s.take(j) =~= s);
        }
    } else {
        assert(is_ascii_space(s.last()));
        let head = s.drop_last();
        assert(forall|l: int| j <= l < head.len() ==> is_ascii_space(#[trigger] head[l])) by {
            assert(forall|l: int| j <= l < head.len() ==> head[l] == s[l]);
        }
        lemma_trim_back_determined(head, j);
        assert(head.take(j) =~= s.take(j));
    }
}

/// Remove leading and trailing blanks, as [`spec_trim`] describes it.
fn trim_slice<'a>(s: &'a [u8]) -> (t: &'a [u8])
    ensures
        t@ == spec_trim(s@),
{
    let n = s.len();
    let mut i: usize = 0;
    while i < n && is_space(s[i])
        invariant
            i <= n,
            n == s@.len(),
            forall|j: int| 0 <= j < i ==> is_ascii_space(#[trigger] s@[j]),
        decreases n - i,
    {
        i = i + 1;
    }
    proof {
        lemma_trim_front_determined(s@, i as int);
    }
    let mut j: usize = n;
    while j > i && is_space(s[j - 1])
        invariant
            i <= j <= n,
            n == s@.len(),
            forall|l: int| j <= l < n ==> is_ascii_space(#[trigger] s@[l]),
        decreases j,
    {
        j = j - 1;
    }
    proof {
        let front = s@.subrange(i as int, n as int);
        assert(forall|l: int| j - i <= l < front.len() ==> is_ascii_space(#[trigger] front[l])) by {
            assert(forall|l: int| 0 <= l < front.len() ==> front[l] == s@[l + i]);
        }
        if j > i {
            assert(front[j - i - 1] == s@[j - 1]);
        }
        lemma_trim_back_determined(front, j - i);
        assert(front.take(j - i) =~= s@.subrange(i as int, j as int));
    }
    slice_subrange(s, i, j)
}

/// Parse one update-command entry, as [`spec_parse_i64_lenient`]
/// describes it.
fn parse_i64_lenient(t: &[u8]) -> (r: Option<i64>)
    ensures
        r == spec_parse_i64_lenient(t@),
{
    if t.len() == 0 {
        return None;
    }
    let neg = t[0] == MINUS;
    let start: usize = if t[0] == MINUS || t[0] == PLUS {
        1
    } else {
        0
    };
    let ds = slice_subrange(t, start, t.len());
    proof {
        if start == 1 {
            assert(ds@ =~= t@.drop_first());
        } else {
            assert(ds@ =~= t@);
        }
    }
    if ds.len() == 0 {
        return None;
    }
    match parse_digits_value(ds) {
        Some(m) => {
            if neg {
                if m == I64_MAGNITUDE_CAP {
                    Some(i64::MIN)
                } else {
                    Some(-(m as i64))
                }
            } else {
                if m <= i64::MAX as u64 {
                    Some(m as i64)
                } else {
                    None
                }
            }
        },
        None => None,
    }
}

/// Collect the codes of a comma-separated text, as
/// [`spec_parse_code_list`] describes it.
fn collect_code_segments(s: &[u8]) -> (codes: Vec<i64>)
    ensures
        codes@ == spec_parse_code_list(s@),
    decreases s.len(),
{
    let n = s.len();
    let mut k: usize = 0;
    while k < n && s[k] != COMMA
        invariant
            k <= n,
            n == s@.len(),
            forall|j: int| 0 <= j < k ==> #[trigger] s@[j] != COMMA,
        decreases n - k,
    {
        k = k + 1;
    }
    proof {
        lemma_first_comma_determined(s@, k as int);
    }
    if k == n {
        let ghost segments = spec_split_commas(s@);
        proof {
            assert(segments == seq![s@]);
            assert(segments[0] == s@);
            assert(segments.drop_first() =~= Seq::<Seq<u8>>::empty());
        }
        match parse_i64_lenient(trim_slice(s)) {
            Some(v) => {
                let mut codes: Vec<i64> = Vec::new();
                codes.push(v);
                proof {
                    assert(codes@ =~= seq![v] + spec_collect_codes(segments.drop_first()));
                }
                codes
            },
            None => {
                let codes: Vec<i64> = Vec::new();
                proof {
                    assert(codes@ =~= spec_collect_codes(segments.drop_first()));
                }
                codes
            },
        }
    } else {
        let head = slice_subrange(s, 0, k);
        let rest = slice_subrange(s, k + 1, n);
        let ghost segments = spec_split_commas(s@);
        proof {
            assert(head@ =~= s@.take(k as int));
            assert(segments == seq![s@.take(k as int)] + spec_split_commas(
                s@.subrange(k + 1, n as int),
            ));
            assert(segments[0] == s@.take(k as int));
            assert(segments.drop_first() =~= spec_split_commas(s@.subrange(k + 1, n as int)));
        }
        let mut codes = collect_code_segments(rest);
        let ghost rest_codes = codes@;
        match parse_i64_lenient(trim_slice(head)) {
            Some(v) => {
                codes.insert(0, v);
                proof {
                    assert(codes@ =~= seq![v] + rest_codes);
                }
            },
            None => {},
        }
        codes
    }
}

/// The codes of an update command's comma-separated list: each
/// comma-separated entry trimmed of blanks and read as a signed
/// decimal; entries that do not parse, or do not fit, are dropped.
pub fn parse_codes(input: &str) -> (codes: Vec<i64>)
    ensures
        codes@ == spec_parse_code_list(input.spec_bytes()),
{
    let bytes = input.as_bytes();
    collect_code_segments(bytes)
}

} // verus!
