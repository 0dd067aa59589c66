//! The JSON tokenizer: a pure function from a window of buffered bytes and
//! an end-of-input flag to (bytes consumed, token), or a token-level error,
//! or "more bytes are needed before the token can be decided".
//!
//! Number and string recognition are driven by explicit state machines; the
//! specification-level machines below (`num_step`, `str_scan`) are the single
//! definition of the grammar, and the executable scanners are proved to
//! follow them byte for byte.
use vstd::prelude::*;

verus! {

/// Token-level parse errors.
#[derive(Clone, Debug)]
pub enum JsonTokenError {
    /// The first byte of a token fits no token class.
    BadTokenInitial(u8),
    /// A number violates the number grammar.
    BadNumberFormat(String),
    /// A string violates the string grammar (escapes included).
    BadStringFormat(String),
    /// The token did not complete within the buffered window: either the
    /// bounded-memory cap was hit, or more input is needed first.
    TokenTooLong,
    /// A token starting with 'n' is not `null`.
    ExpectedNull,
    /// A token starting with 'f' is not `false`.
    ExpectedFalse,
    /// A token starting with 't' is not `true`.
    ExpectedTrue,
}

/// One lexical token of the JSON grammar.
#[derive(PartialEq, Eq, Debug)]
pub enum JsonToken {
    StartArray,
    EndArray,
    StartObject,
    EndObject,
    DoubleColon,
    Comma,
    Boolean(bool),
    Null,
    /// A syntactically valid number kept as verbatim decimal text because it
    /// does not fit a machine integer.
    Numeric(Vec<u8>),
    /// A number that fits a 64-bit signed integer.
    NumericInteger(i64),
    /// A decoded string value, as UTF-8 bytes.
    String(Vec<u8>),
    /// End of the document: only whitespace remained.
    EndOfInput,
}

/// Mathematical model of a token, used by the contracts.
pub enum Tok {
    StartArray,
    EndArray,
    StartObject,
    EndObject,
    Colon,
    Comma,
    Boolean(bool),
    Null,
    NumberText(Seq<u8>),
    NumberInt(int),
    StringValue(Seq<u8>),
    EndOfInput,
}

/// Which hard token error a window produces.
pub enum TokFail {
    Initial,
    Number,
    Str,
    LitNull,
    LitFalse,
    LitTrue,
}

/// Outcome of scanning one token from a window.
pub enum TokScan {
    /// A token was decided after consuming the given number of bytes.
    Found(int, Tok),
    /// The window ends before the token can be decided and more input may
    /// follow.
    NeedMore,
    /// The window violates the token grammar.
    Bad(TokFail),
}

/// Abstraction of an executable token to its model.
pub open spec fn tok_abs(t: JsonToken) -> Tok {
    match t {
        JsonToken::StartArray => Tok::StartArray,
        JsonToken::EndArray => Tok::EndArray,
        JsonToken::StartObject => Tok::StartObject,
        JsonToken::EndObject => Tok::EndObject,
        JsonToken::DoubleColon => Tok::Colon,
        JsonToken::Comma => Tok::Comma,
        JsonToken::Boolean(b) => Tok::Boolean(b),
        JsonToken::Null => Tok::Null,
        JsonToken::Numeric(v) => Tok::NumberText(v@),
        JsonToken::NumericInteger(v) => Tok::NumberInt(v as int),
        JsonToken::String(v) => Tok::StringValue(v@),
        JsonToken::EndOfInput => Tok::EndOfInput,
    }
}

/// The ASCII whitespace accepted between tokens: tab, LF, CR, space.
pub open spec fn is_ws(b: u8) -> bool {
    b == 9 || b == 10 || b == 13 || b == 32
}

pub open spec fn is_digit(b: u8) -> bool {
    48 <= b && b <= 57
}

/// Whitespace-only prefix length of a window.
pub open spec fn ws_count(s: Seq<u8>) -> int
    decreases s.len(),
{
    if s.len() == 0 {
        0
    } else if is_ws(s[0]) {
        1 + ws_count(s.skip(1))
    } else {
        0
    }
}

// States of the number grammar -?(0|[1-9][0-9]*)(\.[0-9]+)?([eE][+-]?[0-9]+)?
/// Before any byte of the number.
pub const NS_INIT: u32 = 0;
/// After a leading minus sign.
pub const NS_FNUM: u32 = 1;
/// Inside the integer part, first digit nonzero.
pub const NS_CNUM: u32 = 2;
/// The integer part is a single zero.
pub const NS_ZERO: u32 = 3;
/// Directly after the decimal point.
pub const NS_FDEC: u32 = 4;
/// Inside the fraction digits.
pub const NS_CDEC: u32 = 5;
/// Directly after the exponent marker.
pub const NS_EXPN: u32 = 6;
/// After the exponent sign.
pub const NS_EXPS: u32 = 7;
/// Inside the exponent digits.
pub const NS_EXPC: u32 = 8;
/// The byte does not continue the number.
pub const NS_FAIL: u32 = 9;

/// One step of the number state machine.
pub open spec fn num_step(st: u32, b: u8) -> u32 {
    if st == NS_INIT {
        if b == 45 {
            NS_FNUM
        } else if b == 48 {
            NS_ZERO
        } else if 49 <= b && b <= 57 {
            NS_CNUM
        } else {
            NS_FAIL
        }
    } else if st == NS_FNUM {
        if b == 48 {
            NS_ZERO
        } else if 49 <= b && b <= 57 {
            NS_CNUM
        } else {
            NS_FAIL
        }
    } else if st == NS_CNUM {
        if b == 46 {
            NS_FDEC
        } else if b == 101 || b == 69 {
            NS_EXPN
        } else if is_digit(b) {
            NS_CNUM
        } else {
            NS_FAIL
        }
    } else if st == NS_ZERO {
        if b == 46 {
            NS_FDEC
        } else if b == 101 || b == 69 {
            NS_EXPN
        } else {
            NS_FAIL
        }
    } else if st == NS_FDEC {
        if is_digit(b) {
            NS_CDEC
        } else {
            NS_FAIL
        }
    } else if st == NS_CDEC {
        if b == 101 || b == 69 {
            NS_EXPN
        } else if is_digit(b) {
            NS_CDEC
        } else {
            NS_FAIL
        }
    } else if st == NS_EXPN {
        if b == 43 || b == 45 {
            NS_EXPS
        } else if is_digit(b) {
            NS_EXPC
        } else {
            NS_FAIL
        }
    } else if st == NS_EXPS || st == NS_EXPC {
        if is_digit(b) {
            NS_EXPC
        } else {
            NS_FAIL
        }
    } else {
        NS_FAIL
    }
}

/// States in which the bytes seen so far form a complete number.
pub open spec fn num_accept(st: u32) -> bool {
    st == NS_CNUM || st == NS_ZERO || st == NS_CDEC || st == NS_EXPC
}

/// State after running the machine from `st` over all of `s`.
pub open spec fn num_state(st: u32, s: Seq<u8>) -> u32
    decreases s.len(),
{
    if s.len() == 0 {
        st
    } else {
        num_state(num_step(st, s[0]), s.skip(1))
    }
}

/// Bytes consumed from `s` (starting in `st`) before the first byte that
/// falls outside the number grammar.
pub open spec fn num_run(st: u32, s: Seq<u8>) -> int
    decreases s.len(),
{
    if s.len() == 0 {
        0
    } else if num_step(st, s[0]) == NS_FAIL {
        0
    } else {
        1 + num_run(num_step(st, s[0]), s.skip(1))
    }
}

/// Outcome of scanning a number at the start of a window.
pub enum NumScan {
    NFound(int),
    NNeedMore,
    NBad,
}

/// A number ends at the first byte outside the grammar, or at end of
/// input; a digit directly after a leading zero is a hard error rather
/// than a token boundary.  If the window ends while the number is still
/// open and more input may follow, more bytes are required.
pub open spec fn spec_scan_number(s: Seq<u8>, end: bool) -> NumScan {
    let n = num_run(NS_INIT, s);
    let st = num_state(NS_INIT, s.take(n));
    if n < s.len() && st == NS_ZERO && is_digit(s[n]) {
        NumScan::NBad
    } else if n < s.len() || end {
        if num_accept(st) {
            NumScan::NFound(n)
        } else {
            NumScan::NBad
        }
    } else {
        NumScan::NNeedMore
    }
}

proof fn lemma_num_state_snoc(st: u32, s: Seq<u8>, b: u8)
    ensures
        num_state(st, s.push(b)) == num_step(num_state(st, s), b),
    decreases s.len(),
{
    if s.len() == 0 {
        assert(s.push(b)[0] == b);
        assert(s.push(b).skip(1) =~= Seq::<u8>::empty());
        assert(num_state(st, s.push(b)) == num_state(num_step(st, b), s.push(b).skip(1)));
    } else {
        assert(s.push(b)[0] == s[0]);
        assert(s.push(b).skip(1) =~= s.skip(1).push(b));
        lemma_num_state_snoc(num_step(st, s[0]), s.skip(1), b);
        assert(num_state(st, s.push(b)) == num_state(num_step(st, s[0]), s.skip(1).push(b)));
    }
}

/// The executable number scanner.  Returns the consumed length and the
/// verbatim number text; errors distinguish "grammar violated" from "the
/// window ended before the number could be decided".
pub fn json_parse_numeric(x: &[u8], end: bool) -> (r: Result<(usize, Vec<u8>), JsonTokenError>)
    ensures
        (r matches Ok((n, t)) ==> spec_scan_number(x@, end) == NumScan::NFound(n as int) && t@
            == x@.take(n as int) && n <= x@.len()),
        (spec_scan_number(x@, end) is NFound ==> r is Ok),
        (spec_scan_number(x@, end) is NNeedMore ==> r matches Err(JsonTokenError::TokenTooLong)),
        (spec_scan_number(x@, end) is NBad ==> r matches Err(JsonTokenError::BadNumberFormat(_))),
{
    let mut i: usize = 0;
    let mut st: u32 = NS_INIT;
    proof {
        assert(x@.skip(0) =~= x@);
        assert(x@.take(0) =~= Seq::<u8>::empty());
    }
    while i < x.len()
        invariant
            i <= x@.len(),
            st == num_state(NS_INIT, x@.take(i as int)),
            st != NS_FAIL,
            num_run(NS_INIT, x@) == i + num_run(st, x@.skip(i as int)),
        decreases x@.len() - i,
    {
        let b = x[i];
        let nst = num_step_exec(st, b);
        proof {
            assert(x@.skip(i as int)[0] == x@[i as int]);
            lemma_num_state_snoc(NS_INIT, x@.take(i as int), b);
            assert(x@.take(i as int).push(b) =~= x@.take(i + 1));
            assert(x@.skip(i as int).skip(1) =~= x@.skip(i + 1));
        }
        if nst == NS_FAIL {
            // The number ends here; a digit after a leading zero is not a
            // boundary but a violation.
            proof {
                assert(num_run(st, x@.skip(i as int)) == 0);
            }
            if num_accept_exec(st) && !(st == NS_ZERO && 48 <= b && b <= 57) {
                return Ok((i, copy_prefix(x, i)));
            } else {
                return Err(JsonTokenError::BadNumberFormat(bad_number_message()));
            }
        }
        st = nst;
        i += 1;
    }
    proof {
        assert(x@.skip(i as int) =~= Seq::<u8>::empty());
        assert(x@.take(i as int) =~= x@);
    }
    if end {
        if num_accept_exec(st) {
            Ok((i, copy_prefix(x, i)))
        } else {
            Err(JsonTokenError::BadNumberFormat(bad_number_message()))
        }
    } else {
        Err(JsonTokenError::TokenTooLong)
    }
}

/// Executable twin of `num_step`.
fn num_step_exec(st: u32, b: u8) -> (r: u32)
    ensures
        r == num_step(st, b),
{
    if st == NS_INIT {
        if b == 45 {
            NS_FNUM
        } else if b == 48 {
            NS_ZERO
        } else if 49 <= b && b <= 57 {
            NS_CNUM
        } else {
            NS_FAIL
        }
    } else if st == NS_FNUM {
        if b == 48 {
            NS_ZERO
        } else if 49 <= b && b <= 57 {
            NS_CNUM
        } else {
            NS_FAIL
        }
    } else if st == NS_CNUM {
        if b == 46 {
            NS_FDEC
        } else if b == 101 || b == 69 {
            NS_EXPN
        } else if 48 <= b && b <= 57 {
            NS_CNUM
        } else {
            NS_FAIL
        }
    } else if st == NS_ZERO {
        if b == 46 {
            NS_FDEC
        } else if b == 101 || b == 69 {
            NS_EXPN
        } else {
            NS_FAIL
        }
    } else if st == NS_FDEC {
        if 48 <= b && b <= 57 {
            NS_CDEC
        } else {
            NS_FAIL
        }
    } else if st == NS_CDEC {
        if b == 101 || b == 69 {
            NS_EXPN
        } else if 48 <= b && b <= 57 {
            NS_CDEC
        } else {
            NS_FAIL
        }
    } else if st == NS_EXPN {
        if b == 43 || b == 45 {
            NS_EXPS
        } else if 48 <= b && b <= 57 {
            NS_EXPC
        } else {
            NS_FAIL
        }
    } else if st == NS_EXPS || st == NS_EXPC {
        if 48 <= b && b <= 57 {
            NS_EXPC
        } else {
            NS_FAIL
        }
    } else {
        NS_FAIL
    }
}

fn num_accept_exec(st: u32) -> (r: bool)
    ensures
        r == num_accept(st),
{
    st == NS_CNUM || st == NS_ZERO || st == NS_CDEC || st == NS_EXPC
}

/// Copy the first `n` bytes of a slice.
fn copy_prefix(x: &[u8], n: usize) -> (r: Vec<u8>)
    requires
        n <= x@.len(),
    ensures
        r@ == x@.take(n as int),
{
    let mut out: Vec<u8> = Vec::new();
    let mut i: usize = 0;
    while i < n
        invariant
            i <= n <= x@.len(),
            out@ == x@.take(i as int),
        decreases n - i,
    {
        out.push(x[i]);
        proof {
            assert(out@ =~= x@.take(i + 1));
        }
        i += 1;
    }
    out
}

fn bad_number_message() -> String {
    String::from_str("malformed number")
}

/// Value of a sequence of decimal digit bytes.
pub open spec fn dec_val(s: Seq<u8>) -> int
    decreases s.len(),
{
    if s.len() == 0 {
        0
    } else {
        dec_val(s.drop_last()) * 10 + (s.last() - 48)
    }
}

pub open spec fn all_digits(s: Seq<u8>) -> bool {
    forall|i: int| 0 <= i < s.len() ==> is_digit(#[trigger] s[i])
}

/// Whether number text has the shape of a plain integer literal,
/// `-?(0|[1-9][0-9]*)`: no fraction, no exponent, no redundant zeros.
pub open spec fn int_shape(text: Seq<u8>) -> bool {
    let digits = if text.len() >= 1 && text[0] == 45 {
        text.skip(1)
    } else {
        text
    };
    &&& text.len() >= 1
    &&& digits.len() >= 1
    &&& all_digits(digits)
    &&& (digits[0] == 48 ==> digits.len() == 1)
}

/// The signed value of integer-shaped number text.
pub open spec fn int_val(text: Seq<u8>) -> int {
    if text.len() >= 1 && text[0] == 45 {
        -dec_val(text.skip(1))
    } else {
        dec_val(text)
    }
}

/// The token for a scanned number: a machine integer when the literal is a
/// plain integer that fits `i64`, the verbatim text otherwise.
pub open spec fn number_token(text: Seq<u8>) -> Tok {
    if int_shape(text) && -0x8000_0000_0000_0000 <= int_val(text) && int_val(text)
        <= 0x7FFF_FFFF_FFFF_FFFF {
        Tok::NumberInt(int_val(text))
    } else {
        Tok::NumberText(text)
    }
}

pub open spec fn pow10(n: nat) -> int
    decreases n,
{
    if n == 0 {
        1
    } else {
        10 * pow10((n - 1) as nat)
    }
}

pub proof fn lemma_dec_val_bounds(s: Seq<u8>)
    requires
        all_digits(s),
    ensures
        0 <= dec_val(s) < pow10(s.len()),
        s.len() >= 1 && s[0] >= 49 ==> dec_val(s) >= pow10((s.len() - 1) as nat),
    decreases s.len(),
{
    if s.len() == 0 {
    } else {
        assert(all_digits(s.drop_last())) by {
            assert(forall|i: int|
                0 <= i < s.len() - 1 ==> #[trigger] s.drop_last()[i] == s[i]);
        }
        lemma_dec_val_bounds(s.drop_last());
        if s.len() >= 2 && s[0] >= 49 {
            assert(s.drop_last()[0] == s[0]);
        }
    }
}

/// Accumulate the value of `digits` into a `u64`, or report that it
/// exceeds `u64`.
pub(crate) fn dec_accumulate(digits: &[u8]) -> (r: Option<u64>)
    requires
        all_digits(digits@),
        digits@.len() >= 1,
        digits@[0] == 48 ==> digits@.len() == 1,
    ensures
        r matches Some(v) ==> v == dec_val(digits@),
        r is None ==> dec_val(digits@) > u64::MAX,
{
    if digits.len() >= 21 {
        // At least 21 digits with no redundant leading zero always exceed u64.
        proof {
            assert(digits@[0] >= 49);
            lemma_dec_val_bounds(digits@);
            lemma_pow10_ge(20, (digits@.len() - 1) as nat);
            assert(pow10(20) == 0x56bc75e2d63100000) by {
                reveal_with_fuel(pow10, 21);
            }
        }
        return None;
    }
    let mut acc: u64 = 0;
    let mut i: usize = 0;
    proof {
        assert(digits@.take(0) =~= Seq::<u8>::empty());
    }
    while i < digits.len()
        invariant
            i <= digits@.len() <= 20,
            all_digits(digits@),
            acc == dec_val(digits@.take(i as int)),
            acc < pow10(i as nat),
        decreases digits@.len() - i,
    {
        let d = digits[i];
        proof {
            assert(is_digit(digits@[i as int]));
            assert(digits@.take(i + 1).drop_last() =~= digits@.take(i as int));
            assert(digits@.take(i + 1).last() == digits@[i as int]);
            assert(all_digits(digits@.take(i + 1))) by {
                assert(forall|j: int|
                    0 <= j < i + 1 ==> #[trigger] digits@.take(i + 1)[j] == digits@[j]);
            }
            lemma_dec_val_bounds(digits@.take(i + 1));
            assert(dec_val(digits@.take(i + 1)) == acc * 10 + (digits@[i as int] - 48));
        }
        let next = match acc.checked_mul(10) {
            Some(x) => x.checked_add((d - 48) as u64),
            None => None,
        };
        match next {
            Some(v) => {
                acc = v;
            },
            None => {
                // The true value exceeds u64: the prefix through this digit
                // already overflows, and further digits only increase it.
                proof {
                    assert(acc * 10 + (d - 48) > u64::MAX);
                    lemma_dec_val_prefix_le(digits@, i + 1);
                }
                return None;
            },
        }
        i += 1;
    }
    proof {
        assert(digits@.take(digits@.len() as int) =~= digits@);
    }
    Some(acc)
}

pub proof fn lemma_pow10_pos(n: nat)
    ensures
        pow10(n) >= 1,
    decreases n,
{
    if n > 0 {
        lemma_pow10_pos((n - 1) as nat);
    }
}

pub proof fn lemma_pow10_ge(a: nat, b: nat)
    requires
        a <= b,
    ensures
        pow10(a) <= pow10(b),
        pow10(a) >= 1,
    decreases b,
{
    lemma_pow10_pos(a);
    if a < b {
        lemma_pow10_ge(a, (b - 1) as nat);
    }
}

/// A leading zero does not change the value of a digit string.
pub proof fn lemma_dec_val_zero_front(s: Seq<u8>)
    requires
        s.len() >= 1,
        s[0] == 48,
    ensures
        dec_val(s) == dec_val(s.skip(1)),
    decreases s.len(),
{
    if s.len() == 1 {
        assert(s.skip(1) =~= Seq::<u8>::empty());
        assert(dec_val(s) == dec_val(s.drop_last()) * 10 + (s.last() - 48));
        assert(s.drop_last() =~= Seq::<u8>::empty());
    } else {
        assert(s.drop_last()[0] == s[0]);
        lemma_dec_val_zero_front(s.drop_last());
        assert(s.drop_last().skip(1) =~= s.skip(1).drop_last());
        assert(s.skip(1).last() == s.last());
        assert(dec_val(s.skip(1)) == dec_val(s.skip(1).drop_last()) * 10 + (s.skip(1).last()
            - 48));
    }
}

/// The value of a digit string is at least the value of any of its prefixes.
proof fn lemma_dec_val_prefix_le(s: Seq<u8>, n: int)
    requires
        all_digits(s),
        0 <= n <= s.len(),
    ensures
        dec_val(s.take(n)) <= dec_val(s),
    decreases s.len() - n,
{
    if n < s.len() {
        lemma_dec_val_prefix_le(s, n + 1);
        assert(s.take(n + 1).drop_last() =~= s.take(n));
        assert(s.take(n + 1).last() == s[n]);
        assert(all_digits(s.take(n))) by {
            assert(forall|j: int| 0 <= j < n ==> #[trigger] s.take(n)[j] == s[j]);
        }
        lemma_dec_val_bounds(s.take(n));
        assert(dec_val(s.take(n)) <= dec_val(s.take(n + 1)));
    } else {
        assert(s.take(n) =~= s);
    }
}

/// Turn scanned number text into its token: `NumericInteger` when the
/// literal is a plain integer fitting `i64`, verbatim `Numeric` text
/// otherwise.
fn classify_number(text: Vec<u8>) -> (r: JsonToken)
    ensures
        tok_abs(r) == number_token(text@),
{
    let ghost gtext = text@;
    let neg = text.len() >= 1 && text[0] == 45;
    let sign: usize = if neg {
        1
    } else {
        0
    };
    let ghost gdigits = if neg {
        gtext.skip(1)
    } else {
        gtext
    };
    proof {
        if neg {
            assert(forall|j: int| 0 <= j < gdigits.len() ==> #[trigger] gdigits[j] == gtext[j + 1]);
        }
    }
    if text.len() <= sign {
        // Nothing after the sign.
        return JsonToken::Numeric(text);
    }
    if text[sign] == 48 && text.len() > sign + 1 {
        // A redundant leading zero is not integer shaped.
        proof {
            assert(gdigits[0] == 48 && gdigits.len() != 1);
        }
        return JsonToken::Numeric(text);
    }
    let mut i: usize = sign;
    let mut shape = true;
    while shape && i < text.len()
        invariant
            sign <= i <= gtext.len(),
            sign == 1 <==> (gtext.len() >= 1 && gtext[0] == 45),
            sign == 0 || sign == 1,
            gtext.len() > sign,
            text@ == gtext,
            gdigits == if sign == 1 { gtext.skip(1) } else { gtext },
            forall|j: int| 0 <= j < gdigits.len() ==> #[trigger] gdigits[j] == gtext[j + sign],
            shape ==> forall|j: int| sign <= j < i ==> is_digit(#[trigger] gtext[j]),
            !shape ==> !all_digits(gdigits),
        decreases gtext.len() - i,
    {
        let b = text[i];
        if !(48 <= b && b <= 57) {
            proof {
                assert(gdigits[i - sign] == gtext[i as int]);
                assert(!is_digit(gdigits[i - sign]));
            }
            shape = false;
        }
        i += 1;
    }
    if !shape {
        proof {
            assert(!int_shape(gtext));
        }
        return JsonToken::Numeric(text);
    }
    proof {
        assert(all_digits(gdigits)) by {
            assert(forall|j: int|
                0 <= j < gdigits.len() ==> is_digit(#[trigger] gdigits[j]));
        }
        assert(gdigits[0] == gtext[sign as int]);
        assert(int_shape(gtext));
    }
    let digits = if neg {
        slice_skip_one(text.as_slice())
    } else {
        text.as_slice()
    };
    proof {
        assert(digits@ == gdigits);
    }
    let acc = dec_accumulate(digits);
    match acc {
        None => {
            proof {
                assert(u64::MAX >= 0x7FFF_FFFF_FFFF_FFFF);
            }
            JsonToken::Numeric(text)
        },
        Some(v) => {
            if neg {
                if v > 0x8000_0000_0000_0000u64 {
                    JsonToken::Numeric(text)
                } else if v == 0x8000_0000_0000_0000u64 {
                    JsonToken::NumericInteger(i64::MIN)
                } else {
                    JsonToken::NumericInteger(-(v as i64))
                }
            } else {
                if v > 0x7FFF_FFFF_FFFF_FFFFu64 {
                    JsonToken::Numeric(text)
                } else {
                    JsonToken::NumericInteger(v as i64)
                }
            }
        },
    }
}

/// The tail of a slice after its first element.
fn slice_skip_one(x: &[u8]) -> (r: &[u8])
    requires
        x@.len() >= 1,
    ensures
        r@ == x@.skip(1),
{
    let (_, rest) = x.split_at(1);
    rest
}

/// The tail of a slice from a given index.
pub(crate) fn slice_from(x: &[u8], i: usize) -> (r: &[u8])
    requires
        i <= x@.len(),
    ensures
        r@ == x@.skip(i as int),
{
    let (_, rest) = x.split_at(i);
    rest
}

pub open spec fn is_hex(b: u8) -> bool {
    (48 <= b && b <= 57) || (65 <= b && b <= 70) || (97 <= b && b <= 102)
}

/// Value of one hex digit byte.
pub open spec fn hex_val(b: u8) -> u32
    recommends
        is_hex(b),
{
    if 48 <= b && b <= 57 {
        (b - 48) as u32
    } else if 65 <= b && b <= 70 {
        (b - 55) as u32
    } else if 97 <= b && b <= 102 {
        (b - 87) as u32
    } else {
        0
    }
}

/// Executable twin of `hex_val`; reports non-hex bytes.
pub fn hexparse(b: u8) -> (r: u32)
    ensures
        is_hex(b) ==> r == hex_val(b),
        !is_hex(b) ==> r == 0xFFFF_FFFFu32,
{
    if 48 <= b && b <= 57 {
        (b - 48) as u32
    } else if 65 <= b && b <= 70 {
        (b - 55) as u32
    } else if 97 <= b && b <= 102 {
        (b - 87) as u32
    } else {
        0xFFFF_FFFF
    }
}

/// States of the string scanner.
pub enum StrState {
    /// Expecting the opening quote.
    SStart,
    /// Inside the string, outside any escape.
    SNorm,
    /// Directly after a backslash.
    SEsc,
    /// Inside `\uXXXX`: digits consumed so far, and their value.
    SHex(u32, u32),
    /// After a high surrogate: expecting the backslash of the low escape.
    SSurEsc(u32),
    /// After a high surrogate: expecting the `u` of the low escape.
    SSurU(u32),
    /// Inside the low-surrogate `\uXXXX`: high bits, digits consumed, value.
    SSurHex(u32, u32, u32),
}

/// Outcome of scanning a string token.
pub enum StrScan {
    /// Consumed length (quotes included) and the decoded bytes.
    SFound(int, Seq<u8>),
    SNeedMore,
    SBad,
}

/// The string grammar, one byte at a time from position `i` in state `st`
/// with `out` decoded so far.  Escapes `\" \\ \/ \b \t \n \f \r` and
/// `\uXXXX` are recognized; a high surrogate must be followed immediately
/// by a `\uXXXX` low surrogate and the pair combines to one code point;
/// everything else between the quotes is copied verbatim.
pub open spec fn str_scan(s: Seq<u8>, i: int, st: StrState, out: Seq<u8>, end: bool) -> StrScan
    decreases s.len() - i,
{
    if i < 0 || i >= s.len() {
        if end {
            StrScan::SBad
        } else {
            StrScan::SNeedMore
        }
    } else {
        let b = s[i];
        match st {
            StrState::SStart => {
                if b == 34 {
                    str_scan(s, i + 1, StrState::SNorm, out, end)
                } else {
                    StrScan::SBad
                }
            },
            StrState::SNorm => {
                if b == 34 {
                    StrScan::SFound(i + 1, out)
                } else if b == 92 {
                    str_scan(s, i + 1, StrState::SEsc, out, end)
                } else {
                    str_scan(s, i + 1, StrState::SNorm, out.push(b), end)
                }
            },
            StrState::SEsc => {
                if b == 34 || b == 92 || b == 47 {
                    str_scan(s, i + 1, StrState::SNorm, out.push(b), end)
                } else if b == 98 {
                    str_scan(s, i + 1, StrState::SNorm, out.push(8), end)
                } else if b == 116 {
                    str_scan(s, i + 1, StrState::SNorm, out.push(9), end)
                } else if b == 110 {
                    str_scan(s, i + 1, StrState::SNorm, out.push(10), end)
                } else if b == 102 {
                    str_scan(s, i + 1, StrState::SNorm, out.push(12), end)
                } else if b == 114 {
                    str_scan(s, i + 1, StrState::SNorm, out.push(13), end)
                } else if b == 117 {
                    str_scan(s, i + 1, StrState::SHex(0, 0), out, end)
                } else {
                    StrScan::SBad
                }
            },
            StrState::SHex(k, acc) => {
                if !is_hex(b) {
                    StrScan::SBad
                } else {
                    let a2 = (acc * 16 + hex_val(b)) as u32;
                    if k == 3 {
                        if a2 < 0xD800 || a2 > 0xDFFF {
                            str_scan(
                                s,
                                i + 1,
                                StrState::SNorm,
                                out + vstd::utf8::encode_scalar(a2),
                                end,
                            )
                        } else if a2 < 0xDC00 {
                            str_scan(s, i + 1, StrState::SSurEsc((a2 - 0xD800) as u32), out, end)
                        } else {
                            StrScan::SBad
                        }
                    } else {
                        str_scan(s, i + 1, StrState::SHex((k + 1) as u32, a2), out, end)
                    }
                }
            },
            StrState::SSurEsc(hi) => {
                if b == 92 {
                    str_scan(s, i + 1, StrState::SSurU(hi), out, end)
                } else {
                    StrScan::SBad
                }
            },
            StrState::SSurU(hi) => {
                if b == 117 {
                    str_scan(s, i + 1, StrState::SSurHex(hi, 0, 0), out, end)
                } else {
                    StrScan::SBad
                }
            },
            StrState::SSurHex(hi, k, acc) => {
                if !is_hex(b) {
                    StrScan::SBad
                } else {
                    let a2 = (acc * 16 + hex_val(b)) as u32;
                    if k == 3 {
                        if 0xDC00 <= a2 && a2 <= 0xDFFF {
                            str_scan(
                                s,
                                i + 1,
                                StrState::SNorm,
                                out + vstd::utf8::encode_scalar(
                                    (0x10000 + hi * 1024 + (a2 - 0xDC00)) as u32,
                                ),
                                end,
                            )
                        } else {
                            StrScan::SBad
                        }
                    } else {
                        str_scan(s, i + 1, StrState::SSurHex(hi, (k + 1) as u32, a2), out, end)
                    }
                }
            },
        }
    }
}

/// Append the UTF-8 encoding of a Unicode scalar.
fn push_utf8(out: &mut Vec<u8>, cp: u32)
    requires
        vstd::utf8::is_scalar(cp),
    ensures
        final(out)@ == old(out)@ + vstd::utf8::encode_scalar(cp),
{
    if cp < 0x80 {
        out.push((cp & 0x7F) as u8);
    } else if cp < 0x800 {
        out.push(0xC0 | (((cp >> 6) & 0x1F) as u8));
        out.push(0x80 | ((cp & 0x3F) as u8));
    } else if cp < 0x10000 {
        out.push(0xE0 | (((cp >> 12) & 0x0F) as u8));
        out.push(0x80 | (((cp >> 6) & 0x3F) as u8));
        out.push(0x80 | ((cp & 0x3F) as u8));
    } else {
        out.push(0xF0 | (((cp >> 18) & 0x7) as u8));
        out.push(0x80 | (((cp >> 12) & 0x3F) as u8));
        out.push(0x80 | (((cp >> 6) & 0x3F) as u8));
        out.push(0x80 | ((cp & 0x3F) as u8));
    }
    proof {
        assert(final(out)@ =~= old(out)@ + vstd::utf8::encode_scalar(cp));
    }
}

/// Payload bounds the string scanner maintains in its hex states.
pub open spec fn hex_acc_wf(k: u32, acc: u32) -> bool {
    &&& k <= 3
    &&& (k == 0 ==> acc == 0)
    &&& (k == 1 ==> acc < 0x10)
    &&& (k == 2 ==> acc < 0x100)
    &&& (k == 3 ==> acc < 0x1000)
}

pub open spec fn str_state_wf(st: StrState) -> bool {
    match st {
        StrState::SHex(k, acc) => hex_acc_wf(k, acc),
        StrState::SSurEsc(hi) => hi <= 0x3FF,
        StrState::SSurU(hi) => hi <= 0x3FF,
        StrState::SSurHex(hi, k, acc) => hi <= 0x3FF && hex_acc_wf(k, acc),
        _ => true,
    }
}

/// The executable string scanner.  Returns the consumed length, opening
/// and closing quote included, and the decoded bytes.
pub fn json_parse_string(x: &[u8], end: bool) -> (r: Result<(usize, Vec<u8>), JsonTokenError>)
    ensures
        (r matches Ok((n, t)) ==> str_scan(x@, 0, StrState::SStart, Seq::empty(), end)
            == StrScan::SFound(n as int, t@) && n <= x@.len()),
        (str_scan(x@, 0, StrState::SStart, Seq::empty(), end) is SFound ==> r is Ok),
        (str_scan(x@, 0, StrState::SStart, Seq::empty(), end) is SNeedMore ==> r matches Err(
            JsonTokenError::TokenTooLong,
        )),
        (str_scan(x@, 0, StrState::SStart, Seq::empty(), end) is SBad ==> r matches Err(
            JsonTokenError::BadStringFormat(_),
        )),
{
    let ghost whole = str_scan(x@, 0, StrState::SStart, Seq::empty(), end);
    let mut i: usize = 0;
    let mut st = StrState::SStart;
    let mut out: Vec<u8> = Vec::new();
    while i < x.len()
        invariant
            i <= x@.len(),
            str_state_wf(st),
            whole == str_scan(x@, 0, StrState::SStart, Seq::empty(), end),
            str_scan(x@, i as int, st, out@, end) == whole,
        decreases x@.len() - i,
    {
        let b = x[i];
        match st {
            StrState::SStart => {
                if b == 34 {
                    st = StrState::SNorm;
                } else {
                    return Err(JsonTokenError::BadStringFormat(bad_string_message()));
                }
            },
            StrState::SNorm => {
                if b == 34 {
                    return Ok((i + 1, out));
                } else if b == 92 {
                    st = StrState::SEsc;
                } else {
                    out.push(b);
                }
            },
            StrState::SEsc => {
                if b == 34 || b == 92 || b == 47 {
                    out.push(b);
                    st = StrState::SNorm;
                } else if b == 98 {
                    out.push(8);
                    st = StrState::SNorm;
                } else if b == 116 {
                    out.push(9);
                    st = StrState::SNorm;
                } else if b == 110 {
                    out.push(10);
                    st = StrState::SNorm;
                } else if b == 102 {
                    out.push(12);
                    st = StrState::SNorm;
                } else if b == 114 {
                    out.push(13);
                    st = StrState::SNorm;
                } else if b == 117 {
                    st = StrState::SHex(0, 0);
                } else {
                    return Err(JsonTokenError::BadStringFormat(bad_string_message()));
                }
            },
            StrState::SHex(k, acc) => {
                let v = hexparse(b);
                if v > 15 {
                    return Err(JsonTokenError::BadStringFormat(bad_string_message()));
                }
                let a2 = acc * 16 + v;
                if k == 3 {
                    if a2 < 0xD800 || a2 > 0xDFFF {
                        proof {
                            assert(vstd::utf8::is_scalar(a2));
                        }
                        push_utf8(&mut out, a2);
                        st = StrState::SNorm;
                    } else if a2 < 0xDC00 {
                        st = StrState::SSurEsc(a2 - 0xD800);
                    } else {
                        return Err(JsonTokenError::BadStringFormat(bad_string_message()));
                    }
                } else {
                    st = StrState::SHex(k + 1, a2);
                }
            },
            StrState::SSurEsc(hi) => {
                if b == 92 {
                    st = StrState::SSurU(hi);
                } else {
                    return Err(JsonTokenError::BadStringFormat(bad_string_message()));
                }
            },
            StrState::SSurU(hi) => {
                if b == 117 {
                    st = StrState::SSurHex(hi, 0, 0);
                } else {
                    return Err(JsonTokenError::BadStringFormat(bad_string_message()));
                }
            },
            StrState::SSurHex(hi, k, acc) => {
                let v = hexparse(b);
                if v > 15 {
                    return Err(JsonTokenError::BadStringFormat(bad_string_message()));
                }
                let a2 = acc * 16 + v;
                if k == 3 {
                    if 0xDC00 <= a2 && a2 <= 0xDFFF {
                        let cp = 0x10000 + hi * 1024 + (a2 - 0xDC00);
                        proof {
                            assert(vstd::utf8::is_scalar(cp));
                        }
                        push_utf8(&mut out, cp);
                        st = StrState::SNorm;
                    } else {
                        return Err(JsonTokenError::BadStringFormat(bad_string_message()));
                    }
                } else {
                    st = StrState::SSurHex(hi, k + 1, a2);
                }
            },
        }
        i += 1;
    }
    if end {
        Err(JsonTokenError::BadStringFormat(bad_string_message()))
    } else {
        Err(JsonTokenError::TokenTooLong)
    }
}

fn bad_string_message() -> String {
    String::from_str("malformed string")
}

/// Compare the start of a window against a literal: `0` full match,
/// `1` the window is a strict prefix and more input may follow,
/// `2` mismatch.
pub open spec fn lit_scan(rest: Seq<u8>, lit: Seq<u8>, end: bool) -> int {
    if rest.len() >= lit.len() {
        if rest.take(lit.len() as int) == lit {
            0
        } else {
            2
        }
    } else {
        if rest == lit.take(rest.len() as int) && !end {
            1
        } else {
            2
        }
    }
}

/// Executable twin of `lit_scan`.
fn match_literal(x: &[u8], i: usize, lit: &[u8], end: bool) -> (r: u8)
    requires
        i <= x@.len(),
    ensures
        r as int == lit_scan(x@.skip(i as int), lit@, end),
{
    let ghost rest = x@.skip(i as int);
    let avail = x.len() - i;
    let m = if avail < lit.len() {
        avail
    } else {
        lit.len()
    };
    let mut j: usize = 0;
    while j < m
        invariant
            j <= m,
            m <= avail,
            m <= lit@.len(),
            avail == x@.len() - i,
            m == if avail < lit@.len() { avail as int } else { lit@.len() as int },
            i + avail == x@.len(),
            x@.len() <= usize::MAX,
            rest == x@.skip(i as int),
            forall|q: int| 0 <= q < j ==> #[trigger] rest[q] == lit@[q],
        decreases m - j,
    {
        if x[i + j] != lit[j] {
            proof {
                assert(rest[j as int] == x@[i + j]);
                if rest.len() >= lit@.len() {
                    assert(rest.take(lit@.len() as int)[j as int] == rest[j as int]);
                    assert(rest.take(lit@.len() as int) != lit@);
                } else {
                    assert(lit@.take(rest.len() as int)[j as int] == lit@[j as int]);
                    assert(rest != lit@.take(rest.len() as int));
                }
            }
            return 2;
        }
        j += 1;
    }
    if avail >= lit.len() {
        proof {
            assert(rest.take(lit@.len() as int) =~= lit@);
        }
        0
    } else {
        proof {
            assert(rest =~= lit@.take(rest.len() as int));
        }
        if end {
            2
        } else {
            1
        }
    }
}

/// Scanning one token from the window `s` with end-of-input flag `end`:
/// skip whitespace, then classify by the first byte.
#[verifier::opaque]
pub open spec fn tok_window(s: Seq<u8>, end: bool) -> TokScan {
    let i = ws_count(s);
    if i == s.len() {
        if end {
            TokScan::Found(i, Tok::EndOfInput)
        } else {
            TokScan::NeedMore
        }
    } else {
        let b = s[i];
        let rest = s.skip(i);
        if b == 91 {
            TokScan::Found(i + 1, Tok::StartArray)
        } else if b == 93 {
            TokScan::Found(i + 1, Tok::EndArray)
        } else if b == 123 {
            TokScan::Found(i + 1, Tok::StartObject)
        } else if b == 125 {
            TokScan::Found(i + 1, Tok::EndObject)
        } else if b == 58 {
            TokScan::Found(i + 1, Tok::Colon)
        } else if b == 44 {
            TokScan::Found(i + 1, Tok::Comma)
        } else if b == 116 {
            let m = lit_scan(rest, seq![116u8, 114u8, 117u8, 101u8], end);
            if m == 0 {
                TokScan::Found(i + 4, Tok::Boolean(true))
            } else if m == 1 {
                TokScan::NeedMore
            } else {
                TokScan::Bad(TokFail::LitTrue)
            }
        } else if b == 102 {
            let m = lit_scan(rest, seq![102u8, 97u8, 108u8, 115u8, 101u8], end);
            if m == 0 {
                TokScan::Found(i + 5, Tok::Boolean(false))
            } else if m == 1 {
                TokScan::NeedMore
            } else {
                TokScan::Bad(TokFail::LitFalse)
            }
        } else if b == 110 {
            let m = lit_scan(rest, seq![110u8, 117u8, 108u8, 108u8], end);
            if m == 0 {
                TokScan::Found(i + 4, Tok::Null)
            } else if m == 1 {
                TokScan::NeedMore
            } else {
                TokScan::Bad(TokFail::LitNull)
            }
        } else if b == 45 || is_digit(b) {
            match spec_scan_number(rest, end) {
                NumScan::NFound(n) => TokScan::Found(i + n, number_token(rest.take(n))),
                NumScan::NNeedMore => TokScan::NeedMore,
                NumScan::NBad => TokScan::Bad(TokFail::Number),
            }
        } else if b == 34 {
            match str_scan(rest, 0, StrState::SStart, Seq::empty(), end) {
                StrScan::SFound(n, dec) => TokScan::Found(i + n, Tok::StringValue(dec)),
                StrScan::SNeedMore => TokScan::NeedMore,
                StrScan::SBad => TokScan::Bad(TokFail::Str),
            }
        } else {
            TokScan::Bad(TokFail::Initial)
        }
    }
}

/// The failure state absorbs every byte.
proof fn lemma_num_state_fail(s: Seq<u8>)
    ensures
        num_state(NS_FAIL, s) == NS_FAIL,
    decreases s.len(),
{
    if s.len() > 0 {
        lemma_num_state_fail(s.skip(1));
    }
}

/// Running the machine over a stretch that never fails consumes exactly
/// that stretch when the next byte (or the end of input) stops it.
proof fn lemma_num_run_exact(st: u32, s: Seq<u8>, rest: Seq<u8>)
    requires
        num_state(st, s) != NS_FAIL,
        rest.len() > 0 ==> num_step(num_state(st, s), rest[0]) == NS_FAIL,
    ensures
        num_run(st, s + rest) == s.len(),
    decreases s.len(),
{
    if s.len() == 0 {
        assert(s + rest =~= rest);
        if rest.len() > 0 {
            assert(num_step(st, rest[0]) == NS_FAIL);
        }
    } else {
        let st1 = num_step(st, s[0]);
        if st1 == NS_FAIL {
            lemma_num_state_fail(s.skip(1));
        }
        assert((s + rest)[0] == s[0]);
        assert((s + rest).skip(1) =~= s.skip(1) + rest);
        lemma_num_run_exact(st1, s.skip(1), rest);
    }
}

/// A syntactically complete number literal scans to the same consumed
/// length and the same token text whether the input ends right after it or
/// a byte outside the number grammar follows.  Because every stream token
/// is a function of the stream's remaining bytes alone, the same holds
/// under any chunking of the input.
pub proof fn lemma_number_parse_agrees(s: Seq<u8>, rest: Seq<u8>, end: bool)
    requires
        num_accept(num_state(NS_INIT, s)),
        rest.len() > 0 ==> num_step(num_state(NS_INIT, s), rest[0]) == NS_FAIL,
        rest.len() > 0 ==> !(num_state(NS_INIT, s) == NS_ZERO && is_digit(rest[0])),
        rest.len() == 0 ==> end,
    ensures
        spec_scan_number(s + rest, end) == NumScan::NFound(s.len() as int),
        spec_scan_number(s, true) == NumScan::NFound(s.len() as int),
        number_token((s + rest).take(s.len() as int)) == number_token(s),
{
    lemma_num_run_exact(NS_INIT, s, rest);
    assert((s + rest).take(s.len() as int) =~= s);
    lemma_num_run_exact(NS_INIT, s, Seq::empty());
    assert(s + Seq::<u8>::empty() =~= s);
    assert(s.take(s.len() as int) =~= s);
}

pub proof fn lemma_ws_count_le(s: Seq<u8>)
    ensures
        0 <= ws_count(s) <= s.len(),
    decreases s.len(),
{
    if s.len() > 0 && is_ws(s[0]) {
        lemma_ws_count_le(s.skip(1));
    }
}

proof fn lemma_num_run_le(st: u32, s: Seq<u8>)
    ensures
        0 <= num_run(st, s) <= s.len(),
    decreases s.len(),
{
    if s.len() > 0 && num_step(st, s[0]) != NS_FAIL {
        lemma_num_run_le(num_step(st, s[0]), s.skip(1));
    }
}

proof fn lemma_str_scan_bounds(s: Seq<u8>, i: int, st: StrState, out: Seq<u8>, end: bool)
    requires
        0 <= i,
    ensures
        str_scan(s, i, st, out, end) matches StrScan::SFound(n, d) ==> i < n <= s.len(),
    decreases s.len() - i,
{
    if i < s.len() {
        let b = s[i];
        match st {
            StrState::SStart => {
                if b == 34 {
                    lemma_str_scan_bounds(s, i + 1, StrState::SNorm, out, end);
                }
            },
            StrState::SNorm => {
                if b == 34 {
                } else if b == 92 {
                    lemma_str_scan_bounds(s, i + 1, StrState::SEsc, out, end);
                } else {
                    lemma_str_scan_bounds(s, i + 1, StrState::SNorm, out.push(b), end);
                }
            },
            StrState::SEsc => {
                if b == 34 || b == 92 || b == 47 || b == 98 || b == 116 || b == 110 || b == 102
                    || b == 114 {
                    let c: u8 = if b == 98 {
                        8
                    } else if b == 116 {
                        9
                    } else if b == 110 {
                        10
                    } else if b == 102 {
                        12
                    } else if b == 114 {
                        13
                    } else {
                        b
                    };
                    lemma_str_scan_bounds(s, i + 1, StrState::SNorm, out.push(c), end);
                } else if b == 117 {
                    lemma_str_scan_bounds(s, i + 1, StrState::SHex(0, 0), out, end);
                }
            },
            StrState::SHex(k, acc) => {
                if is_hex(b) {
                    let a2 = (acc * 16 + hex_val(b)) as u32;
                    if k == 3 {
                        if a2 < 0xD800 || a2 > 0xDFFF {
                            lemma_str_scan_bounds(
                                s,
                                i + 1,
                                StrState::SNorm,
                                out + vstd::utf8::encode_scalar(a2),
                                end,
                            );
                        } else if a2 < 0xDC00 {
                            lemma_str_scan_bounds(
                                s,
                                i + 1,
                                StrState::SSurEsc((a2 - 0xD800) as u32),
                                out,
                                end,
                            );
                        }
                    } else {
                        lemma_str_scan_bounds(s, i + 1, StrState::SHex((k + 1) as u32, a2), out, end);
                    }
                }
            },
            StrState::SSurEsc(hi) => {
                if b == 92 {
                    lemma_str_scan_bounds(s, i + 1, StrState::SSurU(hi), out, end);
                }
            },
            StrState::SSurU(hi) => {
                if b == 117 {
                    lemma_str_scan_bounds(s, i + 1, StrState::SSurHex(hi, 0, 0), out, end);
                }
            },
            StrState::SSurHex(hi, k, acc) => {
                if is_hex(b) {
                    let a2 = (acc * 16 + hex_val(b)) as u32;
                    if k == 3 {
                        if 0xDC00 <= a2 && a2 <= 0xDFFF {
                            lemma_str_scan_bounds(
                                s,
                                i + 1,
                                StrState::SNorm,
                                out + vstd::utf8::encode_scalar(
                                    (0x10000 + hi * 1024 + (a2 - 0xDC00)) as u32,
                                ),
                                end,
                            );
                        }
                    } else {
                        lemma_str_scan_bounds(
                            s,
                            i + 1,
                            StrState::SSurHex(hi, (k + 1) as u32, a2),
                            out,
                            end,
                        );
                    }
                }
            },
        }
    }
}

/// A decided token consumes no more than the window, and every token but
/// end-of-input consumes at least one byte; end-of-input consumes the
/// whole window.
pub proof fn lemma_tok_window_bounds(w: Seq<u8>, end: bool)
    ensures
        tok_window(w, end) matches TokScan::Found(n, t) ==> 0 <= n <= w.len() && (!(t
            is EndOfInput) ==> n >= 1) && (t is EndOfInput ==> n == w.len()),
{
    reveal(tok_window);
    lemma_ws_count_le(w);
    let i = ws_count(w);
    if i < w.len() {
        let b = w[i];
        let rest = w.skip(i);
        if b == 45 || is_digit(b) {
            lemma_num_run_le(NS_INIT, rest);
            if num_run(NS_INIT, rest) == 0 {
                assert(num_state(NS_INIT, rest.take(0)) == NS_INIT) by {
                    assert(rest.take(0) =~= Seq::<u8>::empty());
                }
            }
        } else if b == 34 {
            lemma_str_scan_bounds(rest, 0, StrState::SStart, Seq::empty(), end);
        }
    }
}

/// Without the end-of-input flag the tokenizer never reports end of input:
/// an all-whitespace window asks for more bytes instead.
pub proof fn lemma_endofinput_needs_end(w: Seq<u8>)
    ensures
        tok_window(w, false) matches TokScan::Found(n, t) ==> !(t is EndOfInput),
{
    reveal(tok_window);
}

/// Whether an executable error value realizes a given failure kind.
pub open spec fn err_match(k: TokFail, e: JsonTokenError) -> bool {
    match k {
        TokFail::Initial => e is BadTokenInitial,
        TokFail::Number => e is BadNumberFormat,
        TokFail::Str => e is BadStringFormat,
        TokFail::LitNull => e == JsonTokenError::ExpectedNull,
        TokFail::LitFalse => e == JsonTokenError::ExpectedFalse,
        TokFail::LitTrue => e == JsonTokenError::ExpectedTrue,
    }
}

impl JsonTokenError {
    /// A human-readable description.
    pub fn message(&self) -> String {
        match self {
            JsonTokenError::BadTokenInitial(_) => String::from_str("bad token initial character"),
            JsonTokenError::BadNumberFormat(x) => concat2("bad number format: ", x.as_str()),
            JsonTokenError::BadStringFormat(x) => concat2("bad string format: ", x.as_str()),
            JsonTokenError::TokenTooLong => String::from_str("token too long"),
            JsonTokenError::ExpectedNull => String::from_str(
                "token starting with 'n' is not 'null'",
            ),
            JsonTokenError::ExpectedFalse => String::from_str(
                "token starting with 'f' is not 'false'",
            ),
            JsonTokenError::ExpectedTrue => String::from_str(
                "token starting with 't' is not 'true'",
            ),
        }
    }
}

/// Concatenate two text fragments.
pub fn concat2(a: &str, b: &str) -> String {
    let mut s = String::from_str(a);
    s.append(b);
    s
}

impl JsonToken {
    /// A short name of the token's kind, for error messages.
    pub fn kind_name(&self) -> &'static str {
        match self {
            JsonToken::StartArray => "StartArray",
            JsonToken::EndArray => "EndArray",
            JsonToken::StartObject => "StartObject",
            JsonToken::EndObject => "EndObject",
            JsonToken::DoubleColon => "DoubleColon",
            JsonToken::Comma => "Comma",
            JsonToken::Boolean(_) => "Boolean",
            JsonToken::Null => "Null",
            JsonToken::Numeric(_) => "Numeric",
            JsonToken::NumericInteger(_) => "NumericInteger",
            JsonToken::String(_) => "String",
            JsonToken::EndOfInput => "EndOfInput",
        }
    }

    /// The tokenizer: decide the next token of the window, or report that
    /// the window cannot be decided yet (`TokenTooLong`), or a grammar
    /// error.  The result is a pure function of the window and the flag.
    pub fn next(partial: &[u8], end: bool) -> (r: Result<(usize, JsonToken), JsonTokenError>)
        ensures
            (r matches Ok((n, t)) ==> tok_window(partial@, end) == TokScan::Found(
                n as int,
                tok_abs(t),
            ) && n <= partial@.len()),
            (tok_window(partial@, end) is Found ==> r is Ok),
            (tok_window(partial@, end) is NeedMore ==> r matches Err(
                JsonTokenError::TokenTooLong,
            )),
            (tok_window(partial@, end) matches TokScan::Bad(k) ==> r matches Err(e) && err_match(
                k,
                e,
            )),
    {
        let ghost s = partial@;
        let mut idx: usize = 0;
        proof {
            reveal(tok_window);
            assert(s.skip(0) =~= s);
        }
        while idx < partial.len() && is_ws_byte(partial[idx])
            invariant
                idx <= s.len(),
                partial@ == s,
                ws_count(s) == idx + ws_count(s.skip(idx as int)),
                forall|q: int| 0 <= q < idx ==> is_ws(#[trigger] s[q]),
            decreases s.len() - idx,
        {
            proof {
                assert(s.skip(idx as int)[0] == s[idx as int]);
                assert(s.skip(idx as int).skip(1) =~= s.skip(idx + 1));
            }
            idx += 1;
        }
        proof {
            if idx < s.len() {
                assert(s.skip(idx as int)[0] == s[idx as int]);
            } else {
                assert(s.skip(idx as int) =~= Seq::<u8>::empty());
            }
            assert(ws_count(s) == idx);
        }
        if idx == partial.len() {
            return if end {
                Ok((idx, JsonToken::EndOfInput))
            } else {
                Err(JsonTokenError::TokenTooLong)
            };
        }
        let b = partial[idx];
        if b == 91 {
            Ok((idx + 1, JsonToken::StartArray))
        } else if b == 93 {
            Ok((idx + 1, JsonToken::EndArray))
        } else if b == 123 {
            Ok((idx + 1, JsonToken::StartObject))
        } else if b == 125 {
            Ok((idx + 1, JsonToken::EndObject))
        } else if b == 58 {
            Ok((idx + 1, JsonToken::DoubleColon))
        } else if b == 44 {
            Ok((idx + 1, JsonToken::Comma))
        } else if b == 116 {
            let lit: [u8; 4] = [116, 114, 117, 101];
            let m = match_literal(partial, idx, lit.as_slice(), end);
            proof {
                assert(lit@ =~= seq![116u8, 114u8, 117u8, 101u8]);
            }
            if m == 0 {
                Ok((idx + 4, JsonToken::Boolean(true)))
            } else if m == 1 {
                Err(JsonTokenError::TokenTooLong)
            } else {
                Err(JsonTokenError::ExpectedTrue)
            }
        } else if b == 102 {
            let lit: [u8; 5] = [102, 97, 108, 115, 101];
            let m = match_literal(partial, idx, lit.as_slice(), end);
            proof {
                assert(lit@ =~= seq![102u8, 97u8, 108u8, 115u8, 101u8]);
            }
            if m == 0 {
                Ok((idx + 5, JsonToken::Boolean(false)))
            } else if m == 1 {
                Err(JsonTokenError::TokenTooLong)
            } else {
                Err(JsonTokenError::ExpectedFalse)
            }
        } else if b == 110 {
            let lit: [u8; 4] = [110, 117, 108, 108];
            let m = match_literal(partial, idx, lit.as_slice(), end);
            proof {
                assert(lit@ =~= seq![110u8, 117u8, 108u8, 108u8]);
            }
            if m == 0 {
                Ok((idx + 4, JsonToken::Null))
            } else if m == 1 {
                Err(JsonTokenError::TokenTooLong)
            } else {
                Err(JsonTokenError::ExpectedNull)
            }
        } else if b == 45 || (48 <= b && b <= 57) {
            let rest = slice_from(partial, idx);
            match json_parse_numeric(rest, end) {
                Ok((n, text)) => Ok((idx + n, classify_number(text))),
                Err(e) => Err(e),
            }
        } else if b == 34 {
            let rest = slice_from(partial, idx);
            match json_parse_string(rest, end) {
                Ok((n, dec)) => Ok((idx + n, JsonToken::String(dec))),
                Err(e) => Err(e),
            }
        } else {
            Err(JsonTokenError::BadTokenInitial(b))
        }
    }
}

pub fn is_ws_byte(b: u8) -> (r: bool)
    ensures
        r == is_ws(b),
{
    b == 9 || b == 10 || b == 13 || b == 32
}

/// Bytes that `escape_json_string` must escape: control bytes, the double
/// quote, the backslash.
pub open spec fn needs_escape(b: u8) -> bool {
    b < 32 || b == 34 || b == 92
}

/// The escaped form of one byte: `\"` and `\\` for quote and backslash,
/// `\u00XX` for control bytes, the byte itself otherwise.
pub open spec fn escape_byte(b: u8) -> Seq<u8> {
    if b == 34 {
        seq![92u8, 34u8]
    } else if b == 92 {
        seq![92u8, 92u8]
    } else if b < 32 {
        seq![92u8, 117u8, 48u8, 48u8, hex_digit((b >> 4) as u32), hex_digit((b & 0xF) as u32)]
    } else {
        seq![b]
    }
}

/// Lower-case hex digit of a value below 16.
pub open spec fn hex_digit(v: u32) -> u8 {
    if v < 10 {
        (48 + v) as u8
    } else {
        (87 + v) as u8
    }
}

/// The JSON escaping of a whole byte string.
pub open spec fn escape_seq(s: Seq<u8>) -> Seq<u8>
    decreases s.len(),
{
    if s.len() == 0 {
        Seq::empty()
    } else {
        escape_byte(s[0]) + escape_seq(s.skip(1))
    }
}

/// Escape a string value for embedding in JSON output: the output-side
/// mirror of the string unescaper.  Multi-byte UTF-8 sequences pass
/// through verbatim.
pub fn escape_json_string(x: &[u8]) -> (r: Vec<u8>)
    ensures
        r@ == escape_seq(x@),
{
    let mut out: Vec<u8> = Vec::new();
    let mut i: usize = 0;
    proof {
        assert(x@.skip(0) =~= x@);
    }
    while i < x.len()
        invariant
            i <= x@.len(),
            escape_seq(x@) == out@ + escape_seq(x@.skip(i as int)),
        decreases x@.len() - i,
    {
        let b = x[i];
        proof {
            assert(x@.skip(i as int)[0] == b);
            assert(x@.skip(i as int).skip(1) =~= x@.skip(i + 1));
        }
        if b == 34 {
            out.push(92);
            out.push(34);
        } else if b == 92 {
            out.push(92);
            out.push(92);
        } else if b < 32 {
            proof {
                assert((b >> 4) < 16 && (b & 0xF) < 16) by (bit_vector);
            }
            out.push(92);
            out.push(117);
            out.push(48);
            out.push(48);
            out.push(hex_digit_exec((b >> 4) as u32));
            out.push(hex_digit_exec((b & 0xF) as u32));
        } else {
            out.push(b);
        }
        proof {
            assert(out@ + escape_seq(x@.skip(i + 1)) =~= escape_seq(x@));
        }
        i += 1;
    }
    proof {
        assert(escape_seq(x@.skip(i as int)) =~= Seq::<u8>::empty());
        assert(out@ =~= escape_seq(x@));
    }
    out
}

fn hex_digit_exec(v: u32) -> (r: u8)
    requires
        v < 16,
    ensures
        r == hex_digit(v),
{
    if v < 10 {
        (48 + v) as u8
    } else {
        (87 + v) as u8
    }
}


/// The hex digits emitted by the escaper decode back to their value.
proof fn lemma_hex_digit_val(v: u32)
    requires
        v < 16,
    ensures
        is_hex(hex_digit(v)),
        hex_val(hex_digit(v)) == v,
{
}

/// Unescaping walks over the escaped form of one byte and recovers it.
proof fn lemma_scan_one_escaped(w: Seq<u8>, i: int, b: u8, out: Seq<u8>, end: bool)
    requires
        0 <= i,
        i + escape_byte(b).len() <= w.len(),
        w.subrange(i, i + escape_byte(b).len() as int) == escape_byte(b),
    ensures
        str_scan(w, i, StrState::SNorm, out, end) == str_scan(
            w,
            i + escape_byte(b).len() as int,
            StrState::SNorm,
            out.push(b),
            end,
        ),
{
    let e = escape_byte(b);
    if b == 34 || b == 92 {
        assert(w[i] == e[0] && w[i + 1] == e[1]);
        assert(str_scan(w, i, StrState::SNorm, out, end) == str_scan(
            w,
            i + 1,
            StrState::SEsc,
            out,
            end,
        ));
        assert(str_scan(w, i + 1, StrState::SEsc, out, end) == str_scan(
            w,
            i + 2,
            StrState::SNorm,
            out.push(b),
            end,
        ));
    } else if b < 32 {
        assert(w[i] == e[0] && w[i + 1] == e[1] && w[i + 2] == e[2] && w[i + 3] == e[3] && w[i
            + 4] == e[4] && w[i + 5] == e[5]);
        assert((b >> 4) < 16 && (b & 0xF) < 16) by (bit_vector);
        lemma_hex_digit_val((b >> 4) as u32);
        lemma_hex_digit_val((b & 0xF) as u32);
        assert(hex_val(48) == 0);
        assert(((b >> 4) as u32) * 16 + ((b & 0xF) as u32) == b && (b as u32) < 0xD800)
            by (bit_vector)
            requires
                b < 32,
        ;
        assert(vstd::utf8::encode_scalar(b as u32) =~= seq![b]) by {
            assert(((b as u32) & 0x7F) as u8 == b) by (bit_vector)
                requires
                    b < 32,
            ;
        }
        assert(out + vstd::utf8::encode_scalar(b as u32) =~= out.push(b));
        let h1 = hex_val(hex_digit((b >> 4) as u32));
        let h2 = hex_val(hex_digit((b & 0xF) as u32));
        assert(str_scan(w, i, StrState::SNorm, out, end) == str_scan(
            w,
            i + 1,
            StrState::SEsc,
            out,
            end,
        ));
        assert(str_scan(w, i + 1, StrState::SEsc, out, end) == str_scan(
            w,
            i + 2,
            StrState::SHex(0, 0),
            out,
            end,
        ));
        assert(str_scan(w, i + 2, StrState::SHex(0, 0), out, end) == str_scan(
            w,
            i + 3,
            StrState::SHex(1, 0),
            out,
            end,
        ));
        assert(str_scan(w, i + 3, StrState::SHex(1, 0), out, end) == str_scan(
            w,
            i + 4,
            StrState::SHex(2, 0),
            out,
            end,
        ));
        assert(str_scan(w, i + 4, StrState::SHex(2, 0), out, end) == str_scan(
            w,
            i + 5,
            StrState::SHex(3, ((0 * 16 + h1) as u32)),
            out,
            end,
        ));
        assert(str_scan(w, i + 5, StrState::SHex(3, ((0 * 16 + h1) as u32)), out, end)
            == str_scan(w, i + 6, StrState::SNorm, out + vstd::utf8::encode_scalar(
            ((((0 * 16 + h1) as u32) * 16 + h2) as u32),
        ), end));
        assert(((((0 * 16 + h1) as u32) * 16 + h2) as u32) == b as u32);
    } else {
        assert(w[i] == e[0]);
        assert(str_scan(w, i, StrState::SNorm, out, end) == str_scan(
            w,
            i + 1,
            StrState::SNorm,
            out.push(b),
            end,
        ));
    }
}

/// Escaping then unescaping gives the value back: unescaping the quoted
/// escaped text of any byte string decodes to exactly that string, making
/// the escaper the output-side mirror of the string scanner.
pub proof fn lemma_escape_unescape(s: Seq<u8>)
    ensures
        str_scan(
            seq![34u8] + escape_seq(s) + seq![34u8],
            0,
            StrState::SStart,
            Seq::empty(),
            true,
        ) == StrScan::SFound(2 + escape_seq(s).len() as int, s),
{
    let w = seq![34u8] + escape_seq(s) + seq![34u8];
    assert(w[0] == 34);
    assert(w.subrange(1, 1 + escape_seq(s).len() as int) =~= escape_seq(s));
    lemma_scan_escaped_run(w, 1, s, Seq::empty(), true);
    assert(Seq::<u8>::empty() + s =~= s);
    assert(w[1 + escape_seq(s).len() as int] == 34);
}

/// Unescaping walks over the escaped form of a whole string.
proof fn lemma_scan_escaped_run(w: Seq<u8>, i: int, s: Seq<u8>, out: Seq<u8>, end: bool)
    requires
        0 <= i,
        i + escape_seq(s).len() <= w.len(),
        w.subrange(i, i + escape_seq(s).len() as int) == escape_seq(s),
    ensures
        str_scan(w, i, StrState::SNorm, out, end) == str_scan(
            w,
            i + escape_seq(s).len() as int,
            StrState::SNorm,
            out + s,
            end,
        ),
    decreases s.len(),
{
    if s.len() == 0 {
        assert(out + s =~= out);
    } else {
        let b = s[0];
        let e = escape_byte(b);
        let tail = escape_seq(s.skip(1));
        assert(escape_seq(s) == e + tail);
        assert forall|k: int| 0 <= k < escape_seq(s).len() implies #[trigger] w[i + k]
            == escape_seq(s)[k] by {
            assert(w.subrange(i, i + escape_seq(s).len() as int)[k] == w[i + k]);
        }
        assert(w.subrange(i, i + e.len() as int) =~= e) by {
            assert(forall|k: int| 0 <= k < e.len() ==> #[trigger] (e + tail)[k] == e[k]);
        }
        lemma_scan_one_escaped(w, i, b, out, end);
        assert forall|k: int| 0 <= k < tail.len() implies #[trigger] w.subrange(
            i + e.len() as int,
            i + e.len() + tail.len() as int,
        )[k] == tail[k] by {
            assert(w[i + (e.len() + k)] == escape_seq(s)[e.len() + k]);
            assert((e + tail)[e.len() + k] == tail[k]);
            assert(w.subrange(i + e.len() as int, i + e.len() + tail.len() as int)[k] == w[(i
                + e.len()) + k]);
            assert((i + e.len()) + k == i + (e.len() + k));
        }
        assert(w.subrange(i + e.len() as int, i + e.len() + tail.len() as int) =~= tail);
        lemma_scan_escaped_run(w, i + e.len() as int, s.skip(1), out.push(b), end);
        assert(out.push(b) + s.skip(1) =~= out + s);
    }
}

} // verus!
