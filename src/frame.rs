//! The netstring wire format `<decimal length>:<payload>,` as a mathematical
//! model, and the executable pieces shared by the reader and the writer.
use vstd::prelude::*;

verus! {

/// Largest number of length digits read before the next byte is taken as the
/// separator, whatever it is (the decimal width of a 64-bit length).
pub const MAX_LENGTH_DIGITS: usize = 20;

/// Byte between the length and the payload, ASCII `:`.
pub const SEPARATOR: u8 = 58;

/// Byte after the payload, ASCII `,`.
pub const TERMINATOR: u8 = 44;

/// ASCII `0`.
pub const DIGIT_ZERO: u8 = 48;

/// ASCII `9`.
pub const DIGIT_NINE: u8 = 57;

/// Why a frame could not be read or written.
#[derive(Debug, Clone, Copy, PartialEq, Eq, Structural)]
pub enum FrameError {
    /// The source reached its true end before the frame was complete.
    UnexpectedEof,
    /// The length digits do not fit in a `usize`.
    IntegerOverflow,
    /// The byte after the length digits is not `:`; it carries that byte.
    MalformedSeparator(u8),
    /// The byte after the payload is not `,`; it carries that byte.
    MalformedTerminator(u8),
    /// The declared length exceeds the capacity of the destination buffer.
    BufferTooSmall,
    /// The sink accepted zero bytes while part of the frame was unwritten.
    WriteRejected,
    /// The source or the sink reported an error of its own.
    Transport,
}

/// Where the payload of a frame goes.
#[derive(Debug, Clone, Copy, PartialEq, Eq, Structural)]
pub enum BodyMode {
    /// Into a caller buffer of the given capacity.
    Bounded(usize),
    /// Into a buffer allocated to the declared length.
    Allocating,
    /// Nowhere: the payload is consumed and dropped.
    Discarding,
}

/// What the bytes of a stream prefix say about the frame that starts it.
pub enum Status {
    /// More bytes are needed before anything can be said.
    Incomplete,
    /// The prefix ends with a complete frame carrying this payload.
    Decoded(Seq<u8>),
    /// The frame is malformed (or does not fit) for this reason.
    Rejected(FrameError),
}

pub open spec fn is_digit(b: u8) -> bool {
    DIGIT_ZERO <= b <= DIGIT_NINE
}

/// Index at which the run of length digits of `p` ends, scanning from `i`:
/// at the first non-digit, at the end of `p`, or after `MAX_LENGTH_DIGITS`.
pub open spec fn digit_run_from(p: Seq<u8>, i: nat) -> nat
    decreases MAX_LENGTH_DIGITS - i,
{
    if i >= MAX_LENGTH_DIGITS || i >= p.len() || !is_digit(p[i as int]) {
        i
    } else {
        digit_run_from(p, i + 1)
    }
}

/// Number of length digits at the start of `p`.
pub open spec fn digit_run(p: Seq<u8>) -> nat {
    digit_run_from(p, 0)
}

/// Value of a sequence of decimal digits; the empty sequence is zero.
pub open spec fn digits_value(d: Seq<u8>) -> nat
    decreases d.len(),
{
    if d.len() == 0 {
        0
    } else {
        digits_value(d.drop_last()) * 10 + (d.last() - DIGIT_ZERO) as nat
    }
}

/// Decimal digits of `n`, most significant first, without leading zeros.
pub open spec fn decimal(n: nat) -> Seq<u8>
    decreases n,
{
    if n < 10 {
        seq![(DIGIT_ZERO + n) as u8]
    } else {
        decimal(n / 10).push((DIGIT_ZERO + n % 10) as u8)
    }
}

/// The frame that carries `payload`.
pub open spec fn encode(payload: Seq<u8>) -> Seq<u8> {
    decimal(payload.len()) + seq![SEPARATOR] + payload + seq![TERMINATOR]
}

/// Whether a payload of length `len` cannot be taken in by `mode`.
pub open spec fn too_small(mode: BodyMode, len: nat) -> bool {
    match mode {
        BodyMode::Bounded(cap) => cap < len,
        _ => false,
    }
}

/// What the stream prefix `p` says about its first frame, read in `mode`:
/// length digits, then `:`, then the capacity check, then the payload and `,`.
/// Only the bytes up to the point of decision are looked at.
pub open spec fn frame_status(p: Seq<u8>, mode: BodyMode) -> Status {
    let d = digit_run(p) as int;
    if p.len() <= d {
        Status::Incomplete
    } else {
        let len = digits_value(p.take(d)) as int;
        let sep = p[d];
        if len > usize::MAX {
            Status::Rejected(FrameError::IntegerOverflow)
        } else if sep != SEPARATOR {
            Status::Rejected(FrameError::MalformedSeparator(sep))
        } else if too_small(mode, len as nat) {
            Status::Rejected(FrameError::BufferTooSmall)
        } else if p.len() < d + len + 2 {
            Status::Incomplete
        } else if p[d + len + 1] != TERMINATOR {
            Status::Rejected(FrameError::MalformedTerminator(p[d + len + 1]))
        } else {
            Status::Decoded(p.subrange(d + 1, d + 1 + len))
        }
    }
}

/// The outcome of reading one frame from a stream that holds `s` and then ends.
pub open spec fn stream_result(s: Seq<u8>, mode: BodyMode) -> Status {
    match frame_status(s, mode) {
        Status::Incomplete => Status::Rejected(FrameError::UnexpectedEof),
        other => other,
    }
}

/// A prefix at which the first frame of a stream is decided: decided itself,
/// one byte shorter not yet.
pub open spec fn is_decision_point(p: Seq<u8>, mode: BodyMode) -> bool {
    &&& p.len() > 0
    &&& !(frame_status(p, mode) is Incomplete)
    &&& frame_status(p.drop_last(), mode) is Incomplete
}

proof fn lemma_digit_run_from(p: Seq<u8>, i: nat, h: nat)
    requires
        i <= h <= MAX_LENGTH_DIGITS,
        h <= p.len(),
        forall|j: int| i <= j < h ==> is_digit(#[trigger] p[j]),
        h == MAX_LENGTH_DIGITS || h == p.len() || !is_digit(p[h as int]),
    ensures
        digit_run_from(p, i) == h,
    decreases h - i,
{
    if i < h {
        lemma_digit_run_from(p, i + 1, h);
    }
}

/// The length digits end at `h` when `p` starts with `h` digits followed by the
/// end of `p`, by a non-digit, or by the digit limit.
pub proof fn lemma_digit_run(p: Seq<u8>, h: nat)
    requires
        h <= MAX_LENGTH_DIGITS,
        h <= p.len(),
        forall|j: int| 0 <= j < h ==> is_digit(#[trigger] p[j]),
        h == MAX_LENGTH_DIGITS || h == p.len() || !is_digit(p[h as int]),
    ensures
        digit_run(p) == h,
{
    lemma_digit_run_from(p, 0, h);
}

proof fn lemma_digit_run_bounds(p: Seq<u8>, i: nat)
    requires
        i <= MAX_LENGTH_DIGITS,
        i <= p.len(),
        forall|j: int| 0 <= j < i ==> is_digit(#[trigger] p[j]),
    ensures
        i <= digit_run_from(p, i) <= MAX_LENGTH_DIGITS,
        digit_run_from(p, i) <= p.len(),
        forall|j: int| 0 <= j < digit_run_from(p, i) ==> is_digit(#[trigger] p[j]),
        digit_run_from(p, i) == MAX_LENGTH_DIGITS || digit_run_from(p, i) == p.len()
            || !is_digit(p[digit_run_from(p, i) as int]),
    decreases MAX_LENGTH_DIGITS - i,
{
    if !(i >= MAX_LENGTH_DIGITS || i >= p.len() || !is_digit(p[i as int])) {
        lemma_digit_run_bounds(p, i + 1);
    }
}

/// Once the first frame of `p` is decided, bytes after `p` change nothing.
pub proof fn lemma_status_stable(p: Seq<u8>, q: Seq<u8>, mode: BodyMode)
    requires
        !(frame_status(p, mode) is Incomplete),
    ensures
        frame_status(p + q, mode) == frame_status(p, mode),
{
    let pq = p + q;
    lemma_digit_run_bounds(p, 0);
    let d = digit_run(p) as int;
    assert forall|j: int| 0 <= j < d implies is_digit(#[trigger] pq[j]) by {
        assert(pq[j] == p[j]);
    }
    if d < p.len() {
        assert(pq[d] == p[d]);
    }
    lemma_digit_run(pq, d as nat);
    assert(pq.take(d) =~= p.take(d));
    let len = digits_value(p.take(d)) as int;
    if p.len() >= d + len + 2 {
        assert(pq[d + len + 1] == p[d + len + 1]);
        assert(pq.subrange(d + 1, d + 1 + len) =~= p.subrange(d + 1, d + 1 + len));
    }
}

proof fn lemma_value_monotone(d: Seq<u8>, i: int, k: int)
    requires
        0 <= i <= k <= d.len(),
    ensures
        digits_value(d.take(i)) <= digits_value(d.take(k)),
    decreases k - i,
{
    if i < k {
        lemma_value_monotone(d, i, k - 1);
        assert(d.take(k).drop_last() =~= d.take(k - 1));
    }
}

/// Value of the length digits `digits`, or `None` where it does not fit in a
/// `usize` (an overflow is reported, never wrapped).
pub fn parse_length(digits: &[u8]) -> (r: Option<usize>)
    requires
        forall|j: int| 0 <= j < digits@.len() ==> is_digit(#[trigger] digits@[j]),
    ensures
        digits_value(digits@) <= usize::MAX ==> r == Some(digits_value(digits@) as usize),
        digits_value(digits@) > usize::MAX ==> r is None,
{
    let mut acc: usize = 0;
    let mut i: usize = 0;
    while i < digits.len()
        invariant
            0 <= i <= digits@.len(),
            forall|j: int| 0 <= j < digits@.len() ==> is_digit(#[trigger] digits@[j]),
            acc == digits_value(digits@.take(i as int)),
        decreases digits@.len() - i,
    {
        let b = digits[i];
        assert(is_digit(digits@[i as int]));
        let digit: usize = (b - DIGIT_ZERO) as usize;
        proof {
            assert(digits@.take(i + 1).drop_last() =~= digits@.take(i as int));
            assert(digits@.take(i + 1).last() == b);
            assert(digits_value(digits@.take(i + 1)) == acc * 10 + digit);
        }
        let next = match acc.checked_mul(10) {
            Some(m) => m.checked_add(digit),
            None => None,
        };
        match next {
            Some(n) => {
                acc = n;
            },
            None => {
                proof {
                    lemma_value_monotone(digits@, i + 1, digits@.len() as int);
                    assert(digits@.take(digits@.len() as int) =~= digits@);
                }
                return None;
            },
        }
        i = i + 1;
    }
    proof {
        assert(digits@.take(i as int) =~= digits@);
    }
    Some(acc)
}

/// Decimal digits of `n`, most significant first.
pub fn decimal_digits(n: usize) -> (r: Vec<u8>)
    ensures
        r@ == decimal(n as nat),
    decreases n,
{
    if n < 10 {
        let mut v: Vec<u8> = Vec::new();
        v.push(DIGIT_ZERO + n as u8);
        proof {
            assert(v@ =~= decimal(n as nat));
        }
        v
    } else {
        let mut v = decimal_digits(n / 10);
        v.push(DIGIT_ZERO + (n % 10) as u8);
        v
    }
}

/// The frame `<len>:<data>,` that carries `data`, in one contiguous buffer.
pub fn encode_frame(data: &[u8]) -> (r: Vec<u8>)
    ensures
        r@ == encode(data@),
{
    let mut out = decimal_digits(data.len());
    out.push(SEPARATOR);
    let ghost head = out@;
    let mut i: usize = 0;
    while i < data.len()
        invariant
            0 <= i <= data@.len(),
            out@ == head + data@.take(i as int),
        decreases data@.len() - i,
    {
        out.push(data[i]);
        proof {
            assert(data@.take(i + 1) =~= data@.take(i as int).push(data@[i as int]));
        }
        i = i + 1;
    }
    out.push(TERMINATOR);
    proof {
        assert(data@.take(i as int) =~= data@);
        assert(out@ =~= encode(data@));
    }
    out
}

proof fn lemma_decimal_digits(n: nat)
    ensures
        forall|j: int| 0 <= j < decimal(n).len() ==> is_digit(#[trigger] decimal(n)[j]),
        digits_value(decimal(n)) == n,
        decimal(n).len() >= 1,
    decreases n,
{
    if n >= 10 {
        lemma_decimal_digits(n / 10);
        assert(decimal(n).drop_last() =~= decimal(n / 10));
        assert(n == (n / 10) * 10 + n % 10);
        assert(decimal(n).last() == (DIGIT_ZERO + n % 10) as u8);
        assert(digits_value(decimal(n)) == digits_value(decimal(n / 10)) * 10 + n % 10);
    } else {
        assert(decimal(n).drop_last() =~= Seq::<u8>::empty());
        assert(decimal(n).last() == (DIGIT_ZERO + n) as u8);
        assert(digits_value(decimal(n)) == digits_value(Seq::<u8>::empty()) * 10 + n);
    }
}

/// Ten to the power `k`.
pub open spec fn pow10(k: nat) -> nat
    decreases k,
{
    if k == 0 {
        1
    } else {
        10 * pow10((k - 1) as nat)
    }
}

proof fn lemma_decimal_len(n: nat, k: nat)
    requires
        k >= 1,
        n < pow10(k),
    ensures
        decimal(n).len() <= k,
    decreases n,
{
    if n >= 10 {
        let k1 = (k - 1) as nat;
        let b1 = pow10(k1);
        assert(n / 10 < b1) by (nonlinear_arith)
            requires
                n < 10 * b1,
        ;
        if k1 == 0 {
            assert(pow10(1) == 10) by {
                reveal_with_fuel(pow10, 2);
            }
        }
        lemma_decimal_len(n / 10, k1);
    }
}

/// The decimal form of a length that fits in a `usize` has at most
/// `MAX_LENGTH_DIGITS` digits.
proof fn lemma_decimal_fits(n: nat)
    requires
        n <= usize::MAX,
    ensures
        decimal(n).len() <= MAX_LENGTH_DIGITS,
{
    assert(pow10(20) == 100000000000000000000nat) by {
        reveal_with_fuel(pow10, 21);
    }
    lemma_decimal_len(n, 20);
}

/// Decoding an encoded payload gives the payload back, in every mode that can
/// take it in; the frame is decided exactly at its last byte and a stream that
/// holds it, followed by anything, reads the same payload.
pub proof fn lemma_round_trip(payload: Seq<u8>, rest: Seq<u8>, mode: BodyMode)
    requires
        payload.len() <= usize::MAX,
        !too_small(mode, payload.len()),
    ensures
        frame_status(encode(payload), mode) == Status::Decoded(payload),
        is_decision_point(encode(payload), mode),
        stream_result(encode(payload) + rest, mode) == Status::Decoded(payload),
{
    let n = payload.len();
    let dec = decimal(n);
    let p = encode(payload);
    lemma_decimal_digits(n);
    lemma_decimal_fits(n);
    let h = dec.len();
    assert forall|j: int| 0 <= j < h implies is_digit(#[trigger] p[j]) by {
        assert(p[j] == dec[j]);
    }
    assert(p[h as int] == SEPARATOR);
    lemma_digit_run(p, h);
    assert(p.take(h as int) =~= dec);
    assert(p.subrange(h as int + 1, h + 1 + n as int) =~= payload);
    assert(p[h + n as int + 1] == TERMINATOR);
    let q = p.drop_last();
    assert forall|j: int| 0 <= j < h implies is_digit(#[trigger] q[j]) by {
        assert(q[j] == dec[j]);
    }
    assert(q[h as int] == SEPARATOR);
    lemma_digit_run(q, h);
    assert(q.take(h as int) =~= dec);
    lemma_status_stable(p, rest, mode);
}

/// A stream has at most one point at which its first frame is decided, and
/// what is read there is what the whole stream reads: however its bytes are
/// cut into reads, a reader that stops at the decision point sees the same
/// bytes and gives the same result.
pub proof fn lemma_chunking_invariance(s: Seq<u8>, i: int, j: int, mode: BodyMode)
    requires
        0 <= i <= s.len(),
        0 <= j <= s.len(),
        is_decision_point(s.take(i), mode),
        is_decision_point(s.take(j), mode),
    ensures
        i == j,
        stream_result(s, mode) == frame_status(s.take(i), mode),
{
    if i < j {
        lemma_status_stable(s.take(i), s.subrange(i, j - 1), mode);
        assert(s.take(i) + s.subrange(i, j - 1) =~= s.take(j).drop_last());
    } else if j < i {
        lemma_status_stable(s.take(j), s.subrange(j, i - 1), mode);
        assert(s.take(j) + s.subrange(j, i - 1) =~= s.take(i).drop_last());
    }
    lemma_status_stable(s.take(i), s.skip(i), mode);
    assert(s.take(i) + s.skip(i) =~= s);
}

/// A declared length that exceeds the capacity of a bounded reader is refused
/// at the separator, before any payload byte is read.
pub proof fn lemma_too_small_before_payload(digits: Seq<u8>, rest: Seq<u8>, cap: usize)
    requires
        1 <= digits.len() <= MAX_LENGTH_DIGITS,
        forall|j: int| 0 <= j < digits.len() ==> is_digit(#[trigger] digits[j]),
        cap < digits_value(digits) <= usize::MAX,
    ensures
        is_decision_point(digits.push(SEPARATOR), BodyMode::Bounded(cap)),
        frame_status(digits.push(SEPARATOR), BodyMode::Bounded(cap)) == Status::Rejected(
            FrameError::BufferTooSmall,
        ),
        frame_status(digits.push(SEPARATOR) + rest, BodyMode::Bounded(cap)) == Status::Rejected(
            FrameError::BufferTooSmall,
        ),
{
    let mode = BodyMode::Bounded(cap);
    let p = digits.push(SEPARATOR);
    let h = digits.len();
    assert forall|j: int| 0 <= j < h implies is_digit(#[trigger] p[j]) by {
        assert(p[j] == digits[j]);
    }
    lemma_digit_run(p, h);
    assert(p.take(h as int) =~= digits);
    assert(p.drop_last() =~= digits);
    lemma_digit_run(digits, h);
    lemma_status_stable(p, rest, mode);
}

/// A length too large for a `usize` is an overflow, whatever byte follows it;
/// it is never wrapped into a smaller length.
pub proof fn lemma_overflow_rejected(digits: Seq<u8>, next: u8, rest: Seq<u8>, mode: BodyMode)
    requires
        digits.len() <= MAX_LENGTH_DIGITS,
        forall|j: int| 0 <= j < digits.len() ==> is_digit(#[trigger] digits[j]),
        digits.len() == MAX_LENGTH_DIGITS || !is_digit(next),
        digits_value(digits) > usize::MAX,
    ensures
        frame_status(digits.push(next) + rest, mode) == Status::Rejected(
            FrameError::IntegerOverflow,
        ),
{
    let p = digits.push(next);
    let h = digits.len();
    assert forall|j: int| 0 <= j < h implies is_digit(#[trigger] p[j]) by {
        assert(p[j] == digits[j]);
    }
    lemma_digit_run(p, h);
    assert(p.take(h as int) =~= digits);
    lemma_status_stable(p, rest, mode);
}

} // verus!
