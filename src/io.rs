//! Byte streams of a running program: the input it reads from, and the
//! decimal reading and writing of machine words.

use vstd::prelude::*;
use crate::error::{Error, IoErrorKind};

verus! {

/// Whether a byte separates decimal numbers on input: ASCII whitespace or NUL.
pub open spec fn is_separator(b: u8) -> bool {
    b == 0 || (9 <= b <= 13) || b == 32
}

/// Number of leading bytes of `r` that are separators (`sep`) or are not (`!sep`).
pub open spec fn lead(r: Seq<u8>, sep: bool) -> nat
    decreases r.len(),
{
    if r.len() > 0 && is_separator(r[0]) == sep {
        1 + lead(r.drop_first(), sep)
    } else {
        0
    }
}

/// Whether a byte is an ASCII decimal digit.
pub open spec fn is_digit(b: u8) -> bool {
    48 <= b <= 57
}

/// Value of a sequence of decimal digits.
pub open spec fn digits_value(d: Seq<u8>) -> int
    decreases d.len(),
{
    if d.len() == 0 {
        0
    } else {
        digits_value(d.drop_last()) * 10 + (d.last() - 48)
    }
}

/// Whether `d` is a non-empty sequence of decimal digits.
pub open spec fn all_digits(d: Seq<u8>) -> bool {
    d.len() > 0 && forall|i: int| 0 <= i < d.len() ==> is_digit(#[trigger] d[i])
}

/// The integer that a token spells: an optional sign and decimal digits.
pub open spec fn decimal_value(t: Seq<u8>) -> Option<int> {
    if t.len() > 0 && t[0] == 45 && all_digits(t.skip(1)) {
        Some(-digits_value(t.skip(1)))
    } else if t.len() > 0 && t[0] == 43 && all_digits(t.skip(1)) {
        Some(digits_value(t.skip(1)))
    } else if all_digits(t) {
        Some(digits_value(t))
    } else {
        None
    }
}

/// The machine word that a token spells, if it spells one in range.
pub open spec fn parse_word(t: Seq<u8>) -> Option<i64> {
    match decimal_value(t) {
        Some(v) => if i64::MIN <= v <= i64::MAX {
            Some(v as i64)
        } else {
            None
        },
        None => None,
    }
}

/// Decimal digits of a natural number, most significant first.
pub open spec fn nat_digits(n: nat) -> Seq<u8>
    decreases n,
{
    if n < 10 {
        seq![(48 + n) as u8]
    } else {
        nat_digits(n / 10).push((48 + n % 10) as u8)
    }
}

/// Decimal text of an integer, with a minus sign if it is negative.
pub open spec fn decimal_text(v: int) -> Seq<u8> {
    if v < 0 {
        seq![45u8] + nat_digits((-v) as nat)
    } else {
        nat_digits(v as nat)
    }
}

/// What reading one byte gave.
#[derive(Clone, Copy, Debug, PartialEq, Eq, Structural)]
pub enum ReadByte {
    /// The next byte.
    Byte(u8),
    /// The input is closed and every byte was read.
    EndOfStream,
    /// Every byte given so far was read, and more may come.
    Pending,
}

/// Bytes handed to a program as input: those not read yet, and whether more
/// can come.
pub struct InputBuffer {
    bytes: Vec<u8>,
    pos: usize,
    closed: bool,
}

impl InputBuffer {
    /// Internal consistency: the read position lies within the bytes.
    pub closed spec fn wf(&self) -> bool {
        self.pos <= self.bytes@.len()
    }

    /// The bytes that were given and not read yet.
    pub closed spec fn remaining(&self) -> Seq<u8> {
        self.bytes@.skip(self.pos as int)
    }

    /// Whether no byte will be added.
    pub closed spec fn is_closed(&self) -> bool {
        self.closed
    }

    /// An input holding `bytes`; `closed` says that nothing follows them.
    pub fn new(bytes: Vec<u8>, closed: bool) -> (r: InputBuffer)
        ensures
            r.wf(),
            r.remaining() == bytes@,
            r.is_closed() == closed,
    {
        let r = InputBuffer { bytes, pos: 0, closed };
        assert(r.bytes@.skip(0) =~= r.bytes@);
        r
    }

    /// Adds bytes after those already given.
    pub fn feed(&mut self, more: &[u8])
        requires
            old(self).wf(),
        ensures
            final(self).wf(),
            final(self).remaining() == old(self).remaining() + more@,
            final(self).is_closed() == old(self).is_closed(),
    {
        let ghost before = self.remaining();
        let mut i: usize = 0;
        while i < more.len()
            invariant
                self.wf(),
                i <= more@.len(),
                self.bytes@ =~= old(self).bytes@ + more@.take(i as int),
                self.pos == old(self).pos,
                self.closed == old(self).closed,
            decreases more@.len() - i,
        {
            self.bytes.push(more[i]);
            i = i + 1;
            assert(more@.take(i as int) =~= more@.take(i - 1).push(more@[i - 1]));
        }
        assert(more@.take(more@.len() as int) =~= more@);
        assert(self.remaining() =~= before + more@);
    }

    /// Says that no byte will be added.
    pub fn close(&mut self)
        requires
            old(self).wf(),
        ensures
            final(self).wf(),
            final(self).remaining() == old(self).remaining(),
            final(self).is_closed(),
    {
        self.closed = true;
    }

    /// Takes the next byte, if there is one.
    pub fn read_byte(&mut self) -> (r: ReadByte)
        requires
            old(self).wf(),
        ensures
            final(self).wf(),
            final(self).is_closed() == old(self).is_closed(),
            old(self).remaining().len() > 0 ==> r == ReadByte::Byte(old(self).remaining()[0])
                && final(self).remaining() == old(self).remaining().drop_first(),
            old(self).remaining().len() == 0 ==> final(self).remaining() == old(self).remaining()
                && r == if old(self).is_closed() {
                ReadByte::EndOfStream
            } else {
                ReadByte::Pending
            },
    {
        if self.pos < self.bytes.len() {
            let b = self.bytes[self.pos];
            self.pos = self.pos + 1;
            assert(self.bytes@.skip(self.pos as int) =~= old(self).remaining().drop_first());
            ReadByte::Byte(b)
        } else if self.closed {
            ReadByte::EndOfStream
        } else {
            ReadByte::Pending
        }
    }
}

/// What `scan_next` does with input `r`: `None` while the number may go
/// on in bytes not given yet; else the number (or `None` for a token that
/// is none) and the count of bytes it consumes, the separator after the
/// token included.
pub open spec fn scan_spec(r: Seq<u8>, closed: bool) -> Option<(Option<i64>, int)> {
    let k = lead(r, true) as int;
    let t = k + lead(r.skip(k), false);
    if t == r.len() && !closed {
        None
    } else {
        Some((parse_word(r.subrange(k, t)), if t < r.len() { t + 1 } else { t }))
    }
}

proof fn lemma_lead(r: Seq<u8>, sep: bool, i: int)
    requires
        0 <= i <= r.len(),
        forall|j: int| 0 <= j < i ==> is_separator(#[trigger] r[j]) == sep,
        i == r.len() || is_separator(r[i]) != sep,
    ensures
        lead(r, sep) == i,
    decreases i,
{
    if i > 0 {
        let s = r.drop_first();
        assert forall|j: int| 0 <= j < i - 1 implies is_separator(#[trigger] s[j]) == sep by {
            assert(s[j] == r[j + 1]);
        }
        lemma_lead(s, sep, i - 1);
    }
}

/// Saturation bound of the magnitude while reading digits: past it, no
/// machine word can result.
spec fn digits_cap() -> int {
    0x8000_0000_0000_0001
}

spec fn min(a: int, b: int) -> int {
    if a < b {
        a
    } else {
        b
    }
}

/// Reads the decimal digits `d[start..end]`, returning their value, or the
/// cap if it is larger.
fn digits_magnitude(d: &Vec<u8>, start: usize, end: usize) -> (r: u128)
    requires
        start <= end <= d@.len(),
        forall|i: int| start <= i < end ==> is_digit(#[trigger] d@[i]),
    ensures
        r == min(digits_value(d@.subrange(start as int, end as int)), digits_cap()),
{
    let cap: u128 = 0x8000_0000_0000_0001;
    let mut acc: u128 = 0;
    let mut i = start;
    assert(d@.subrange(start as int, start as int) =~= Seq::<u8>::empty());
    while i < end
        invariant
            start <= i <= end <= d@.len(),
            forall|j: int| start <= j < end ==> is_digit(#[trigger] d@[j]),
            cap == digits_cap(),
            acc == min(digits_value(d@.subrange(start as int, i as int)), digits_cap()),
        decreases end - i,
    {
        let ghost prev = d@.subrange(start as int, i as int);
        let ghost next = d@.subrange(start as int, i + 1);
        assert(next.drop_last() =~= prev);
        assert(is_digit(d@[i as int]));
        proof {
            assert forall|j: int| 0 <= j < prev.len() implies is_digit(#[trigger] prev[j]) by {
                assert(prev[j] == d@[start + j]);
            }
            lemma_digits_nonneg(prev);
        }
        let digit = (d[i] - 48) as u128;
        if acc >= cap {
            assert(digits_value(next) >= digits_cap()) by (nonlinear_arith)
                requires
                    digits_value(next) == digits_value(prev) * 10 + digit,
                    digits_value(prev) >= digits_cap(),
                    digit >= 0,
            ;
        } else {
            acc = acc * 10 + digit;
            if acc > cap {
                acc = cap;
            }
        }
        i = i + 1;
    }
    acc
}

proof fn lemma_digits_nonneg(d: Seq<u8>)
    requires
        forall|i: int| 0 <= i < d.len() ==> is_digit(#[trigger] d[i]),
    ensures
        digits_value(d) >= 0,
    decreases d.len(),
{
    if d.len() > 0 {
        lemma_digits_nonneg(d.drop_last());
    }
}

fn all_digits_in(d: &Vec<u8>, start: usize, end: usize) -> (r: bool)
    requires
        start <= end <= d@.len(),
    ensures
        r == forall|i: int| start <= i < end ==> is_digit(#[trigger] d@[i]),
{
    let mut i = start;
    while i < end
        invariant
            start <= i <= end <= d@.len(),
            forall|j: int| start <= j < i ==> is_digit(#[trigger] d@[j]),
        decreases end - i,
    {
        if !(48 <= d[i] && d[i] <= 57) {
            return false;
        }
        i = i + 1;
    }
    true
}

/// The machine word spelled by `d[start..end]`: an optional sign, then
/// decimal digits.
fn parse_token(d: &Vec<u8>, start: usize, end: usize) -> (r: Option<i64>)
    requires
        start <= end <= d@.len(),
    ensures
        r == parse_word(d@.subrange(start as int, end as int)),
{
    let ghost t = d@.subrange(start as int, end as int);
    let signed = start < end && (d[start] == 45 || d[start] == 43);
    let first = if signed { start + 1 } else { start };
    if start < end {
        assert(t.skip(1) =~= d@.subrange(start + 1, end as int));
    }
    if first == end || !all_digits_in(d, first, end) {
        assert(!all_digits(t) && (signed ==> !all_digits(t.skip(1)))) by {
            if signed && first < end {
                let j = choose|j: int| first <= j < end && !is_digit(#[trigger] d@[j]);
                assert(t.skip(1)[j - first] == d@[j]);
                assert(t[j - start] == d@[j]);
            } else if first < end {
                let j = choose|j: int| first <= j < end && !is_digit(#[trigger] d@[j]);
                assert(t[j - start] == d@[j]);
            } else if signed {
                assert(!is_digit(t[0]));
            }
        }
        return None;
    }
    let m = digits_magnitude(d, first, end);
    proof {
        assert forall|j: int| 0 <= j < end - first implies is_digit(#[trigger] d@.subrange(first as int, end as int)[j]) by {
            assert(d@.subrange(first as int, end as int)[j] == d@[first + j]);
        }
        lemma_digits_nonneg(d@.subrange(first as int, end as int));
        if signed {
            assert(!all_digits(t)) by {
                assert(!is_digit(t[0]));
            }
        } else {
            assert(all_digits(t)) by {
                assert forall|i: int| 0 <= i < t.len() implies is_digit(#[trigger] t[i]) by {
                    assert(t[i] == d@[start + i]);
                }
            }
            assert(t =~= d@.subrange(first as int, end as int));
        }
        if signed {
            assert(all_digits(t.skip(1))) by {
                assert forall|i: int| 0 <= i < t.skip(1).len() implies is_digit(#[trigger] t.skip(1)[i]) by {
                    assert(t.skip(1)[i] == d@[first + i]);
                }
            }
        }
    }
    if signed && d[start] == 45 {
        if m <= 0x8000_0000_0000_0000 {
            Some((0 - (m as i128)) as i64)
        } else {
            None
        }
    } else {
        if m <= 0x7fff_ffff_ffff_ffff {
            Some(m as i64)
        } else {
            None
        }
    }
}

/// Reads the next whitespace-delimited decimal number.
///
/// Leading separators are skipped; the token runs to the next separator or
/// to the end of the input, and the separator after it is consumed. While
/// the input is open and the token may go on, nothing is consumed and the
/// result is `Ok(None)`. A token that spells no machine word (an empty one
/// included) is an error of kind `InvalidData`.
pub fn scan_next(input: &mut InputBuffer) -> (r: Result<Option<i64>, Error>)
    requires
        old(input).wf(),
    ensures
        final(input).wf(),
        final(input).is_closed() == old(input).is_closed(),
        match scan_spec(old(input).remaining(), old(input).is_closed()) {
            None => r == Ok::<Option<i64>, Error>(None) && final(input).remaining() == old(input).remaining(),
            Some((v, used)) => final(input).remaining() == old(input).remaining().skip(used)
                && r == match v {
                Some(n) => Ok::<Option<i64>, Error>(Some(n)),
                None => Err(Error::Io(IoErrorKind::InvalidData)),
            },
        },
{
    let ghost r0 = input.remaining();
    let len = input.bytes.len();
    let pos = input.pos;
    let mut k = pos;
    while k < len && is_separator_byte(input.bytes[k])
        invariant
            pos <= k <= len == input.bytes@.len(),
            forall|j: int| pos <= j < k ==> is_separator(#[trigger] input.bytes@[j]),
        decreases len - k,
    {
        k = k + 1;
    }
    let mut t = k;
    while t < len && !is_separator_byte(input.bytes[t])
        invariant
            k <= t <= len == input.bytes@.len(),
            forall|j: int| k <= j < t ==> !is_separator(#[trigger] input.bytes@[j]),
        decreases len - t,
    {
        t = t + 1;
    }
    proof {
        let kk = k - pos;
        assert forall|j: int| 0 <= j < kk implies is_separator(#[trigger] r0[j]) by {
            assert(r0[j] == input.bytes@[pos + j]);
        }
        if k < len {
            assert(r0[kk] == input.bytes@[k as int]);
        }
        lemma_lead(r0, true, kk);
        let rk = r0.skip(kk);
        assert forall|j: int| 0 <= j < t - k implies !is_separator(#[trigger] rk[j]) by {
            assert(rk[j] == input.bytes@[k + j]);
        }
        if t < len {
            assert(rk[t - k] == input.bytes@[t as int]);
        }
        lemma_lead(rk, false, t - k);
        assert(r0.subrange(kk, t - pos) =~= input.bytes@.subrange(k as int, t as int));
    }
    if t == len && !input.closed {
        return Ok(None);
    }
    let v = parse_token(&input.bytes, k, t);
    input.pos = if t < len { t + 1 } else { t };
    assert(input.bytes@.skip(input.pos as int) =~= r0.skip(input.pos - pos));
    match v {
        Some(n) => Ok(Some(n)),
        None => Err(Error::Io(IoErrorKind::InvalidData)),
    }
}

/// Whether a byte separates decimal numbers on input.
pub fn is_separator_byte(b: u8) -> (r: bool)
    ensures
        r == is_separator(b),
{
    b == 0 || (9 <= b && b <= 13) || b == 32
}

/// Appends the decimal digits of `n`.
fn push_digits(out: &mut Vec<u8>, n: u64)
    ensures
        final(out)@ == old(out)@ + nat_digits(n as nat),
    decreases n,
{
    if n >= 10 {
        push_digits(out, n / 10);
    }
    out.push(48 + (n % 10) as u8);
}

/// Appends the decimal text of `v`, as the `.` command writes it, without
/// the space that follows.
pub fn push_decimal(out: &mut Vec<u8>, v: i64)
    ensures
        final(out)@ == old(out)@ + decimal_text(v as int),
{
    if v < 0 {
        out.push(45);
        let n: u64 = ((-(v + 1)) as u64) + 1;
        push_digits(out, n);
    } else {
        push_digits(out, v as u64);
    }
}

} // verus!
