//! Calendar timestamps held as plain fields, rendered and parsed in the
//! fixed-width UTC text form `YYYY-MM-DDTHH:MM:SSZ`.

use chrono::Datelike;
use chrono::Timelike;
use vstd::prelude::*;

use crate::jsonfmt::all_digits;
use crate::jsonfmt::is_digit;
use crate::jsonfmt::val_of;

verus! {

/// Powers of ten.
pub open spec fn pow10(w: nat) -> nat
    decreases w,
{
    if w == 0 {
        1
    } else {
        10 * pow10((w - 1) as nat)
    }
}

/// The zero-padded decimal notation of `n` in exactly `w` digits.
pub open spec fn decn(n: nat, w: nat) -> Seq<u8>
    decreases w,
{
    if w == 0 {
        Seq::empty()
    } else {
        decn(n / 10, (w - 1) as nat).push((48 + n % 10) as u8)
    }
}

pub proof fn lemma_decn_shape(n: nat, w: nat)
    ensures
        decn(n, w).len() == w,
        all_digits(decn(n, w)),
        n < pow10(w) ==> val_of(decn(n, w)) == n,
    decreases w,
{
    if w > 0 {
        lemma_decn_shape(n / 10, (w - 1) as nat);
        let s = decn(n, w);
        let p = decn(n / 10, (w - 1) as nat);
        assert(s.drop_last() =~= p);
        assert(s.last() == (48 + n % 10) as u8);
        assert(forall|i: int| 0 <= i < p.len() ==> s[i] == #[trigger] p[i]);
        assert(all_digits(s));
        if n < pow10(w) {
            assert(n / 10 < pow10((w - 1) as nat)) by (nonlinear_arith)
                requires
                    n < 10 * pow10((w - 1) as nat),
            ;
            assert(val_of(s) == val_of(p) * 10 + n % 10);
            assert((n / 10) * 10 + n % 10 == n) by (nonlinear_arith);
        }
    }
}

/// A digit run of width `w` is the fixed-width notation of its value.
pub proof fn lemma_decn_unique(s: Seq<u8>)
    requires
        all_digits(s),
    ensures
        s == decn(val_of(s), s.len() as nat),
        val_of(s) < pow10(s.len() as nat),
    decreases s.len(),
{
    if s.len() == 0 {
        assert(s =~= decn(val_of(s), 0));
    } else {
        let p = s.drop_last();
        assert(all_digits(p)) by {
            assert(forall|i: int| 0 <= i < p.len() ==> p[i] == #[trigger] s[i]);
        }
        lemma_decn_unique(p);
        let n = val_of(s);
        let d = (s.last() - 48) as nat;
        assert(n == val_of(p) * 10 + d);
        assert(n / 10 == val_of(p) && n % 10 == d) by (nonlinear_arith)
            requires
                n == val_of(p) * 10 + d,
                d < 10,
        ;
        assert(s =~= decn(n / 10, (s.len() - 1) as nat).push((48 + n % 10) as u8));
        assert(n < 10 * pow10((s.len() - 1) as nat)) by (nonlinear_arith)
            requires
                val_of(p) < pow10((s.len() - 1) as nat),
                n == val_of(p) * 10 + d,
                d < 10,
        ;
    }
}

/// Appends the zero-padded `w`-digit notation of `n`.
pub fn emit_fixed(out: &mut Vec<u8>, n: u64, w: u32)
    ensures
        final(out)@ == old(out)@ + decn(n as nat, w as nat),
    decreases w,
{
    if w > 0 {
        emit_fixed(out, n / 10, w - 1);
        out.push(48 + (n % 10) as u8);
    } else {
        proof {
            assert(old(out)@ + decn(n as nat, 0) =~= old(out)@);
        }
    }
}

/// Parses exactly `w` digit bytes at `pos` as a zero-padded number.
#[verifier::loop_isolation(false)]
pub fn parse_fixed(data: &Vec<u8>, pos: usize, w: usize) -> (r: Option<(u64, usize)>)
    requires
        pos <= data@.len(),
        w <= 18,
    ensures
        r matches Some((n, p)) ==> p == pos + w && p <= data@.len() && data@.subrange(
            pos as int,
            p as int,
        ) == decn(n as nat, w as nat) && (n as nat) < pow10(w as nat),
        forall|n0: u64, rest: Seq<u8>|
            #![trigger decn(n0 as nat, w as nat) + rest]
            data@.skip(pos as int) == decn(n0 as nat, w as nat) + rest && (n0 as nat) < pow10(
                w as nat,
            ) ==> (r matches Some((n, p)) && n == n0 && p == pos + w),
{
    if data.len() - pos < w {
        proof {
            assert forall|n0: u64, rest: Seq<u8>|
                data@.skip(pos as int) == decn(n0 as nat, w as nat) + rest implies false by {
                lemma_decn_shape(n0 as nat, w as nat);
                assert(data@.skip(pos as int).len() == data@.len() - pos);
                assert((decn(n0 as nat, w as nat) + rest).len() >= w);
            }
        }
        return None;
    }
    let mut j: usize = 0;
    let mut acc: u64 = 0;
    proof {
        assert(data@.subrange(pos as int, pos as int) =~= Seq::<u8>::empty());
        crate::timefmt::lemma_pow10_mono(0, w as nat);
    }
    while j < w
        invariant
            j <= w,
            pos + w <= data@.len(),
            all_digits(data@.subrange(pos as int, pos + j)),
            acc as nat == val_of(data@.subrange(pos as int, pos + j)),
            (acc as nat) < pow10(j as nat),
        decreases w - j,
    {
        let b = data[pos + j];
        if !(48 <= b && b <= 57) {
            proof {
                assert forall|n0: u64, rest: Seq<u8>|
                    data@.skip(pos as int) == decn(n0 as nat, w as nat) + rest implies false by {
                    lemma_decn_shape(n0 as nat, w as nat);
                    assert(data@.skip(pos as int)[j as int] == (decn(n0 as nat, w as nat)
                        + rest)[j as int]);
                    assert(data@[pos + j] == decn(n0 as nat, w as nat)[j as int]);
                    assert(is_digit(decn(n0 as nat, w as nat)[j as int]));
                }
            }
            return None;
        }
        proof {
            lemma_pow10_18();
            lemma_pow10_mono(j as nat, 17);
            lemma_pow10_mono(17, 18);
            assert(acc as nat <= pow10(17));
            assert(acc as nat * 10 + 9 <= 10 * pow10(17) + 9) by (nonlinear_arith)
                requires
                    acc as nat <= pow10(17),
            ;
            assert(10 * pow10(17) == pow10(18));
        }
        acc = acc * 10 + ((b - 48) as u64);
        proof {
            assert(data@.subrange(pos as int, pos + j + 1).drop_last() =~= data@.subrange(
                pos as int,
                pos + j,
            ));
            assert(data@.subrange(pos as int, pos + j + 1).last() == data@[pos + j]);
            assert(pow10((j + 1) as nat) == 10 * pow10(j as nat));
            assert((acc as nat) < pow10((j + 1) as nat)) by (nonlinear_arith)
                requires
                    (acc as nat) == (val_of(data@.subrange(pos as int, pos + j)) * 10 + (
                    data@[pos + j] - 48)),
                    val_of(data@.subrange(pos as int, pos + j)) < pow10(j as nat),
                    48 <= data@[pos + j] <= 57,
                    pow10((j + 1) as nat) == 10 * pow10(j as nat),
            ;
        }
        j += 1;
    }
    proof {
        let run = data@.subrange(pos as int, pos + w);
        lemma_decn_unique(run);
        assert forall|n0: u64, rest: Seq<u8>|
            data@.skip(pos as int) == decn(n0 as nat, w as nat) + rest && (n0 as nat) < pow10(
                w as nat,
            ) implies acc == n0 by {
            lemma_decn_shape(n0 as nat, w as nat);
            crate::jsonfmt::lemma_skip_split(data@, pos as int, pos + w);
            crate::jsonfmt::lemma_prefix_cancel(
                run,
                data@.skip(pos + w),
                decn(n0 as nat, w as nat),
                rest,
            );
        }
    }
    Some((acc, pos + w))
}

/// Powers of ten are monotone in the exponent.
pub proof fn lemma_pow10_mono(a: nat, b: nat)
    requires
        a <= b,
    ensures
        pow10(a) <= pow10(b),
    decreases b,
{
    if a < b {
        lemma_pow10_mono(a, (b - 1) as nat);
        assert(pow10(b) == 10 * pow10((b - 1) as nat));
    }
}

/// Eighteen digits fit a `u64` with room to accumulate one more digit.
pub proof fn lemma_pow10_18()
    ensures
        pow10(18) == 1_000_000_000_000_000_000,
{
    assert(pow10(0) == 1);
    assert(pow10(1) == 10);
    assert(pow10(2) == 100);
    assert(pow10(3) == 1000);
    assert(pow10(4) == 10000);
    assert(pow10(5) == 100000);
    assert(pow10(6) == 1000000);
    assert(pow10(7) == 10000000);
    assert(pow10(8) == 100000000);
    assert(pow10(9) == 1000000000);
    assert(pow10(10) == 10000000000);
    assert(pow10(11) == 100000000000);
    assert(pow10(12) == 1000000000000);
    assert(pow10(13) == 10000000000000);
    assert(pow10(14) == 100000000000000);
    assert(pow10(15) == 1000000000000000);
    assert(pow10(16) == 10000000000000000);
    assert(pow10(17) == 100000000000000000);
    assert(pow10(18) == 1000000000000000000);
}

/// A UTC calendar timestamp held as plain fields.
#[derive(Debug, Clone, Copy, PartialEq, Eq, Structural)]
pub struct Timestamp {
    pub year: u32,
    pub month: u32,
    pub day: u32,
    pub hour: u32,
    pub minute: u32,
    pub second: u32,
}

impl Timestamp {
    /// Field ranges of a representable timestamp.
    pub open spec fn wf(self) -> bool {
        &&& 1 <= self.year <= 9999
        &&& 1 <= self.month <= 12
        &&& 1 <= self.day <= 31
        &&& self.hour <= 23
        &&& self.minute <= 59
        &&& self.second <= 59
    }

    /// A single ordering key, strictly monotone in the field tuple.
    pub open spec fn time_key(self) -> int {
        ((((self.year * 12 + self.month) * 31 + self.day) * 24 + self.hour) * 60 + self.minute)
            * 60 + self.second
    }

    /// The ordering key as a machine word.
    pub fn key_u64(&self) -> (r: u64)
        requires
            self.wf(),
        ensures
            r == self.time_key(),
    {
        (((((self.year as u64) * 12 + (self.month as u64)) * 31 + (self.day as u64)) * 24 + (
        self.hour as u64)) * 60 + (self.minute as u64)) * 60 + (self.second as u64)
    }

    /// The current UTC time, clamped to the representable year range.
    pub fn now() -> (r: Timestamp)
        ensures
            r.wf(),
    {
        let (y, mo, d, h, mi, s) = now_utc_fields();
        let year: u32 = if y < 1 { 1 } else if y > 9999 { 9999 } else { y as u32 };
        Timestamp { year, month: mo, day: d, hour: h, minute: mi, second: s }
    }
}

/// Relies on `chrono::Utc::now` and the `Datelike`/`Timelike` accessors:
/// the field ranges stated here are the ones their documentation gives.
#[verifier::external_body]
fn now_utc_fields() -> (r: (i64, u32, u32, u32, u32, u32))
    ensures
        1 <= r.1 <= 12,
        1 <= r.2 <= 31,
        r.3 <= 23,
        r.4 <= 59,
        r.5 <= 59,
{
    let now = chrono::Utc::now();
    (
        now.year() as i64,
        now.month(),
        now.day(),
        now.hour(),
        now.minute(),
        now.second(),
    )
}

/// The text of a timestamp: `YYYY-MM-DDTHH:MM:SSZ`, twenty bytes.
pub open spec fn ts_text(t: Timestamp) -> Seq<u8> {
    decn(t.year as nat, 4) + seq![45u8] + decn(t.month as nat, 2) + seq![45u8] + decn(
        t.day as nat,
        2,
    ) + seq![84u8] + decn(t.hour as nat, 2) + seq![58u8] + decn(t.minute as nat, 2) + seq![58u8]
        + decn(t.second as nat, 2) + seq![90u8]
}

pub proof fn lemma_ts_text_len(t: Timestamp)
    ensures
        ts_text(t).len() == 20,
{
    lemma_decn_shape(t.year as nat, 4);
    lemma_decn_shape(t.month as nat, 2);
    lemma_decn_shape(t.day as nat, 2);
    lemma_decn_shape(t.hour as nat, 2);
    lemma_decn_shape(t.minute as nat, 2);
    lemma_decn_shape(t.second as nat, 2);
}

/// Appends the twenty-byte text of a timestamp.
pub fn emit_timestamp(out: &mut Vec<u8>, t: &Timestamp)
    requires
        t.wf(),
    ensures
        final(out)@ == old(out)@ + ts_text(*t),
{
    emit_fixed(out, t.year as u64, 4);
    out.push(45);
    emit_fixed(out, t.month as u64, 2);
    out.push(45);
    emit_fixed(out, t.day as u64, 2);
    out.push(84);
    emit_fixed(out, t.hour as u64, 2);
    out.push(58);
    emit_fixed(out, t.minute as u64, 2);
    out.push(58);
    emit_fixed(out, t.second as u64, 2);
    out.push(90);
    proof {
        assert(out@ =~= old(out)@ + ts_text(*t));
    }
}

} // verus!

verus! {

/// Every byte of a timestamp text is ASCII.
pub proof fn lemma_ts_text_ascii(t: Timestamp)
    ensures
        crate::strutil::all_ascii(ts_text(t)),
{
    lemma_decn_shape(t.year as nat, 4);
    lemma_decn_shape(t.month as nat, 2);
    lemma_decn_shape(t.day as nat, 2);
    lemma_decn_shape(t.hour as nat, 2);
    lemma_decn_shape(t.minute as nat, 2);
    lemma_decn_shape(t.second as nat, 2);
    lemma_ts_text_len(t);
    assert forall|i: int| 0 <= i < ts_text(t).len() implies (#[trigger] ts_text(t)[i]) < 128 by {
        assert(crate::jsonfmt::all_digits(decn(t.year as nat, 4)));
        assert(forall|j: int|
            0 <= j < 4 ==> crate::jsonfmt::is_digit(#[trigger] decn(t.year as nat, 4)[j]));
        assert(forall|j: int|
            0 <= j < 2 ==> crate::jsonfmt::is_digit(#[trigger] decn(t.month as nat, 2)[j]));
        assert(forall|j: int|
            0 <= j < 2 ==> crate::jsonfmt::is_digit(#[trigger] decn(t.day as nat, 2)[j]));
        assert(forall|j: int|
            0 <= j < 2 ==> crate::jsonfmt::is_digit(#[trigger] decn(t.hour as nat, 2)[j]));
        assert(forall|j: int|
            0 <= j < 2 ==> crate::jsonfmt::is_digit(#[trigger] decn(t.minute as nat, 2)[j]));
        assert(forall|j: int|
            0 <= j < 2 ==> crate::jsonfmt::is_digit(#[trigger] decn(t.second as nat, 2)[j]));
    }
}

} // verus!
