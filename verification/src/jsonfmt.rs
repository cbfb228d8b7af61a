//! Byte-exact JSON text primitives: canonical decimal numbers, literal
//! tokens, and escaped strings, each with an emitter and a parser whose
//! contracts pin both what succeeds and what is produced.

use vstd::prelude::*;
use vstd::string::StrSliceExecFns;
use vstd::string::StringSliceAdditionalSpecFns;

use crate::strutil::bytes_of_str;
use crate::strutil::occurs_at;

verus! {

/// An ASCII decimal digit.
pub open spec fn is_digit(b: u8) -> bool {
    48 <= b <= 57
}

/// The canonical decimal notation of `n` (no leading zeros).
pub open spec fn dec_u64(n: nat) -> Seq<u8>
    decreases n,
{
    if n < 10 {
        seq![(48 + n) as u8]
    } else {
        dec_u64(n / 10).push((48 + n % 10) as u8)
    }
}

/// The numeric value of a digit run, most significant first.
pub open spec fn val_of(s: Seq<u8>) -> nat
    decreases s.len(),
{
    if s.len() == 0 {
        0
    } else {
        val_of(s.drop_last()) * 10 + (if s.last() >= 48 { (s.last() - 48) as nat } else { 0 })
    }
}

/// All bytes of `s` are digits.
pub open spec fn all_digits(s: Seq<u8>) -> bool {
    forall|i: int| 0 <= i < s.len() ==> is_digit(#[trigger] s[i])
}

/// A canonical decimal digit run: nonempty, digits only, no leading zero.
pub open spec fn canonical_dec(s: Seq<u8>) -> bool {
    s.len() >= 1 && all_digits(s) && (s.len() > 1 ==> s[0] != 48)
}

pub proof fn lemma_dec_u64_shape(n: nat)
    ensures
        canonical_dec(dec_u64(n)),
        val_of(dec_u64(n)) == n,
        n < 10 <==> dec_u64(n).len() == 1,
        n < 10 ==> dec_u64(n) == seq![(48 + n) as u8],
        dec_u64(n)[0] == 48 ==> n == 0,
    decreases n,
{
    if n < 10 {
        let s = dec_u64(n);
        assert(s == seq![(48 + n) as u8]);
        assert(s.len() == 1 && s.last() == (48 + n) as u8);
        assert(s.drop_last() =~= Seq::<u8>::empty());
        assert(val_of(s.drop_last()) == 0);
        assert(val_of(s) == n);
    } else {
        lemma_dec_u64_shape(n / 10);
        let s = dec_u64(n);
        let p = dec_u64(n / 10);
        assert(s == p.push((48 + n % 10) as u8));
        assert(s.drop_last() =~= p);
        assert(s.last() == (48 + n % 10) as u8);
        assert(val_of(s) == val_of(p) * 10 + n % 10);
        assert(val_of(s) == (n / 10) * 10 + n % 10);
        assert((n / 10) * 10 + n % 10 == n) by (nonlinear_arith);
        assert(s[0] == p[0]);
        assert(n / 10 >= 1);
        assert(p[0] == 48 ==> n / 10 == 0);
        assert(forall|i: int| 0 <= i < s.len() ==> is_digit(#[trigger] s[i])) by {
            assert(forall|i: int| 0 <= i < p.len() ==> is_digit(#[trigger] p[i]));
            assert(is_digit(s[s.len() - 1]));
            assert(forall|i: int| 0 <= i < p.len() ==> s[i] == p[i]);
        }
    }
}

/// A nonzero-leading digit run has a nonzero value.
proof fn lemma_val_positive(s: Seq<u8>)
    requires
        s.len() >= 1,
        all_digits(s),
        s[0] != 48,
    ensures
        val_of(s) >= 1,
    decreases s.len(),
{
    if s.len() == 1 {
        assert(val_of(s.drop_last()) == 0) by {
            assert(s.drop_last().len() == 0);
        }
    } else {
        assert(s.drop_last()[0] == s[0]);
        assert(all_digits(s.drop_last())) by {
            assert(forall|i: int|
                0 <= i < s.drop_last().len() ==> s.drop_last()[i] == #[trigger] s[i]);
        }
        lemma_val_positive(s.drop_last());
    }
}

/// The canonical digit run of a value is unique.
pub proof fn lemma_canonical_unique(s: Seq<u8>)
    requires
        canonical_dec(s),
    ensures
        s == dec_u64(val_of(s)),
    decreases s.len(),
{
    let n = val_of(s);
    let d = (s.last() - 48) as nat;
    if s.len() == 1 {
        assert(val_of(s.drop_last()) == 0) by {
            assert(s.drop_last().len() == 0);
        }
        assert(n == d && n < 10);
        assert(dec_u64(n) == seq![(48 + n) as u8]);
        assert(s =~= dec_u64(n));
    } else {
        let p = s.drop_last();
        assert(p[0] == s[0] && p.len() == s.len() - 1);
        assert(all_digits(p)) by {
            assert(forall|i: int| 0 <= i < p.len() ==> p[i] == #[trigger] s[i]);
        }
        assert(canonical_dec(p));
        lemma_val_positive(p);
        assert(n == val_of(p) * 10 + d);
        assert(n / 10 == val_of(p) && n % 10 == d) by (nonlinear_arith)
            requires
                n == val_of(p) * 10 + d,
                d < 10,
        ;
        assert(n >= 10) by (nonlinear_arith)
            requires
                val_of(p) >= 1,
                n == val_of(p) * 10 + d,
        ;
        lemma_canonical_unique(p);
        assert(dec_u64(n) == dec_u64(n / 10).push((48 + n % 10) as u8));
        assert(s =~= p.push((48 + d) as u8));
    }
}

/// Digit-run values grow along prefixes.
proof fn lemma_val_prefix_mono(s: Seq<u8>, k: int)
    requires
        0 <= k <= s.len(),
        all_digits(s),
    ensures
        val_of(s.take(k)) <= val_of(s),
    decreases s.len() - k,
{
    if k < s.len() {
        lemma_val_prefix_mono(s, k + 1);
        assert(s.take(k + 1).drop_last() =~= s.take(k));
        assert(val_of(s.take(k + 1)) == val_of(s.take(k)) * 10 + (s[k] - 48));
        assert(val_of(s.take(k)) <= val_of(s.take(k + 1))) by (nonlinear_arith)
            requires
                val_of(s.take(k + 1)) == val_of(s.take(k)) * 10 + (s[k] - 48),
                s[k] >= 48,
        ;
    } else {
        assert(s.take(k) =~= s);
    }
}

/// A sequence splits at any interior point.
pub proof fn lemma_skip_split(s: Seq<u8>, i: int, j: int)
    requires
        0 <= i <= j <= s.len(),
    ensures
        s.skip(i) == s.subrange(i, j) + s.skip(j),
{
    assert(s.skip(i) =~= s.subrange(i, j) + s.skip(j));
}

/// Concatenations with equally long heads cancel.
pub proof fn lemma_prefix_cancel(a: Seq<u8>, b: Seq<u8>, c: Seq<u8>, d: Seq<u8>)
    requires
        a + b == c + d,
        a.len() == c.len(),
    ensures
        a == c,
        b == d,
{
    assert((a + b).len() == (c + d).len());
    assert forall|i: int| 0 <= i < a.len() implies a[i] == c[i] by {
        assert((a + b)[i] == a[i]);
        assert((c + d)[i] == c[i]);
    }
    assert(a =~= c);
    assert((a + b).len() == a.len() + b.len());
    assert((c + d).len() == c.len() + d.len());
    assert(b.len() == d.len());
    assert forall|i: int| 0 <= i < b.len() implies b[i] == d[i] by {
        assert((a + b)[a.len() + i] == b[i]);
        assert((c + d)[c.len() + i] == d[i]);
    }
    assert(b =~= d);
}

/// Appends the UTF-8 bytes of a literal token.
pub fn emit_lit(out: &mut Vec<u8>, lit: &str)
    ensures
        final(out)@ == old(out)@ + lit.spec_bytes(),
{
    let b = lit.as_bytes();
    out.extend_from_slice(b);
}

/// Appends the canonical decimal notation of `n`.
pub fn emit_u64(out: &mut Vec<u8>, n: u64)
    ensures
        final(out)@ == old(out)@ + dec_u64(n as nat),
    decreases n,
{
    if n < 10 {
        out.push(48 + n as u8);
    } else {
        emit_u64(out, n / 10);
        out.push(48 + (n % 10) as u8);
    }
}

/// Consumes the literal `lit` at `pos`, or reports that it is not there.
#[verifier::loop_isolation(false)]
pub fn expect(data: &Vec<u8>, pos: usize, lit: &str) -> (r: Option<usize>)
    requires
        pos <= data@.len(),
    ensures
        r matches Some(p) ==> pos <= p <= data@.len() && p == pos + lit.spec_bytes().len()
            && data@.subrange(pos as int, p as int) == lit.spec_bytes(),
        r is None ==> !occurs_at(data@, lit.spec_bytes(), pos as int),
{
    let lb = lit.as_bytes();
    if data.len() - pos < lb.len() {
        return None;
    }
    let window = vstd::slice::slice_subrange(data.as_slice(), pos, pos + lb.len());
    if crate::strutil::bytes_eq(window, lb) {
        Some(pos + lb.len())
    } else {
        None
    }
}

/// Parses a canonical decimal `u64` at `pos`: a maximal digit run with no
/// leading zero whose value fits, with both success and failure pinned down.
#[verifier::loop_isolation(false)]
pub fn parse_u64(data: &Vec<u8>, pos: usize) -> (r: Option<(u64, usize)>)
    requires
        pos <= data@.len(),
    ensures
        r matches Some((n, p)) ==> pos < p <= data@.len()
            && data@.subrange(pos as int, p as int) == dec_u64(n as nat)
            && (p == data@.len() || !is_digit(data@[p as int])),
        forall|n: u64, rest: Seq<u8>|
            #![trigger dec_u64(n as nat) + rest]
            data@.skip(pos as int) == dec_u64(n as nat) + rest
                && (rest.len() == 0 || !is_digit(rest[0]))
                ==> (r matches Some((n2, p)) && n2 == n
                    && p == pos + dec_u64(n as nat).len()),
{
    if pos == data.len() || !(48 <= data[pos] && data[pos] <= 57) {
        proof {
            assert forall|n: u64, rest: Seq<u8>|
                #![trigger dec_u64(n as nat) + rest]
                data@.skip(pos as int) == dec_u64(n as nat) + rest implies false by {
                lemma_dec_u64_shape(n as nat);
                if pos == data@.len() {
                    assert(data@.skip(pos as int).len() == 0);
                    assert((dec_u64(n as nat) + rest).len() >= 1);
                } else {
                    assert(data@.skip(pos as int)[0] == data@[pos as int]);
                    assert((dec_u64(n as nat) + rest)[0] == dec_u64(n as nat)[0]);
                    assert(is_digit(data@[pos as int]));
                }
            }
        }
        return None;
    }
    let mut i: usize = pos;
    let mut acc: u64 = 0;
    while i < data.len() && 48 <= data[i] && data[i] <= 57
        invariant
            pos <= i <= data@.len(),
            all_digits(data@.subrange(pos as int, i as int)),
            acc as nat == val_of(data@.subrange(pos as int, i as int)),
            i > pos ==> (data@[pos as int] == 48 ==> i == pos + 1),
        decreases data@.len() - i,
    {
        let d = data[i] - 48;
        if i > pos && data[pos] == 48 {
            // a leading zero admits no further digits
            proof {
                lemma_not_canonical_here(data@, pos as int, i as int);
            }
            return None;
        }
        if acc > (u64::MAX - (d as u64)) / 10 {
            proof {
                lemma_overflow_exit(data@, pos as int, i as int, acc, d);
            }
            return None;
        }
        acc = acc * 10 + (d as u64);
        proof {
            assert(data@.subrange(pos as int, i + 1).drop_last()
                =~= data@.subrange(pos as int, i as int));
        }
        i += 1;
    }
    proof {
        let run = data@.subrange(pos as int, i as int);
        assert(canonical_dec(run));
        lemma_canonical_unique(run);
        assert forall|n: u64, rest: Seq<u8>|
            data@.skip(pos as int) == dec_u64(n as nat) + rest
                && (rest.len() == 0 || !is_digit(rest[0])) implies acc == n
                && i == pos + dec_u64(n as nat).len() by {
            lemma_dec_u64_shape(n as nat);
            lemma_run_is_dec(data@, pos as int, i as int, n as nat, rest);
        }
    }
    Some((acc, i))
}

/// At an overflowing accumulator the run's value exceeds `u64::MAX`, so no
/// in-range decimal can stand here.
proof fn lemma_overflow_exit(data: Seq<u8>, pos: int, i: int, acc: u64, d: u8)
    requires
        0 <= pos <= i < data.len(),
        all_digits(data.subrange(pos, i)),
        is_digit(data[i]),
        d == data[i] - 48,
        acc as nat == val_of(data.subrange(pos, i)),
        acc > (u64::MAX as int - d as int) / 10,
    ensures
        forall|n: u64, rest: Seq<u8>|
            #![trigger dec_u64(n as nat) + rest]
            !(data.skip(pos) == dec_u64(n as nat) + rest
                && (rest.len() == 0 || !is_digit(rest[0]))),
{
    assert forall|n: u64, rest: Seq<u8>|
        data.skip(pos) == dec_u64(n as nat) + rest
            && (rest.len() == 0 || !is_digit(rest[0])) implies false by {
        lemma_dec_u64_shape(n as nat);
        let dn = dec_u64(n as nat);
        // the run through position i is a prefix of dn
        lemma_digit_region(data, pos, i + 1, n as nat, rest);
        let ext = data.subrange(pos, i + 1);
        assert(ext.drop_last() =~= data.subrange(pos, i));
        assert(val_of(ext) == acc * 10 + d);
        assert(val_of(dn.take(i + 1 - pos)) == val_of(ext)) by {
            assert(dn.take(i + 1 - pos) =~= ext);
        }
        lemma_val_prefix_mono(dn, i + 1 - pos);
        assert(acc * 10 + d <= n as nat);
        assert(acc as int * 10 + d as int > u64::MAX as int) by (nonlinear_arith)
            requires
                acc as int > (u64::MAX as int - d as int) / 10,
                0 <= d as int <= 9,
                0 <= acc as int,
        ;
    }
}

/// If the input from `pos` is `dec(n) + rest` with `rest` not starting with
/// a digit, then positions `pos..pos+e` are digits only while `e <= |dec(n)|`.
proof fn lemma_digit_region(data: Seq<u8>, pos: int, e: int, n: nat, rest: Seq<u8>)
    requires
        0 <= pos <= e <= data.len(),
        data.skip(pos) == dec_u64(n) + rest,
        rest.len() == 0 || !is_digit(rest[0]),
        all_digits(data.subrange(pos, e)),
    ensures
        e - pos <= dec_u64(n).len(),
        data.subrange(pos, e) == dec_u64(n).take(e - pos),
{
    lemma_dec_u64_shape(n);
    let dn = dec_u64(n);
    if e - pos > dn.len() {
        // then data[pos + dn.len()] is a digit but equals rest[0]
        assert(data.subrange(pos, e)[dn.len() as int] == data[pos + dn.len()]);
        assert(is_digit(data[pos + dn.len()]));
        assert(data.skip(pos)[dn.len() as int] == rest[0]);
        assert(data[pos + dn.len()] == rest[0]);
    }
    assert(data.subrange(pos, e) =~= dn.take(e - pos)) by {
        assert(forall|j: int|
            0 <= j < e - pos ==> data.subrange(pos, e)[j] == data.skip(pos)[j]
                && (dec_u64(n) + rest)[j] == dn.take(e - pos)[j]);
    }
}

/// A maximal canonical digit run at `pos` is exactly `dec(n)` when the input
/// there reads `dec(n) + rest` with a non-digit border.
proof fn lemma_run_is_dec(data: Seq<u8>, pos: int, i: int, n: nat, rest: Seq<u8>)
    requires
        0 <= pos < i <= data.len(),
        data.skip(pos) == dec_u64(n) + rest,
        rest.len() == 0 || !is_digit(rest[0]),
        all_digits(data.subrange(pos, i)),
        i == data.len() || !is_digit(data[i]),
    ensures
        data.subrange(pos, i) == dec_u64(n),
        val_of(data.subrange(pos, i)) == n,
        i == pos + dec_u64(n).len(),
{
    lemma_dec_u64_shape(n);
    let dn = dec_u64(n);
    lemma_digit_region(data, pos, i, n, rest);
    if i - pos < dn.len() {
        // the byte after the run is still inside dec(n), hence a digit
        assert(data.skip(pos)[i - pos] == (dn + rest)[i - pos]);
        assert(data[i] == dn[i - pos]);
        assert(is_digit(dn[i - pos]));
        assert(i < data.len());
    }
    assert(i - pos == dn.len());
    assert(dn.take(i - pos) =~= dn);
}

/// A digit run that continues past a leading zero is not canonical, so no
/// decimal notation can stand at `pos`.
proof fn lemma_not_canonical_here(data: Seq<u8>, pos: int, i: int)
    requires
        0 <= pos < i < data.len(),
        data[pos] == 48,
        i > pos,
        is_digit(data[i]),
        all_digits(data.subrange(pos, i)),
    ensures
        forall|n: u64, rest: Seq<u8>|
            #![trigger dec_u64(n as nat) + rest]
            !(data.skip(pos) == dec_u64(n as nat) + rest
                && (rest.len() == 0 || !is_digit(rest[0]))),
{
    assert forall|n: u64, rest: Seq<u8>|
        data.skip(pos) == dec_u64(n as nat) + rest
            && (rest.len() == 0 || !is_digit(rest[0])) implies false by {
        lemma_dec_u64_shape(n as nat);
        let dn = dec_u64(n as nat);
        assert(data.skip(pos)[0] == dn[0]);
        assert(data[pos] == dn[0]);
        assert(n == 0);
        assert(dn.len() == 1);
        assert(data.skip(pos)[1] == rest[0]);
        assert(data[pos + 1] == rest[0]);
        if i == pos + 1 {
            assert(is_digit(data[i]));
        } else {
            assert(data.subrange(pos, i)[1] == data[pos + 1]);
            assert(is_digit(data[pos + 1]));
        }
    }
}

} // verus!

// === JSON strings ==========================================================

verus! {

/// Lowercase hex digit for a value below 16.
pub open spec fn hex_digit(v: u8) -> u8 {
    if v < 10 {
        (48 + v) as u8
    } else {
        (87 + v) as u8
    }
}

/// A lowercase hex digit byte.
pub open spec fn is_hex_lower(b: u8) -> bool {
    is_digit(b) || 97 <= b <= 102
}

/// The value of a lowercase hex digit byte.
pub open spec fn hex_val(b: u8) -> u8 {
    if 97 <= b {
        (b - 87) as u8
    } else if 48 <= b {
        (b - 48) as u8
    } else {
        0
    }
}

/// The JSON escape of one byte of string content: quote and backslash get a
/// two-byte escape, control bytes a `\u00xx` escape, everything else stands
/// as itself.
pub open spec fn esc_byte(b: u8) -> Seq<u8> {
    if b == 34 {
        seq![92u8, 34u8]
    } else if b == 92 {
        seq![92u8, 92u8]
    } else if b < 32 {
        seq![92u8, 117u8, 48u8, 48u8, hex_digit(b / 16), hex_digit(b % 16)]
    } else {
        seq![b]
    }
}

/// The escaped form of a byte sequence.
pub open spec fn escape_bytes(s: Seq<u8>) -> Seq<u8>
    decreases s.len(),
{
    if s.len() == 0 {
        Seq::empty()
    } else {
        esc_byte(s[0]) + escape_bytes(s.skip(1))
    }
}

/// The JSON text of a string value: quoted, with its content escaped.
pub open spec fn jstr(s: Seq<char>) -> Seq<u8> {
    seq![34u8] + escape_bytes(bytes_of_str(s)) + seq![34u8]
}

pub proof fn lemma_escape_cons(s: Seq<u8>)
    requires
        s.len() >= 1,
    ensures
        escape_bytes(s) == esc_byte(s[0]) + escape_bytes(s.skip(1)),
{
}

/// Escaping distributes over appending one byte.
pub proof fn lemma_escape_snoc(s: Seq<u8>, x: u8)
    ensures
        escape_bytes(s.push(x)) == escape_bytes(s) + esc_byte(x),
    decreases s.len(),
{
    if s.len() == 0 {
        assert(s.push(x).len() == 1);
        assert(s.push(x)[0] == x);
        assert(s.push(x).skip(1).len() == 0);
        assert(escape_bytes(s.push(x).skip(1)) == Seq::<u8>::empty());
        assert(escape_bytes(s.push(x)) == esc_byte(x) + Seq::<u8>::empty());
        assert(esc_byte(x) + Seq::<u8>::empty() =~= esc_byte(x));
        assert(escape_bytes(s) == Seq::<u8>::empty());
        assert(Seq::<u8>::empty() + esc_byte(x) =~= esc_byte(x));
    } else {
        assert(s.push(x).skip(1) =~= s.skip(1).push(x));
        lemma_escape_snoc(s.skip(1), x);
        assert(s.push(x)[0] == s[0]);
        assert(escape_bytes(s.push(x)) == esc_byte(s[0]) + (escape_bytes(s.skip(1))
            + esc_byte(x)));
        assert(esc_byte(s[0]) + (escape_bytes(s.skip(1)) + esc_byte(x)) =~= (esc_byte(s[0])
            + escape_bytes(s.skip(1))) + esc_byte(x));
    }
}

/// Takes compose through a split point.
pub proof fn lemma_take_compose(s: Seq<u8>, k: int, m: int)
    requires
        0 <= k,
        0 <= m,
        k + m <= s.len(),
    ensures
        s.take(k + m) == s.take(k) + s.skip(k).take(m),
{
    assert(s.take(k + m) =~= s.take(k) + s.skip(k).take(m));
}

/// Result of unescaping a quoted-string body: the raw content bytes and how
/// many body bytes were consumed, the closing quote included.
pub open spec fn unescape(body: Seq<u8>) -> Option<(Seq<u8>, int)>
    decreases body.len(),
{
    if body.len() == 0 {
        None
    } else if body[0] == 34 {
        Some((Seq::empty(), 1))
    } else if body[0] == 92 {
        if body.len() >= 2 && (body[1] == 34 || body[1] == 92) {
            match unescape(body.skip(2)) {
                Some(t) => Some((seq![body[1]] + t.0, 2 + t.1)),
                None => None,
            }
        } else if body.len() >= 6 && body[1] == 117 && body[2] == 48 && body[3] == 48
            && is_hex_lower(body[4]) && is_hex_lower(body[5])
            && hex_val(body[4]) * 16 + hex_val(body[5]) < 32 {
            match unescape(body.skip(6)) {
                Some(t) => Some(
                    (seq![(hex_val(body[4]) * 16 + hex_val(body[5])) as u8] + t.0, 6 + t.1),
                ),
                None => None,
            }
        } else {
            None
        }
    } else if body[0] >= 32 {
        match unescape(body.skip(1)) {
            Some(t) => Some((seq![body[0]] + t.0, 1 + t.1)),
            None => None,
        }
    } else {
        None
    }
}

/// Whatever unescaping accepts is the escape of its result, quote included.
pub proof fn lemma_unescape_sound(body: Seq<u8>)
    ensures
        unescape(body) matches Some(t) ==> 1 <= t.1 <= body.len() && body.take(t.1)
            == escape_bytes(t.0) + seq![34u8],
    decreases body.len(),
{
    if body.len() == 0 {
    } else if body[0] == 34 {
        assert(body.take(1) =~= seq![34u8]);
        assert(escape_bytes(Seq::empty()) + seq![34u8] =~= seq![34u8]);
    } else if body[0] == 92 {
        if body.len() >= 2 && (body[1] == 34 || body[1] == 92) {
            lemma_unescape_sound(body.skip(2));
            if let Some(t2) = unescape(body.skip(2)) {
                let b0 = seq![body[1]] + t2.0;
                lemma_take_compose(body, 2, t2.1);
                assert(body.skip(2).take(t2.1) == escape_bytes(t2.0) + seq![34u8]);
                assert(b0[0] == body[1] && b0.skip(1) =~= t2.0);
                lemma_escape_cons(b0);
                assert(esc_byte(body[1]) =~= body.take(2));
                assert(body.take(2) + (escape_bytes(t2.0) + seq![34u8]) =~= (body.take(2)
                    + escape_bytes(t2.0)) + seq![34u8]);
            }
        } else if body.len() >= 6 && body[1] == 117 && body[2] == 48 && body[3] == 48
            && is_hex_lower(body[4]) && is_hex_lower(body[5])
            && hex_val(body[4]) * 16 + hex_val(body[5]) < 32 {
            lemma_unescape_sound(body.skip(6));
            if let Some(t2) = unescape(body.skip(6)) {
                let v = (hex_val(body[4]) * 16 + hex_val(body[5])) as u8;
                let b0 = seq![v] + t2.0;
                lemma_take_compose(body, 6, t2.1);
                assert(b0[0] == v && b0.skip(1) =~= t2.0);
                lemma_escape_cons(b0);
                assert(hex_digit(v / 16) == body[4] && hex_digit(v % 16) == body[5]) by {
                    lemma_hex_split(body[4], body[5]);
                }
                assert(esc_byte(v) =~= body.take(6));
                assert(body.take(6) + (escape_bytes(t2.0) + seq![34u8]) =~= (body.take(6)
                    + escape_bytes(t2.0)) + seq![34u8]);
            }
        }
    } else if body[0] >= 32 {
        lemma_unescape_sound(body.skip(1));
        if let Some(t2) = unescape(body.skip(1)) {
            let b0 = seq![body[0]] + t2.0;
            lemma_take_compose(body, 1, t2.1);
            assert(b0[0] == body[0] && b0.skip(1) =~= t2.0);
            lemma_escape_cons(b0);
            assert(esc_byte(body[0]) =~= body.take(1));
            assert(body.take(1) + (escape_bytes(t2.0) + seq![34u8]) =~= (body.take(1)
                + escape_bytes(t2.0)) + seq![34u8]);
        }
    }
}

/// Recombining two canonical hex digits selects them back.
proof fn lemma_hex_split(h: u8, l: u8)
    requires
        is_hex_lower(h),
        is_hex_lower(l),
        hex_val(h) * 16 + hex_val(l) < 32,
    ensures
        hex_digit(((hex_val(h) * 16 + hex_val(l)) as u8) / 16) == h,
        hex_digit(((hex_val(h) * 16 + hex_val(l)) as u8) % 16) == l,
        hex_val(h) < 16 && hex_val(l) < 16,
{
}

/// Unescaping accepts every escaped body and recovers the content exactly.
pub proof fn lemma_unescape_escape(b: Seq<u8>, rest: Seq<u8>)
    ensures
        unescape(escape_bytes(b) + seq![34u8] + rest) matches Some(t) && t.0 == b && t.1
            == escape_bytes(b).len() + 1,
    decreases b.len(),
{
    let body = escape_bytes(b) + seq![34u8] + rest;
    if b.len() == 0 {
        assert(body[0] == 34);
        assert(unescape(body) == Some((Seq::<u8>::empty(), 1int)));
        assert(b =~= Seq::<u8>::empty());
    } else {
        lemma_escape_cons(b);
        let e0 = esc_byte(b[0]);
        let tail = escape_bytes(b.skip(1)) + seq![34u8] + rest;
        assert(body =~= e0 + tail);
        assert(forall|j: int| 0 <= j < e0.len() ==> body[j] == #[trigger] e0[j]);
        assert(body.skip(e0.len() as int) =~= tail);
        lemma_unescape_escape(b.skip(1), rest);
        if b[0] == 34 {
            assert(body[0] == 92 && body[1] == 34);
            assert(body.skip(2) =~= tail);
            assert(seq![body[1]] + b.skip(1) =~= b);
        } else if b[0] == 92 {
            assert(body[0] == 92 && body[1] == 92);
            assert(body.skip(2) =~= tail);
            assert(seq![body[1]] + b.skip(1) =~= b);
        } else if b[0] < 32 {
            assert(body[0] == 92 && body[1] == 117 && body[2] == 48 && body[3] == 48);
            assert(body[4] == hex_digit(b[0] / 16) && body[5] == hex_digit(b[0] % 16));
            lemma_hex_digit_canonical(b[0] / 16);
            lemma_hex_digit_canonical(b[0] % 16);
            assert(hex_val(body[4]) == b[0] / 16 && hex_val(body[5]) == b[0] % 16);
            assert(hex_val(body[4]) * 16 + hex_val(body[5]) == b[0]);
            assert(body.skip(6) =~= tail);
            assert(seq![(hex_val(body[4]) * 16 + hex_val(body[5])) as u8] + b.skip(1) =~= b);
        } else {
            assert(body[0] == b[0]);
            assert(body[0] != 34 && body[0] != 92 && body[0] >= 32);
            assert(body.skip(1) =~= tail);
            assert(seq![body[0]] + b.skip(1) =~= b);
        }
    }
}

/// A hex digit emitted for a value below 16 is lowercase-canonical and maps
/// back to the value.
pub proof fn lemma_hex_digit_canonical(v: u8)
    requires
        v < 16,
    ensures
        is_hex_lower(hex_digit(v)),
        hex_val(hex_digit(v)) == v,
{
}

/// Appends the JSON text of a string value.
#[verifier::loop_isolation(false)]
pub fn emit_jstr(out: &mut Vec<u8>, s: &str)
    ensures
        final(out)@ == old(out)@ + jstr(s@),
{
    out.push(34);
    let b = s.as_bytes();
    let mut i: usize = 0;
    proof {
        assert(b@.take(0) =~= Seq::<u8>::empty());
        assert(out@ =~= old(out)@ + seq![34u8] + escape_bytes(b@.take(0)));
    }
    while i < b.len()
        invariant
            i <= b@.len(),
            out@ == old(out)@ + seq![34u8] + escape_bytes(b@.take(i as int)),
        decreases b@.len() - i,
    {
        let x = b[i];
        if x == 34 {
            out.push(92);
            out.push(34);
        } else if x == 92 {
            out.push(92);
            out.push(92);
        } else if x < 32 {
            out.push(92);
            out.push(117);
            out.push(48);
            out.push(48);
            let h = x / 16;
            let l = x % 16;
            out.push(if h < 10 { 48 + h } else { 87 + h });
            out.push(if l < 10 { 48 + l } else { 87 + l });
        } else {
            out.push(x);
        }
        proof {
            lemma_escape_snoc(b@.take(i as int), b@[i as int]);
            assert(b@.take(i + 1) =~= b@.take(i as int).push(b@[i as int]));
            assert(out@ =~= old(out)@ + seq![34u8] + escape_bytes(b@.take(i + 1)));
        }
        i += 1;
    }
    out.push(34);
    proof {
        assert(b@.take(b@.len() as int) =~= b@);
        assert(old(out)@ + seq![34u8] + escape_bytes(b@) + seq![34u8] =~= old(out)@ + (seq![34u8]
            + escape_bytes(b@) + seq![34u8]));
        assert(out@ =~= old(out)@ + jstr(s@));
    }
}

/// Shifts an unescape outcome by an already-consumed prefix.
pub open spec fn unescape_shift(
    o: Option<(Seq<u8>, int)>,
    buf: Seq<u8>,
    off: int,
) -> Option<(Seq<u8>, int)> {
    match o {
        Some(t) => Some((buf + t.0, off + t.1)),
        None => None,
    }
}

/// The head shape of a JSON string text with a continuation.
pub proof fn lemma_jstr_head(s0: Seq<char>, rest: Seq<u8>)
    ensures
        (jstr(s0) + rest).len() >= 2,
        (jstr(s0) + rest)[0] == 34,
        (jstr(s0) + rest).skip(1) == escape_bytes(bytes_of_str(s0)) + seq![34u8] + rest,
        jstr(s0).len() == escape_bytes(bytes_of_str(s0)).len() + 2,
{
    let e = escape_bytes(bytes_of_str(s0));
    assert(jstr(s0) + rest =~= seq![34u8] + (e + seq![34u8] + rest));
    assert((jstr(s0) + rest)[0] == 34);
    assert((jstr(s0) + rest).skip(1) =~= e + seq![34u8] + rest);
}

/// Parses a JSON string at `pos`: both directions of the contract are
/// pinned: what is produced matches the consumed bytes exactly, and any
/// canonical string text standing at `pos` is accepted.
#[verifier::loop_isolation(false)]
pub fn parse_string(data: &Vec<u8>, pos: usize) -> (r: Option<(String, usize)>)
    requires
        pos <= data@.len(),
    ensures
        r matches Some((s, p)) ==> pos < p <= data@.len() && data@.subrange(pos as int, p as int)
            == jstr(s@),
        forall|s0: Seq<char>, rest: Seq<u8>|
            #![trigger jstr(s0) + rest]
            data@.skip(pos as int) == jstr(s0) + rest ==> (r matches Some((s, p)) && s@ == s0 && p
                == pos + jstr(s0).len()),
{
    if pos == data.len() || data[pos] != 34 {
        proof {
            assert forall|s0: Seq<char>, rest: Seq<u8>|
                data@.skip(pos as int) == jstr(s0) + rest implies false by {
                lemma_jstr_head(s0, rest);
                assert(data@.skip(pos as int)[0] == data@[pos as int]);
            }
        }
        return None;
    }
    let ghost gstart = pos as int + 1;
    proof {
        assert forall|s0: Seq<char>, rest: Seq<u8>|
            #![trigger jstr(s0) + rest]
            data@.skip(pos as int) == jstr(s0) + rest implies data@.skip(gstart)
            == escape_bytes(bytes_of_str(s0)) + seq![34u8] + rest by {
            lemma_jstr_head(s0, rest);
            assert(data@.skip(gstart) =~= data@.skip(pos as int).skip(1));
        }
    }
    let start = pos + 1;
    let mut cur = start;
    let mut buf: Vec<u8> = Vec::new();
    loop
        invariant
            pos as int + 1 == gstart,
            start == gstart,
            start <= cur <= data@.len(),
            pos < data@.len() && data@[pos as int] == 34,
            unescape(data@.skip(gstart)) == unescape_shift(
                unescape(data@.skip(cur as int)),
                buf@,
                cur - gstart,
            ),
        decreases data@.len() - cur,
    {
        if cur == data.len() {
            proof {
                assert(data@.skip(cur as int).len() == 0);
                assert(unescape(data@.skip(gstart)) is None);
                assert forall|s0: Seq<char>, rest: Seq<u8>|
                    data@.skip(pos as int) == jstr(s0) + rest implies false by {
                    lemma_unescape_escape(bytes_of_str(s0), rest);
                }
            }
            return None;
        }
        let x = data[cur];
        if x == 34 {
            proof {
                assert(data@.skip(cur as int)[0] == 34);
                assert(unescape(data@.skip(cur as int)) == Some((Seq::<u8>::empty(), 1int)));
                assert(buf@ + Seq::<u8>::empty() =~= buf@);
                assert(unescape(data@.skip(gstart)) == Some((buf@, cur - gstart + 1)));
                lemma_unescape_sound(data@.skip(gstart));
                assert(data@.skip(gstart).take(cur - gstart + 1) =~= data@.subrange(
                    gstart,
                    cur + 1,
                ));
            }
            let end = cur + 1;
            let ghost gbuf = buf@;
            let parsed = crate::strutil::string_from_utf8(buf);
            match parsed {
                Some(s) => {
                    proof {
                        assert(data@.subrange(gstart, end as int) == escape_bytes(gbuf)
                            + seq![34u8]);
                        assert(bytes_of_str(s@) == gbuf);
                        assert(data@.subrange(pos as int, end as int) =~= seq![34u8]
                            + data@.subrange(gstart, end as int));
                        assert(seq![34u8] + (escape_bytes(gbuf) + seq![34u8]) =~= jstr(s@));
                        assert forall|s0: Seq<char>, rest: Seq<u8>|
                            data@.skip(pos as int) == jstr(s0) + rest implies s@ == s0 && end
                            == pos + jstr(s0).len() by {
                            lemma_unescape_escape(bytes_of_str(s0), rest);
                            lemma_jstr_head(s0, rest);
                            assert(gbuf == bytes_of_str(s0));
                            crate::strutil::lemma_encode_utf8_injective(s@, s0);
                        }
                    }
                    return Some((s, end));
                },
                None => {
                    proof {
                        assert forall|s0: Seq<char>, rest: Seq<u8>|
                            data@.skip(pos as int) == jstr(s0) + rest implies false by {
                            lemma_unescape_escape(bytes_of_str(s0), rest);
                            assert(gbuf == bytes_of_str(s0));
                            vstd::utf8::encode_utf8_valid_utf8(s0);
                        }
                    }
                    return None;
                },
            }
        } else if x == 92 {
            if data.len() - cur < 2 {
                proof {
                    assert(data@.skip(cur as int).len() < 2);
                    assert(unescape(data@.skip(cur as int)) is None);
                    assert forall|s0: Seq<char>, rest: Seq<u8>|
                        data@.skip(pos as int) == jstr(s0) + rest implies false by {
                        lemma_unescape_escape(bytes_of_str(s0), rest);
                    }
                }
                return None;
            }
            let y = data[cur + 1];
            if y == 34 || y == 92 {
                let ghost obuf = buf@;
                buf.push(y);
                proof {
                    let rem = data@.skip(cur as int);
                    assert(rem[0] == 92 && rem[1] == y);
                    assert(rem.skip(2) =~= data@.skip(cur + 2));
                    assert(buf@.take(buf@.len() - 1) =~= obuf);
                    assert(buf@ =~= buf@.take(buf@.len() - 1) + seq![y]);
                    lemma_shift_step(data@, gstart, cur as int, buf@, seq![y], 2);
                }
                cur = cur + 2;
            } else if y == 117 {
                if data.len() - cur < 6 {
                    proof {
                        assert(data@.skip(cur as int).len() < 6);
                        assert(unescape(data@.skip(cur as int)) is None);
                        assert forall|s0: Seq<char>, rest: Seq<u8>|
                            data@.skip(pos as int) == jstr(s0) + rest implies false by {
                            lemma_unescape_escape(bytes_of_str(s0), rest);
                        }
                    }
                    return None;
                }
                let z2 = data[cur + 2];
                let z3 = data[cur + 3];
                let h4 = data[cur + 4];
                let h5 = data[cur + 5];
                let hex4 = (48 <= h4 && h4 <= 57) || (97 <= h4 && h4 <= 102);
                let hex5 = (48 <= h5 && h5 <= 57) || (97 <= h5 && h5 <= 102);
                if z2 == 48 && z3 == 48 && hex4 && hex5 {
                    let v4 = if h4 >= 97 { h4 - 87 } else { h4 - 48 };
                    let v5 = if h5 >= 97 { h5 - 87 } else { h5 - 48 };
                    let v = v4 * 16 + v5;
                    if v < 32 {
                        let ghost obuf = buf@;
                        buf.push(v);
                        proof {
                            let rem = data@.skip(cur as int);
                            assert(rem[0] == 92 && rem[1] == 117 && rem[2] == 48 && rem[3] == 48);
                            assert(rem[4] == h4 && rem[5] == h5);
                            assert(rem.skip(6) =~= data@.skip(cur + 6));
                            assert(v == hex_val(rem[4]) * 16 + hex_val(rem[5]));
                            assert(buf@.take(buf@.len() - 1) =~= obuf);
                            assert(buf@ =~= buf@.take(buf@.len() - 1) + seq![v]);
                            lemma_shift_step(data@, gstart, cur as int, buf@, seq![v], 6);
                        }
                        cur = cur + 6;
                    } else {
                        proof {
                            let rem = data@.skip(cur as int);
                            assert(rem[4] == h4 && rem[5] == h5);
                            assert(hex_val(rem[4]) * 16 + hex_val(rem[5]) >= 32);
                            assert(unescape(rem) is None);
                            assert forall|s0: Seq<char>, rest: Seq<u8>|
                                data@.skip(pos as int) == jstr(s0) + rest implies false by {
                                lemma_unescape_escape(bytes_of_str(s0), rest);
                            }
                        }
                        return None;
                    }
                } else {
                    proof {
                        let rem = data@.skip(cur as int);
                        assert(rem[2] == z2 && rem[3] == z3 && rem[4] == h4 && rem[5] == h5);
                        assert(unescape(rem) is None);
                        assert forall|s0: Seq<char>, rest: Seq<u8>|
                            data@.skip(pos as int) == jstr(s0) + rest implies false by {
                            lemma_unescape_escape(bytes_of_str(s0), rest);
                        }
                    }
                    return None;
                }
            } else {
                proof {
                    let rem = data@.skip(cur as int);
                    assert(rem[0] == 92 && rem[1] == y);
                    assert(unescape(rem) is None);
                    assert forall|s0: Seq<char>, rest: Seq<u8>|
                        data@.skip(pos as int) == jstr(s0) + rest implies false by {
                        lemma_unescape_escape(bytes_of_str(s0), rest);
                    }
                }
                return None;
            }
        } else if x >= 32 {
            let ghost obuf = buf@;
            buf.push(x);
            proof {
                let rem = data@.skip(cur as int);
                assert(rem[0] == x);
                assert(rem.skip(1) =~= data@.skip(cur + 1));
                assert(buf@.take(buf@.len() - 1) =~= obuf);
                assert(buf@ =~= buf@.take(buf@.len() - 1) + seq![x]);
                lemma_shift_step(data@, gstart, cur as int, buf@, seq![x], 1);
            }
            cur = cur + 1;
        } else {
            proof {
                let rem = data@.skip(cur as int);
                assert(rem[0] == x);
                assert(unescape(rem) is None);
                assert forall|s0: Seq<char>, rest: Seq<u8>|
                    data@.skip(pos as int) == jstr(s0) + rest implies false by {
                    lemma_unescape_escape(bytes_of_str(s0), rest);
                }
            }
            return None;
        }
    }
}

/// One peeled unescape constructor carries the shifted-outcome relation one
/// step forward.
proof fn lemma_shift_step(
    data: Seq<u8>,
    gstart: int,
    cur: int,
    newbuf: Seq<u8>,
    piece: Seq<u8>,
    width: int,
)
    requires
        0 <= gstart <= cur,
        cur + width <= data.len(),
        piece.len() == 1,
        newbuf.len() >= 1,
        newbuf == newbuf.take(newbuf.len() - 1) + piece,
        unescape(data.skip(cur)) == unescape_shift(
            unescape(data.skip(cur + width)),
            piece,
            width,
        ),
        unescape(data.skip(gstart)) == unescape_shift(
            unescape(data.skip(cur)),
            newbuf.take(newbuf.len() - 1),
            cur - gstart,
        ),
    ensures
        unescape(data.skip(gstart)) == unescape_shift(
            unescape(data.skip(cur + width)),
            newbuf,
            cur + width - gstart,
        ),
{
    let obuf = newbuf.take(newbuf.len() - 1);
    match unescape(data.skip(cur + width)) {
        Some(t) => {
            assert(unescape(data.skip(cur)) == Some((piece + t.0, width + t.1)));
            assert(unescape(data.skip(gstart)) == Some(
                (obuf + (piece + t.0), cur - gstart + width + t.1),
            ));
            assert(obuf + (piece + t.0) =~= (obuf + piece) + t.0);
            assert(obuf + piece =~= newbuf);
        },
        None => {},
    }
}

} // verus!

// === Single-byte tokens and ASCII literal support ==========================

verus! {

/// Consumes exactly the byte `b` at `pos`; success and failure are exact.
pub fn expect_byte(data: &Vec<u8>, pos: usize, b: u8) -> (r: Option<usize>)
    requires
        pos <= data@.len(),
    ensures
        r matches Some(p) ==> p == pos + 1 && pos < data@.len() && data@[pos as int] == b,
        r is None ==> pos == data@.len() || data@[pos as int] != b,
{
    if pos < data.len() && data[pos] == b {
        Some(pos + 1)
    } else {
        None
    }
}

/// The bytes of an ASCII string are its characters, one byte each.
pub proof fn lemma_str_bytes_ascii(s: &str)
    requires
        vstd::utf8::is_ascii_chars(s@),
    ensures
        s.spec_bytes().len() == s@.len(),
        forall|i: int| 0 <= i < s@.len() ==> s.spec_bytes()[i] == (s@[i] as u8),
{
    vstd::string::is_ascii_spec_bytes(s);
    assert(s.spec_bytes() =~= Seq::new(s@.len(), |i: int| s@.index(i) as u8));
}

} // verus!

// === Composite parsing support =============================================

verus! {

/// Subranges compose through an interior point.
pub proof fn lemma_subrange_compose(s: Seq<u8>, a: int, b: int, c: int)
    requires
        0 <= a <= b <= c <= s.len(),
    ensures
        s.subrange(a, c) == s.subrange(a, b) + s.subrange(b, c),
{
    assert(s.subrange(a, c) =~= s.subrange(a, b) + s.subrange(b, c));
}

/// Concatenation is associative.
pub proof fn lemma_add_assoc(a: Seq<u8>, b: Seq<u8>, c: Seq<u8>)
    ensures
        (a + b) + c == a + (b + c),
{
    assert((a + b) + c =~= a + (b + c));
}

/// Consuming a known prefix advances the remaining input.
pub proof fn lemma_consume(data: Seq<u8>, cur: int, next: int, a: Seq<u8>, tail: Seq<u8>)
    requires
        0 <= cur <= next <= data.len(),
        data.skip(cur) == a + tail,
        data.subrange(cur, next) == a,
    ensures
        data.skip(next) == tail,
{
    lemma_skip_split(data, cur, next);
    lemma_prefix_cancel(data.subrange(cur, next), data.skip(next), a, tail);
}

} // verus!

// === Arrays of byte-sized numbers ==========================================

verus! {

/// The JSON text of the numbers `s[k..]`, comma-separated.
pub open spec fn nums_json(s: Seq<u8>, k: int) -> Seq<u8>
    decreases s.len() - k,
{
    if k < 0 || k >= s.len() {
        Seq::empty()
    } else {
        dec_u64(s[k] as nat) + (if k + 1 < s.len() {
            seq![44u8] + nums_json(s, k + 1)
        } else {
            Seq::empty()
        })
    }
}

/// The emitted prefix of a number list: a trailing separator stands when
/// more numbers follow.
pub open spec fn nums_partial(s: Seq<u8>, more: bool) -> Seq<u8> {
    nums_json(s, 0) + (if more && s.len() > 0 {
        seq![44u8]
    } else {
        Seq::empty()
    })
}

pub proof fn lemma_nums_snoc(s: Seq<u8>, k: int)
    requires
        0 <= k < s.len(),
    ensures
        nums_json(s.take(k + 1), 0) == nums_json(s.take(k), 0) + (if k > 0 {
            seq![44u8]
        } else {
            Seq::<u8>::empty()
        }) + dec_u64(s[k] as nat),
{
    lemma_nums_snoc_at(s, k, 0);
}

proof fn lemma_nums_snoc_at(s: Seq<u8>, k: int, j: int)
    requires
        0 <= j <= k < s.len(),
    ensures
        nums_json(s.take(k + 1), j) == nums_json(s.take(k), j) + (if k > j {
            seq![44u8]
        } else {
            Seq::<u8>::empty()
        }) + dec_u64(s[k] as nat),
    decreases k - j,
{
    let a = s.take(k + 1);
    let b = s.take(k);
    assert(a[j] == s[j] && a.len() == k + 1 && b.len() == k);
    if j == k {
        assert(nums_json(b, j) =~= Seq::<u8>::empty());
        assert(nums_json(a, j) == dec_u64(a[j] as nat) + Seq::<u8>::empty());
        assert(nums_json(a, j) =~= nums_json(b, j) + Seq::<u8>::empty() + dec_u64(s[k] as nat));
    } else {
        lemma_nums_snoc_at(s, k, j + 1);
        assert(b[j] == s[j]);
        assert(nums_json(a, j) == dec_u64(s[j] as nat) + (seq![44u8] + nums_json(a, j + 1)));
        assert(nums_json(b, j) == dec_u64(s[j] as nat) + (if j + 1 < k {
            seq![44u8] + nums_json(b, j + 1)
        } else {
            Seq::<u8>::empty()
        }));
        if j + 1 < k {
            assert(nums_json(a, j) =~= nums_json(b, j) + seq![44u8] + dec_u64(s[k] as nat));
        } else {
            assert(nums_json(b, j + 1) =~= Seq::<u8>::empty());
            assert(nums_json(a, j) =~= nums_json(b, j) + seq![44u8] + dec_u64(s[k] as nat));
        }
    }
}

/// Appends the comma-separated decimal list of the given bytes.
#[verifier::loop_isolation(false)]
pub fn emit_byte_nums(out: &mut Vec<u8>, b: &[u8])
    ensures
        final(out)@ == old(out)@ + nums_json(b@, 0),
{
    let mut i: usize = 0;
    proof {
        assert(nums_json(b@.take(0), 0) =~= Seq::<u8>::empty());
        assert(out@ =~= old(out)@ + nums_json(b@.take(0), 0));
    }
    while i < b.len()
        invariant
            i <= b@.len(),
            out@ == old(out)@ + nums_json(b@.take(i as int), 0),
        decreases b@.len() - i,
    {
        if i > 0 {
            out.push(44);
        }
        emit_u64(out, b[i] as u64);
        proof {
            lemma_nums_snoc(b@, i as int);
            assert(out@ =~= old(out)@ + nums_json(b@.take(i + 1), 0));
        }
        i += 1;
    }
    proof {
        assert(b@.take(b@.len() as int) =~= b@);
    }
}

/// Parses exactly `want` comma-separated decimal byte values at `pos`; any
/// canonical list standing there, followed by a non-digit, is accepted.
#[verifier::loop_isolation(false)]
#[verifier::rlimit(60)]
pub fn parse_byte_nums(data: &Vec<u8>, pos: usize, want: usize) -> (r: Option<(Vec<u8>, usize)>)
    requires
        pos <= data@.len(),
        want >= 1,
    ensures
        r matches Some((v, p)) ==> v@.len() == want && pos <= p <= data@.len() && data@.subrange(
            pos as int,
            p as int,
        ) == nums_json(v@, 0),
        forall|h: Seq<u8>, rest: Seq<u8>|
            #![trigger nums_json(h, 0) + rest]
            data@.skip(pos as int) == nums_json(h, 0) + rest && h.len() == want && (rest.len() == 0
                || !is_digit(rest[0])) ==> (r matches Some((v, p)) && v@ == h && p == pos
                + nums_json(h, 0).len()),
{
    let mut v: Vec<u8> = Vec::new();
    let mut cur = pos;
    let mut k: usize = 0;
    proof {
        assert(nums_partial(v@, true) =~= Seq::<u8>::empty());
        assert(data@.subrange(pos as int, pos as int) =~= Seq::<u8>::empty());
    }
    while k < want
        invariant
            pos <= cur <= data@.len(),
            k <= want,
            v@.len() == k,
            k < want ==> data@.subrange(pos as int, cur as int) == nums_partial(v@, true),
            k == want ==> data@.subrange(pos as int, cur as int) == nums_json(v@, 0),
            forall|h: Seq<u8>, rest: Seq<u8>|
                #![trigger nums_json(h, 0) + rest]
                data@.skip(pos as int) == nums_json(h, 0) + rest && h.len() == want && (rest.len()
                    == 0 || !is_digit(rest[0])) ==> v@ == h.take(k as int) && (k < want
                    ==> data@.skip(cur as int) == nums_json(h, k as int) + rest) && (k == want
                    ==> data@.skip(cur as int) == rest),
        decreases want - k,
    {
        let (n, p2) = match parse_u64(data, cur) {
            Some(t) => t,
            None => {
                proof {
                    assert forall|h: Seq<u8>, rest: Seq<u8>|
                        data@.skip(pos as int) == nums_json(h, 0) + rest && h.len() == want && (
                        rest.len() == 0 || !is_digit(rest[0])) implies false by {
                        assert(v@ == h.take(k as int));
                        assert(data@.skip(cur as int) == nums_json(h, k as int) + rest);
                        lemma_nums_parse_step(data@, cur as int, h, k as int, rest);
                        let hk: u64 = h[k as int] as u64;
                        lemma_dec_u64_shape(hk as nat);
                        if k + 1 < h.len() {
                            let tail = seq![44u8] + nums_json(h, k + 1) + rest;
                            assert(data@.skip(cur as int) == dec_u64(hk as nat) + tail);
                            assert(tail.len() == 0 || !is_digit(tail[0]));
                        } else {
                            assert(data@.skip(cur as int) == dec_u64(hk as nat) + rest);
                        }
                    }
                }
                return None;
            },
        };
        if n > 255 {
            proof {
                assert forall|h: Seq<u8>, rest: Seq<u8>|
                    data@.skip(pos as int) == nums_json(h, 0) + rest && h.len() == want && (
                    rest.len() == 0 || !is_digit(rest[0])) implies false by {
                    lemma_nums_parse_step(data@, cur as int, h, k as int, rest);
                    let hk: u64 = h[k as int] as u64;
                    lemma_dec_u64_shape(hk as nat);
                }
            }
            return None;
        }
        let ghost ov = v@;
        v.push(n as u8);
        let mut next = p2;
        if k + 1 < want {
            match expect_byte(data, p2, 44) {
                Some(p3) => {
                    next = p3;
                },
                None => {
                    proof {
                        assert forall|h: Seq<u8>, rest: Seq<u8>|
                            data@.skip(pos as int) == nums_json(h, 0) + rest && h.len() == want && (
                            rest.len() == 0 || !is_digit(rest[0])) implies false by {
                            assert(data@.skip(cur as int) == nums_json(h, k as int) + rest);
                            lemma_nums_parse_step(data@, cur as int, h, k as int, rest);
                            let hk: u64 = h[k as int] as u64;
                            lemma_dec_u64_shape(hk as nat);
                            let tail = seq![44u8] + nums_json(h, k + 1) + rest;
                            assert(data@.skip(cur as int) == dec_u64(hk as nat) + tail);
                            assert(n == hk && p2 == cur + dec_u64(hk as nat).len());
                            lemma_consume(data@, cur as int, p2 as int, dec_u64(hk as nat), tail);
                            lemma_add_assoc(seq![44u8], nums_json(h, k + 1), rest);
                            assert(data@.skip(p2 as int)[0] == 44);
                            assert(data@[p2 as int] == 44);
                        }
                    }
                    return None;
                },
            }
        }
        proof {
            // soundness bookkeeping
            assert(v@ =~= ov.push(n as u8));
            assert(v@.take(k as int) =~= ov);
            lemma_nums_snoc(v@, k as int);
            assert(v@.take(k + 1) =~= v@);
            lemma_subrange_compose(data@, pos as int, cur as int, p2 as int);
            if k + 1 < want {
                lemma_subrange_compose(data@, pos as int, p2 as int, next as int);
                assert(data@.subrange(p2 as int, next as int) =~= seq![44u8]);
                assert(data@.subrange(pos as int, next as int) =~= nums_partial(v@, true));
            } else {
                assert(data@.subrange(pos as int, next as int) =~= nums_json(v@, 0));
            }
            // completeness bookkeeping
            assert forall|h: Seq<u8>, rest: Seq<u8>|
                data@.skip(pos as int) == nums_json(h, 0) + rest && h.len() == want && (rest.len()
                    == 0 || !is_digit(rest[0])) implies v@ == h.take(k + 1) && (k + 1 < want
                ==> data@.skip(next as int) == nums_json(h, k + 1) + rest) && (k + 1 == want
                ==> data@.skip(next as int) == rest) by {
                lemma_nums_parse_step(data@, cur as int, h, k as int, rest);
                let hk: u64 = h[k as int] as u64;
                lemma_dec_u64_shape(hk as nat);
                // the parsed number is exactly h[k]
                if k + 1 < want {
                    assert(data@.skip(cur as int) == dec_u64(hk as nat) + (seq![44u8] + nums_json(
                        h,
                        k + 1,
                    ) + rest));
                    assert(n == hk && p2 == cur + dec_u64(hk as nat).len());
                    lemma_consume(
                        data@,
                        cur as int,
                        p2 as int,
                        dec_u64(hk as nat),
                        seq![44u8] + nums_json(h, k + 1) + rest,
                    );
                    lemma_add_assoc(seq![44u8], nums_json(h, k + 1), rest);
                    assert(data@.skip(p2 as int) == seq![44u8] + (nums_json(h, k + 1) + rest));
                    assert(data@.skip(p2 as int)[0] == 44);
                    assert(data@[p2 as int] == 44);
                    assert(data@.subrange(p2 as int, next as int) =~= seq![44u8]);
                    lemma_consume(
                        data@,
                        p2 as int,
                        next as int,
                        seq![44u8],
                        nums_json(h, k + 1) + rest,
                    );
                    assert(v@ =~= h.take(k + 1));
                } else {
                    assert(data@.skip(cur as int) == dec_u64(hk as nat) + rest);
                    assert(n == hk && p2 == cur + dec_u64(hk as nat).len());
                    lemma_consume(data@, cur as int, p2 as int, dec_u64(hk as nat), rest);
                    assert(v@ =~= h.take(k + 1));
                }
            }
        }
        cur = next;
        k += 1;
    }
    proof {
        assert forall|h: Seq<u8>, rest: Seq<u8>|
            data@.skip(pos as int) == nums_json(h, 0) + rest && h.len() == want && (rest.len() == 0
                || !is_digit(rest[0])) implies v@ == h && cur == pos + nums_json(h, 0).len() by {
            assert(h.take(want as int) =~= h);
            assert(data@.subrange(pos as int, cur as int) == nums_json(h, 0));
        }
    }
    Some((v, cur))
}

/// At the start of element `k` of a number list, the remaining input reads
/// that element's decimal text, then the separator or the continuation.
proof fn lemma_nums_parse_step(data: Seq<u8>, cur: int, h: Seq<u8>, k: int, rest: Seq<u8>)
    requires
        0 <= cur <= data.len(),
        0 <= k < h.len(),
        data.skip(cur) == nums_json(h, k) + rest,
        rest.len() == 0 || !is_digit(rest[0]),
    ensures
        k + 1 < h.len() ==> data.skip(cur) == dec_u64((h[k] as u64) as nat) + (seq![44u8]
            + nums_json(h, k + 1) + rest) && (seq![44u8] + nums_json(h, k + 1) + rest).len() > 0
            && !is_digit((seq![44u8] + nums_json(h, k + 1) + rest)[0]),
        k + 1 == h.len() ==> data.skip(cur) == dec_u64((h[k] as u64) as nat) + rest,
{
    assert((h[k] as u64) as nat == h[k] as nat);
    if k + 1 < h.len() {
        assert(nums_json(h, k) == dec_u64(h[k] as nat) + (seq![44u8] + nums_json(h, k + 1)));
        assert(dec_u64(h[k] as nat) + (seq![44u8] + nums_json(h, k + 1)) + rest =~= dec_u64(
            h[k] as nat,
        ) + (seq![44u8] + nums_json(h, k + 1) + rest));
        assert((seq![44u8] + nums_json(h, k + 1) + rest)[0] == 44);
        assert(data.skip(cur) == dec_u64((h[k] as u64) as nat) + (seq![44u8] + nums_json(h, k + 1)
            + rest));
    } else {
        assert(nums_json(h, k) == dec_u64(h[k] as nat) + Seq::<u8>::empty());
        assert(dec_u64(h[k] as nat) + Seq::<u8>::empty() + rest =~= dec_u64(h[k] as nat) + rest);
        assert(data.skip(cur) == dec_u64((h[k] as u64) as nat) + rest);
    }
}

} // verus!

verus! {

/// When the remaining input starts with `a`, the piece occupies the next
/// `a.len()` positions and the rest follows.
pub proof fn lemma_starts_with(data: Seq<u8>, cur: int, a: Seq<u8>, tail: Seq<u8>)
    requires
        0 <= cur <= data.len(),
        data.skip(cur) == a + tail,
    ensures
        cur + a.len() <= data.len(),
        occurs_at(data, a, cur),
        data.subrange(cur, cur + a.len()) == a,
        data.skip(cur + a.len()) == tail,
{
    assert(data.skip(cur).len() == data.len() - cur);
    assert((a + tail).len() == a.len() + tail.len());
    assert(data.subrange(cur, cur + a.len()) =~= a) by {
        assert(forall|j: int|
            0 <= j < a.len() ==> data.subrange(cur, cur + a.len())[j] == data.skip(cur)[j]
                && (a + tail)[j] == a[j]);
    }
    lemma_consume(data, cur, cur + a.len(), a, tail);
}

} // verus!

// === Reassociation helpers =================================================

verus! {

/// Reassociates a chain of 15 appended pieces.
#[verifier::rlimit(100)]
pub proof fn lemma_flatten15(a0: Seq<u8>, a1: Seq<u8>, a2: Seq<u8>, a3: Seq<u8>, a4: Seq<u8>, a5: Seq<u8>, a6: Seq<u8>, a7: Seq<u8>, a8: Seq<u8>, a9: Seq<u8>, a10: Seq<u8>, a11: Seq<u8>, a12: Seq<u8>, a13: Seq<u8>, a14: Seq<u8>, a15: Seq<u8>)
    ensures
        (((((((((((((((a0 + a1) + a2) + a3) + a4) + a5) + a6) + a7) + a8) + a9) + a10) + a11) + a12) + a13) + a14) + a15) == a0 + (a1 + (a2 + (a3 + (a4 + (a5 + (a6 + (a7 + (a8 + (a9 + (a10 + (a11 + (a12 + (a13 + (a14 + a15)))))))))))))),
{
    assert((((((((((((((((a0 + a1) + a2) + a3) + a4) + a5) + a6) + a7) + a8) + a9) + a10) + a11) + a12) + a13) + a14) + a15) =~= a0 + (a1 + (a2 + (a3 + (a4 + (a5 + (a6 + (a7 + (a8 + (a9 + (a10 + (a11 + (a12 + (a13 + (a14 + a15)))))))))))))));
}

} // verus!

verus! {

/// Absorbs the head of a chain of 20 appended pieces.
pub proof fn lemma_absorb20(h: Seq<u8>, a1: Seq<u8>, a2: Seq<u8>, a3: Seq<u8>, a4: Seq<u8>, a5: Seq<u8>, a6: Seq<u8>, a7: Seq<u8>, a8: Seq<u8>, a9: Seq<u8>, a10: Seq<u8>, a11: Seq<u8>, a12: Seq<u8>, a13: Seq<u8>, a14: Seq<u8>, a15: Seq<u8>, a16: Seq<u8>, a17: Seq<u8>, a18: Seq<u8>, a19: Seq<u8>, a20: Seq<u8>)
    ensures
        ((((((((((((((((((((h + a1) + a2) + a3) + a4) + a5) + a6) + a7) + a8) + a9) + a10) + a11) + a12) + a13) + a14) + a15) + a16) + a17) + a18) + a19) + a20) == h + (a1 + a2 + a3 + a4 + a5 + a6 + a7 + a8 + a9 + a10 + a11 + a12 + a13 + a14 + a15 + a16 + a17 + a18 + a19 + a20),
{
    lemma_add_assoc(h, a1, a2);
    lemma_add_assoc(h, a1 + a2, a3);
    lemma_add_assoc(h, a1 + a2 + a3, a4);
    lemma_add_assoc(h, a1 + a2 + a3 + a4, a5);
    lemma_add_assoc(h, a1 + a2 + a3 + a4 + a5, a6);
    lemma_add_assoc(h, a1 + a2 + a3 + a4 + a5 + a6, a7);
    lemma_add_assoc(h, a1 + a2 + a3 + a4 + a5 + a6 + a7, a8);
    lemma_add_assoc(h, a1 + a2 + a3 + a4 + a5 + a6 + a7 + a8, a9);
    lemma_add_assoc(h, a1 + a2 + a3 + a4 + a5 + a6 + a7 + a8 + a9, a10);
    lemma_add_assoc(h, a1 + a2 + a3 + a4 + a5 + a6 + a7 + a8 + a9 + a10, a11);
    lemma_add_assoc(h, a1 + a2 + a3 + a4 + a5 + a6 + a7 + a8 + a9 + a10 + a11, a12);
    lemma_add_assoc(h, a1 + a2 + a3 + a4 + a5 + a6 + a7 + a8 + a9 + a10 + a11 + a12, a13);
    lemma_add_assoc(h, a1 + a2 + a3 + a4 + a5 + a6 + a7 + a8 + a9 + a10 + a11 + a12 + a13, a14);
    lemma_add_assoc(h, a1 + a2 + a3 + a4 + a5 + a6 + a7 + a8 + a9 + a10 + a11 + a12 + a13 + a14, a15);
    lemma_add_assoc(h, a1 + a2 + a3 + a4 + a5 + a6 + a7 + a8 + a9 + a10 + a11 + a12 + a13 + a14 + a15, a16);
    lemma_add_assoc(h, a1 + a2 + a3 + a4 + a5 + a6 + a7 + a8 + a9 + a10 + a11 + a12 + a13 + a14 + a15 + a16, a17);
    lemma_add_assoc(h, a1 + a2 + a3 + a4 + a5 + a6 + a7 + a8 + a9 + a10 + a11 + a12 + a13 + a14 + a15 + a16 + a17, a18);
    lemma_add_assoc(h, a1 + a2 + a3 + a4 + a5 + a6 + a7 + a8 + a9 + a10 + a11 + a12 + a13 + a14 + a15 + a16 + a17 + a18, a19);
    lemma_add_assoc(h, a1 + a2 + a3 + a4 + a5 + a6 + a7 + a8 + a9 + a10 + a11 + a12 + a13 + a14 + a15 + a16 + a17 + a18 + a19, a20);
}

/// Absorbs the head of a chain of 21 appended pieces.
pub proof fn lemma_absorb21(h: Seq<u8>, a1: Seq<u8>, a2: Seq<u8>, a3: Seq<u8>, a4: Seq<u8>, a5: Seq<u8>, a6: Seq<u8>, a7: Seq<u8>, a8: Seq<u8>, a9: Seq<u8>, a10: Seq<u8>, a11: Seq<u8>, a12: Seq<u8>, a13: Seq<u8>, a14: Seq<u8>, a15: Seq<u8>, a16: Seq<u8>, a17: Seq<u8>, a18: Seq<u8>, a19: Seq<u8>, a20: Seq<u8>, a21: Seq<u8>)
    ensures
        (((((((((((((((((((((h + a1) + a2) + a3) + a4) + a5) + a6) + a7) + a8) + a9) + a10) + a11) + a12) + a13) + a14) + a15) + a16) + a17) + a18) + a19) + a20) + a21) == h + (a1 + a2 + a3 + a4 + a5 + a6 + a7 + a8 + a9 + a10 + a11 + a12 + a13 + a14 + a15 + a16 + a17 + a18 + a19 + a20 + a21),
{
    lemma_add_assoc(h, a1, a2);
    lemma_add_assoc(h, a1 + a2, a3);
    lemma_add_assoc(h, a1 + a2 + a3, a4);
    lemma_add_assoc(h, a1 + a2 + a3 + a4, a5);
    lemma_add_assoc(h, a1 + a2 + a3 + a4 + a5, a6);
    lemma_add_assoc(h, a1 + a2 + a3 + a4 + a5 + a6, a7);
    lemma_add_assoc(h, a1 + a2 + a3 + a4 + a5 + a6 + a7, a8);
    lemma_add_assoc(h, a1 + a2 + a3 + a4 + a5 + a6 + a7 + a8, a9);
    lemma_add_assoc(h, a1 + a2 + a3 + a4 + a5 + a6 + a7 + a8 + a9, a10);
    lemma_add_assoc(h, a1 + a2 + a3 + a4 + a5 + a6 + a7 + a8 + a9 + a10, a11);
    lemma_add_assoc(h, a1 + a2 + a3 + a4 + a5 + a6 + a7 + a8 + a9 + a10 + a11, a12);
    lemma_add_assoc(h, a1 + a2 + a3 + a4 + a5 + a6 + a7 + a8 + a9 + a10 + a11 + a12, a13);
    lemma_add_assoc(h, a1 + a2 + a3 + a4 + a5 + a6 + a7 + a8 + a9 + a10 + a11 + a12 + a13, a14);
    lemma_add_assoc(h, a1 + a2 + a3 + a4 + a5 + a6 + a7 + a8 + a9 + a10 + a11 + a12 + a13 + a14, a15);
    lemma_add_assoc(h, a1 + a2 + a3 + a4 + a5 + a6 + a7 + a8 + a9 + a10 + a11 + a12 + a13 + a14 + a15, a16);
    lemma_add_assoc(h, a1 + a2 + a3 + a4 + a5 + a6 + a7 + a8 + a9 + a10 + a11 + a12 + a13 + a14 + a15 + a16, a17);
    lemma_add_assoc(h, a1 + a2 + a3 + a4 + a5 + a6 + a7 + a8 + a9 + a10 + a11 + a12 + a13 + a14 + a15 + a16 + a17, a18);
    lemma_add_assoc(h, a1 + a2 + a3 + a4 + a5 + a6 + a7 + a8 + a9 + a10 + a11 + a12 + a13 + a14 + a15 + a16 + a17 + a18, a19);
    lemma_add_assoc(h, a1 + a2 + a3 + a4 + a5 + a6 + a7 + a8 + a9 + a10 + a11 + a12 + a13 + a14 + a15 + a16 + a17 + a18 + a19, a20);
    lemma_add_assoc(h, a1 + a2 + a3 + a4 + a5 + a6 + a7 + a8 + a9 + a10 + a11 + a12 + a13 + a14 + a15 + a16 + a17 + a18 + a19 + a20, a21);
}

} // verus!

verus! {

/// Absorbs the head of a chain of 12 appended pieces.
pub proof fn lemma_absorb12(h: Seq<u8>, a1: Seq<u8>, a2: Seq<u8>, a3: Seq<u8>, a4: Seq<u8>, a5: Seq<u8>, a6: Seq<u8>, a7: Seq<u8>, a8: Seq<u8>, a9: Seq<u8>, a10: Seq<u8>, a11: Seq<u8>, a12: Seq<u8>)
    ensures
        ((((((((((((h + a1) + a2) + a3) + a4) + a5) + a6) + a7) + a8) + a9) + a10) + a11) + a12) == h + (a1 + a2 + a3 + a4 + a5 + a6 + a7 + a8 + a9 + a10 + a11 + a12),
{
    lemma_add_assoc(h, a1, a2);
    lemma_add_assoc(h, a1 + a2, a3);
    lemma_add_assoc(h, a1 + a2 + a3, a4);
    lemma_add_assoc(h, a1 + a2 + a3 + a4, a5);
    lemma_add_assoc(h, a1 + a2 + a3 + a4 + a5, a6);
    lemma_add_assoc(h, a1 + a2 + a3 + a4 + a5 + a6, a7);
    lemma_add_assoc(h, a1 + a2 + a3 + a4 + a5 + a6 + a7, a8);
    lemma_add_assoc(h, a1 + a2 + a3 + a4 + a5 + a6 + a7 + a8, a9);
    lemma_add_assoc(h, a1 + a2 + a3 + a4 + a5 + a6 + a7 + a8 + a9, a10);
    lemma_add_assoc(h, a1 + a2 + a3 + a4 + a5 + a6 + a7 + a8 + a9 + a10, a11);
    lemma_add_assoc(h, a1 + a2 + a3 + a4 + a5 + a6 + a7 + a8 + a9 + a10 + a11, a12);
}

} // verus!

verus! {


} // verus!
