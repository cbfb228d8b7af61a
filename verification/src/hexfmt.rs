//! Lowercase hexadecimal notation for hashes, with an emitter, a parser and
//! a wrapper around the hex crate for string output.

use vstd::prelude::*;

use crate::jsonfmt::hex_digit;
use crate::strutil::bytes_of_str;

verus! {

/// The two lowercase hex digit bytes of one byte.
pub open spec fn hex_pair(b: u8) -> Seq<u8> {
    seq![hex_digit(b / 16), hex_digit(b % 16)]
}

/// The lowercase hex notation of a byte sequence, as ASCII bytes.
pub open spec fn hex_bytes_of(s: Seq<u8>) -> Seq<u8>
    decreases s.len(),
{
    if s.len() == 0 {
        Seq::empty()
    } else {
        hex_pair(s[0]) + hex_bytes_of(s.skip(1))
    }
}

pub proof fn lemma_hex_bytes_len(s: Seq<u8>)
    ensures
        hex_bytes_of(s).len() == 2 * s.len(),
    decreases s.len(),
{
    if s.len() > 0 {
        lemma_hex_bytes_len(s.skip(1));
    }
}

/// Hex notation distributes over appending one byte.
pub proof fn lemma_hex_bytes_snoc(s: Seq<u8>, x: u8)
    ensures
        hex_bytes_of(s.push(x)) == hex_bytes_of(s) + hex_pair(x),
    decreases s.len(),
{
    if s.len() == 0 {
        assert(s.push(x)[0] == x);
        assert(s.push(x).skip(1).len() == 0);
        assert(hex_bytes_of(s.push(x).skip(1)) == Seq::<u8>::empty());
        assert(hex_bytes_of(s.push(x)) == hex_pair(x) + Seq::<u8>::empty());
        assert(hex_pair(x) + Seq::<u8>::empty() =~= hex_pair(x));
        assert(hex_bytes_of(s) == Seq::<u8>::empty());
        assert(Seq::<u8>::empty() + hex_pair(x) =~= hex_pair(x));
    } else {
        assert(s.push(x).skip(1) =~= s.skip(1).push(x));
        lemma_hex_bytes_snoc(s.skip(1), x);
        assert(s.push(x)[0] == s[0]);
        assert(hex_bytes_of(s.push(x)) == hex_pair(s[0]) + (hex_bytes_of(s.skip(1))
            + hex_pair(x)));
        assert(hex_pair(s[0]) + (hex_bytes_of(s.skip(1)) + hex_pair(x)) =~= (hex_pair(s[0])
            + hex_bytes_of(s.skip(1))) + hex_pair(x));
    }
}

/// Appends the lowercase hex notation of a byte slice.
#[verifier::loop_isolation(false)]
pub fn emit_hex(out: &mut Vec<u8>, b: &[u8])
    ensures
        final(out)@ == old(out)@ + hex_bytes_of(b@),
{
    let mut i: usize = 0;
    proof {
        assert(b@.take(0) =~= Seq::<u8>::empty());
        assert(out@ =~= old(out)@ + hex_bytes_of(b@.take(0)));
    }
    while i < b.len()
        invariant
            i <= b@.len(),
            out@ == old(out)@ + hex_bytes_of(b@.take(i as int)),
        decreases b@.len() - i,
    {
        let x = b[i];
        let h = x / 16;
        let l = x % 16;
        out.push(if h < 10 { 48 + h } else { 87 + h });
        out.push(if l < 10 { 48 + l } else { 87 + l });
        proof {
            lemma_hex_bytes_snoc(b@.take(i as int), b@[i as int]);
            assert(b@.take(i + 1) =~= b@.take(i as int).push(b@[i as int]));
            assert(out@ =~= old(out)@ + hex_bytes_of(b@.take(i + 1)));
        }
        i += 1;
    }
    proof {
        assert(b@.take(b@.len() as int) =~= b@);
    }
}

/// Relies on `hex::encode`: two lowercase hex digits per byte, in order.
#[verifier::external_body]
pub fn hex_string(b: &[u8]) -> (r: String)
    ensures
        bytes_of_str(r@) == hex_bytes_of(b@),
{
    hex::encode(b)
}

/// Parses exactly `2 * want` lowercase hex digit bytes at `pos`, yielding
/// the denoted bytes; any canonical hex run standing there is accepted.
#[verifier::loop_isolation(false)]
pub fn parse_hex(data: &Vec<u8>, pos: usize, want: usize) -> (r: Option<Vec<u8>>)
    requires
        pos <= data@.len(),
    ensures
        r matches Some(v) ==> v@.len() == want && pos + 2 * want <= data@.len()
            && data@.subrange(pos as int, pos + 2 * want) == hex_bytes_of(v@),
        forall|h: Seq<u8>, rest: Seq<u8>|
            #![trigger hex_bytes_of(h) + rest]
            data@.skip(pos as int) == hex_bytes_of(h) + rest && h.len() == want ==> (r matches
                Some(v) && v@ == h),
{
    if (data.len() - pos) / 2 < want {
        proof {
            assert forall|h: Seq<u8>, rest: Seq<u8>|
                data@.skip(pos as int) == hex_bytes_of(h) + rest && h.len() == want
                implies false by {
                lemma_hex_bytes_len(h);
                assert(data@.skip(pos as int).len() == data@.len() - pos);
                assert((hex_bytes_of(h) + rest).len() == 2 * h.len() + rest.len());
                assert(data@.len() - pos >= 2 * want);
            }
        }
        return None;
    }
    let mut v: Vec<u8> = Vec::new();
    let mut i: usize = 0;
    proof {
        assert(v@ =~= Seq::<u8>::empty());
        assert(hex_bytes_of(v@) =~= data@.subrange(pos as int, pos as int));
    }
    while i < want
        invariant
            i <= want,
            pos + 2 * want <= data@.len(),
            v@.len() == i,
            data@.subrange(pos as int, pos + 2 * i) == hex_bytes_of(v@),
        decreases want - i,
    {
        let a = data[pos + 2 * i];
        let b = data[pos + 2 * i + 1];
        let oka = (48 <= a && a <= 57) || (97 <= a && a <= 102);
        let okb = (48 <= b && b <= 57) || (97 <= b && b <= 102);
        if !(oka && okb) {
            proof {
                assert forall|h: Seq<u8>, rest: Seq<u8>|
                    data@.skip(pos as int) == hex_bytes_of(h) + rest && h.len() == want
                    implies false by {
                    lemma_hex_prefix(data@, pos as int, v@, h, rest);
                    lemma_hex_unpick(h, i as int);
                    assert(data@[pos + 2 * i] == hex_digit(h[i as int] / 16));
                    assert(data@[pos + 2 * i + 1] == hex_digit(h[i as int] % 16));
                    crate::jsonfmt::lemma_hex_digit_canonical(h[i as int] / 16);
                    crate::jsonfmt::lemma_hex_digit_canonical(h[i as int] % 16);
                }
            }
            return None;
        }
        let va = if a >= 97 { a - 87 } else { a - 48 };
        let vb = if b >= 97 { b - 87 } else { b - 48 };
        let ghost ov = v@;
        v.push(va * 16 + vb);
        proof {
            lemma_hex_bytes_snoc(ov, (va * 16 + vb) as u8);
            assert(hex_pair((va * 16 + vb) as u8) =~= seq![a, b]);
            assert(data@.subrange(pos as int, pos + 2 * (i + 1)) =~= data@.subrange(
                pos as int,
                pos + 2 * i,
            ) + seq![a, b]);
        }
        i += 1;
    }
    proof {
        assert forall|h: Seq<u8>, rest: Seq<u8>|
            data@.skip(pos as int) == hex_bytes_of(h) + rest && h.len() == want implies v@
            == h by {
            lemma_hex_prefix(data@, pos as int, v@, h, rest);
            assert(v@ =~= h);
        }
    }
    Some(v)
}

/// When the input at `pos` reads `hex(h) + rest` and `p` is a shorter or
/// equally long sequence whose hex notation also stands at `pos`, then `p`
/// is a prefix of `h`.
proof fn lemma_hex_prefix(data: Seq<u8>, pos: int, p: Seq<u8>, h: Seq<u8>, rest: Seq<u8>)
    requires
        0 <= pos,
        pos + 2 * p.len() <= data.len(),
        data.skip(pos) == hex_bytes_of(h) + rest,
        p.len() <= h.len(),
        data.subrange(pos, pos + 2 * p.len()) == hex_bytes_of(p),
    ensures
        forall|j: int| 0 <= j < p.len() ==> p[j] == h[j],
        forall|j: int|
            0 <= j < 2 * h.len() ==> pos + j < data.len() && data[pos + j] == #[trigger]
                hex_bytes_of(h)[j],
    decreases p.len(),
{
    lemma_hex_bytes_len(h);
    lemma_hex_bytes_len(p);
    assert(data.skip(pos).len() == data.len() - pos);
    assert((hex_bytes_of(h) + rest).len() == 2 * h.len() + rest.len());
    assert forall|j: int|
        0 <= j < 2 * h.len() implies pos + j < data.len() && data[pos + j] == #[trigger]
            hex_bytes_of(h)[j] by {
        assert(data.skip(pos)[j] == (hex_bytes_of(h) + rest)[j]);
        assert((hex_bytes_of(h) + rest)[j] == hex_bytes_of(h)[j]);
        assert(data.skip(pos)[j] == data[pos + j]);
    }
    assert forall|j: int| 0 <= j < p.len() implies p[j] == h[j] by {
        lemma_hex_unpick(p, j);
        lemma_hex_unpick(h, j);
        assert(hex_bytes_of(p)[2 * j] == data[pos + 2 * j]);
        assert(hex_bytes_of(p)[2 * j + 1] == data[pos + 2 * j + 1]);
        assert(hex_digit(p[j] / 16) == hex_digit(h[j] / 16));
        assert(hex_digit(p[j] % 16) == hex_digit(h[j] % 16));
        assert(p[j] / 16 == h[j] / 16 && p[j] % 16 == h[j] % 16) by {
            lemma_hex_digit_inj(p[j] / 16, h[j] / 16);
            lemma_hex_digit_inj(p[j] % 16, h[j] % 16);
        }
    }
}

/// The two hex digits of element `j` stand at positions `2j` and `2j + 1`.
proof fn lemma_hex_unpick(s: Seq<u8>, j: int)
    requires
        0 <= j < s.len(),
    ensures
        hex_bytes_of(s)[2 * j] == hex_digit(s[j] / 16),
        hex_bytes_of(s)[2 * j + 1] == hex_digit(s[j] % 16),
    decreases j,
{
    lemma_hex_bytes_len(s);
    lemma_hex_bytes_len(s.skip(1));
    if j == 0 {
        assert(hex_bytes_of(s)[0] == hex_pair(s[0])[0]);
        assert(hex_bytes_of(s)[1] == hex_pair(s[0])[1]);
    } else {
        lemma_hex_unpick(s.skip(1), j - 1);
        assert(hex_bytes_of(s)[2 * j] == hex_bytes_of(s.skip(1))[2 * (j - 1)]);
        assert(hex_bytes_of(s)[2 * j + 1] == hex_bytes_of(s.skip(1))[2 * (j - 1) + 1]);
        assert(s.skip(1)[j - 1] == s[j]);
    }
}

/// Hex digits are distinct for distinct values below 16.
proof fn lemma_hex_digit_inj(a: u8, b: u8)
    requires
        a < 16,
        b < 16,
        hex_digit(a) == hex_digit(b),
    ensures
        a == b,
{
}

} // verus!
