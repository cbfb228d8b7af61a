//! Byte-level and string helpers shared by the codecs and the repository.

use vstd::prelude::*;
use vstd::string::StrSliceExecFns;
use vstd::string::StringExecFns;
use vstd::string::StringSliceAdditionalSpecFns;

verus! {

/// True when `p` occurs in `s` starting at position `i`.
pub open spec fn occurs_at(s: Seq<u8>, p: Seq<u8>, i: int) -> bool {
    0 <= i && i + p.len() <= s.len() && s.subrange(i, i + p.len()) == p
}

/// True when `p` occurs somewhere in `s`.
pub open spec fn contains_seq(s: Seq<u8>, p: Seq<u8>) -> bool {
    exists|i: int| occurs_at(s, p, i)
}

/// ASCII lower-casing of a single byte.
pub open spec fn ascii_lower(b: u8) -> u8 {
    if 65 <= b <= 90 {
        (b + 32) as u8
    } else {
        b
    }
}

/// Case-insensitive (ASCII) equality of two byte sequences.
pub open spec fn eq_ignore_case_seq(a: Seq<u8>, b: Seq<u8>) -> bool {
    a.len() == b.len() && forall|i: int|
        0 <= i < a.len() ==> ascii_lower(a[i]) == ascii_lower(b[i])
}

/// The UTF-8 encoding of a string's characters.
pub open spec fn bytes_of_str(s: Seq<char>) -> Seq<u8> {
    vstd::utf8::encode_utf8(s)
}

/// UTF-8 encoding distributes over concatenation.
pub proof fn lemma_encode_utf8_concat(a: Seq<char>, b: Seq<char>)
    ensures
        vstd::utf8::encode_utf8(a + b) == vstd::utf8::encode_utf8(a)
            + vstd::utf8::encode_utf8(b),
    decreases a.len(),
{
    if a.len() == 0 {
        assert(a + b =~= b);
        assert(vstd::utf8::encode_utf8(a) =~= Seq::<u8>::empty());
        assert(vstd::utf8::encode_utf8(a) + vstd::utf8::encode_utf8(b)
            =~= vstd::utf8::encode_utf8(b));
    } else {
        assert((a + b).drop_first() =~= a.drop_first() + b);
        lemma_encode_utf8_concat(a.drop_first(), b);
        assert((a + b)[0] == a[0]);
        assert(vstd::utf8::encode_utf8(a + b) =~= vstd::utf8::encode_scalar(a[0] as u32)
            + (vstd::utf8::encode_utf8(a.drop_first()) + vstd::utf8::encode_utf8(b)));
        assert(vstd::utf8::encode_scalar(a[0] as u32)
            + (vstd::utf8::encode_utf8(a.drop_first()) + vstd::utf8::encode_utf8(b))
            =~= (vstd::utf8::encode_scalar(a[0] as u32)
                + vstd::utf8::encode_utf8(a.drop_first())) + vstd::utf8::encode_utf8(b));
    }
}

/// Two strings with equal UTF-8 encodings have equal characters.
pub proof fn lemma_encode_utf8_injective(a: Seq<char>, b: Seq<char>)
    requires
        vstd::utf8::encode_utf8(a) == vstd::utf8::encode_utf8(b),
    ensures
        a == b,
{
    vstd::utf8::encode_utf8_decode_utf8(a);
    vstd::utf8::encode_utf8_decode_utf8(b);
}

/// Exact equality of two byte slices.
#[verifier::loop_isolation(false)]
pub fn bytes_eq(a: &[u8], b: &[u8]) -> (r: bool)
    ensures
        r == (a@ == b@),
{
    if a.len() != b.len() {
        proof {
            assert(a@ != b@);
        }
        return false;
    }
    let mut i: usize = 0;
    while i < a.len()
        invariant
            i <= a.len(),
            a@.len() == b@.len(),
            forall|j: int| 0 <= j < i ==> a@[j] == b@[j],
        decreases a.len() - i,
    {
        if a[i] != b[i] {
            proof {
                assert(a@[i as int] != b@[i as int]);
            }
            return false;
        }
        i += 1;
    }
    proof {
        assert(a@ =~= b@);
    }
    true
}

/// Equality of two strings, decided on their UTF-8 bytes.
pub fn str_eq(a: &str, b: &str) -> (r: bool)
    ensures
        r == (a@ == b@),
{
    let r = bytes_eq(a.as_bytes(), b.as_bytes());
    proof {
        if a.spec_bytes() == b.spec_bytes() {
            lemma_encode_utf8_injective(a@, b@);
        }
    }
    r
}

/// True when `s` starts with `p`, on bytes.
pub fn bytes_starts_with(s: &[u8], p: &[u8]) -> (r: bool)
    ensures
        r == occurs_at(s@, p@, 0),
{
    if p.len() > s.len() {
        return false;
    }
    let head = vstd::slice::slice_subrange(s, 0, p.len());
    bytes_eq(head, p)
}

/// True when `s` ends with `p`, on bytes.
pub fn bytes_ends_with(s: &[u8], p: &[u8]) -> (r: bool)
    ensures
        r == occurs_at(s@, p@, s@.len() - p@.len()),
{
    if p.len() > s.len() {
        return false;
    }
    let tail = vstd::slice::slice_subrange(s, s.len() - p.len(), s.len());
    bytes_eq(tail, p)
}

/// True when `p` occurs somewhere in `s`, on bytes.
#[verifier::loop_isolation(false)]
pub fn bytes_contains(s: &[u8], p: &[u8]) -> (r: bool)
    ensures
        r == contains_seq(s@, p@),
{
    if p.len() > s.len() {
        proof {
            assert(forall|i: int| !occurs_at(s@, p@, i));
        }
        return false;
    }
    if p.len() == 0 {
        proof {
            assert(s@.subrange(0, 0) =~= p@);
            assert(occurs_at(s@, p@, 0));
        }
        return true;
    }
    let n = s.len() - p.len();
    let mut i: usize = 0;
    while i <= n
        invariant
            p@.len() <= s@.len(),
            s@.len() == s.len() && p@.len() == p.len(),
            n == s.len() - p.len(),
            i <= n + 1,
            forall|j: int| 0 <= j < i ==> !occurs_at(s@, p@, j),
        decreases n + 1 - i,
    {
        assert(i + p@.len() <= s@.len());
        let window = vstd::slice::slice_subrange(s, i, i + p.len());
        if bytes_eq(window, p) {
            proof {
                assert(occurs_at(s@, p@, i as int));
            }
            return true;
        }
        i += 1;
    }
    proof {
        assert(forall|j: int| i <= j ==> !occurs_at(s@, p@, j));
    }
    false
}

/// Case-insensitive (ASCII) equality of two strings, as
/// `str::eq_ignore_ascii_case` decides it: byte-wise with ASCII folding.
#[verifier::loop_isolation(false)]
pub fn str_eq_ignore_ascii_case(a: &str, b: &str) -> (r: bool)
    ensures
        r == eq_ignore_case_seq(a.spec_bytes(), b.spec_bytes()),
{
    let ab = a.as_bytes();
    let bb = b.as_bytes();
    if ab.len() != bb.len() {
        return false;
    }
    let mut i: usize = 0;
    while i < ab.len()
        invariant
            i <= ab@.len(),
            ab@.len() == bb@.len(),
            forall|j: int| 0 <= j < i ==> ascii_lower(ab@[j]) == ascii_lower(bb@[j]),
        decreases ab.len() - i,
    {
        let x = ab[i];
        let y = bb[i];
        let xl = if 65 <= x && x <= 90 { x + 32 } else { x };
        let yl = if 65 <= y && y <= 90 { y + 32 } else { y };
        if xl != yl {
            proof {
                let ga = a.spec_bytes();
                let gb = b.spec_bytes();
                assert(ga[i as int] == ab@[i as int] && gb[i as int] == bb@[i as int]);
                assert(ascii_lower(ga[i as int]) != ascii_lower(gb[i as int]));
                assert(!eq_ignore_case_seq(ga, gb));
            }
            return false;
        }
        i += 1;
    }
    true
}

/// Concatenation of two string slices into an owned string.
pub fn concat_str(a: &str, b: &str) -> (r: String)
    ensures
        r@ == a@ + b@,
{
    let mut s = a.to_owned();
    s.append(b);
    s
}

/// The UTF-8 bytes of a string, as an owned vector.
pub fn str_bytes(s: &str) -> (r: Vec<u8>)
    ensures
        r@ == bytes_of_str(s@),
{
    s.as_bytes_vec()
}

/// Relies on `String::from_utf8`: returns the string whose UTF-8 encoding
/// is the given bytes, and succeeds exactly on valid UTF-8 input.
#[verifier::external_body]
pub fn string_from_utf8(v: Vec<u8>) -> (r: Option<String>)
    ensures
        r matches Some(s) ==> bytes_of_str(s@) == v@,
        vstd::utf8::valid_utf8(v@) ==> r is Some,
{
    String::from_utf8(v).ok()
}

/// Relies on `String::push`: appends one character.
#[verifier::external_body]
pub fn push_char(s: &mut String, c: char)
    ensures
        final(s)@ == old(s)@.push(c),
{
    s.push(c);
}

} // verus!

verus! {

/// A byte sequence of ASCII bytes only.
pub open spec fn all_ascii(v: Seq<u8>) -> bool {
    forall|i: int| 0 <= i < v.len() ==> (#[trigger] v[i]) < 128
}

/// Turns ASCII bytes into the string they spell.
pub fn ascii_to_string(v: Vec<u8>) -> (r: String)
    requires
        all_ascii(v@),
    ensures
        bytes_of_str(r@) == v@,
{
    proof {
        assert(v@.subrange(0, 0).len() == 0);
        assert(vstd::utf8::valid_utf8(v@.subrange(0, 0)));
        assert(vstd::utf8::partial_valid_utf8(v@, 0));
        assert(forall|i: int|
            0 <= 0 <= i < v@.len() <= v@.len() ==> #[trigger] vstd::utf8::is_leading_byte_width_1(
                v@[i],
            ));
        vstd::utf8::partial_valid_utf8_extend_ascii_block(v@, 0, v@.len() as int);
        assert(v@.subrange(0, v@.len() as int) =~= v@);
    }
    match string_from_utf8(v) {
        Some(s) => s,
        None => {
            proof {
                assert(false);
            }
            String::new()
        },
    }
}

} // verus!
