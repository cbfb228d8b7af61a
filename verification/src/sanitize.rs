//! Filename sanitization for path components derived from item names:
//! unsafe and control characters become underscores, leading and trailing
//! dots and spaces are trimmed, and the result is cut to at most 100 bytes
//! of UTF-8 at a character boundary.

use vstd::prelude::*;
use vstd::string::StrSliceExecFns;

verus! {

/// A character the target filesystems refuse, or a control character.
pub open spec fn is_forbidden(c: char) -> bool {
    ||| c == '/'
    ||| c == '\\'
    ||| c == ':'
    ||| c == '*'
    ||| c == '?'
    ||| c == '"'
    ||| c == '<'
    ||| c == '>'
    ||| c == '|'
    ||| (c as u32) < 32
    ||| (127 <= (c as u32) && (c as u32) <= 159)
}

/// A character trimmed from either end.
pub open spec fn is_trim(c: char) -> bool {
    c == '.' || c == ' '
}

/// Forbidden characters replaced by underscores.
pub open spec fn map_safe(s: Seq<char>) -> Seq<char> {
    s.map_values(|c: char| if is_forbidden(c) { '_' } else { c })
}

/// How many leading trim characters `s` carries.
pub open spec fn front_trim(s: Seq<char>) -> int
    decreases s.len(),
{
    if s.len() > 0 && is_trim(s[0]) {
        1 + front_trim(s.skip(1))
    } else {
        0
    }
}

/// How many trailing trim characters `s` carries.
pub open spec fn back_trim(s: Seq<char>) -> int
    decreases s.len(),
{
    if s.len() > 0 && is_trim(s.last()) {
        1 + back_trim(s.drop_last())
    } else {
        0
    }
}

/// `s` with leading and trailing trim characters removed.
pub open spec fn trim_spec(s: Seq<char>) -> Seq<char> {
    if front_trim(s) == s.len() {
        Seq::empty()
    } else {
        s.subrange(front_trim(s), s.len() - back_trim(s))
    }
}

/// The UTF-8 width of one character.
pub open spec fn utf8_len(c: char) -> int {
    if (c as u32) < 0x80 {
        1
    } else if (c as u32) < 0x800 {
        2
    } else if (c as u32) < 0x10000 {
        3
    } else {
        4
    }
}

/// The UTF-8 width of a character sequence.
pub open spec fn utf8_len_seq(s: Seq<char>) -> int
    decreases s.len(),
{
    if s.len() == 0 {
        0
    } else {
        utf8_len(s[0]) + utf8_len_seq(s.skip(1))
    }
}

/// How many leading characters of `s` fit in `budget` UTF-8 bytes.
pub open spec fn fit_count(s: Seq<char>, budget: int) -> int
    decreases s.len(),
{
    if s.len() == 0 || utf8_len(s[0]) > budget {
        0
    } else {
        1 + fit_count(s.skip(1), budget - utf8_len(s[0]))
    }
}

/// The sanitized form of a name.
pub open spec fn sanitize_spec(s: Seq<char>) -> Seq<char> {
    let t = trim_spec(map_safe(s));
    if utf8_len_seq(t) <= 100 {
        t
    } else {
        t.take(fit_count(t, 100))
    }
}

pub proof fn lemma_front_trim_shape(s: Seq<char>)
    ensures
        0 <= front_trim(s) <= s.len(),
        forall|j: int| 0 <= j < front_trim(s) ==> is_trim(#[trigger] s[j]),
        front_trim(s) < s.len() ==> !is_trim(s[front_trim(s)]),
    decreases s.len(),
{
    if s.len() > 0 && is_trim(s[0]) {
        lemma_front_trim_shape(s.skip(1));
        assert(forall|j: int| 0 <= j < front_trim(s.skip(1)) ==> s.skip(1)[j] == #[trigger] s[
            j + 1
        ]);
        assert forall|j: int| 0 <= j < front_trim(s) implies is_trim(#[trigger] s[j]) by {
            if j > 0 {
                assert(is_trim(s.skip(1)[j - 1]));
            }
        }
        if front_trim(s) < s.len() {
            assert(s[front_trim(s)] == s.skip(1)[front_trim(s.skip(1))]);
        }
    }
}

pub proof fn lemma_back_trim_shape(s: Seq<char>)
    ensures
        0 <= back_trim(s) <= s.len(),
        forall|j: int| s.len() - back_trim(s) <= j < s.len() ==> is_trim(#[trigger] s[j]),
        back_trim(s) < s.len() ==> !is_trim(s[s.len() - back_trim(s) - 1]),
    decreases s.len(),
{
    if s.len() > 0 && is_trim(s.last()) {
        lemma_back_trim_shape(s.drop_last());
        assert(forall|j: int|
            0 <= j < s.len() - 1 ==> s.drop_last()[j] == #[trigger] s[j]);
    }
}

pub proof fn lemma_fit_count_shape(s: Seq<char>, budget: int)
    requires
        budget >= 0,
    ensures
        0 <= fit_count(s, budget) <= s.len(),
        utf8_len_seq(s.take(fit_count(s, budget))) <= budget,
    decreases s.len(),
{
    if s.len() == 0 || utf8_len(s[0]) > budget {
        assert(s.take(0).len() == 0);
    } else {
        lemma_fit_count_shape(s.skip(1), budget - utf8_len(s[0]));
        let k = fit_count(s, budget);
        assert(s.take(k)[0] == s[0]);
        assert(s.take(k).skip(1) =~= s.skip(1).take(k - 1));
        assert(utf8_len_seq(s.take(k)) == utf8_len(s[0]) + utf8_len_seq(s.skip(1).take(k - 1)));
    }
}

/// Sanitizes one path component: unsafe and control characters become
/// underscores, the ends are trimmed of dots and spaces, and the result is
/// cut to at most 100 UTF-8 bytes at a character boundary.
#[verifier::loop_isolation(false)]
#[verifier::rlimit(60)]
pub fn sanitize_filename(name: &str) -> (r: String)
    ensures
        r@ == sanitize_spec(name@),
{
    let n = name.unicode_len();
    let mut mapped: Vec<char> = Vec::new();
    let mut i: usize = 0;
    while i < n
        invariant
            n == name@.len(),
            i <= n,
            mapped@ == map_safe(name@.take(i as int)),
        decreases n - i,
    {
        let c = name.get_char(i);
        let u = c as u32;
        let mc = if c == '/' || c == '\\' || c == ':' || c == '*' || c == '?' || c == '"' || c
            == '<' || c == '>' || c == '|' || u < 32 || (127 <= u && u <= 159) {
            '_'
        } else {
            c
        };
        mapped.push(mc);
        proof {
            assert(map_safe(name@.take(i + 1)) =~= map_safe(name@.take(i as int)).push(mc));
        }
        i += 1;
    }
    proof {
        assert(name@.take(n as int) =~= name@);
    }
    let ghost m = map_safe(name@);
    // trim both ends
    let mut start: usize = 0;
    while start < mapped.len() && (mapped[start] == '.' || mapped[start] == ' ')
        invariant
            start <= mapped@.len(),
            forall|j: int| 0 <= j < start ==> is_trim(#[trigger] mapped@[j]),
        decreases mapped@.len() - start,
    {
        start += 1;
    }
    proof {
        lemma_front_trim_shape(m);
        lemma_trim_counts_agree(m, start as int);
    }
    if start == mapped.len() {
        proof {
            assert(sanitize_spec(name@) =~= Seq::<char>::empty());
        }
        return String::new();
    }
    let mut last: usize = mapped.len();
    while last > start && (mapped[last - 1] == '.' || mapped[last - 1] == ' ')
        invariant
            start <= last <= mapped@.len(),
            forall|j: int| last <= j < mapped@.len() ==> is_trim(#[trigger] mapped@[j]),
            !is_trim(mapped@[start as int]),
        decreases last,
    {
        last -= 1;
    }
    proof {
        lemma_back_trim_shape(m);
        assert(last > start);
        assert(m.len() - back_trim(m) == last) by {
            if m.len() - back_trim(m) < last {
                assert(is_trim(m[last - 1]));
            }
            if m.len() - back_trim(m) > last {
                assert(is_trim(m[m.len() - back_trim(m) - 1]));
            }
        }
    }
    let ghost t = trim_spec(m);
    // cut to the byte budget
    proof {
        assert(t == m.subrange(start as int, last as int));
        lemma_fit_count_shape(t, 100);
    }
    let mut out: Vec<char> = Vec::new();
    let mut used: usize = 0;
    let mut k = start;
    while k < last && used + char_width(mapped[k]) <= 100
        invariant
            start <= k <= last <= mapped@.len(),
            t == m.subrange(start as int, last as int),
            out@ == t.take(k - start),
            used == utf8_len_seq(t.take(k - start)),
            used <= 100,
            k - start <= fit_count(t, 100),
        decreases last - k,
    {
        let c = mapped[k];
        out.push(c);
        let w = char_width(c);
        proof {
            assert(t[k - start] == mapped@[k as int]);
            lemma_take_snoc_utf8(t, k - start);
            lemma_fit_step(t, k - start, 100);
            assert(out@ =~= t.take(k - start + 1));
        }
        used = used + w;
        k += 1;
    }
    proof {
        lemma_fit_count_shape(t, 100);
        if k < last {
            // the next character would overflow the budget
            assert(t[k - start] == mapped@[k as int]);
            lemma_take_snoc_utf8(t, k - start);
            lemma_utf8_nonneg_pub(t, k - start + 1);
            assert(utf8_len_seq(t) > 100);
            lemma_fit_stop(t, k - start, 100);
            assert(out@ == sanitize_spec(name@));
        } else {
            assert(k - start == t.len());
            assert(t.take(t.len() as int) =~= t);
            assert(out@ == t);
            if utf8_len_seq(t) <= 100 {
                assert(out@ == sanitize_spec(name@));
            } else {
                assert(used == utf8_len_seq(t));
                assert(false);
            }
        }
    }
    let mut s = String::new();
    let mut j: usize = 0;
    while j < out.len()
        invariant
            j <= out@.len(),
            s@ == out@.take(j as int),
        decreases out@.len() - j,
    {
        crate::strutil::push_char(&mut s, out[j]);
        proof {
            assert(out@.take(j + 1) =~= out@.take(j as int).push(out@[j as int]));
        }
        j += 1;
    }
    proof {
        assert(out@.take(out@.len() as int) =~= out@);
    }
    s
}

/// The UTF-8 width of one character, computed.
fn char_width(c: char) -> (r: usize)
    ensures
        r == utf8_len(c),
        1 <= r <= 4,
{
    let u = c as u32;
    if u < 0x80 {
        1
    } else if u < 0x800 {
        2
    } else if u < 0x10000 {
        3
    } else {
        4
    }
}

/// An exec scan that stops at the first non-trim character counts exactly
/// the leading trim run.
proof fn lemma_trim_counts_agree(s: Seq<char>, start: int)
    requires
        0 <= start <= s.len(),
        forall|j: int| 0 <= j < start ==> is_trim(#[trigger] s[j]),
        start < s.len() ==> !is_trim(s[start]),
    ensures
        front_trim(s) == start,
{
    lemma_front_trim_shape(s);
    if front_trim(s) < start {
        assert(is_trim(s[front_trim(s)]));
    }
    if front_trim(s) > start {
        assert(is_trim(s[start]));
    }
}

/// Appending one character adds its width.
proof fn lemma_take_snoc_utf8(s: Seq<char>, k: int)
    requires
        0 <= k < s.len(),
    ensures
        utf8_len_seq(s.take(k + 1)) == utf8_len_seq(s.take(k)) + utf8_len(s[k]),
    decreases k,
{
    if k == 0 {
        assert(s.take(1)[0] == s[0]);
        assert(s.take(1).skip(1).len() == 0);
        assert(s.take(0).len() == 0);
        assert(utf8_len_seq(s.take(1)) == utf8_len(s.take(1)[0]) + utf8_len_seq(
            s.take(1).skip(1),
        ));
    } else {
        lemma_take_snoc_utf8(s.skip(1), k - 1);
        assert(s.take(k + 1)[0] == s[0]);
        assert(s.take(k + 1).skip(1) =~= s.skip(1).take(k));
        assert(s.take(k)[0] == s[0]);
        assert(s.take(k).skip(1) =~= s.skip(1).take(k - 1));
        assert(s.skip(1)[k - 1] == s[k]);
        assert(utf8_len_seq(s.take(k + 1)) == utf8_len(s.take(k + 1)[0]) + utf8_len_seq(
            s.take(k + 1).skip(1),
        ));
        assert(utf8_len_seq(s.take(k)) == utf8_len(s.take(k)[0]) + utf8_len_seq(
            s.take(k).skip(1),
        ));
    }
}

/// While the budget admits the next character, the fit count lies beyond.
proof fn lemma_fit_step(s: Seq<char>, k: int, budget: int)
    requires
        0 <= k < s.len(),
        budget >= 0,
        utf8_len_seq(s.take(k)) + utf8_len(s[k]) <= budget,
        k <= fit_count(s, budget),
    ensures
        k + 1 <= fit_count(s, budget),
    decreases k,
{
    if k == 0 {
        assert(s.take(0).len() == 0);
        assert(utf8_len(s[0]) <= budget);
        lemma_fit_count_shape(s.skip(1), budget - utf8_len(s[0]));
    } else {
        assert(s.take(k)[0] == s[0]);
        assert(s.take(k).skip(1) =~= s.skip(1).take(k - 1));
        assert(s.skip(1)[k - 1] == s[k]);
        assert(utf8_len_seq(s.take(k)) == utf8_len(s.take(k)[0]) + utf8_len_seq(
            s.take(k).skip(1),
        ));
        lemma_fit_step(s.skip(1), k - 1, budget - utf8_len(s[0]));
    }
}

/// When the next character overflows the budget, the fit count stops here.
proof fn lemma_fit_stop(s: Seq<char>, k: int, budget: int)
    requires
        0 <= k < s.len(),
        budget >= 0,
        utf8_len_seq(s.take(k)) + utf8_len(s[k]) > budget,
        k <= fit_count(s, budget),
    ensures
        fit_count(s, budget) == k,
    decreases k,
{
    if k == 0 {
        assert(s.take(0).len() == 0);
    } else {
        assert(s.take(k)[0] == s[0]);
        assert(s.take(k).skip(1) =~= s.skip(1).take(k - 1));
        assert(s.skip(1)[k - 1] == s[k]);
        assert(utf8_len_seq(s.take(k)) == utf8_len(s.take(k)[0]) + utf8_len_seq(
            s.take(k).skip(1),
        ));
        lemma_fit_stop(s.skip(1), k - 1, budget - utf8_len(s[0]));
    }
}

/// The widths of a whole sequence.
proof fn lemma_utf8_total(s: Seq<char>)
    ensures
        utf8_len_seq(s.take(s.len() as int)) == utf8_len_seq(s),
{
    assert(s.take(s.len() as int) =~= s);
}

/// A sanitized name never carries a forbidden character, and it fits in
/// one hundred bytes of UTF-8 taken at a character boundary. When no cut
/// was needed, its ends carry no trim characters either.
pub proof fn lemma_sanitize_safe(s: Seq<char>)
    ensures
        forall|j: int|
            0 <= j < sanitize_spec(s).len() ==> !is_forbidden(#[trigger] sanitize_spec(s)[j]),
        utf8_len_seq(sanitize_spec(s)) <= 100,
        utf8_len_seq(trim_spec(map_safe(s))) <= 100 && sanitize_spec(s).len() > 0 ==> !is_trim(
            sanitize_spec(s)[0],
        ) && !is_trim(sanitize_spec(s)[sanitize_spec(s).len() - 1]),
{
    let m = map_safe(s);
    let t = trim_spec(m);
    lemma_front_trim_shape(m);
    lemma_back_trim_shape(m);
    assert(forall|j: int| 0 <= j < m.len() ==> !is_forbidden(#[trigger] m[j]));
    assert(forall|j: int| 0 <= j < t.len() ==> t[j] == m[j + front_trim(m)]);
    lemma_fit_count_shape(t, 100);
    lemma_utf8_nonneg_pub(t, fit_count(t, 100));
    if utf8_len_seq(t) <= 100 {
        assert(sanitize_spec(s) == t);
        if t.len() > 0 {
            assert(!is_trim(m[front_trim(m)]));
            assert(t[0] == m[front_trim(m)]);
            assert(back_trim(m) < m.len());
            assert(!is_trim(m[m.len() - back_trim(m) - 1]));
            assert(t[t.len() - 1] == m[m.len() - back_trim(m) - 1]);
        }
    } else {
        assert(sanitize_spec(s) == t.take(fit_count(t, 100)));
        assert(forall|j: int|
            0 <= j < fit_count(t, 100) ==> t.take(fit_count(t, 100))[j] == #[trigger] t[j]);
    }
}

/// Widths accumulate monotonically along prefixes.
pub proof fn lemma_utf8_nonneg_pub(s: Seq<char>, k: int)
    requires
        0 <= k <= s.len(),
    ensures
        utf8_len_seq(s.take(k)) <= utf8_len_seq(s),
        utf8_len_seq(s) >= 0,
    decreases s.len(),
{
    if s.len() == 0 {
        assert(s.take(k).len() == 0);
    } else if k == 0 {
        assert(s.take(0).len() == 0);
        lemma_utf8_nonneg_pub(s.skip(1), 0);
    } else {
        assert(s.take(k)[0] == s[0]);
        assert(s.take(k).skip(1) =~= s.skip(1).take(k - 1));
        lemma_utf8_nonneg_pub(s.skip(1), k - 1);
    }
}

} // verus!
