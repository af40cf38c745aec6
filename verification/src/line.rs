//! Request lines as raw bytes.  A line read off the wire keeps one
//! character per byte (the byte's Latin-1 character), so its text is fully
//! described by the bytes: this module states trimming, searching, UTF-8
//! offsets and integer parsing of such lines directly over bytes.

use vstd::prelude::*;
use crate::seqs::{
    contains_block, index_of, lemma_index_of_first, lemma_split_first, lemma_trim_bounds, split_by,
    trim_by,
};

verus! {

/// Bytes whose Latin-1 character is Unicode `White_Space`.
pub open spec fn is_space_byte(b: u8) -> bool {
    (9 <= b <= 13) || b == 32 || b == 0x85 || b == 0xA0
}

/// The line with white space removed at both ends.
pub open spec fn trim_bytes(s: Seq<u8>) -> Seq<u8> {
    trim_by(s, |b: u8| is_space_byte(b))
}

/// Length of the UTF-8 encoding of a byte's Latin-1 character.
pub open spec fn utf8_width(b: u8) -> int {
    if b < 128 {
        1
    } else {
        2
    }
}

/// The index of the character that starts at UTF-8 byte offset `off` of the
/// line's text (the line's length when `off` is the end), or `None` where
/// `off` lies past the end or inside a character.
pub open spec fn index_at_utf8_offset(s: Seq<u8>, off: int) -> Option<int>
    decreases s.len(),
{
    if off == 0 {
        Some(0)
    } else if s.len() == 0 || off < utf8_width(s[0]) {
        None
    } else {
        match index_at_utf8_offset(s.drop_first(), off - utf8_width(s[0])) {
            Some(k) => Some(k + 1),
            None => None,
        }
    }
}

pub open spec fn is_digit_byte(b: u8) -> bool {
    48 <= b <= 57
}

/// A non-empty run of ASCII digits.
pub open spec fn is_digit_run(s: Seq<u8>) -> bool {
    s.len() > 0 && forall|k: int| 0 <= k < s.len() ==> is_digit_byte(#[trigger] s[k])
}

/// The number written by a run of ASCII digits.
pub open spec fn digit_run_value(s: Seq<u8>) -> int
    decreases s.len(),
{
    if s.len() == 0 {
        0
    } else {
        10 * digit_run_value(s.drop_last()) + (s.last() - 48)
    }
}

/// The `i32` written by `s`: an optional sign, then digits, the value within
/// range; `None` for anything else.
pub open spec fn i32_of(s: Seq<u8>) -> Option<i32> {
    let signed = s.len() > 0 && (s[0] == 43 || s[0] == 45);
    let digits = if signed {
        s.drop_first()
    } else {
        s
    };
    let value = if signed && s[0] == 45 {
        -digit_run_value(digits)
    } else {
        digit_run_value(digits)
    };
    if is_digit_run(digits) && i32::MIN <= value <= i32::MAX {
        Some(value as i32)
    } else {
        None
    }
}

/// Over a prefix of single-byte characters, UTF-8 offsets and character
/// positions agree.
pub proof fn lemma_ascii_offset(s: Seq<u8>, n: int)
    requires
        0 <= n <= s.len(),
        forall|k: int| 0 <= k < n ==> #[trigger] s[k] < 128,
    ensures
        index_at_utf8_offset(s, n) == Some(n),
    decreases n,
{
    if n > 0 {
        let t = s.drop_first();
        assert forall|k: int| 0 <= k < n - 1 implies #[trigger] t[k] < 128 by {
            assert(t[k] == s[k + 1]);
        }
        lemma_ascii_offset(t, n - 1);
    }
}

pub proof fn lemma_digit_run_value_nonneg(s: Seq<u8>)
    requires
        forall|k: int| 0 <= k < s.len() ==> is_digit_byte(#[trigger] s[k]),
    ensures
        digit_run_value(s) >= 0,
    decreases s.len(),
{
    if s.len() > 0 {
        let t = s.drop_last();
        assert forall|k: int| 0 <= k < t.len() implies is_digit_byte(#[trigger] t[k]) by {
            assert(t[k] == s[k]);
        }
        lemma_digit_run_value_nonneg(t);
    }
}

pub fn is_space(b: u8) -> (r: bool)
    ensures
        r == is_space_byte(b),
{
    (9 <= b && b <= 13) || b == 32 || b == 0x85 || b == 0xA0
}

/// The bounds of `s[lo..hi]` once trimmed.
pub fn trimmed_bounds(s: &Vec<u8>, lo: usize, hi: usize) -> (r: (usize, usize))
    requires
        lo <= hi <= s@.len(),
    ensures
        lo <= r.0 <= r.1 <= hi,
        trim_bytes(s@.subrange(lo as int, hi as int)) == s@.subrange(r.0 as int, r.1 as int),
{
    let mut i = lo;
    while i < hi && is_space(s[i])
        invariant
            lo <= i <= hi <= s@.len(),
            forall|k: int| lo <= k < i ==> is_space_byte(#[trigger] s@[k]),
        decreases hi - i,
    {
        i = i + 1;
    }
    let mut j = hi;
    while j > i && is_space(s[j - 1])
        invariant
            lo <= i <= j <= hi <= s@.len(),
            forall|k: int| j <= k < hi ==> is_space_byte(#[trigger] s@[k]),
        decreases j,
    {
        j = j - 1;
    }
    let ghost t = s@.subrange(lo as int, hi as int);
    proof {
        let p = |b: u8| is_space_byte(b);
        assert forall|k: int| 0 <= k < i - lo implies p(#[trigger] t[k]) by {
            assert(t[k] == s@[k + lo]);
        }
        assert forall|k: int| j - lo <= k < t.len() implies p(#[trigger] t[k]) by {
            assert(t[k] == s@[k + lo]);
        }
        if i < hi {
            assert(t[i - lo] == s@[i as int]);
        }
        if i < j {
            assert(t[j - lo - 1] == s@[j - 1]);
        }
        lemma_trim_bounds(t, p, i - lo, j - lo);
        assert(t.subrange(i - lo, j - lo) =~= s@.subrange(i as int, j as int));
    }
    (i, j)
}

/// Whether `needle` occurs in `hay` as a contiguous block.
pub fn contains_bytes(hay: &Vec<u8>, needle: &[u8]) -> (r: bool)
    ensures
        r == contains_block(hay@, needle@),
{
    let n = needle.len();
    if n > hay.len() {
        return false;
    }
    let hl = hay.len();
    let mut i: usize = 0;
    while i <= hl - n
        invariant
            n == needle@.len(),
            hl == hay@.len(),
            n <= hay@.len(),
            i <= hay@.len() - n + 1,
            forall|k: int| 0 <= k < i ==> #[trigger] hay@.subrange(k, k + n) != needle@,
        decreases hay@.len() - i,
    {
        let mut j: usize = 0;
        let mut same = true;
        while same && j < n
            invariant
                n == needle@.len(),
                hl == hay@.len(),
                i + n <= hl,
                j <= n,
                forall|m: int| 0 <= m < j ==> hay@[i + m] == needle@[m],
                !same ==> j < n && hay@[i + j] != needle@[j as int],
            decreases n - j, if same { 1int } else { 0int },
        {
            if hay[i + j] != needle[j] {
                same = false;
            } else {
                j = j + 1;
            }
        }
        if same {
            assert(hay@.subrange(i as int, i + n) =~= needle@);
            return true;
        }
        assert(hay@.subrange(i as int, i + n)[j as int] != needle@[j as int]);
        i = i + 1;
    }
    proof {
        assert forall|k: int| 0 <= k <= hay@.len() - n implies #[trigger] hay@.subrange(k, k + n)
            != needle@ by {
            assert(k < i);
        }
    }
    false
}

fn width_of(b: u8) -> (w: usize)
    ensures
        w == utf8_width(b),
{
    if b < 128 {
        1
    } else {
        2
    }
}

/// The position in `s[lo..hi]` of the character that starts at UTF-8 byte
/// offset `off` of that text.
pub fn index_at_offset(s: &Vec<u8>, lo: usize, hi: usize, off: usize) -> (r: Option<usize>)
    requires
        lo <= hi <= s@.len(),
    ensures
        (r is Some) == (index_at_utf8_offset(s@.subrange(lo as int, hi as int), off as int) is Some),
        r matches Some(k) ==> lo <= k <= hi && k == lo + index_at_utf8_offset(
            s@.subrange(lo as int, hi as int),
            off as int,
        )->0,
{
    let mut k = lo;
    let mut rem = off;
    while rem > 0 && k < hi && width_of(s[k]) <= rem
        invariant
            lo <= k <= hi <= s@.len(),
            index_at_utf8_offset(s@.subrange(lo as int, hi as int), off as int) == match index_at_utf8_offset(
                s@.subrange(k as int, hi as int),
                rem as int,
            ) {
                Some(m) => Some(m + (k - lo)),
                None => None::<int>,
            },
        decreases hi - k,
    {
        let w: usize = width_of(s[k]);
        assert(s@.subrange(k as int, hi as int).drop_first() =~= s@.subrange(k + 1, hi as int));
        rem = rem - w;
        k = k + 1;
    }
    if rem == 0 {
        Some(k)
    } else {
        None
    }
}

/// The `i32` written by `s[lo..hi]`.
pub fn parse_i32(s: &Vec<u8>, lo: usize, hi: usize) -> (r: Option<i32>)
    requires
        lo <= hi <= s@.len(),
    ensures
        r == i32_of(s@.subrange(lo as int, hi as int)),
{
    let ghost t = s@.subrange(lo as int, hi as int);
    let signed = lo < hi && (s[lo] == 43 || s[lo] == 45);
    let negative = signed && s[lo] == 45;
    let start = if signed { lo + 1 } else { lo };
    let ghost d = s@.subrange(start as int, hi as int);
    proof {
        if lo < hi {
            assert(t[0] == s@[lo as int]);
        }
        if signed {
            assert(t.drop_first() =~= d);
        } else {
            assert(t =~= d);
        }
    }
    if start == hi {
        return None;
    }
    // the value of the digits read so far, or `cap` once it passes 2^31
    let cap: u64 = 2147483649;
    let mut capped: u64 = 0;
    let mut k = start;
    while k < hi
        invariant
            lo <= start <= k <= hi <= s@.len(),
            cap == 2147483649,
            d == s@.subrange(start as int, hi as int),
            t == s@.subrange(lo as int, hi as int),
            signed == (lo < hi && (s@[lo as int] == 43 || s@[lo as int] == 45)),
            start == if signed { lo + 1 } else { lo as int },
            forall|m: int| start <= m < k ==> is_digit_byte(#[trigger] s@[m]),
            capped <= cap,
            capped < cap ==> capped == digit_run_value(s@.subrange(start as int, k as int)),
            capped == cap ==> digit_run_value(s@.subrange(start as int, k as int)) >= cap,
        decreases hi - k,
    {
        let c = s[k];
        if !(48 <= c && c <= 57) {
            proof {
                assert(!is_digit_byte(d[k - start]));
                if lo < hi {
                    assert(t[0] == s@[lo as int]);
                }
                if signed {
                    assert(t.drop_first() =~= d);
                } else {
                    assert(t =~= d);
                }
            }
            return None;
        }
        let ghost prev = s@.subrange(start as int, k as int);
        let ghost next = s@.subrange(start as int, k + 1);
        assert(next.drop_last() =~= prev);
        assert(next.last() == c);
        proof {
            lemma_digit_run_value_nonneg(prev);
        }
        if capped < cap {
            let v = capped * 10 + (c - 48) as u64;
            capped = if v > cap { cap } else { v };
        }
        k = k + 1;
    }
    assert(d =~= s@.subrange(start as int, k as int));
    if negative {
        if capped <= 2147483648 {
            Some((0 - capped as i64) as i32)
        } else {
            None
        }
    } else {
        if capped <= 2147483647 {
            Some(capped as i32)
        } else {
            None
        }
    }
}

/// Position of the first line in which `needle` occurs, or -1 when none.
pub open spec fn first_line_containing(lines: Seq<Seq<u8>>, needle: Seq<u8>) -> int
    decreases lines.len(),
{
    if lines.len() == 0 {
        -1
    } else if contains_block(lines[0], needle) {
        0
    } else {
        let k = first_line_containing(lines.drop_first(), needle);
        if k < 0 {
            -1
        } else {
            k + 1
        }
    }
}

/// The pieces of a line between single spaces.
pub open spec fn words(s: Seq<u8>) -> Seq<Seq<u8>> {
    split_by(s, 32u8)
}

/// The first two pieces of a line joined by a space, or the first piece
/// alone when the line has no space.
pub open spec fn leading_two_words(s: Seq<u8>) -> Seq<u8> {
    if words(s).len() >= 2 {
        words(s)[0] + seq![32u8] + words(s)[1]
    } else {
        words(s)[0]
    }
}

/// The leading two words of a line are the line up to its first space
/// when it has no other (or to its end), and up to its second space
/// otherwise; a line without a space is one word, kept whole.  Returned:
/// the first space (-1 when none) and where the leading words end.
pub proof fn lemma_leading_words_span(s: Seq<u8>) -> (r: (int, int))
    ensures
        leading_two_words(s) == s.take(r.1),
        r.0 == -1 ==> r.1 == s.len() && words(s).len() == 1 && forall|k: int|
            0 <= k < s.len() ==> #[trigger] s[k] != 32,
        r.0 != -1 ==> {
            &&& 0 <= r.0 < r.1 <= s.len()
            &&& words(s).len() >= 2
            &&& s[r.0] == 32
            &&& forall|k: int| 0 <= k < r.0 ==> #[trigger] s[k] != 32
            &&& forall|k: int| r.0 < k < r.1 ==> #[trigger] s[k] != 32
            &&& (r.1 == s.len() || s[r.1] == 32)
        },
{
    let a = index_of(s, 32u8);
    lemma_index_of_first(s, 32u8);
    if a == -1 {
        lemma_split_first(s, 32u8, s.len() as int);
        assert(s.take(s.len() as int) =~= s);
        (-1, s.len() as int)
    } else {
        lemma_split_first(s, 32u8, a);
        let u = s.skip(a + 1);
        let c = index_of(u, 32u8);
        lemma_index_of_first(u, 32u8);
        let b = if c == -1 {
            s.len() as int
        } else {
            a + 1 + c
        };
        assert forall|k: int| 0 <= k < b - a - 1 implies #[trigger] u[k] != 32 by {}
        if b < s.len() {
            assert(u[b - a - 1] == s[b]);
        }
        lemma_split_first(u, 32u8, b - a - 1);
        let parts = split_by(s, 32u8);
        assert(parts[1] == parts.drop_first()[0]);
        assert(s.take(a) + seq![32u8] + u.take(b - a - 1) =~= s.take(b));
        assert forall|k: int| a < k < b implies #[trigger] s[k] != 32 by {
            assert(s[k] == u[k - a - 1]);
        }
        (a, b)
    }
}

/// The leading two words of a line are a given two-word text `w` (one space,
/// not at either end) exactly when the line starts with `w` followed by a
/// space or by its end.
pub proof fn lemma_leading_words_are(s: Seq<u8>, w: Seq<u8>, sp: int)
    requires
        0 < sp < w.len() - 1,
        w[sp] == 32,
        forall|k: int| 0 <= k < w.len() && k != sp ==> #[trigger] w[k] != 32,
    ensures
        leading_two_words(s) == w <==> (s.len() >= w.len() && s.take(w.len() as int) == w && (
        s.len() == w.len() || s[w.len() as int] == 32)),
{
    let (a, b) = lemma_leading_words_span(s);
    let n = w.len() as int;
    if leading_two_words(s) == w {
        if a == -1 {
            assert(s.take(b)[sp] == s[sp]);
            assert(false);
        }
        assert(s.take(b).len() == b);
        assert(b == n);
    }
    if s.len() >= n && s.take(n) == w && (s.len() == n || s[n] == 32) {
        assert(s[sp] == s.take(n)[sp]);
        assert(a != -1);
        assert forall|k: int| 0 <= k < sp implies #[trigger] s[k] != 32 by {
            assert(s[k] == s.take(n)[k]);
        }
        if a < sp {
            assert(s[a] == s.take(n)[a]);
        }
        assert(a == sp);
        if b < n {
            assert(s[b] == s.take(n)[b]);
        }
        if b > n {
            assert(s[n] != 32);
        }
        assert(b == n);
    }
}

/// Lines by their bytes.
pub open spec fn lines_view(lines: Seq<Vec<u8>>) -> Seq<Seq<u8>> {
    lines.map_values(|l: Vec<u8>| l@)
}

/// Position of the first line of `lines` in which `needle` occurs.
pub fn find_line_containing(lines: &Vec<Vec<u8>>, needle: &[u8]) -> (r: Option<usize>)
    ensures
        match r {
            Some(i) => i < lines@.len() && first_line_containing(
                lines_view(lines@),
                needle@,
            ) == i,
            None => first_line_containing(lines_view(lines@), needle@) == -1,
        },
{
    let ghost ls = lines_view(lines@);
    let mut i: usize = 0;
    assert(ls.skip(0) =~= ls);
    while i < lines.len()
        invariant
            i <= lines@.len(),
            ls == lines_view(lines@),
            first_line_containing(ls, needle@) == if first_line_containing(ls.skip(i as int), needle@) < 0 {
                -1
            } else {
                first_line_containing(ls.skip(i as int), needle@) + i
            },
        decreases lines@.len() - i,
    {
        assert(ls.skip(i as int)[0] == lines@[i as int]@);
        assert(ls.skip(i as int).drop_first() =~= ls.skip(i + 1));
        if contains_bytes(&lines[i], needle) {
            return Some(i);
        }
        i = i + 1;
    }
    None
}

/// A copy of `s[lo..hi]`.
pub fn copy_range(s: &Vec<u8>, lo: usize, hi: usize) -> (r: Vec<u8>)
    requires
        lo <= hi <= s@.len(),
    ensures
        r@ == s@.subrange(lo as int, hi as int),
{
    let mut r: Vec<u8> = Vec::new();
    let mut k = lo;
    while k < hi
        invariant
            lo <= k <= hi <= s@.len(),
            r@ == s@.subrange(lo as int, k as int),
        decreases hi - k,
    {
        r.push(s[k]);
        assert(s@.subrange(lo as int, k + 1) =~= s@.subrange(lo as int, k as int).push(s@[k as int]));
        k = k + 1;
    }
    r
}

/// The leading two words of `s[lo..hi]`, and whether that text has a space
/// at all.
pub fn leading_words(s: &Vec<u8>, lo: usize, hi: usize) -> (r: (Vec<u8>, bool))
    requires
        lo <= hi <= s@.len(),
    ensures
        r.0@ == leading_two_words(s@.subrange(lo as int, hi as int)),
        r.1 == (words(s@.subrange(lo as int, hi as int)).len() >= 2),
{
    let ghost t = s@.subrange(lo as int, hi as int);
    let mut a = lo;
    while a < hi && s[a] != 32
        invariant
            lo <= a <= hi <= s@.len(),
            forall|k: int| lo <= k < a ==> #[trigger] s@[k] != 32,
        decreases hi - a,
    {
        a = a + 1;
    }
    proof {
        assert forall|k: int| 0 <= k < a - lo implies #[trigger] t[k] != 32 by {
            assert(t[k] == s@[k + lo]);
        }
        if a < hi {
            assert(t[a - lo] == s@[a as int]);
        }
        lemma_split_first(t, 32u8, a - lo);
        assert(t.take(a - lo) =~= s@.subrange(lo as int, a as int));
    }
    if a == hi {
        return (copy_range(s, lo, a), false);
    }
    let mut b = a + 1;
    while b < hi && s[b] != 32
        invariant
            a < b <= hi <= s@.len(),
            forall|k: int| a < k < b ==> #[trigger] s@[k] != 32,
        decreases hi - b,
    {
        b = b + 1;
    }
    proof {
        let u = t.skip(a - lo + 1);
        assert forall|k: int| 0 <= k < b - a - 1 implies #[trigger] u[k] != 32 by {
            assert(u[k] == s@[k + a + 1]);
        }
        if b < hi {
            assert(u[b - a - 1] == s@[b as int]);
        }
        lemma_split_first(u, 32u8, b - a - 1);
        assert(u.take(b - a - 1) =~= s@.subrange(a + 1, b as int));
        let parts = split_by(t, 32u8);
        assert(parts[1] == parts.drop_first()[0]);
        assert(s@.subrange(lo as int, a as int) + seq![32u8] + s@.subrange(a + 1, b as int)
            =~= s@.subrange(lo as int, b as int));
    }
    (copy_range(s, lo, b), true)
}

/// Whether `a` and `b` hold the same bytes.
pub fn bytes_equal(a: &Vec<u8>, b: &[u8]) -> (r: bool)
    ensures
        r == (a@ == b@),
{
    if a.len() != b.len() {
        return false;
    }
    let mut i: usize = 0;
    while i < a.len()
        invariant
            i <= a@.len() == b@.len(),
            forall|k: int| 0 <= k < i ==> a@[k] == b@[k],
        decreases a@.len() - i,
    {
        if a[i] != b[i] {
            return false;
        }
        i = i + 1;
    }
    assert(a@ =~= b@);
    true
}

} // verus!
