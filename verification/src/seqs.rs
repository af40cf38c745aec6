//! Sequence-level definitions of trimming, searching and splitting, with the
//! facts that tie them to index computations.

use vstd::prelude::*;

verus! {

/// `s` without its leading elements that satisfy `p`.
pub open spec fn trim_start_by<A>(s: Seq<A>, p: spec_fn(A) -> bool) -> Seq<A>
    decreases s.len(),
{
    if s.len() > 0 && p(s[0]) {
        trim_start_by(s.drop_first(), p)
    } else {
        s
    }
}

/// `s` without its trailing elements that satisfy `p`.
pub open spec fn trim_end_by<A>(s: Seq<A>, p: spec_fn(A) -> bool) -> Seq<A>
    decreases s.len(),
{
    if s.len() > 0 && p(s.last()) {
        trim_end_by(s.drop_last(), p)
    } else {
        s
    }
}

/// `s` without its leading and trailing elements that satisfy `p`.
pub open spec fn trim_by<A>(s: Seq<A>, p: spec_fn(A) -> bool) -> Seq<A> {
    trim_end_by(trim_start_by(s, p), p)
}

/// Position of the first `x` in `s`, or -1 when `s` holds none.
pub open spec fn index_of<A>(s: Seq<A>, x: A) -> int
    decreases s.len(),
{
    if s.len() == 0 {
        -1
    } else if s[0] == x {
        0
    } else {
        let k = index_of(s.drop_first(), x);
        if k < 0 {
            -1
        } else {
            k + 1
        }
    }
}

/// The pieces of `s` between occurrences of `sep` (at least one piece, as
/// many as there are separators plus one).
pub open spec fn split_by<A>(s: Seq<A>, sep: A) -> Seq<Seq<A>>
    decreases s.len(),
{
    let i = index_of(s, sep);
    if 0 <= i < s.len() {
        seq![s.take(i)] + split_by(s.skip(i + 1), sep)
    } else {
        seq![s]
    }
}

/// `needle` occurs in `hay` as a contiguous block.
pub open spec fn contains_block<A>(hay: Seq<A>, needle: Seq<A>) -> bool {
    exists|i: int| 0 <= i <= hay.len() - needle.len() && #[trigger] hay.subrange(i, i + needle.len()) == needle
}

pub proof fn lemma_trim_start_skip<A>(s: Seq<A>, p: spec_fn(A) -> bool, i: int)
    requires
        0 <= i <= s.len(),
        forall|k: int| 0 <= k < i ==> p(#[trigger] s[k]),
        i == s.len() || !p(s[i]),
    ensures
        trim_start_by(s, p) == s.skip(i),
    decreases i,
{
    if i == 0 {
        assert(s.skip(0) =~= s);
    } else {
        let t = s.drop_first();
        assert forall|k: int| 0 <= k < i - 1 implies p(#[trigger] t[k]) by {
            assert(t[k] == s[k + 1]);
        }
        lemma_trim_start_skip(t, p, i - 1);
        assert(t.skip(i - 1) =~= s.skip(i));
    }
}

pub proof fn lemma_trim_end_take<A>(s: Seq<A>, p: spec_fn(A) -> bool, j: int)
    requires
        0 <= j <= s.len(),
        forall|k: int| j <= k < s.len() ==> p(#[trigger] s[k]),
        j == 0 || !p(s[j - 1]),
    ensures
        trim_end_by(s, p) == s.take(j),
    decreases s.len() - j,
{
    if j == s.len() {
        assert(s.take(j) =~= s);
    } else {
        let t = s.drop_last();
        assert(p(s[s.len() - 1]));
        assert forall|k: int| j <= k < t.len() implies p(#[trigger] t[k]) by {
            assert(t[k] == s[k]);
        }
        lemma_trim_end_take(t, p, j);
        assert(t.take(j) =~= s.take(j));
    }
}

/// Trimming `s` gives the block between the first and the last element that
/// fails `p`.
pub proof fn lemma_trim_bounds<A>(s: Seq<A>, p: spec_fn(A) -> bool, i: int, j: int)
    requires
        0 <= i <= j <= s.len(),
        forall|k: int| 0 <= k < i ==> p(#[trigger] s[k]),
        forall|k: int| j <= k < s.len() ==> p(#[trigger] s[k]),
        i == j || (!p(s[i]) && !p(s[j - 1])),
        i == j ==> (i == s.len() || !p(s[i])),
    ensures
        trim_by(s, p) == s.subrange(i, j),
{
    lemma_trim_start_skip(s, p, i);
    let t = s.skip(i);
    assert forall|k: int| j - i <= k < t.len() implies p(#[trigger] t[k]) by {
        assert(t[k] == s[k + i]);
    }
    if i < j {
        assert(t[j - i - 1] == s[j - 1]);
    }
    lemma_trim_end_take(t, p, j - i);
    assert(t.take(j - i) =~= s.subrange(i, j));
}

pub proof fn lemma_index_of_found<A>(s: Seq<A>, x: A, i: int)
    requires
        0 <= i < s.len(),
        s[i] == x,
        forall|k: int| 0 <= k < i ==> #[trigger] s[k] != x,
    ensures
        index_of(s, x) == i,
    decreases i,
{
    if i > 0 {
        let t = s.drop_first();
        assert forall|k: int| 0 <= k < i - 1 implies #[trigger] t[k] != x by {
            assert(t[k] == s[k + 1]);
        }
        lemma_index_of_found(t, x, i - 1);
    }
}

pub proof fn lemma_index_of_absent<A>(s: Seq<A>, x: A)
    requires
        forall|k: int| 0 <= k < s.len() ==> #[trigger] s[k] != x,
    ensures
        index_of(s, x) == -1,
    decreases s.len(),
{
    if s.len() > 0 {
        let t = s.drop_first();
        assert forall|k: int| 0 <= k < t.len() implies #[trigger] t[k] != x by {
            assert(t[k] == s[k + 1]);
        }
        lemma_index_of_absent(t, x);
    }
}

/// `index_of` gives the first position of `x`, or -1 exactly when `x` does
/// not occur.
pub proof fn lemma_index_of_first<A>(s: Seq<A>, x: A)
    ensures
        index_of(s, x) == -1 ==> forall|k: int| 0 <= k < s.len() ==> #[trigger] s[k] != x,
        index_of(s, x) != -1 ==> {
            &&& 0 <= index_of(s, x) < s.len()
            &&& s[index_of(s, x)] == x
            &&& forall|k: int| 0 <= k < index_of(s, x) ==> #[trigger] s[k] != x
        },
    decreases s.len(),
{
    if s.len() > 0 {
        let t = s.drop_first();
        lemma_index_of_first(t, x);
        assert forall|k: int| 0 < k < s.len() implies #[trigger] s[k] == t[k - 1] by {}
    }
}

/// The first piece of a split ends at the first separator.
pub proof fn lemma_split_first<A>(s: Seq<A>, sep: A, i: int)
    requires
        0 <= i <= s.len(),
        forall|k: int| 0 <= k < i ==> #[trigger] s[k] != sep,
        i == s.len() || s[i] == sep,
    ensures
        split_by(s, sep).len() >= 1,
        split_by(s, sep)[0] == s.take(i),
        i == s.len() ==> split_by(s, sep).len() == 1,
        i < s.len() ==> split_by(s, sep).drop_first() == split_by(s.skip(i + 1), sep),
{
    if i < s.len() {
        lemma_index_of_found(s, sep, i);
        assert((seq![s.take(i)] + split_by(s.skip(i + 1), sep)).drop_first() =~= split_by(
            s.skip(i + 1),
            sep,
        ));
    } else {
        lemma_index_of_absent(s, sep);
        assert(s.take(i) =~= s);
    }
}

} // verus!
