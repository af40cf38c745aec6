//! Reading the header of an HTTP request one byte at a time: the bytes are
//! cut into lines at each `\n`, and the header ends with the first line that
//! is blank once trimmed.

use vstd::prelude::*;
use crate::line::{trim_bytes, trimmed_bounds};

verus! {

/// What has been read of a header: the completed lines (each with its
/// `\n`), the line being read, and whether the blank line has been seen.
pub struct HeaderState {
    pub lines: Seq<Seq<u8>>,
    pub pending: Seq<u8>,
    pub done: bool,
}

/// The line is empty once white space is trimmed off.
pub open spec fn is_blank(line: Seq<u8>) -> bool {
    trim_bytes(line).len() == 0
}

/// One byte read: a `\n` completes the pending line, which ends the header
/// if it is blank.
pub open spec fn step(st: HeaderState, b: u8) -> HeaderState {
    if b == 10 {
        let l = st.pending.push(b);
        HeaderState { lines: st.lines.push(l), pending: Seq::empty(), done: is_blank(l) }
    } else {
        HeaderState { lines: st.lines, pending: st.pending.push(b), done: false }
    }
}

/// The state after reading `bytes` from the start; bytes that follow the end
/// of the header are left unread.
pub open spec fn read_header(bytes: Seq<u8>) -> HeaderState
    decreases bytes.len(),
{
    if bytes.len() == 0 {
        HeaderState { lines: Seq::empty(), pending: Seq::empty(), done: false }
    } else {
        let st = read_header(bytes.drop_last());
        if st.done {
            st
        } else {
            step(st, bytes.last())
        }
    }
}

/// The lines joined back together.
pub open spec fn join_lines(lines: Seq<Seq<u8>>) -> Seq<u8>
    decreases lines.len(),
{
    if lines.len() == 0 {
        Seq::empty()
    } else {
        join_lines(lines.drop_last()) + lines.last()
    }
}

/// A complete line: it ends with its only `\n`.
pub open spec fn is_complete_line(l: Seq<u8>) -> bool {
    &&& l.len() > 0
    &&& l.last() == 10
    &&& forall|k: int| 0 <= k < l.len() - 1 ==> #[trigger] l[k] != 10
}

/// The reading of a header cuts what it read into complete lines, none blank
/// but the last, and a pending rest without `\n`; joined, they are exactly
/// the bytes read up to the end of the header; the header has ended exactly
/// when its last line is blank.
pub proof fn lemma_header_lines(bytes: Seq<u8>)
    ensures
        ({
            let st = read_header(bytes);
            &&& forall|i: int| 0 <= i < st.lines.len() ==> is_complete_line(#[trigger] st.lines[i])
            &&& forall|i: int| 0 <= i < st.lines.len() - 1 ==> !is_blank(#[trigger] st.lines[i])
            &&& forall|k: int| 0 <= k < st.pending.len() ==> #[trigger] st.pending[k] != 10
            &&& st.done <==> (st.lines.len() > 0 && is_blank(st.lines.last()))
            &&& st.done ==> st.pending.len() == 0
            &&& join_lines(st.lines).len() + st.pending.len() <= bytes.len()
            &&& join_lines(st.lines) + st.pending == bytes.take(
                (join_lines(st.lines).len() + st.pending.len()) as int,
            )
            &&& !st.done ==> join_lines(st.lines) + st.pending == bytes
        }),
    decreases bytes.len(),
{
    if bytes.len() > 0 {
        let prev = bytes.drop_last();
        lemma_header_lines(prev);
        let st0 = read_header(prev);
        let st = read_header(bytes);
        if !st0.done {
            let b = bytes.last();
            assert(join_lines(st0.lines) + st0.pending == prev);
            assert(bytes =~= prev.push(b));
            if b == 10 {
                let l = st0.pending.push(b);
                assert(st.lines.drop_last() =~= st0.lines);
                assert(join_lines(st.lines) =~= join_lines(st0.lines) + l);
                assert forall|k: int| 0 <= k < l.len() - 1 implies #[trigger] l[k] != 10 by {
                    assert(l[k] == st0.pending[k]);
                }
                assert forall|i: int| 0 <= i < st.lines.len() implies is_complete_line(
                    #[trigger] st.lines[i],
                ) by {
                    if i < st0.lines.len() {
                        assert(st.lines[i] == st0.lines[i]);
                    }
                }
                assert forall|i: int| 0 <= i < st.lines.len() - 1 implies !is_blank(
                    #[trigger] st.lines[i],
                ) by {
                    assert(st.lines[i] == st0.lines[i]);
                }
                assert(join_lines(st.lines) + st.pending =~= bytes);
            } else {
                assert forall|k: int| 0 <= k < st.pending.len() implies #[trigger] st.pending[k]
                    != 10 by {
                    if k < st0.pending.len() {
                        assert(st.pending[k] == st0.pending[k]);
                    }
                }
                assert(join_lines(st.lines) + st.pending =~= bytes);
            }
            assert(bytes.take(bytes.len() as int) =~= bytes);
        } else {
            let n = (join_lines(st0.lines).len() + st0.pending.len()) as int;
            assert(prev.take(n) =~= bytes.take(n));
        }
    }
}

/// A header being read, one byte at a time.
pub struct HeaderReader {
    lines: Vec<Vec<u8>>,
    pending: Vec<u8>,
    done: bool,
}

impl View for HeaderReader {
    type V = HeaderState;

    closed spec fn view(&self) -> HeaderState {
        HeaderState {
            lines: Seq::new(self.lines@.len(), |i: int| self.lines@[i]@),
            pending: self.pending@,
            done: self.done,
        }
    }
}

impl HeaderReader {
    /// A reader that has read nothing.
    pub fn new() -> (r: Self)
        ensures
            r@ == read_header(Seq::empty()),
    {
        let r = HeaderReader { lines: Vec::new(), pending: Vec::new(), done: false };
        assert(r@.lines =~= Seq::<Seq<u8>>::empty());
        r
    }

    /// Takes in the next byte of the request; tells whether the header has
    /// now ended.
    pub fn feed(&mut self, b: u8) -> (finished: bool)
        requires
            !old(self)@.done,
        ensures
            final(self)@ == step(old(self)@, b),
            finished == final(self)@.done,
    {
        self.pending.push(b);
        if b == 10 {
            let (lo, hi) = trimmed_bounds(&self.pending, 0, self.pending.len());
            assert(self.pending@.subrange(0, self.pending@.len() as int) =~= self.pending@);
            let mut line: Vec<u8> = Vec::new();
            std::mem::swap(&mut line, &mut self.pending);
            let ghost before = self.lines@;
            self.lines.push(line);
            self.done = lo == hi;
            assert(self@.lines =~= old(self)@.lines.push(old(self)@.pending.push(b)));
        }
        self.done
    }

    /// Whether the blank line that ends the header has been read.
    pub fn is_done(&self) -> (d: bool)
        ensures
            d == self@.done,
    {
        self.done
    }

    /// The completed lines so far, each with its `\n`.
    pub fn lines(&self) -> (lines: &Vec<Vec<u8>>)
        ensures
            lines@.len() == self@.lines.len(),
            forall|i: int| 0 <= i < lines@.len() ==> #[trigger] lines@[i]@ == self@.lines[i],
    {
        &self.lines
    }

    /// The completed lines, each with its `\n`.
    pub fn into_lines(self) -> (lines: Vec<Vec<u8>>)
        ensures
            lines@.len() == self@.lines.len(),
            forall|i: int| 0 <= i < lines@.len() ==> #[trigger] lines@[i]@ == self@.lines[i],
    {
        self.lines
    }
}

} // verus!
