//! Frame buffer: accumulates raw transport bytes and cuts them into
//! newline-delimited lines.
//!
//! The buffer owns every byte that has arrived but has not yet been consumed.
//! [`FrameBuffer::extract_lines`] removes every complete (newline-terminated)
//! line, so that afterwards the buffer holds at most one trailing partial
//! line.  No bound is placed on buffer growth: a peer that never sends a
//! newline makes the buffer grow without limit, which is an accepted resource
//! risk of the wire format rather than a defect.

use vstd::prelude::*;

verus! {

/// The line delimiter of the wire format.
pub const NEWLINE: u8 = 10;

/// True when the byte sequence holds at least one newline.
pub open spec fn contains_nl(s: Seq<u8>) -> bool {
    exists|i: int| 0 <= i < s.len() && s[i] == NEWLINE
}

/// Index of the first newline, counted from the left.
pub open spec fn first_nl(s: Seq<u8>) -> int
    recommends
        contains_nl(s),
    decreases s.len(),
{
    if s.len() == 0 {
        0
    } else if s[0] == NEWLINE {
        0
    } else {
        1 + first_nl(s.drop_first())
    }
}

/// `first_nl` really is the first newline: it is in bounds, it is a newline,
/// and nothing before it is one.
pub proof fn lemma_first_nl(s: Seq<u8>)
    requires
        contains_nl(s),
    ensures
        0 <= first_nl(s) < s.len(),
        s[first_nl(s)] == NEWLINE,
        forall|j: int| 0 <= j < first_nl(s) ==> s[j] != NEWLINE,
    decreases s.len(),
{
    if s.len() == 0 {
    } else if s[0] == NEWLINE {
    } else {
        assert(contains_nl(s.drop_first())) by {
            let i = choose|i: int| 0 <= i < s.len() && s[i] == NEWLINE;
            assert(s.drop_first()[i - 1] == NEWLINE);
        }
        lemma_first_nl(s.drop_first());
        assert forall|j: int| 0 <= j < first_nl(s) implies s[j] != NEWLINE by {
            if j >= 1 {
                assert(s[j] == s.drop_first()[j - 1]);
            }
        }
    }
}

/// An index that is a newline with none before it is the first newline.
pub proof fn lemma_first_nl_unique(s: Seq<u8>, k: int)
    requires
        0 <= k < s.len(),
        s[k] == NEWLINE,
        forall|j: int| 0 <= j < k ==> s[j] != NEWLINE,
    ensures
        contains_nl(s),
        first_nl(s) == k,
    decreases s.len(),
{
    if k == 0 {
    } else {
        assert(s.drop_first()[k - 1] == NEWLINE);
        assert(forall|j: int|
            0 <= j < k - 1 ==> s.drop_first()[j] == #[trigger] s[j + 1]);
        lemma_first_nl_unique(s.drop_first(), k - 1);
    }
}

/// The complete lines of a byte sequence: each newline ends one line, the
/// delimiter itself excluded.  Bytes after the last newline belong to no line.
pub open spec fn line_split(s: Seq<u8>) -> Seq<Seq<u8>>
    decreases s.len(),
    via line_split_decreases
{
    if !contains_nl(s) {
        seq![]
    } else {
        seq![s.take(first_nl(s))] + line_split(s.skip(first_nl(s) + 1))
    }
}

#[via_fn]
proof fn line_split_decreases(s: Seq<u8>) {
    if contains_nl(s) {
        lemma_first_nl(s);
    }
}

/// The trailing partial line: every byte after the last newline.
pub open spec fn line_rest(s: Seq<u8>) -> Seq<u8>
    decreases s.len(),
    via line_rest_decreases
{
    if !contains_nl(s) {
        s
    } else {
        line_rest(s.skip(first_nl(s) + 1))
    }
}

#[via_fn]
proof fn line_rest_decreases(s: Seq<u8>) {
    if contains_nl(s) {
        lemma_first_nl(s);
    }
}

/// Prepending bytes that hold a newline leaves the first newline in place.
proof fn lemma_first_nl_append(a: Seq<u8>, b: Seq<u8>)
    requires
        contains_nl(a),
    ensures
        contains_nl(a + b),
        first_nl(a + b) == first_nl(a),
{
    lemma_first_nl(a);
    let i = first_nl(a);
    assert((a + b)[i] == NEWLINE);
    assert(forall|j: int| 0 <= j < i ==> (a + b)[j] == #[trigger] a[j]);
    lemma_first_nl_unique(a + b, i);
}

/// Splitting distributes over concatenation: the lines of `a + b` are the
/// lines already complete in `a`, then the lines formed by the leftover of
/// `a` joined with `b`; the leftover of the whole is the leftover of that
/// join.  This is the heart of chunk-boundary invariance.
pub proof fn lemma_split_append(a: Seq<u8>, b: Seq<u8>)
    ensures
        line_split(a + b) == line_split(a) + line_split(line_rest(a) + b),
        line_rest(a + b) == line_rest(line_rest(a) + b),
    decreases a.len(),
{
    if !contains_nl(a) {
        assert(line_rest(a) + b =~= a + b);
        assert(line_split(a + b) =~= line_split(a) + line_split(line_rest(a) + b));
    } else {
        lemma_first_nl(a);
        let i = first_nl(a);
        lemma_first_nl_append(a, b);
        let a2 = a.skip(i + 1);
        assert((a + b).take(i) =~= a.take(i));
        assert((a + b).skip(i + 1) =~= a2 + b);
        lemma_split_append(a2, b);
        assert(line_split(a + b) == seq![a.take(i)] + line_split(a2 + b));
        assert(line_split(a) + line_split(line_rest(a) + b) =~= seq![a.take(i)] + (line_split(
            a2,
        ) + line_split(line_rest(a2) + b)));
        assert(seq![a.take(i)] + (line_split(a2) + line_split(line_rest(a2) + b)) =~= seq![
            a.take(i),
        ] + line_split(a2 + b));
    }
}

/// Find the first newline in the buffer, if any.
fn find_nl(v: &Vec<u8>) -> (r: Option<usize>)
    ensures
        match r {
            Some(i) => contains_nl(v@) && i == first_nl(v@) && i < v@.len() && v@.len()
                <= usize::MAX,
            None => !contains_nl(v@),
        },
{
    let n = v.len();
    let mut k: usize = 0;
    while k < n
        invariant
            0 <= k <= n == v@.len(),
            forall|j: int| 0 <= j < k ==> v@[j] != NEWLINE,
        decreases n - k,
    {
        if v[k] == NEWLINE {
            proof {
                lemma_first_nl_unique(v@, k as int);
            }
            return Some(k);
        }
        k += 1;
    }
    None
}

/// Accumulates raw bytes pulled from the transport and hands out the complete
/// lines among them, keeping any trailing partial line for the next pull.
pub struct FrameBuffer {
    data: Vec<u8>,
}

impl View for FrameBuffer {
    type V = Seq<u8>;

    closed spec fn view(&self) -> Seq<u8> {
        self.data@
    }
}

impl FrameBuffer {
    /// An empty buffer.
    pub fn new() -> (r: Self)
        ensures
            r@ == Seq::<u8>::empty(),
    {
        FrameBuffer { data: Vec::new() }
    }

    /// Append one transport chunk.  Appending never fails; the bytes simply
    /// wait until a newline completes their line.
    pub fn append(&mut self, chunk: &[u8])
        ensures
            final(self)@ == old(self)@ + chunk@,
    {
        self.data.extend_from_slice(chunk);
    }

    /// Remove and return every complete line, in arrival order and without
    /// their delimiters.  Afterwards the buffer holds exactly the bytes after
    /// the last newline.
    pub fn extract_lines(&mut self) -> (lines: Vec<Vec<u8>>)
        ensures
            lines.deep_view() == line_split(old(self)@),
            final(self)@ == line_rest(old(self)@),
            !contains_nl(final(self)@),
    {
        let ghost orig: Seq<u8> = self.data@;
        let mut lines: Vec<Vec<u8>> = Vec::new();
        proof {
            assert(lines.deep_view() + line_split(self.data@) =~~= line_split(orig));
        }
        loop
            invariant
                lines.deep_view() + line_split(self.data@) == line_split(orig),
                line_rest(self.data@) == line_rest(orig),
            ensures
                lines.deep_view() == line_split(orig),
                self.data@ == line_rest(orig),
                !contains_nl(self.data@),
            decreases self.data@.len(),
        {
            match find_nl(&self.data) {
                None => {
                    proof {
                        assert(lines.deep_view() =~~= lines.deep_view() + line_split(self.data@));
                    }
                    break ;
                },
                Some(i) => {
                    let ghost before: Seq<u8> = self.data@;
                    proof {
                        lemma_first_nl(before);
                    }
                    let mut line = self.data.split_off(i + 1);
                    core::mem::swap(&mut self.data, &mut line);
                    // line = bytes up to and including the newline; drop it
                    line.pop();
                    proof {
                        assert(line@ =~= before.take(i as int));
                        assert(self.data@ =~= before.skip(i + 1));
                    }
                    let ghost dv: Seq<Seq<u8>> = lines.deep_view();
                    lines.push(line);
                    proof {
                        assert(lines.deep_view() =~~= dv.push(before.take(i as int)));
                        assert(lines.deep_view() + line_split(self.data@) =~~= dv + line_split(
                            before,
                        ));
                    }
                },
            }
        }
        lines
    }
}

} // verus!
