//! Splitting a byte stream that arrives in pieces into newline-terminated
//! lines, keeping a trailing partial line until the rest of it arrives.

use vstd::prelude::*;

verus! {

/// The newline byte.
pub const NEWLINE: u8 = 10;

/// The bytes of `lines` one after another.
pub open spec fn concat(lines: Seq<Seq<u8>>) -> Seq<u8>
    decreases lines.len(),
{
    if lines.len() == 0 {
        Seq::empty()
    } else {
        concat(lines.drop_last()) + lines.last()
    }
}

/// No byte of `s` is a newline.
pub open spec fn no_newline(s: Seq<u8>) -> bool {
    forall|i: int| 0 <= i < s.len() ==> s[i] != NEWLINE
}

/// A complete line: newline-terminated, with no other newline.
pub open spec fn is_line(l: Seq<u8>) -> bool {
    l.len() > 0 && l.last() == NEWLINE && no_newline(l.drop_last())
}

/// The byte contents of a vector of lines.
pub open spec fn line_views(v: Seq<Vec<u8>>) -> Seq<Seq<u8>> {
    v.map_values(|l: Vec<u8>| l@)
}

/// `lines` followed by `rest` is `input` cut at each newline.
pub open spec fn splits(input: Seq<u8>, lines: Seq<Seq<u8>>, rest: Seq<u8>) -> bool {
    &&& concat(lines) + rest == input
    &&& forall|k: int| 0 <= k < lines.len() ==> #[trigger] is_line(lines[k])
    &&& no_newline(rest)
}

proof fn lemma_concat_push(lines: Seq<Seq<u8>>, l: Seq<u8>)
    ensures
        concat(lines.push(l)) == concat(lines) + l,
{
    assert(lines.push(l).drop_last() =~= lines);
}

/// The outcome of one non-blocking read attempt on the stream.
#[derive(Debug)]
pub enum ReadOutcome {
    /// Some bytes arrived.
    Data(Vec<u8>),
    /// Nothing is available yet.
    WouldBlock,
    /// The peer closed the stream (a read of zero bytes).
    Closed,
    /// Any other read error.
    Failed,
}

/// A read failed for a reason other than "no data yet".
#[derive(Debug, Clone, Copy, PartialEq, Eq, Structural)]
pub enum ReadError {
    IoError,
}

/// Holds the bytes of a line whose newline has not arrived yet.
#[derive(Debug)]
pub struct IncrementalLineReader {
    pending: Vec<u8>,
}

impl View for IncrementalLineReader {
    type V = Seq<u8>;

    closed spec fn view(&self) -> Seq<u8> {
        self.pending@
    }
}

impl IncrementalLineReader {
    /// The buffered partial line holds no newline.
    pub closed spec fn wf(&self) -> bool {
        no_newline(self.pending@)
    }

    /// A reader with nothing buffered.
    pub fn new() -> (r: IncrementalLineReader)
        ensures
            r.wf(),
            r@ == Seq::<u8>::empty(),
    {
        IncrementalLineReader { pending: Vec::new() }
    }

    /// Takes in `chunk` and returns every line it completes, in arrival
    /// order, each with its newline; what follows the last newline stays
    /// buffered.
    pub fn feed(&mut self, chunk: &[u8]) -> (r: Vec<Vec<u8>>)
        requires
            old(self).wf(),
        ensures
            final(self).wf(),
            splits(old(self)@ + chunk@, line_views(r@), final(self)@),
    {
        let mut lines: Vec<Vec<u8>> = Vec::new();
        let mut i: usize = 0;
        while i < chunk.len()
            invariant
                i <= chunk@.len(),
                splits(old(self)@ + chunk@.subrange(0, i as int), line_views(lines@), self.pending@),
            decreases chunk@.len() - i,
        {
            let b = chunk[i];
            let ghost before_lines = line_views(lines@);
            let ghost before_pending = self.pending@;
            self.pending.push(b);
            proof {
                assert(old(self)@ + chunk@.subrange(0, i + 1) =~= (old(self)@ + chunk@.subrange(
                    0,
                    i as int,
                )).push(b));
                assert(concat(before_lines) + self.pending@ =~= (concat(before_lines)
                    + before_pending).push(b));
            }
            if b == NEWLINE {
                let mut line: Vec<u8> = Vec::new();
                std::mem::swap(&mut line, &mut self.pending);
                lines.push(line);
                proof {
                    assert(line_views(lines@) =~= before_lines.push(line@));
                    lemma_concat_push(before_lines, line@);
                    assert(line@.drop_last() =~= before_pending);
                    assert(concat(line_views(lines@)) + self.pending@ =~= concat(before_lines)
                        + line@);
                    assert forall|k: int| 0 <= k < line_views(lines@).len() implies #[trigger] is_line(
                        line_views(lines@)[k],
                    ) by {
                        if k < before_lines.len() {
                            assert(line_views(lines@)[k] == before_lines[k]);
                        }
                    }
                }
            }
            i += 1;
        }
        assert(chunk@.subrange(0, i as int) =~= chunk@);
        lines
    }

    /// At the end of the stream: returns the buffered partial line, if there
    /// is one, followed by one empty line that tells the caller the stream
    /// closed; nothing stays buffered.
    pub fn finish(&mut self) -> (r: Vec<Vec<u8>>)
        requires
            old(self).wf(),
        ensures
            final(self).wf(),
            final(self)@ == Seq::<u8>::empty(),
            old(self)@.len() == 0 ==> line_views(r@) == seq![Seq::<u8>::empty()],
            old(self)@.len() > 0 ==> line_views(r@) == seq![old(self)@, Seq::<u8>::empty()],
    {
        let mut lines: Vec<Vec<u8>> = Vec::new();
        if self.pending.len() > 0 {
            let mut rest: Vec<u8> = Vec::new();
            std::mem::swap(&mut rest, &mut self.pending);
            lines.push(rest);
        }
        lines.push(Vec::new());
        assert(line_views(lines@) =~= if old(self)@.len() == 0 {
            seq![Seq::<u8>::empty()]
        } else {
            seq![old(self)@, Seq::<u8>::empty()]
        });
        lines
    }

    /// Handles one read attempt: bytes are fed in, "no data yet" yields no
    /// line, a closed stream ends with the empty line of `finish`, and any
    /// other failure is an `IoError` that leaves the buffer as it was.
    pub fn pull(&mut self, outcome: ReadOutcome) -> (r: Result<Vec<Vec<u8>>, ReadError>)
        requires
            old(self).wf(),
        ensures
            final(self).wf(),
            outcome is Failed <==> r is Err,
            outcome is Failed ==> final(self)@ == old(self)@,
            outcome is WouldBlock ==> final(self)@ == old(self)@ && (r matches Ok(v) && v@.len() == 0),
            outcome matches ReadOutcome::Data(bytes) ==> r matches Ok(v) && splits(
                old(self)@ + bytes@,
                line_views(v@),
                final(self)@,
            ),
            outcome is Closed ==> final(self)@ == Seq::<u8>::empty() && (r matches Ok(v) && (
            if old(self)@.len() == 0 {
                line_views(v@) == seq![Seq::<u8>::empty()]
            } else {
                line_views(v@) == seq![old(self)@, Seq::<u8>::empty()]
            })),
    {
        match outcome {
            ReadOutcome::Data(bytes) => Ok(self.feed(bytes.as_slice())),
            ReadOutcome::WouldBlock => Ok(Vec::new()),
            ReadOutcome::Closed => Ok(self.finish()),
            ReadOutcome::Failed => Err(ReadError::IoError),
        }
    }
}

} // verus!
