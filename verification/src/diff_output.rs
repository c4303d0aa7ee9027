//! An alignment shown as a difference, character by character, in the way
//! `git diff --word-diff` shows one.
//!
//! The pattern is taken for the old side and the text for the new one: what
//! the alignment passes over in the pattern was taken away, what it passes
//! over in the text was added.

use vstd::prelude::*;
use vstd::string::StringExecFns;
use crate::{trace_view, Match, MatchView, Step};

verus! {

/// What stands in the output for a skipped class of the pattern.
pub const ANY: char = '?';

/// The chunks of an alignment: runs of characters that pattern and text
/// share, and runs of characters that were taken away or added.
pub struct DiffOutput {
    pub chunks: Vec<Chunk>,
}

#[derive(Eq, PartialEq, Debug)]
pub enum Chunk {
    Same(Same),
    Diff(Diff),
}

/// Characters that the pattern accepts, one after the other.
#[derive(Eq, PartialEq, Debug)]
pub struct Same {
    pub text: Vec<char>,
}

/// Characters passed over, in the pattern or in the text, with no accepted
/// character between them. In which order they were passed over is not kept:
/// those of the pattern are shown first.
#[derive(Eq, PartialEq, Debug)]
pub struct Diff {
    pub taken: Vec<char>,
    pub added: Vec<char>,
}

/// The view of a [`Chunk`].
pub enum ChunkView {
    Same(Seq<char>),
    Diff { taken: Seq<char>, added: Seq<char> },
}

impl View for Chunk {
    type V = ChunkView;

    open spec fn view(&self) -> ChunkView {
        match self {
            Chunk::Same(same) => ChunkView::Same(same.text@),
            Chunk::Diff(diff) => ChunkView::Diff { taken: diff.taken@, added: diff.added@ },
        }
    }
}

/// The views of the chunks of `s`, in order.
pub open spec fn chunk_views(s: Seq<Chunk>) -> Seq<ChunkView> {
    Seq::new(s.len(), |i: int| s[i]@)
}

impl View for DiffOutput {
    type V = Seq<ChunkView>;

    open spec fn view(&self) -> Seq<ChunkView> {
        chunk_views(self.chunks@)
    }
}

/// The character that stands for what the pattern asks: the literal itself,
/// and [`ANY`] for a class.
pub open spec fn shown(m: MatchView) -> char {
    match m {
        MatchView::Lit(c) => c,
        MatchView::Class(_) => ANY,
    }
}

/// The chunks after one more step: the step's character joins the last
/// chunk where that is of the step's kind, and opens a new chunk where it is
/// not. The marks of a capture change nothing.
pub open spec fn diff_step(chunks: Seq<ChunkView>, step: Step<MatchView, char>) -> Seq<ChunkView> {
    let last = if chunks.len() > 0 {
        Some(chunks.last())
    } else {
        None
    };
    match step {
        Step::Hit(_, c) => match last {
            Some(ChunkView::Same(text)) => chunks.drop_last().push(ChunkView::Same(text.push(c))),
            _ => chunks.push(ChunkView::Same(seq![c])),
        },
        Step::SkipText(c) => match last {
            Some(ChunkView::Diff { taken, added }) => chunks.drop_last().push(
                ChunkView::Diff { taken, added: added.push(c) },
            ),
            _ => chunks.push(ChunkView::Diff { taken: Seq::empty(), added: seq![c] }),
        },
        Step::SkipPattern(m) => match last {
            Some(ChunkView::Diff { taken, added }) => chunks.drop_last().push(
                ChunkView::Diff { taken: taken.push(shown(m)), added },
            ),
            _ => chunks.push(ChunkView::Diff { taken: seq![shown(m)], added: Seq::empty() }),
        },
        _ => chunks,
    }
}

/// The chunks of a trace.
pub open spec fn diff_chunks(trace: Seq<Step<MatchView, char>>) -> Seq<ChunkView>
    decreases trace.len(),
{
    if trace.len() == 0 {
        Seq::empty()
    } else {
        diff_step(diff_chunks(trace.drop_last()), trace.last())
    }
}

/// How a chunk is written: shared characters as they are, characters taken
/// away as `[-..-]`, characters added as `{+..+}`, and both as the one
/// followed by the other.
pub open spec fn render_chunk(chunk: ChunkView) -> Seq<char> {
    match chunk {
        ChunkView::Same(text) => text,
        ChunkView::Diff { taken, added } => if added.len() == 0 {
            seq!['[', '-'] + taken + seq!['-', ']']
        } else if taken.len() == 0 {
            seq!['{', '+'] + added + seq!['+', '}']
        } else {
            seq!['[', '-'] + taken + seq!['-', ']', '{', '+'] + added + seq!['+', '}']
        },
    }
}

/// How the chunks are written, one after the other.
pub open spec fn render(chunks: Seq<ChunkView>) -> Seq<char>
    decreases chunks.len(),
{
    if chunks.len() == 0 {
        Seq::empty()
    } else {
        render(chunks.drop_last()) + render_chunk(chunks.last())
    }
}

impl Chunk {
    fn new_same(c: char) -> (chunk: Self)
        ensures
            chunk@ == ChunkView::Same(seq![c]),
    {
        let text = vec![c];
        assert(text@ =~= seq![c]);
        Chunk::Same(Same { text })
    }

    fn new_added(c: char) -> (chunk: Self)
        ensures
            chunk@ == (ChunkView::Diff { taken: Seq::empty(), added: seq![c] }),
    {
        let taken: Vec<char> = vec![];
        let added = vec![c];
        assert(taken@ =~= Seq::<char>::empty());
        assert(added@ =~= seq![c]);
        Chunk::Diff(Diff { taken, added })
    }

    fn new_taken(c: char) -> (chunk: Self)
        ensures
            chunk@ == (ChunkView::Diff { taken: seq![c], added: Seq::empty() }),
    {
        let taken = vec![c];
        let added: Vec<char> = vec![];
        assert(taken@ =~= seq![c]);
        assert(added@ =~= Seq::<char>::empty());
        Chunk::Diff(Diff { taken, added })
    }
}

proof fn lemma_chunk_views_push(s: Seq<Chunk>, chunk: Chunk)
    ensures
        chunk_views(s.push(chunk)) == chunk_views(s).push(chunk@),
        s.len() > 0 ==> chunk_views(s.drop_last()) == chunk_views(s).drop_last(),
{
    assert(chunk_views(s.push(chunk)) =~= chunk_views(s).push(chunk@));
    if s.len() > 0 {
        assert(chunk_views(s.drop_last()) =~= chunk_views(s).drop_last());
    }
}

impl DiffOutput {
    /// The chunks of the alignment with the steps `trace`.
    pub fn new(_score: &usize, trace: &Vec<Step<Match, char>>) -> (output: Self)
        ensures
            output@ == diff_chunks(trace_view(trace@)),
    {
        let mut chunks: Vec<Chunk> = Vec::new();
        let mut i: usize = 0;
        while i < trace.len()
            invariant
                i <= trace.len(),
                chunk_views(chunks@) == diff_chunks(trace_view(trace@).take(i as int)),
            decreases trace.len() - i,
        {
            proof {
                assert(trace_view(trace@).take(i + 1).drop_last() =~= trace_view(trace@).take(
                    i as int,
                ));
            }
            let ghost before = chunks@;
            let current_chunk = chunks.pop();
            proof {
                if before.len() > 0 {
                    lemma_chunk_views_push(before, before.last());
                }
            }
            let (grown, opened) = match (&trace[i], current_chunk) {
                (Step::Hit(_, c), Some(Chunk::Same(mut same))) => {
                    same.text.push(*c);
                    (Some(Chunk::Same(same)), None)
                },
                (Step::Hit(_, c), other) => (other, Some(Chunk::new_same(*c))),
                (Step::SkipText(c), Some(Chunk::Diff(mut diff))) => {
                    diff.added.push(*c);
                    (Some(Chunk::Diff(diff)), None)
                },
                (Step::SkipText(c), other) => (other, Some(Chunk::new_added(*c))),
                (Step::SkipPattern(Match::Lit(c)), Some(Chunk::Diff(mut diff))) => {
                    diff.taken.push(*c);
                    (Some(Chunk::Diff(diff)), None)
                },
                (Step::SkipPattern(Match::Class(_)), Some(Chunk::Diff(mut diff))) => {
                    diff.taken.push(ANY);
                    (Some(Chunk::Diff(diff)), None)
                },
                (Step::SkipPattern(Match::Lit(c)), other) => (other, Some(Chunk::new_taken(*c))),
                (Step::SkipPattern(Match::Class(_)), other) => (other, Some(Chunk::new_taken(ANY))),
                (_, other) => (other, None),
            };
            if let Some(chunk) = grown {
                proof {
                    lemma_chunk_views_push(chunks@, chunk);
                }
                chunks.push(chunk);
            }
            if let Some(chunk) = opened {
                proof {
                    lemma_chunk_views_push(chunks@, chunk);
                }
                chunks.push(chunk);
            }
            assert(chunk_views(chunks@) =~= diff_chunks(trace_view(trace@).take(i + 1)));
            i += 1;
        }
        assert(trace_view(trace@).take(trace.len() as int) =~= trace_view(trace@));
        DiffOutput { chunks }
    }

    /// The difference as one line of text.
    pub fn to_string(&self) -> (text: String)
        ensures
            text@ == render(self@),
    {
        let mut out = String::new();
        let mut i: usize = 0;
        while i < self.chunks.len()
            invariant
                i <= self.chunks.len(),
                out@ == render(self@.take(i as int)),
            decreases self.chunks.len() - i,
        {
            proof {
                assert(self@.take(i + 1).drop_last() =~= self@.take(i as int));
                reveal_strlit("[-");
                reveal_strlit("-]");
                reveal_strlit("{+");
                reveal_strlit("+}");
                reveal_strlit("-]{+");
            }
            let ghost before = out@;
            match &self.chunks[i] {
                Chunk::Same(same) => {
                    out.append(Self::as_str(&same.text).as_str());
                },
                Chunk::Diff(diff) => {
                    if diff.added.is_empty() {
                        out.append("[-");
                        out.append(Self::as_str(&diff.taken).as_str());
                        out.append("-]");
                        assert(out@ =~= before + (seq!['[', '-'] + diff.taken@ + seq!['-', ']']));
                    } else if diff.taken.is_empty() {
                        out.append("{+");
                        out.append(Self::as_str(&diff.added).as_str());
                        out.append("+}");
                        assert(out@ =~= before + (seq!['{', '+'] + diff.added@ + seq!['+', '}']));
                    } else {
                        out.append("[-");
                        out.append(Self::as_str(&diff.taken).as_str());
                        out.append("-]{+");
                        out.append(Self::as_str(&diff.added).as_str());
                        out.append("+}");
                        assert(out@ =~= before + (seq!['[', '-'] + diff.taken@ + seq![
                            '-',
                            ']',
                            '{',
                            '+',
                        ] + diff.added@ + seq!['+', '}']));
                    }
                },
            }
            i += 1;
        }
        assert(self@.take(self.chunks.len() as int) =~= self@);
        out
    }

    /// `String::from_iter` on the characters of a vector: the string that
    /// holds them in the vector's order.
    #[verifier::external_body]
    fn as_str(vec: &Vec<char>) -> (text: String)
        ensures
            text@ == vec@,
    {
        String::from_iter(vec)
    }
}

/// A chunk as the answer of the web service holds it: a run of shared
/// characters, of characters taken away, or of characters added.
#[derive(Eq, PartialEq, Debug)]
pub enum OutChunk {
    Same(String),
    Taken(String),
    Added(String),
}

/// The view of an [`OutChunk`].
pub enum OutChunkView {
    Same(Seq<char>),
    Taken(Seq<char>),
    Added(Seq<char>),
}

impl View for OutChunk {
    type V = OutChunkView;

    open spec fn view(&self) -> OutChunkView {
        match self {
            OutChunk::Same(text) => OutChunkView::Same(text@),
            OutChunk::Taken(text) => OutChunkView::Taken(text@),
            OutChunk::Added(text) => OutChunkView::Added(text@),
        }
    }
}

/// The views of the chunks of `s`, in order.
pub open spec fn out_chunk_views(s: Seq<OutChunk>) -> Seq<OutChunkView> {
    Seq::new(s.len(), |i: int| s[i]@)
}

/// What one chunk becomes in the answer: a run of shared characters stays
/// one, and a run of skipped characters becomes the characters taken away,
/// the characters added, or the one followed by the other.
pub open spec fn out_chunk(chunk: ChunkView) -> Seq<OutChunkView> {
    match chunk {
        ChunkView::Same(text) => seq![OutChunkView::Same(text)],
        ChunkView::Diff { taken, added } => if taken.len() == 0 {
            seq![OutChunkView::Added(added)]
        } else if added.len() == 0 {
            seq![OutChunkView::Taken(taken)]
        } else {
            seq![OutChunkView::Taken(taken), OutChunkView::Added(added)]
        },
    }
}

/// What the chunks become in the answer, one after the other.
pub open spec fn out_chunks(chunks: Seq<ChunkView>) -> Seq<OutChunkView>
    decreases chunks.len(),
{
    if chunks.len() == 0 {
        Seq::empty()
    } else {
        out_chunks(chunks.drop_last()) + out_chunk(chunks.last())
    }
}

impl OutChunk {
    /// The chunks of a difference as the answer of the web service holds
    /// them.
    pub fn from(chunks: &Vec<Chunk>) -> (out: Vec<OutChunk>)
        ensures
            out_chunk_views(out@) == out_chunks(chunk_views(chunks@)),
    {
        let mut out: Vec<OutChunk> = Vec::new();
        let mut i: usize = 0;
        while i < chunks.len()
            invariant
                i <= chunks.len(),
                out_chunk_views(out@) == out_chunks(chunk_views(chunks@).take(i as int)),
            decreases chunks.len() - i,
        {
            proof {
                assert(chunk_views(chunks@).take(i + 1).drop_last() =~= chunk_views(chunks@).take(
                    i as int,
                ));
            }
            let ghost before = out_chunk_views(out@);
            match &chunks[i] {
                Chunk::Same(same) => {
                    out.push(OutChunk::Same(DiffOutput::as_str(&same.text)));
                    assert(out_chunk_views(out@) =~= before + seq![OutChunkView::Same(same.text@)]);
                },
                Chunk::Diff(diff) => {
                    if diff.taken.is_empty() {
                        out.push(OutChunk::Added(DiffOutput::as_str(&diff.added)));
                        assert(out_chunk_views(out@) =~= before + seq![
                            OutChunkView::Added(diff.added@),
                        ]);
                    } else if diff.added.is_empty() {
                        out.push(OutChunk::Taken(DiffOutput::as_str(&diff.taken)));
                        assert(out_chunk_views(out@) =~= before + seq![
                            OutChunkView::Taken(diff.taken@),
                        ]);
                    } else {
                        out.push(OutChunk::Taken(DiffOutput::as_str(&diff.taken)));
                        out.push(OutChunk::Added(DiffOutput::as_str(&diff.added)));
                        assert(out_chunk_views(out@) =~= before + seq![
                            OutChunkView::Taken(diff.taken@),
                            OutChunkView::Added(diff.added@),
                        ]);
                    }
                },
            }
            i += 1;
        }
        assert(chunk_views(chunks@).take(chunks.len() as int) =~= chunk_views(chunks@));
        out
    }
}

} // verus!
