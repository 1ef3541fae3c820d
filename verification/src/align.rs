//! Interval-merge aligner: merges a time-ordered list of speaker segments with
//! a time-ordered list of word tokens into speaker-attributed chunks, in one
//! forward pass.

use vstd::prelude::*;

verus! {

/// One recognized word from the transcription backend, timestamped in integer
/// time units.
#[derive(Debug)]
pub struct WordToken {
    pub start: u64,
    pub end: u64,
    pub text: String,
}

impl Clone for WordToken {
    fn clone(&self) -> (res: Self)
        ensures
            res == *self,
    {
        WordToken { start: self.start, end: self.end, text: self.text.clone() }
    }
}

/// One speaker turn from the source metadata: the speaker holds the interval
/// `[offset, offset + duration)`.
#[derive(Debug)]
pub struct SpeakerSegment {
    pub speaker: String,
    pub offset: u64,
    pub duration: u64,
}

impl Clone for SpeakerSegment {
    fn clone(&self) -> (res: Self)
        ensures
            res == *self,
    {
        SpeakerSegment {
            speaker: self.speaker.clone(),
            offset: self.offset,
            duration: self.duration,
        }
    }
}

/// One contiguous run of words attributed to one segment. A chunk is only ever
/// produced for a segment that absorbed at least one word.
#[derive(Debug)]
pub struct AttributedChunk {
    pub speaker: String,
    pub offset: u64,
    pub words: Vec<WordToken>,
}

/// Mathematical model of an attributed chunk.
pub ghost struct ChunkModel {
    pub speaker: Seq<char>,
    pub offset: int,
    pub words: Seq<WordToken>,
}

pub open spec fn chunk_model(c: AttributedChunk) -> ChunkModel {
    ChunkModel { speaker: c.speaker@, offset: c.offset as int, words: c.words@ }
}

pub open spec fn chunks_model(cs: Seq<AttributedChunk>) -> Seq<ChunkModel> {
    cs.map_values(|c: AttributedChunk| chunk_model(c))
}

/// A word belongs to a segment when its start lies in
/// `[offset, offset + duration)`.
pub open spec fn in_window(seg: SpeakerSegment, w: WordToken) -> bool {
    &&& seg.offset <= w.start
    &&& w.start < seg.offset + seg.duration
}

/// How many leading words of `words` fall inside `seg`'s window.
pub open spec fn leading_in_window(seg: SpeakerSegment, words: Seq<WordToken>) -> int
    decreases words.len(),
{
    if words.len() == 0 || !in_window(seg, words[0]) {
        0
    } else {
        1 + leading_in_window(seg, words.skip(1))
    }
}

pub proof fn lemma_leading_in_window_bounds(seg: SpeakerSegment, words: Seq<WordToken>)
    ensures
        0 <= leading_in_window(seg, words) <= words.len(),
    decreases words.len(),
{
    if words.len() != 0 && in_window(seg, words[0]) {
        lemma_leading_in_window_bounds(seg, words.skip(1));
    }
}

/// The aligner's result: each segment, in order, absorbs the run of words
/// whose starts fall in its window at the current cursor; a segment that
/// absorbs no word yields no chunk. Words falling in no tested window are
/// dropped.
pub open spec fn align_chunks(segs: Seq<SpeakerSegment>, words: Seq<WordToken>) -> Seq<ChunkModel>
    decreases segs.len(),
{
    if segs.len() == 0 {
        Seq::empty()
    } else {
        let n = leading_in_window(segs[0], words);
        let rest = align_chunks(segs.skip(1), words.skip(n));
        if n == 0 {
            rest
        } else {
            seq![
                ChunkModel {
                    speaker: segs[0].speaker@,
                    offset: segs[0].offset as int,
                    words: words.take(n),
                },
            ] + rest
        }
    }
}

/// A scan that saw `m` leading words inside the window and then stopped (at
/// the end, or at a word outside the window) has counted exactly
/// `leading_in_window`.
proof fn lemma_leading_from_scan(seg: SpeakerSegment, words: Seq<WordToken>, m: int)
    requires
        0 <= m <= words.len(),
        forall|k: int| 0 <= k < m ==> in_window(seg, #[trigger] words[k]),
        m == words.len() || !in_window(seg, words[m]),
    ensures
        leading_in_window(seg, words) == m,
    decreases m,
{
    if m == 0 {
    } else {
        assert(in_window(seg, words[0]));
        let tail = words.skip(1);
        assert forall|k: int| 0 <= k < m - 1 implies in_window(seg, #[trigger] tail[k]) by {
            assert(tail[k] == words[k + 1]);
        }
        if m < words.len() {
            assert(tail[m - 1] == words[m]);
        }
        lemma_leading_from_scan(seg, tail, m - 1);
    }
}

/// Executable test for `in_window`.
pub fn word_in_window(seg: &SpeakerSegment, w: &WordToken) -> (r: bool)
    ensures
        r == in_window(*seg, *w),
{
    w.start >= seg.offset && w.start - seg.offset < seg.duration
}

/// Single forward pass over both ordered streams: for each segment in order,
/// absorb the contiguous run of words (from the shared cursor) whose starts
/// fall in the segment's window; emit a chunk only when at least one word was
/// absorbed. A word outside the current window stops the run; a word whose
/// start precedes every remaining window is dropped, never attributed.
pub fn align(segments: &Vec<SpeakerSegment>, words: &Vec<WordToken>) -> (chunks: Vec<
    AttributedChunk,
>)
    ensures
        chunks_model(chunks@) == align_chunks(segments@, words@),
{
    let mut chunks: Vec<AttributedChunk> = Vec::new();
    let mut wi: usize = 0;
    let mut si: usize = 0;
    proof {
        assert(segments@.skip(0) =~= segments@);
        assert(words@.skip(0) =~= words@);
        assert(chunks_model(chunks@) + align_chunks(segments@, words@) =~= align_chunks(
            segments@,
            words@,
        ));
    }
    while si < segments.len()
        invariant
            si <= segments@.len(),
            wi <= words@.len(),
            chunks_model(chunks@) + align_chunks(segments@.skip(si as int), words@.skip(wi as int))
                =~= align_chunks(segments@, words@),
        decreases segments@.len() - si,
    {
        let seg = &segments[si];
        let ghost pre_wi = wi as int;
        let mut cw: Vec<WordToken> = Vec::new();
        while wi < words.len() && word_in_window(seg, &words[wi])
            invariant
                si < segments@.len(),
                *seg == segments@[si as int],
                0 <= pre_wi <= wi as int <= words@.len(),
                cw@ =~= words@.subrange(pre_wi, wi as int),
                forall|k: int| pre_wi <= k < wi as int ==> in_window(
                    segments@[si as int],
                    #[trigger] words@[k],
                ),
            decreases words@.len() - wi,
        {
            cw.push(words[wi].clone());
            wi = wi + 1;
        }
        proof {
            let tail = words@.skip(pre_wi);
            let m = wi as int - pre_wi;
            assert forall|k: int| 0 <= k < m implies in_window(
                segments@[si as int],
                #[trigger] tail[k],
            ) by {
                assert(tail[k] == words@[pre_wi + k]);
            }
            if m < tail.len() {
                assert(tail[m] == words@[wi as int]);
            }
            lemma_leading_from_scan(segments@[si as int], tail, m);
        }
        if cw.len() > 0 {
            let chunk = AttributedChunk {
                speaker: seg.speaker.clone(),
                offset: seg.offset,
                words: cw,
            };
            proof {
                let tail = words@.skip(pre_wi);
                let m = wi as int - pre_wi;
                assert(chunk_model(chunk).words =~= tail.take(m));
            }
            chunks.push(chunk);
        }
        si = si + 1;
        proof {
            let segs = segments@;
            let ws = words@;
            let prev_si = si as int - 1;
            let tail = ws.skip(pre_wi);
            let m = wi as int - pre_wi;
            assert(segs.skip(prev_si)[0] == segs[prev_si]);
            assert(segs.skip(prev_si).skip(1) =~= segs.skip(si as int));
            assert(tail.skip(m) =~= ws.skip(wi as int));
            assert(chunks_model(chunks@) + align_chunks(segs.skip(si as int), ws.skip(wi as int))
                =~= align_chunks(segs, ws));
        }
    }
    proof {
        assert(align_chunks(segments@.skip(si as int), words@.skip(wi as int)) =~= Seq::<
            ChunkModel,
        >::empty());
        assert(chunks_model(chunks@) =~= align_chunks(segments@, words@));
    }
    chunks
}

/// Total number of words across all chunks.
pub open spec fn total_words(chunks: Seq<ChunkModel>) -> int
    decreases chunks.len(),
{
    if chunks.len() == 0 {
        0
    } else {
        chunks[0].words.len() + total_words(chunks.skip(1))
    }
}

/// Word conservation: the aligner is a function of its two inputs (the result
/// is exactly `align_chunks`), and across all chunks it never emits more words
/// than it was given; it emits fewer exactly when some words fell in gaps
/// between, before, or after the segment windows.
pub proof fn lemma_align_word_conservation(segs: Seq<SpeakerSegment>, words: Seq<WordToken>)
    ensures
        total_words(align_chunks(segs, words)) <= words.len(),
    decreases segs.len(),
{
    if segs.len() != 0 {
        let n = leading_in_window(segs[0], words);
        lemma_leading_in_window_bounds(segs[0], words);
        let rest = align_chunks(segs.skip(1), words.skip(n));
        lemma_align_word_conservation(segs.skip(1), words.skip(n));
        if n != 0 {
            let whole = align_chunks(segs, words);
            assert(whole.skip(1) =~= rest);
            assert(whole[0].words.len() == n);
        }
    }
}

/// `bounds` witnesses that each chunk's words are one contiguous slice of the
/// input word stream, and that the slices are pairwise disjoint and appear in
/// input order (so no word is ever attributed twice).
pub open spec fn chunk_bounds_ok(
    chunks: Seq<ChunkModel>,
    words: Seq<WordToken>,
    bounds: Seq<(int, int)>,
) -> bool {
    &&& bounds.len() == chunks.len()
    &&& forall|i: int|
        0 <= i < chunks.len() ==> {
            &&& 0 <= (#[trigger] bounds[i]).0
            &&& bounds[i].0 <= bounds[i].1 <= words.len()
            &&& chunks[i].words == words.subrange(bounds[i].0, bounds[i].1)
        }
    &&& forall|i: int, j: int|
        0 <= i < j < chunks.len() ==> (#[trigger] bounds[i]).1 <= (#[trigger] bounds[j]).0
}

/// Non-overlap and contiguity: some sequence of pairwise-disjoint, ordered
/// index ranges of the input word stream carves out exactly the chunks' word
/// lists, so each chunk is contiguous in the original word order and no word
/// appears in two chunks.
pub proof fn lemma_align_chunks_contiguous(segs: Seq<SpeakerSegment>, words: Seq<WordToken>)
    ensures
        exists|bounds: Seq<(int, int)>|
            chunk_bounds_ok(align_chunks(segs, words), words, bounds),
    decreases segs.len(),
{
    if segs.len() == 0 {
        let bounds = Seq::<(int, int)>::empty();
        assert(chunk_bounds_ok(align_chunks(segs, words), words, bounds));
    } else {
        let n = leading_in_window(segs[0], words);
        lemma_leading_in_window_bounds(segs[0], words);
        let sub = words.skip(n);
        let rest = align_chunks(segs.skip(1), sub);
        lemma_align_chunks_contiguous(segs.skip(1), sub);
        let bounds_r = choose|bounds: Seq<(int, int)>| chunk_bounds_ok(rest, sub, bounds);
        let shifted = bounds_r.map_values(|p: (int, int)| (p.0 + n, p.1 + n));
        assert forall|i: int| 0 <= i < rest.len() implies {
            &&& 0 <= (#[trigger] shifted[i]).0
            &&& shifted[i].0 <= shifted[i].1 <= words.len()
            &&& rest[i].words == words.subrange(shifted[i].0, shifted[i].1)
        } by {
            assert(rest[i].words == sub.subrange(bounds_r[i].0, bounds_r[i].1));
            assert(sub.subrange(bounds_r[i].0, bounds_r[i].1) =~= words.subrange(
                bounds_r[i].0 + n,
                bounds_r[i].1 + n,
            ));
        }
        if n == 0 {
            assert(chunk_bounds_ok(align_chunks(segs, words), words, shifted));
        } else {
            let whole = align_chunks(segs, words);
            let bounds = seq![(0int, n)] + shifted;
            assert(whole[0].words == words.take(n));
            assert(words.take(n) =~= words.subrange(0, n));
            assert forall|i: int| 0 <= i < whole.len() implies {
                &&& 0 <= (#[trigger] bounds[i]).0
                &&& bounds[i].0 <= bounds[i].1 <= words.len()
                &&& whole[i].words == words.subrange(bounds[i].0, bounds[i].1)
            } by {
                if i > 0 {
                    assert(whole[i] == rest[i - 1]);
                    assert(bounds[i] == shifted[i - 1]);
                }
            }
            assert forall|i: int, j: int| 0 <= i < j < whole.len() implies (
            #[trigger] bounds[i]).1 <= (#[trigger] bounds[j]).0 by {
                assert(bounds[j] == shifted[j - 1]);
                assert(bounds_r[j - 1].0 >= 0);
                if i > 0 {
                    assert(bounds[i] == shifted[i - 1]);
                }
            }
            assert(chunk_bounds_ok(whole, words, bounds));
        }
    }
}

/// The set of speakers named by the chunks.
pub open spec fn chunk_speakers(chunks: Seq<ChunkModel>) -> Set<Seq<char>> {
    Set::new(
        |s: Seq<char>| exists|i: int| 0 <= i < chunks.len() && (#[trigger] chunks[i]).speaker == s,
    )
}

/// The set of speakers named by the segments.
pub open spec fn segment_speakers(segs: Seq<SpeakerSegment>) -> Set<Seq<char>> {
    Set::new(
        |s: Seq<char>| exists|i: int| 0 <= i < segs.len() && (#[trigger] segs[i]).speaker@ == s,
    )
}

/// The speakers of exactly those segments that absorb at least one word, in
/// the aligner's pass.
pub open spec fn contributing_speakers(segs: Seq<SpeakerSegment>, words: Seq<WordToken>) -> Set<
    Seq<char>,
>
    decreases segs.len(),
{
    if segs.len() == 0 {
        Set::empty()
    } else {
        let n = leading_in_window(segs[0], words);
        let rest = contributing_speakers(segs.skip(1), words.skip(n));
        if n == 0 {
            rest
        } else {
            rest.insert(segs[0].speaker@)
        }
    }
}

proof fn lemma_chunk_speakers_cons(c: ChunkModel, rest: Seq<ChunkModel>)
    ensures
        chunk_speakers(seq![c] + rest) =~= chunk_speakers(rest).insert(c.speaker),
{
    let whole = seq![c] + rest;
    assert forall|s: Seq<char>| chunk_speakers(whole).contains(s) implies chunk_speakers(
        rest,
    ).insert(c.speaker).contains(s) by {
        let i = choose|i: int| 0 <= i < whole.len() && (#[trigger] whole[i]).speaker == s;
        if i != 0 {
            assert(rest[i - 1] == whole[i]);
        }
    }
    assert forall|s: Seq<char>| chunk_speakers(rest).insert(c.speaker).contains(s)
        implies chunk_speakers(whole).contains(s) by {
        if s == c.speaker {
            assert(whole[0].speaker == s);
        } else {
            let i = choose|i: int| 0 <= i < rest.len() && (#[trigger] rest[i]).speaker == s;
            assert(whole[i + 1].speaker == s);
        }
    }
}

/// Speaker-set correctness: every chunk the aligner emits holds at least one
/// word, and the chunks' speaker set is exactly the set of speakers of the
/// segments that absorbed at least one word — never a speaker with zero
/// attributed words; each such speaker is one of the segments' speakers.
pub proof fn lemma_align_speaker_set(segs: Seq<SpeakerSegment>, words: Seq<WordToken>)
    ensures
        forall|i: int|
            0 <= i < align_chunks(segs, words).len() ==> (#[trigger] align_chunks(
                segs,
                words,
            )[i]).words.len() > 0,
        chunk_speakers(align_chunks(segs, words)) == contributing_speakers(segs, words),
        contributing_speakers(segs, words).subset_of(segment_speakers(segs)),
    decreases segs.len(),
{
    let whole = align_chunks(segs, words);
    if segs.len() == 0 {
        assert(chunk_speakers(whole) =~= contributing_speakers(segs, words));
    } else {
        let n = leading_in_window(segs[0], words);
        lemma_leading_in_window_bounds(segs[0], words);
        let rest = align_chunks(segs.skip(1), words.skip(n));
        lemma_align_speaker_set(segs.skip(1), words.skip(n));
        assert forall|s: Seq<char>|
            segment_speakers(segs.skip(1)).contains(s) implies segment_speakers(segs).contains(
            s,
        ) by {
            let i = choose|i: int|
                0 <= i < segs.skip(1).len() && (#[trigger] segs.skip(1)[i]).speaker@ == s;
            assert(segs[i + 1].speaker@ == s);
        }
        if n == 0 {
            assert(chunk_speakers(whole) == contributing_speakers(segs, words));
        } else {
            let c = whole[0];
            assert(whole.skip(1) =~= rest);
            assert forall|i: int| 0 <= i < whole.len() implies (#[trigger] whole[i]).words.len()
                > 0 by {
                if i == 0 {
                    assert(whole[0].words == words.take(n));
                } else {
                    assert(whole[i] == rest[i - 1]);
                }
            }
            assert(whole =~= seq![c] + rest);
            lemma_chunk_speakers_cons(c, rest);
            assert(segs[0].speaker@ == c.speaker);
            assert(segment_speakers(segs).contains(segs[0].speaker@));
            assert(chunk_speakers(whole) =~= contributing_speakers(segs, words));
        }
    }
}

} // verus!
