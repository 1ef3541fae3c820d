//! Transcript record assembler: extracts the two time-ordered streams from a
//! metadata document and a transcription document, aligns them, and builds the
//! final speaker-attributed output record.
//!
//! Assembly is a pure function of the two documents and the record
//! identifier; a required field that is absent or ill-typed fails the whole
//! record with an error naming the field.

use vstd::prelude::*;

use crate::align::align;
use crate::align::align_chunks;
use crate::align::contributing_speakers;
use crate::align::lemma_align_speaker_set;
use crate::align::segment_speakers;
use crate::align::chunk_model;
use crate::align::chunk_speakers;
use crate::align::chunks_model;
use crate::align::AttributedChunk;
use crate::align::ChunkModel;
use crate::align::SpeakerSegment;
use crate::align::WordToken;
use crate::json::deref_seq;
use crate::json::find_nodes;
use crate::json::find_objects_with_key;
use crate::json::json_get;
use crate::json::json_index;
use crate::json::Json;

verus! {

/// Why a record could not be assembled. The payload names the required field
/// that was absent or ill-typed.
#[derive(Debug)]
pub enum AssemblyError {
    MalformedMetadata(String),
    MalformedTranscription(String),
    MissingMediaReference,
}

/// Mathematical model of an assembly error.
pub ghost enum AssemblyErrorModel {
    MalformedMetadata(Seq<char>),
    MalformedTranscription(Seq<char>),
    MissingMediaReference,
}

pub open spec fn error_model(e: AssemblyError) -> AssemblyErrorModel {
    match e {
        AssemblyError::MalformedMetadata(f) => AssemblyErrorModel::MalformedMetadata(f@),
        AssemblyError::MalformedTranscription(f) => AssemblyErrorModel::MalformedTranscription(
            f@,
        ),
        AssemblyError::MissingMediaReference => AssemblyErrorModel::MissingMediaReference,
    }
}

/// The final deliverable for one record.
#[derive(Debug)]
pub struct OutputRecord {
    pub record_id: String,
    pub media_reference: String,
    pub speakers: Vec<String>,
    pub transcript: Vec<AttributedChunk>,
}

/// Mathematical model of an output record.
pub ghost struct OutputModel {
    pub record_id: Seq<char>,
    pub media_reference: Seq<char>,
    pub speakers: Seq<Seq<char>>,
    pub transcript: Seq<ChunkModel>,
}

pub open spec fn output_model(r: OutputRecord) -> OutputModel {
    OutputModel {
        record_id: r.record_id@,
        media_reference: r.media_reference@,
        speakers: r.speakers@.map_values(|s: String| s@),
        transcript: chunks_model(r.transcript@),
    }
}

/// One speaker segment read off a located metadata node: `audio_offset`,
/// `duration`, and the `speaker` of the first entry under `transcripts`. An
/// error names the offending field.
pub open spec fn segment_of_node(node: Json) -> Result<SpeakerSegment, Seq<char>> {
    match json_get(node, "audio_offset"@) {
        Some(Json::Num(offset)) => match json_get(node, "duration"@) {
            Some(Json::Num(duration)) => match json_get(node, "transcripts"@) {
                Some(t) => match json_index(t, 0) {
                    Some(first) => match json_get(first, "speaker"@) {
                        Some(Json::Str(speaker)) => Ok(
                            SpeakerSegment { speaker, offset, duration },
                        ),
                        _ => Err("speaker"@),
                    },
                    None => Err("transcripts"@),
                },
                None => Err("transcripts"@),
            },
            _ => Err("duration"@),
        },
        _ => Err("audio_offset"@),
    }
}

/// All segments of the located nodes, in order; the first malformed node
/// fails the whole list.
pub open spec fn segments_of_nodes(nodes: Seq<Json>) -> Result<Seq<SpeakerSegment>, Seq<char>>
    decreases nodes.len(),
{
    if nodes.len() == 0 {
        Ok(Seq::empty())
    } else {
        match segment_of_node(nodes[0]) {
            Ok(seg) => match segments_of_nodes(nodes.subrange(1, nodes.len() as int)) {
                Ok(rest) => Ok(seq![seg] + rest),
                Err(f) => Err(f),
            },
            Err(f) => Err(f),
        }
    }
}

/// One word token read off a located transcription node: sibling `start`,
/// `end` and `word` fields.
pub open spec fn word_of_node(node: Json) -> Result<WordToken, Seq<char>> {
    match json_get(node, "start"@) {
        Some(Json::Num(start)) => match json_get(node, "end"@) {
            Some(Json::Num(end)) => match json_get(node, "word"@) {
                Some(Json::Str(text)) => Ok(WordToken { start, end, text }),
                _ => Err("word"@),
            },
            _ => Err("end"@),
        },
        _ => Err("start"@),
    }
}

/// All word tokens of the located nodes, in order; the first malformed node
/// fails the whole list.
pub open spec fn words_of_nodes(nodes: Seq<Json>) -> Result<Seq<WordToken>, Seq<char>>
    decreases nodes.len(),
{
    if nodes.len() == 0 {
        Ok(Seq::empty())
    } else {
        match word_of_node(nodes[0]) {
            Ok(w) => match words_of_nodes(nodes.subrange(1, nodes.len() as int)) {
                Ok(rest) => Ok(seq![w] + rest),
                Err(f) => Err(f),
            },
            Err(f) => Err(f),
        }
    }
}

/// The media reference: the `mp4_s3_path` of the first `assets` entry.
pub open spec fn media_of(meta: Json) -> Option<String> {
    match json_get(meta, "assets"@) {
        Some(assets) => match json_index(assets, 0) {
            Some(first) => match json_get(first, "mp4_s3_path"@) {
                Some(Json::Str(s)) => Some(s),
                _ => None,
            },
            None => None,
        },
        None => None,
    }
}

/// Appends `s` unless it is already present.
pub open spec fn dedup_push(acc: Seq<Seq<char>>, s: Seq<char>) -> Seq<Seq<char>> {
    if acc.contains(s) {
        acc
    } else {
        acc.push(s)
    }
}

/// The chunks' speakers, one each, in order of first attributed chunk — a
/// deterministic rendering of the speaker set.
pub open spec fn distinct_speakers(chunks: Seq<ChunkModel>) -> Seq<Seq<char>>
    decreases chunks.len(),
{
    if chunks.len() == 0 {
        Seq::empty()
    } else {
        dedup_push(distinct_speakers(chunks.drop_last()), chunks.last().speaker)
    }
}

/// What assembly returns: the aligned, speaker-attributed transcript with the
/// media reference and the deterministic speaker list, or the first error in
/// the order segments, words, media.
pub open spec fn assemble_spec(record_id: Seq<char>, meta: Json, trans: Json) -> Result<
    OutputModel,
    AssemblyErrorModel,
> {
    match segments_of_nodes(find_nodes(meta, "transcripts"@)) {
        Err(f) => Err(AssemblyErrorModel::MalformedMetadata(f)),
        Ok(segs) => match words_of_nodes(find_nodes(trans, "word"@)) {
            Err(f) => Err(AssemblyErrorModel::MalformedTranscription(f)),
            Ok(words) => match media_of(meta) {
                None => Err(AssemblyErrorModel::MissingMediaReference),
                Some(media) => Ok(
                    OutputModel {
                        record_id,
                        media_reference: media@,
                        speakers: distinct_speakers(align_chunks(segs, words)),
                        transcript: align_chunks(segs, words),
                    },
                ),
            },
        },
    }
}

/// Reads one segment off a located node, mirroring `segment_of_node`.
pub fn extract_segment(node: &Json) -> (r: Result<SpeakerSegment, String>)
    ensures
        match r {
            Ok(seg) => segment_of_node(*node) == Ok::<SpeakerSegment, Seq<char>>(seg),
            Err(f) => segment_of_node(*node) == Err::<SpeakerSegment, Seq<char>>(f@),
        },
{
    let offset: u64 = match node.get(&"audio_offset".to_owned()) {
        Some(v) => match v {
            Json::Num(n) => *n,
            _ => {
                return Err("audio_offset".to_owned());
            },
        },
        None => {
            return Err("audio_offset".to_owned());
        },
    };
    let duration: u64 = match node.get(&"duration".to_owned()) {
        Some(v) => match v {
            Json::Num(n) => *n,
            _ => {
                return Err("duration".to_owned());
            },
        },
        None => {
            return Err("duration".to_owned());
        },
    };
    let transcripts = match node.get(&"transcripts".to_owned()) {
        Some(t) => t,
        None => {
            return Err("transcripts".to_owned());
        },
    };
    let first = match transcripts.get_index(0) {
        Some(f) => f,
        None => {
            return Err("transcripts".to_owned());
        },
    };
    let speaker: String = match first.get(&"speaker".to_owned()) {
        Some(v) => match v {
            Json::Str(s) => s.clone(),
            _ => {
                return Err("speaker".to_owned());
            },
        },
        _ => {
            return Err("speaker".to_owned());
        },
    };
    Ok(SpeakerSegment { speaker, offset, duration })
}

/// Reads one word token off a located node, mirroring `word_of_node`.
pub fn extract_word(node: &Json) -> (r: Result<WordToken, String>)
    ensures
        match r {
            Ok(w) => word_of_node(*node) == Ok::<WordToken, Seq<char>>(w),
            Err(f) => word_of_node(*node) == Err::<WordToken, Seq<char>>(f@),
        },
{
    let start: u64 = match node.get(&"start".to_owned()) {
        Some(v) => match v {
            Json::Num(n) => *n,
            _ => {
                return Err("start".to_owned());
            },
        },
        None => {
            return Err("start".to_owned());
        },
    };
    let end: u64 = match node.get(&"end".to_owned()) {
        Some(v) => match v {
            Json::Num(n) => *n,
            _ => {
                return Err("end".to_owned());
            },
        },
        None => {
            return Err("end".to_owned());
        },
    };
    let text: String = match node.get(&"word".to_owned()) {
        Some(v) => match v {
            Json::Str(s) => s.clone(),
            _ => {
                return Err("word".to_owned());
            },
        },
        None => {
            return Err("word".to_owned());
        },
    };
    Ok(WordToken { start, end, text })
}

/// Locates every `transcripts` node of the metadata document and reads the
/// segment list off them, in document order.
#[verifier::loop_isolation(false)]
pub fn collect_segments(doc: &Json) -> (r: Result<Vec<SpeakerSegment>, String>)
    ensures
        match r {
            Ok(segs) => segments_of_nodes(find_nodes(*doc, "transcripts"@)) == Ok::<
                Seq<SpeakerSegment>,
                Seq<char>,
            >(segs@),
            Err(f) => segments_of_nodes(find_nodes(*doc, "transcripts"@)) == Err::<
                Seq<SpeakerSegment>,
                Seq<char>,
            >(f@),
        },
{
    let mut nodes: Vec<&Json> = Vec::new();
    find_objects_with_key(doc, &"transcripts".to_owned(), &mut nodes);
    let ghost all = find_nodes(*doc, "transcripts"@);
    proof {
        assert(deref_seq(nodes@) =~= Seq::<Json>::empty() + all);
        assert(deref_seq(nodes@) =~= all);
    }
    let mut segs: Vec<SpeakerSegment> = Vec::new();
    let mut i: usize = 0;
    proof {
        assert(all.subrange(0, all.len() as int) =~= all);
    }
    while i < nodes.len()
        invariant
            0 <= i <= nodes@.len(),
            segments_of_nodes(all) == match segments_of_nodes(
                all.subrange(i as int, all.len() as int),
            ) {
                Ok(rest) => Ok::<Seq<SpeakerSegment>, Seq<char>>(segs@ + rest),
                Err(f) => Err::<Seq<SpeakerSegment>, Seq<char>>(f),
            },
        decreases nodes@.len() - i,
    {
        let ghost suffix = all.subrange(i as int, all.len() as int);
        proof {
            assert(suffix[0] == all[i as int]);
            assert(all[i as int] == deref_seq(nodes@)[i as int]);
            assert(suffix.subrange(1, suffix.len() as int) =~= all.subrange(
                i as int + 1,
                all.len() as int,
            ));
        }
        match extract_segment(nodes[i]) {
            Ok(seg) => {
                let ghost pre_segs = segs@;
                segs.push(seg);
                proof {
                    let suffix2 = all.subrange(i as int + 1, all.len() as int);
                    match segments_of_nodes(suffix2) {
                        Ok(rest2) => {
                            assert(pre_segs + (seq![seg] + rest2) =~= segs@ + rest2);
                        },
                        Err(_) => {},
                    }
                }
            },
            Err(f) => {
                return Err(f);
            },
        }
        i = i + 1;
    }
    proof {
        assert(all.subrange(i as int, all.len() as int) =~= Seq::<Json>::empty());
        assert(segs@ + Seq::<SpeakerSegment>::empty() =~= segs@);
    }
    Ok(segs)
}

/// Locates every `word` node of the transcription document and reads the
/// word-token list off them, in document order.
#[verifier::loop_isolation(false)]
pub fn collect_words(doc: &Json) -> (r: Result<Vec<WordToken>, String>)
    ensures
        match r {
            Ok(words) => words_of_nodes(find_nodes(*doc, "word"@)) == Ok::<
                Seq<WordToken>,
                Seq<char>,
            >(words@),
            Err(f) => words_of_nodes(find_nodes(*doc, "word"@)) == Err::<
                Seq<WordToken>,
                Seq<char>,
            >(f@),
        },
{
    let mut nodes: Vec<&Json> = Vec::new();
    find_objects_with_key(doc, &"word".to_owned(), &mut nodes);
    let ghost all = find_nodes(*doc, "word"@);
    proof {
        assert(deref_seq(nodes@) =~= Seq::<Json>::empty() + all);
        assert(deref_seq(nodes@) =~= all);
    }
    let mut words: Vec<WordToken> = Vec::new();
    let mut i: usize = 0;
    proof {
        assert(all.subrange(0, all.len() as int) =~= all);
    }
    while i < nodes.len()
        invariant
            0 <= i <= nodes@.len(),
            words_of_nodes(all) == match words_of_nodes(
                all.subrange(i as int, all.len() as int),
            ) {
                Ok(rest) => Ok::<Seq<WordToken>, Seq<char>>(words@ + rest),
                Err(f) => Err::<Seq<WordToken>, Seq<char>>(f),
            },
        decreases nodes@.len() - i,
    {
        let ghost suffix = all.subrange(i as int, all.len() as int);
        proof {
            assert(suffix[0] == all[i as int]);
            assert(all[i as int] == deref_seq(nodes@)[i as int]);
            assert(suffix.subrange(1, suffix.len() as int) =~= all.subrange(
                i as int + 1,
                all.len() as int,
            ));
        }
        match extract_word(nodes[i]) {
            Ok(w) => {
                let ghost pre_words = words@;
                words.push(w);
                proof {
                    let suffix2 = all.subrange(i as int + 1, all.len() as int);
                    match words_of_nodes(suffix2) {
                        Ok(rest2) => {
                            assert(pre_words + (seq![w] + rest2) =~= words@ + rest2);
                        },
                        Err(_) => {},
                    }
                }
            },
            Err(f) => {
                return Err(f);
            },
        }
        i = i + 1;
    }
    proof {
        assert(all.subrange(i as int, all.len() as int) =~= Seq::<Json>::empty());
        assert(words@ + Seq::<WordToken>::empty() =~= words@);
    }
    Ok(words)
}

/// Reads the media reference off the metadata document, mirroring `media_of`.
pub fn extract_media(meta: &Json) -> (r: Option<String>)
    ensures
        match r {
            Some(s) => media_of(*meta) == Some(s),
            None => media_of(*meta) is None,
        },
{
    let assets = match meta.get(&"assets".to_owned()) {
        Some(a) => a,
        None => {
            return None;
        },
    };
    let first = match assets.get_index(0) {
        Some(f) => f,
        None => {
            return None;
        },
    };
    match first.get(&"mp4_s3_path".to_owned()) {
        Some(v) => match v {
            Json::Str(s) => Some(s.clone()),
            _ => None,
        },
        None => None,
    }
}

/// The views of a list of strings.
pub open spec fn string_views(s: Seq<String>) -> Seq<Seq<char>> {
    s.map_values(|x: String| x@)
}

/// Whether some element of `v` has the characters of `s`.
#[verifier::loop_isolation(false)]
fn contains_string(v: &Vec<String>, s: &String) -> (r: bool)
    ensures
        r == string_views(v@).contains(s@),
{
    let mut i: usize = 0;
    while i < v.len()
        invariant
            0 <= i <= v@.len(),
            forall|k: int| 0 <= k < i as int ==> string_views(v@)[k] != s@,
        decreases v@.len() - i,
    {
        if v[i] == *s {
            proof {
                assert(string_views(v@)[i as int] == s@);
            }
            return true;
        }
        i = i + 1;
    }
    proof {
        if string_views(v@).contains(s@) {
            let k = choose|k: int|
                0 <= k < string_views(v@).len() && string_views(v@)[k] == s@;
            assert(string_views(v@)[k] != s@);
        }
    }
    false
}

/// Builds the deterministic speaker list of a transcript: each chunk's
/// speaker once, in order of first attributed chunk.
#[verifier::loop_isolation(false)]
pub fn speaker_list(chunks: &Vec<AttributedChunk>) -> (speakers: Vec<String>)
    ensures
        string_views(speakers@) == distinct_speakers(chunks_model(chunks@)),
{
    let ghost cm = chunks_model(chunks@);
    let mut speakers: Vec<String> = Vec::new();
    let mut i: usize = 0;
    proof {
        assert(string_views(speakers@) =~= distinct_speakers(cm.take(0)));
    }
    while i < chunks.len()
        invariant
            0 <= i <= chunks@.len(),
            string_views(speakers@) == distinct_speakers(cm.take(i as int)),
        decreases chunks@.len() - i,
    {
        proof {
            assert(cm.take(i as int + 1).drop_last() =~= cm.take(i as int));
            assert(cm.take(i as int + 1).last() == cm[i as int]);
            assert(cm[i as int] == chunk_model(chunks@[i as int]));
        }
        let sp = &chunks[i].speaker;
        let ghost pre = speakers@;
        if !contains_string(&speakers, sp) {
            speakers.push(sp.clone());
            proof {
                assert(string_views(speakers@) =~= string_views(pre).push(sp@));
            }
        }
        i = i + 1;
    }
    proof {
        assert(cm.take(chunks@.len() as int) =~= cm);
    }
    speakers
}

/// Assembles one record: locates and reads the segment and word streams,
/// aligns them, and builds the output record, or reports the first failure —
/// malformed metadata, then malformed transcription, then a missing media
/// reference. Assembly is a pure function of its three arguments.
pub fn assemble(record_id: &String, metadata: &Json, transcription: &Json) -> (r: Result<
    OutputRecord,
    AssemblyError,
>)
    ensures
        match r {
            Ok(out) => assemble_spec(record_id@, *metadata, *transcription) == Ok::<
                OutputModel,
                AssemblyErrorModel,
            >(output_model(out)),
            Err(e) => assemble_spec(record_id@, *metadata, *transcription) == Err::<
                OutputModel,
                AssemblyErrorModel,
            >(error_model(e)),
        },
{
    let segments = match collect_segments(metadata) {
        Ok(s) => s,
        Err(f) => {
            return Err(AssemblyError::MalformedMetadata(f));
        },
    };
    let words = match collect_words(transcription) {
        Ok(w) => w,
        Err(f) => {
            return Err(AssemblyError::MalformedTranscription(f));
        },
    };
    let media = match extract_media(metadata) {
        Some(m) => m,
        None => {
            return Err(AssemblyError::MissingMediaReference);
        },
    };
    let transcript = align(&segments, &words);
    let speakers = speaker_list(&transcript);
    Ok(
        OutputRecord {
            record_id: record_id.clone(),
            media_reference: media,
            speakers,
            transcript,
        },
    )
}

proof fn lemma_push_contains(l: Seq<Seq<char>>, x: Seq<char>, s: Seq<char>)
    ensures
        l.push(x).contains(s) <==> (l.contains(s) || s == x),
{
    if l.push(x).contains(s) {
        let i = choose|i: int| 0 <= i < l.push(x).len() && l.push(x)[i] == s;
        if i < l.len() {
            assert(l[i] == s);
        }
    }
    if l.contains(s) {
        let i = choose|i: int| 0 <= i < l.len() && l[i] == s;
        assert(l.push(x)[i] == s);
    }
    if s == x {
        assert(l.push(x)[l.len() as int] == s);
    }
}

proof fn lemma_chunk_speakers_snoc(chunks: Seq<ChunkModel>)
    requires
        chunks.len() > 0,
    ensures
        chunk_speakers(chunks) =~= chunk_speakers(chunks.drop_last()).insert(
            chunks.last().speaker,
        ),
{
    let rest = chunks.drop_last();
    assert forall|s: Seq<char>| chunk_speakers(chunks).contains(s) implies chunk_speakers(
        rest,
    ).insert(chunks.last().speaker).contains(s) by {
        let i = choose|i: int| 0 <= i < chunks.len() && (#[trigger] chunks[i]).speaker == s;
        if i < chunks.len() - 1 {
            assert(rest[i] == chunks[i]);
        }
    }
    assert forall|s: Seq<char>|
        chunk_speakers(rest).insert(chunks.last().speaker).contains(s) implies chunk_speakers(
        chunks,
    ).contains(s) by {
        if s == chunks.last().speaker {
            assert(chunks[chunks.len() - 1].speaker == s);
        } else {
            let i = choose|i: int| 0 <= i < rest.len() && (#[trigger] rest[i]).speaker == s;
            assert(chunks[i].speaker == s);
        }
    }
}

/// The set of speakers a list names.
pub open spec fn speaker_list_set(l: Seq<Seq<char>>) -> Set<Seq<char>> {
    Set::new(|s: Seq<char>| l.contains(s))
}

/// The deterministic speaker list names no speaker twice, and names exactly
/// the chunks' speakers — with `align::lemma_align_speaker_set`, exactly the
/// distinct speakers of the segments whose chunk is non-empty.
pub proof fn lemma_distinct_speakers(chunks: Seq<ChunkModel>)
    ensures
        forall|i: int, j: int|
            0 <= i < j < distinct_speakers(chunks).len() ==> distinct_speakers(chunks)[i]
                != distinct_speakers(chunks)[j],
        speaker_list_set(distinct_speakers(chunks)) == chunk_speakers(chunks),
    decreases chunks.len(),
{
    if chunks.len() == 0 {
        assert forall|s: Seq<char>| !distinct_speakers(chunks).contains(s) by {
            if distinct_speakers(chunks).contains(s) {
                let i = choose|i: int|
                    0 <= i < distinct_speakers(chunks).len() && distinct_speakers(chunks)[i]
                        == s;
            }
        }
        assert(speaker_list_set(distinct_speakers(chunks)) =~= chunk_speakers(chunks));
    } else {
        let rest = chunks.drop_last();
        let sp = chunks.last().speaker;
        lemma_distinct_speakers(rest);
        lemma_chunk_speakers_snoc(chunks);
        let d_rest = distinct_speakers(rest);
        let d = distinct_speakers(chunks);
        if d_rest.contains(sp) {
            assert(chunk_speakers(rest).contains(sp));
            assert(chunk_speakers(rest).insert(sp) =~= chunk_speakers(rest));
            assert(speaker_list_set(d) =~= chunk_speakers(chunks));
        } else {
            assert(d == d_rest.push(sp));
            assert forall|i: int, j: int| 0 <= i < j < d.len() implies d[i] != d[j] by {
                if j == d.len() - 1 {
                    assert(d[i] == d_rest[i]);
                    if d_rest[i] == sp {
                        assert(d_rest.contains(sp));
                    }
                } else {
                    assert(d[i] == d_rest[i]);
                    assert(d[j] == d_rest[j]);
                }
            }
            assert forall|s: Seq<char>|
                speaker_list_set(d).contains(s) == chunk_speakers(chunks).contains(s) by {
                lemma_push_contains(d_rest, sp, s);
            }
            assert(speaker_list_set(d) =~= chunk_speakers(chunks));
        }
    }
}

/// Speaker-set correctness of an assembled record: its speaker list names
/// exactly the distinct speakers of the segments that absorbed at least one
/// word — never a speaker with zero attributed words — and each of them is
/// one of the metadata's segment speakers; every chunk of the transcript
/// holds at least one word.
pub proof fn lemma_assembled_speaker_set(
    record_id: Seq<char>,
    meta: Json,
    trans: Json,
    out: OutputModel,
)
    requires
        assemble_spec(record_id, meta, trans) == Ok::<OutputModel, AssemblyErrorModel>(out),
    ensures
        ({
            match (
                segments_of_nodes(find_nodes(meta, "transcripts"@)),
                words_of_nodes(find_nodes(trans, "word"@)),
            ) {
                (Ok(segs), Ok(words)) => {
                    &&& speaker_list_set(out.speakers) == contributing_speakers(segs, words)
                    &&& contributing_speakers(segs, words).subset_of(segment_speakers(segs))
                    &&& forall|i: int|
                        0 <= i < out.transcript.len() ==> (#[trigger] out.transcript[i]).words.len()
                            > 0
                },
                _ => false,
            }
        }),
{
    match (
        segments_of_nodes(find_nodes(meta, "transcripts"@)),
        words_of_nodes(find_nodes(trans, "word"@)),
    ) {
        (Ok(segs), Ok(words)) => {
            lemma_distinct_speakers(align_chunks(segs, words));
            lemma_align_speaker_set(segs, words);
        },
        _ => {},
    }
}

/// Idempotence: assembling the same record identifier and the same two
/// documents again reproduces the output exactly — the speaker list included,
/// since it is rendered in first-occurrence order, never from an unordered
/// set.
pub proof fn lemma_assembly_idempotent(
    record_id: Seq<char>,
    meta: Json,
    trans: Json,
    r1: OutputModel,
    r2: OutputModel,
)
    requires
        assemble_spec(record_id, meta, trans) == Ok::<OutputModel, AssemblyErrorModel>(r1),
        assemble_spec(record_id, meta, trans) == Ok::<OutputModel, AssemblyErrorModel>(r2),
    ensures
        r1 == r2,
{
}

} // verus!
