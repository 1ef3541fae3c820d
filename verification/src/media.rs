//! Extraction of the media reference from one line of a metadata file: the
//! line must mention the media-path key, and the value is the second piece of
//! the line split on `": "`, with surrounding quotes and commas trimmed.
//!
//! The scan works on bytes; since the key and the separator are ASCII, a byte
//! match coincides with a character match on UTF-8 text.

use vstd::prelude::*;

verus! {

/// Whether `needle` occurs in `hay` at position `i`.
pub open spec fn match_at(hay: Seq<u8>, needle: Seq<u8>, i: int) -> bool {
    &&& 0 <= i
    &&& i + needle.len() <= hay.len()
    &&& hay.subrange(i, i + needle.len() as int) == needle
}

/// Position of the first occurrence of `needle` in `hay` at or after `from`.
pub open spec fn first_match(hay: Seq<u8>, needle: Seq<u8>, from: int) -> Option<int>
    decreases hay.len() + 1 - from,
{
    if from < 0 || from + needle.len() > hay.len() {
        None
    } else if match_at(hay, needle, from) {
        Some(from)
    } else {
        first_match(hay, needle, from + 1)
    }
}

proof fn lemma_first_match_some(hay: Seq<u8>, needle: Seq<u8>, from: int, p: int)
    requires
        first_match(hay, needle, from) == Some(p),
    ensures
        from <= p,
        match_at(hay, needle, p),
    decreases hay.len() + 1 - from,
{
    if from < 0 || from + needle.len() > hay.len() {
    } else if match_at(hay, needle, from) {
    } else {
        lemma_first_match_some(hay, needle, from + 1, p);
    }
}

/// The bytes trimmed from both ends of the extracted piece: `"` and `,`.
pub open spec fn is_trim_byte(b: u8) -> bool {
    b == 34 || b == 44
}

/// The piece with every leading and trailing quote or comma removed.
pub open spec fn trim_seq(s: Seq<u8>) -> Seq<u8>
    decreases s.len(),
{
    if s.len() == 0 {
        s
    } else if is_trim_byte(s[0]) {
        trim_seq(s.subrange(1, s.len() as int))
    } else if is_trim_byte(s.last()) {
        trim_seq(s.subrange(0, s.len() - 1))
    } else {
        s
    }
}

/// The media-path key, `mp4_s3_path`, as bytes.
pub open spec fn media_key() -> Seq<u8> {
    seq![109u8, 112u8, 52u8, 95u8, 115u8, 51u8, 95u8, 112u8, 97u8, 116u8, 104u8]
}

/// The separator `": "` as bytes.
pub open spec fn separator() -> Seq<u8> {
    seq![58u8, 32u8]
}

/// The media path a metadata line yields: when the line mentions the
/// media-path key and has a second piece under the `": "` split, that piece
/// with quotes and commas trimmed from both ends; otherwise nothing. The
/// second piece runs from after the first separator to the next separator, or
/// to the end of the line.
pub open spec fn media_path_of(line: Seq<u8>) -> Option<Seq<u8>> {
    if first_match(line, media_key(), 0) is None {
        None
    } else {
        match first_match(line, separator(), 0) {
            None => None,
            Some(p) => {
                let piece_start = p + 2;
                let piece_end = match first_match(line, separator(), piece_start) {
                    Some(q) => q,
                    None => line.len() as int,
                };
                Some(trim_seq(line.subrange(piece_start, piece_end)))
            },
        }
    }
}

/// Whether `needle` occurs in `hay` at position `i`, mirroring `match_at`.
#[verifier::loop_isolation(false)]
fn match_at_exec(hay: &[u8], needle: &[u8], i: usize) -> (r: bool)
    requires
        i + needle@.len() <= hay@.len(),
        hay@.len() <= usize::MAX,
    ensures
        r == match_at(hay@, needle@, i as int),
{
    let mut j: usize = 0;
    while j < needle.len()
        invariant
            0 <= j <= needle@.len(),
            forall|k: int| 0 <= k < j as int ==> hay@[i as int + k] == needle@[k],
        decreases needle@.len() - j,
    {
        let idx: usize = i + j;
        if hay[idx] != needle[j] {
            proof {
                assert(hay@.subrange(i as int, i as int + needle@.len() as int)[j as int]
                    == hay@[i as int + j as int]);
            }
            return false;
        }
        j = j + 1;
    }
    proof {
        assert(hay@.subrange(i as int, i as int + needle@.len() as int) =~= needle@);
    }
    true
}

/// Position of the first occurrence of `needle` in `hay` at or after `from`,
/// mirroring `first_match`.
#[verifier::loop_isolation(false)]
fn find_from(hay: &[u8], needle: &[u8], from: usize) -> (r: Option<usize>)
    requires
        needle@.len() > 0,
    ensures
        match r {
            Some(p) => first_match(hay@, needle@, from as int) == Some(p as int),
            None => first_match(hay@, needle@, from as int) is None,
        },
{
    let mut i: usize = from;
    while i <= hay.len() && hay.len() - i >= needle.len()
        invariant
            from <= i,
            first_match(hay@, needle@, from as int) == first_match(hay@, needle@, i as int),
        decreases hay@.len() + 1 - i,
    {
        if match_at_exec(hay, needle, i) {
            return Some(i);
        }
        i = i + 1;
    }
    None
}

/// Reads the media path off one line of a metadata file, mirroring
/// `media_path_of`: present exactly when the line mentions `mp4_s3_path` and
/// splits into a second piece on `": "`.
#[verifier::loop_isolation(false)]
pub fn extract_media_path(line: &[u8]) -> (r: Option<Vec<u8>>)
    ensures
        match r {
            Some(v) => media_path_of(line@) == Some(v@),
            None => media_path_of(line@) is None,
        },
{
    let mut key: Vec<u8> = Vec::new();
    key.push(109);
    key.push(112);
    key.push(52);
    key.push(95);
    key.push(115);
    key.push(51);
    key.push(95);
    key.push(112);
    key.push(97);
    key.push(116);
    key.push(104);
    proof {
        assert(key@ =~= media_key());
    }
    let mut sep: Vec<u8> = Vec::new();
    sep.push(58);
    sep.push(32);
    proof {
        assert(sep@ =~= separator());
    }
    if find_from(line, key.as_slice(), 0).is_none() {
        return None;
    }
    let line_len = line.len();
    let p = match find_from(line, sep.as_slice(), 0) {
        Some(p) => p,
        None => {
            return None;
        },
    };
    proof {
        assert(separator().len() == 2);
        lemma_first_match_some(line@, separator(), 0, p as int);
    }
    let piece_start = p + 2;
    let piece_end = match find_from(line, sep.as_slice(), piece_start) {
        Some(q) => q,
        None => line_len,
    };
    proof {
        if first_match(line@, separator(), piece_start as int) is Some {
            lemma_first_match_some(
                line@,
                separator(),
                piece_start as int,
                piece_end as int,
            );
        }
    }
    let ghost piece = line@.subrange(piece_start as int, piece_end as int);
    let mut lo: usize = piece_start;
    let mut hi: usize = piece_end;
    while lo < hi && (line[lo] == 34 || line[lo] == 44)
        invariant
            piece_start <= lo <= hi <= piece_end,
            trim_seq(piece) == trim_seq(line@.subrange(lo as int, hi as int)),
        decreases hi - lo,
    {
        proof {
            let cur = line@.subrange(lo as int, hi as int);
            assert(cur[0] == line@[lo as int]);
            assert(cur.subrange(1, cur.len() as int) =~= line@.subrange(
                lo as int + 1,
                hi as int,
            ));
        }
        lo = lo + 1;
    }
    while lo < hi && (line[hi - 1] == 34 || line[hi - 1] == 44)
        invariant
            piece_start <= lo <= hi <= piece_end,
            lo < hi ==> !is_trim_byte(line@[lo as int]),
            trim_seq(piece) == trim_seq(line@.subrange(lo as int, hi as int)),
        decreases hi - lo,
    {
        proof {
            let cur = line@.subrange(lo as int, hi as int);
            assert(cur[0] == line@[lo as int]);
            assert(cur.last() == line@[hi as int - 1]);
            assert(cur.subrange(0, cur.len() - 1) =~= line@.subrange(
                lo as int,
                hi as int - 1,
            ));
        }
        hi = hi - 1;
    }
    proof {
        let cur = line@.subrange(lo as int, hi as int);
        if cur.len() != 0 {
            assert(cur[0] == line@[lo as int]);
            assert(cur.last() == line@[hi as int - 1]);
        }
        assert(trim_seq(piece) == cur);
    }
    let mut out: Vec<u8> = Vec::new();
    let mut k: usize = lo;
    while k < hi
        invariant
            lo <= k <= hi,
            out@ =~= line@.subrange(lo as int, k as int),
        decreases hi - k,
    {
        out.push(line[k]);
        k = k + 1;
    }
    proof {
        assert(out@ =~= line@.subrange(lo as int, hi as int));
    }
    Some(out)
}

} // verus!
