//! Turns a narrative and a list of concept hits (byte spans over it) into an
//! ordered sequence of display segments: escaped plain text between hits, and
//! the hits themselves. Hits whose span is not a well-formed slice of the text
//! are skipped; their span is folded into the surrounding plain text.

use vstd::prelude::*;
use vstd::utf8::*;
use vstd::string::StringSliceAdditionalSpecFns;
use crate::text_annotation_dto::{
    AnnotationView, ConceptHit, TextAnnotationDto, hit_view, plain_view,
};

verus! {

/// The HTML entity text of one character: `&`, `<` and `>` are replaced,
/// every other character stands for itself.
pub open spec fn escape_char(c: char) -> Seq<char> {
    if c == '&' {
        seq!['&', 'a', 'm', 'p', ';']
    } else if c == '<' {
        seq!['&', 'l', 't', ';']
    } else if c == '>' {
        seq!['&', 'g', 't', ';']
    } else {
        seq![c]
    }
}

/// Text escaped for use as HTML text content.
pub open spec fn html_escaped(s: Seq<char>) -> Seq<char>
    decreases s.len(),
{
    if s.len() == 0 {
        Seq::empty()
    } else {
        escape_char(s[0]) + html_escaped(s.drop_first())
    }
}

/// Undoes `html_escaped`: the three entities become their characters again.
pub open spec fn html_unescaped(s: Seq<char>) -> Seq<char>
    decreases s.len(),
{
    if s.len() == 0 {
        Seq::empty()
    } else if s.len() >= 5 && s.take(5) == seq!['&', 'a', 'm', 'p', ';'] {
        seq!['&'] + html_unescaped(s.skip(5))
    } else if s.len() >= 4 && s.take(4) == seq!['&', 'l', 't', ';'] {
        seq!['<'] + html_unescaped(s.skip(4))
    } else if s.len() >= 4 && s.take(4) == seq!['&', 'g', 't', ';'] {
        seq!['>'] + html_unescaped(s.skip(4))
    } else {
        seq![s[0]] + html_unescaped(s.drop_first())
    }
}

/// Unescaping gives back the escaped text.
pub proof fn lemma_unescape_escape(s: Seq<char>)
    ensures
        html_unescaped(html_escaped(s)) == s,
    decreases s.len(),
{
    if s.len() > 0 {
        let c = s[0];
        let rest = s.drop_first();
        let e = html_escaped(s);
        lemma_unescape_escape(rest);
        assert(e == escape_char(c) + html_escaped(rest));
        if c == '&' {
            assert(e.take(5) =~= seq!['&', 'a', 'm', 'p', ';']);
            assert(e.skip(5) =~= html_escaped(rest));
        } else if c == '<' {
            assert(e[1] == 'l');
            assert(e.len() >= 5 ==> e.take(5)[1] == 'l');
            assert(e.take(4) =~= seq!['&', 'l', 't', ';']);
            assert(e.skip(4) =~= html_escaped(rest));
        } else if c == '>' {
            assert(e[1] == 'g');
            assert(e.len() >= 5 ==> e.take(5)[1] == 'g');
            assert(e.take(4)[1] == 'g');
            assert(e.take(4) =~= seq!['&', 'g', 't', ';']);
            assert(e.skip(4) =~= html_escaped(rest));
        } else {
            assert(e[0] == c);
            assert(e.len() >= 5 ==> e.take(5)[0] == c);
            assert(e.len() >= 4 ==> e.take(4)[0] == c);
            assert(e.drop_first() =~= html_escaped(rest));
        }
        assert(s =~= seq![c] + rest);
    }
}

/// Relies on html_escape::encode_text: it replaces `&`, `<` and `>` by
/// `&amp;`, `&lt;` and `&gt;` and copies every other character.
#[verifier::external_body]
fn encode_text(s: &str) -> (r: String)
    ensures
        r@ == html_escaped(s@),
{
    html_escape::encode_text(s).into_owned()
}

/// The characters whose UTF-8 encoding is `bytes[start..end]`.
pub open spec fn span_text(bytes: Seq<u8>, start: int, end: int) -> Seq<char> {
    decode_utf8(bytes.subrange(start, end))
}

/// A hit whose span is a non-empty slice of `bytes` that starts and ends on
/// character boundaries.
pub open spec fn hit_in_bounds(bytes: Seq<u8>, hit: ConceptHit) -> bool {
    &&& hit.start < hit.end
    &&& hit.end <= bytes.len()
    &&& is_char_boundary(bytes, hit.start as int)
    &&& is_char_boundary(bytes, hit.end as int)
}

/// The plain segment over `bytes[start..end]`.
pub open spec fn plain_segment(bytes: Seq<u8>, start: nat, end: nat) -> AnnotationView {
    plain_view(html_escaped(span_text(bytes, start as int, end as int)), start, end)
}

/// The segment of an accepted hit.
pub open spec fn hit_segment(bytes: Seq<u8>, hit: ConceptHit) -> AnnotationView {
    hit_view(span_text(bytes, hit.start as int, hit.end as int), hit)
}

/// The segments emitted for `hits`, and the offset where the last accepted
/// hit ended (0 if none was accepted).
pub open spec fn scan(bytes: Seq<u8>, hits: Seq<ConceptHit>) -> (Seq<AnnotationView>, nat)
    decreases hits.len(),
{
    if hits.len() == 0 {
        (Seq::empty(), 0)
    } else {
        let prev = scan(bytes, hits.drop_last());
        let hit = hits.last();
        if !hit_in_bounds(bytes, hit) {
            prev
        } else {
            let before = if hit.start > prev.1 {
                prev.0.push(plain_segment(bytes, prev.1, hit.start as nat))
            } else {
                prev.0
            };
            (before.push(hit_segment(bytes, hit)), hit.end as nat)
        }
    }
}

/// All segments of the annotated text: those of the hits, then the trailing
/// plain text, if any.
pub open spec fn annotate(bytes: Seq<u8>, hits: Seq<ConceptHit>) -> Seq<AnnotationView> {
    let s = scan(bytes, hits);
    if s.1 < bytes.len() {
        s.0.push(plain_segment(bytes, s.1, bytes.len() as nat))
    } else {
        s.0
    }
}

/// The values of a list of segments.
pub open spec fn segment_views(v: Seq<TextAnnotationDto>) -> Seq<AnnotationView> {
    v.map_values(|a: TextAnnotationDto| a@)
}

/// Splitting a valid encoding at character boundaries keeps it valid, and a
/// boundary of the whole inside the piece is a boundary of the piece.
proof fn lemma_boundary_in_piece(bytes: Seq<u8>, a: int, c: int, i: int)
    requires
        valid_utf8(bytes),
        0 <= a <= i <= c <= bytes.len(),
        is_char_boundary(bytes, a),
        is_char_boundary(bytes, c),
        is_char_boundary(bytes, i),
    ensures
        valid_utf8(bytes.subrange(a, c)),
        is_char_boundary(bytes.subrange(a, c), i - a),
{
    let prefix = bytes.subrange(0, c);
    valid_utf8_split(bytes, c);
    assert(is_char_boundary(prefix, a)) by {
        if a == c {
            is_char_boundary_start_end_of_seq(prefix);
        } else if a > 0 {
            is_char_boundary_iff_not_is_continuation_byte(bytes, a);
            is_char_boundary_iff_not_is_continuation_byte(prefix, a);
        }
    }
    valid_utf8_split(prefix, a);
    let piece = bytes.subrange(a, c);
    assert(prefix.subrange(a, prefix.len() as int) =~= piece);
    if i == c {
        is_char_boundary_start_end_of_seq(piece);
    } else if i > a {
        is_char_boundary_iff_not_is_continuation_byte(bytes, i);
        is_char_boundary_iff_not_is_continuation_byte(piece, i - a);
    }
}

/// Decoding two adjacent slices that meet at a character boundary gives the
/// decoding of their union.
proof fn lemma_span_text_concat(bytes: Seq<u8>, a: int, b: int, c: int)
    requires
        valid_utf8(bytes),
        0 <= a <= b <= c <= bytes.len(),
        is_char_boundary(bytes, a),
        is_char_boundary(bytes, b),
        is_char_boundary(bytes, c),
    ensures
        span_text(bytes, a, c) == span_text(bytes, a, b) + span_text(bytes, b, c),
{
    lemma_boundary_in_piece(bytes, a, c, b);
    let piece = bytes.subrange(a, c);
    decode_utf8_split(piece, b - a);
    assert(piece.subrange(0, b - a) =~= bytes.subrange(a, b));
    assert(piece.subrange(b - a, piece.len() as int) =~= bytes.subrange(b, c));
}

/// The slice `s[start..end]` as an owned string.
fn byte_slice(s: &str, start: usize, end: usize) -> (r: String)
    requires
        start <= end <= s.spec_bytes().len(),
        is_char_boundary(s.spec_bytes(), start as int),
        is_char_boundary(s.spec_bytes(), end as int),
    ensures
        r@ == span_text(s.spec_bytes(), start as int, end as int),
{
    let ghost bytes = s.spec_bytes();
    proof {
        encode_utf8_valid_utf8(s@);
        lemma_boundary_in_piece(bytes, 0, end as int, start as int);
        assert(bytes.subrange(0, end as int) =~= bytes.subrange(0, end as int).subrange(0, end as int));
    }
    let (left, _) = s.split_at(end);
    proof {
        assert(left.spec_bytes() =~= bytes.subrange(0, end as int));
    }
    let (_, mid) = left.split_at(start);
    proof {
        assert(mid.spec_bytes() =~= bytes.subrange(start as int, end as int));
        encode_utf8_decode_utf8(mid@);
    }
    String::from_str(mid)
}

/// Splits `input_text` into display segments around the sorted `hits`.
///
/// A hit is accepted when its span is a non-empty slice of the text that
/// starts and ends on character boundaries; any other hit is skipped. Before
/// each accepted hit that starts after the previous one ended, the text in
/// between becomes an escaped plain segment; the hit becomes a hit segment
/// holding its literal slice. Text after the last accepted hit becomes a final
/// plain segment. This never fails.
pub fn text_to_annotations(input_text: &str, hits: &[ConceptHit]) -> (r: Result<
    Vec<TextAnnotationDto>,
    String,
>)
    ensures
        r matches Ok(v) && segment_views(v@) == annotate(input_text.spec_bytes(), hits@),
{
    let ghost bytes = input_text.spec_bytes();
    let n = input_text.as_bytes().len();
    proof {
        encode_utf8_valid_utf8(input_text@);
    }
    let mut annotations: Vec<TextAnnotationDto> = Vec::new();
    let mut last_index: usize = 0;
    let mut i: usize = 0;
    while i < hits.len()
        invariant
            i <= hits@.len(),
            n == bytes.len(),
            bytes == input_text.spec_bytes(),
            valid_utf8(bytes),
            last_index <= n,
            is_char_boundary(bytes, last_index as int),
            segment_views(annotations@) == scan(bytes, hits@.take(i as int)).0,
            last_index as nat == scan(bytes, hits@.take(i as int)).1,
        decreases hits@.len() - i,
    {
        let hit = &hits[i];
        let start = hit.start;
        let end = hit.end;
        proof {
            assert(hits@.take(i + 1).drop_last() =~= hits@.take(i as int));
            assert(hits@.take(i + 1).last() == hits@[i as int]);
        }
        if start > n || end > n || start >= end {
            i = i + 1;
            continue ;
        }
        if !input_text.is_char_boundary(start) || !input_text.is_char_boundary(end) {
            i = i + 1;
            continue ;
        }
        let ghost before_views = segment_views(annotations@);
        if start > last_index {
            let before = byte_slice(input_text, last_index, start);
            let escaped = encode_text(before.as_str());
            annotations.push(TextAnnotationDto::text_annot(escaped, last_index, start));
            proof {
                assert(segment_views(annotations@) =~= before_views.push(
                    plain_segment(bytes, last_index as nat, start as nat),
                ));
            }
        }
        let ghost mid_views = segment_views(annotations@);
        let matched_text = byte_slice(input_text, start, end);
        annotations.push(TextAnnotationDto::from_hit(matched_text, hit));
        proof {
            assert(segment_views(annotations@) =~= mid_views.push(hit_segment(bytes, *hit)));
        }
        last_index = end;
        i = i + 1;
    }
    proof {
        assert(hits@.take(hits@.len() as int) =~= hits@);
    }
    if last_index < n {
        let ghost before_views = segment_views(annotations@);
        proof {
            encode_utf8_valid_utf8(input_text@);
            is_char_boundary_start_end_of_seq(bytes);
        }
        let tail = byte_slice(input_text, last_index, n);
        let escaped = encode_text(tail.as_str());
        annotations.push(TextAnnotationDto::text_annot(escaped, last_index, n));
        proof {
            assert(segment_views(annotations@) =~= before_views.push(
                plain_segment(bytes, last_index as nat, n as nat),
            ));
        }
    }
    Ok(annotations)
}


/// The text a segment stands for: a hit's literal slice, or a plain
/// segment's text unescaped.
pub open spec fn source_text(a: AnnotationView) -> Seq<char> {
    if a.is_hit {
        a.original_text
    } else {
        html_unescaped(a.original_text)
    }
}

/// The source texts of the segments, joined in order.
pub open spec fn joined_source(segs: Seq<AnnotationView>) -> Seq<char>
    decreases segs.len(),
{
    if segs.len() == 0 {
        Seq::empty()
    } else {
        joined_source(segs.drop_last()) + source_text(segs.last())
    }
}

/// Accepted hits come in order and do not overlap.
pub open spec fn accepted_hits_ordered(bytes: Seq<u8>, hits: Seq<ConceptHit>) -> bool {
    forall|i: int, j: int|
        0 <= i < j < hits.len() && hit_in_bounds(bytes, #[trigger] hits[i]) && hit_in_bounds(
            bytes,
            #[trigger] hits[j],
        ) ==> hits[i].end <= hits[j].start
}

/// Non-empty segments that tile `[0, end)` from left to right.
pub open spec fn tiles(segs: Seq<AnnotationView>, end: nat) -> bool {
    &&& segs.len() == 0 ==> end == 0
    &&& segs.len() > 0 ==> segs[0].start == 0 && segs.last().end == end
    &&& forall|k: int| 0 <= k < segs.len() - 1 ==> segs[k].end == #[trigger] segs[k + 1].start
    &&& forall|k: int| 0 <= k < segs.len() ==> #[trigger] segs[k].start < segs[k].end
}

proof fn lemma_joined_push(segs: Seq<AnnotationView>, a: AnnotationView)
    ensures
        joined_source(segs.push(a)) == joined_source(segs) + source_text(a),
{
    assert(segs.push(a).drop_last() =~= segs);
}

proof fn lemma_scan_tiles(bytes: Seq<u8>, hits: Seq<ConceptHit>)
    requires
        valid_utf8(bytes),
        accepted_hits_ordered(bytes, hits),
    ensures
        scan(bytes, hits).1 <= bytes.len(),
        is_char_boundary(bytes, scan(bytes, hits).1 as int),
        joined_source(scan(bytes, hits).0) == span_text(bytes, 0, scan(bytes, hits).1 as int),
        tiles(scan(bytes, hits).0, scan(bytes, hits).1),
        scan(bytes, hits).1 == 0 || exists|k: int|
            0 <= k < hits.len() && hit_in_bounds(bytes, #[trigger] hits[k]) && scan(bytes, hits).1
                == hits[k].end,
    decreases hits.len(),
{
    if hits.len() == 0 {
        assert(bytes.subrange(0, 0) =~= Seq::<u8>::empty());
    } else {
        let prev_hits = hits.drop_last();
        assert forall|i: int, j: int|
            0 <= i < j < prev_hits.len() && hit_in_bounds(bytes, #[trigger] prev_hits[i])
                && hit_in_bounds(bytes, #[trigger] prev_hits[j]) implies prev_hits[i].end
            <= prev_hits[j].start by {
            assert(prev_hits[i] == hits[i]);
            assert(prev_hits[j] == hits[j]);
        }
        lemma_scan_tiles(bytes, prev_hits);
        let prev = scan(bytes, prev_hits);
        let hit = hits.last();
        if hit_in_bounds(bytes, hit) {
            if prev.1 != 0 {
                let k = choose|k: int|
                    0 <= k < prev_hits.len() && hit_in_bounds(bytes, #[trigger] prev_hits[k])
                        && prev.1 == prev_hits[k].end;
                assert(prev_hits[k] == hits[k]);
                assert(hits[hits.len() - 1] == hit);
            }
            assert(prev.1 <= hit.start);
            let before = if hit.start > prev.1 {
                prev.0.push(plain_segment(bytes, prev.1, hit.start as nat))
            } else {
                prev.0
            };
            if hit.start > prev.1 {
                lemma_joined_push(prev.0, plain_segment(bytes, prev.1, hit.start as nat));
                lemma_unescape_escape(span_text(bytes, prev.1 as int, hit.start as int));
                lemma_span_text_concat(bytes, 0, prev.1 as int, hit.start as int);
            }
            assert(joined_source(before) == span_text(bytes, 0, hit.start as int));
            lemma_joined_push(before, hit_segment(bytes, hit));
            lemma_span_text_concat(bytes, 0, hit.start as int, hit.end as int);
            assert(hits[hits.len() - 1] == hit);
        }
    }
}

/// Joining all segments back, hit segments as they are and plain segments
/// unescaped, gives the annotated text exactly; and the segments tile the
/// text's bytes from first to last, in order, without gaps or overlaps.
/// This holds whenever the accepted hits do not overlap one another.
pub proof fn lemma_annotation_round_trip(text: Seq<char>, hits: Seq<ConceptHit>)
    requires
        accepted_hits_ordered(encode_utf8(text), hits),
    ensures
        joined_source(annotate(encode_utf8(text), hits)) == text,
        tiles(annotate(encode_utf8(text), hits), encode_utf8(text).len()),
{
    let bytes = encode_utf8(text);
    encode_utf8_valid_utf8(text);
    encode_utf8_decode_utf8(text);
    is_char_boundary_start_end_of_seq(bytes);
    lemma_scan_tiles(bytes, hits);
    let s = scan(bytes, hits);
    if s.1 < bytes.len() {
        let tail = plain_segment(bytes, s.1, bytes.len() as nat);
        lemma_joined_push(s.0, tail);
        lemma_unescape_escape(span_text(bytes, s.1 as int, bytes.len() as int));
        lemma_span_text_concat(bytes, 0, s.1 as int, bytes.len() as int);
    }
    assert(bytes.subrange(0, bytes.len() as int) =~= bytes);
}

proof fn lemma_scan_without(bytes: Seq<u8>, hits: Seq<ConceptHit>, k: int)
    requires
        0 <= k < hits.len(),
        !hit_in_bounds(bytes, hits[k]),
    ensures
        scan(bytes, hits) == scan(bytes, hits.remove(k)),
    decreases hits.len(),
{
    let rest = hits.remove(k);
    if k == hits.len() - 1 {
        assert(rest =~= hits.drop_last());
    } else {
        assert(rest.drop_last() =~= hits.drop_last().remove(k));
        assert(rest.last() == hits.last());
        lemma_scan_without(bytes, hits.drop_last(), k);
    }
}

/// A hit whose start or end falls inside a multi-byte character is skipped:
/// the segments are exactly those of the same hits without it.
pub proof fn lemma_misaligned_hit_skipped(text: Seq<char>, hits: Seq<ConceptHit>, k: int)
    requires
        0 <= k < hits.len(),
        !is_char_boundary(encode_utf8(text), hits[k].start as int) || !is_char_boundary(
            encode_utf8(text),
            hits[k].end as int,
        ),
    ensures
        annotate(encode_utf8(text), hits) == annotate(encode_utf8(text), hits.remove(k)),
{
    lemma_scan_without(encode_utf8(text), hits, k);
}

} // verus!
