//! Display segments of an annotated narrative: plain text between concept
//! hits, and the hits themselves.

use vstd::prelude::*;

verus! {

/// A concept hit over a text buffer: the matched term and the byte span
/// `[start, end)` where it was found.
#[derive(Debug)]
pub struct ConceptHit {
    pub term_id: String,
    pub label: String,
    pub start: usize,
    pub end: usize,
    pub is_observed: bool,
}

/// One display segment. Plain segments (`is_fenominal_hit == false`) carry
/// escaped text; hit segments carry the matched term and the literal slice.
#[derive(Debug)]
pub struct TextAnnotationDto {
    pub is_fenominal_hit: bool,
    pub term_id: String,
    pub label: String,
    pub start: usize,
    pub end: usize,
    pub is_observed: bool,
    pub original_text: String,
    pub onset_string: String,
}

/// The mathematical value of a display segment.
pub ghost struct AnnotationView {
    pub is_hit: bool,
    pub term_id: Seq<char>,
    pub label: Seq<char>,
    pub start: nat,
    pub end: nat,
    pub is_observed: bool,
    pub original_text: Seq<char>,
    pub onset_string: Seq<char>,
}

impl View for TextAnnotationDto {
    type V = AnnotationView;

    open spec fn view(&self) -> AnnotationView {
        AnnotationView {
            is_hit: self.is_fenominal_hit,
            term_id: self.term_id@,
            label: self.label@,
            start: self.start as nat,
            end: self.end as nat,
            is_observed: self.is_observed,
            original_text: self.original_text@,
            onset_string: self.onset_string@,
        }
    }
}

/// The onset text of a segment that nobody has annotated yet.
pub open spec fn onset_not_available() -> Seq<char> {
    seq!['n', 'a']
}

/// A plain segment over `[start, end)` holding `text`.
pub open spec fn plain_view(text: Seq<char>, start: nat, end: nat) -> AnnotationView {
    AnnotationView {
        is_hit: false,
        term_id: Seq::empty(),
        label: Seq::empty(),
        start,
        end,
        is_observed: false,
        original_text: text,
        onset_string: onset_not_available(),
    }
}

/// The hit segment of `hit`, whose matched text is `text`.
pub open spec fn hit_view(text: Seq<char>, hit: ConceptHit) -> AnnotationView {
    AnnotationView {
        is_hit: true,
        term_id: hit.term_id@,
        label: hit.label@,
        start: hit.start as nat,
        end: hit.end as nat,
        is_observed: hit.is_observed,
        original_text: text,
        onset_string: onset_not_available(),
    }
}

impl Default for TextAnnotationDto {
    fn default() -> (r: Self)
        ensures
            r@ == plain_view(Seq::empty(), 0, 0),
    {
        proof {
            reveal_strlit("na");
        }
        let r = TextAnnotationDto {
            is_fenominal_hit: false,
            term_id: String::new(),
            label: String::new(),
            start: 0,
            end: 0,
            is_observed: false,
            original_text: String::new(),
            onset_string: String::from_str("na"),
        };
        assert(r.onset_string@ =~= onset_not_available());
        r
    }
}

impl TextAnnotationDto {
    /// A plain-text segment.
    pub fn text_annot(text: String, start: usize, end: usize) -> (r: Self)
        ensures
            r@ == plain_view(text@, start as nat, end as nat),
    {
        let mut dto = TextAnnotationDto::default();
        dto.original_text = text;
        dto.start = start;
        dto.end = end;
        dto
    }

    /// The segment of a concept hit whose matched text is `text`.
    pub fn from_hit(text: String, hit: &ConceptHit) -> (r: Self)
        ensures
            r@ == hit_view(text@, *hit),
    {
        let mut dto = TextAnnotationDto::default();
        dto.is_fenominal_hit = true;
        dto.term_id = hit.term_id.clone();
        dto.label = hit.label.clone();
        dto.start = hit.start;
        dto.end = hit.end;
        dto.is_observed = hit.is_observed;
        dto.original_text = text;
        dto
    }

    /// An observed term chosen by autocompletion rather than found in a text:
    /// it covers no span and has no matched text.
    pub fn autocompleted_fenominal_hit(term_id: &str, term_label: &str) -> (r: Self)
        ensures
            r@ == (AnnotationView {
                is_hit: true,
                term_id: term_id@,
                label: term_label@,
                start: 0,
                end: 0,
                is_observed: true,
                original_text: Seq::empty(),
                onset_string: onset_not_available(),
            }),
    {
        let mut dto = TextAnnotationDto::default();
        dto.term_id = String::from_str(term_id);
        dto.label = String::from_str(term_label);
        dto.is_fenominal_hit = true;
        dto.is_observed = true;
        dto
    }
}

/// The parents and children of a term, offered as replacements in the editor.
#[derive(Debug)]
pub struct ParentChildDto {
    pub parents: Vec<TextAnnotationDto>,
    pub children: Vec<TextAnnotationDto>,
}

impl Default for ParentChildDto {
    fn default() -> (r: Self)
        ensures
            r.parents@.len() == 0,
            r.children@.len() == 0,
    {
        ParentChildDto { parents: Vec::new(), children: Vec::new() }
    }
}

} // verus!
