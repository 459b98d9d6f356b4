//! The concept dictionary: raw per-row mining concepts merged into one
//! canonical entry per distinct text, and curator-reviewed entries applied
//! back onto the raw per-row concepts.

use vstd::prelude::*;
use vstd::utf8::*;
use vstd::string::StringSliceAdditionalSpecFns;
use crate::hpo::{MiningConcept, clone_matches, clone_rows};

verus! {

/// Lexicographic order of byte strings (a proper prefix comes first).
pub open spec fn bytes_less(a: Seq<u8>, b: Seq<u8>) -> bool
    decreases a.len(),
{
    if a.len() == 0 {
        b.len() > 0
    } else if b.len() == 0 {
        false
    } else if a[0] != b[0] {
        a[0] < b[0]
    } else {
        bytes_less(a.drop_first(), b.drop_first())
    }
}

/// The order of texts: the lexicographic order of their UTF-8 bytes, which is
/// the order of Rust strings.
pub open spec fn text_less(a: Seq<char>, b: Seq<char>) -> bool {
    bytes_less(encode_utf8(a), encode_utf8(b))
}

proof fn lemma_bytes_less_irreflexive(a: Seq<u8>)
    ensures
        !bytes_less(a, a),
    decreases a.len(),
{
    if a.len() > 0 {
        lemma_bytes_less_irreflexive(a.drop_first());
    }
}

proof fn lemma_bytes_less_transitive(a: Seq<u8>, b: Seq<u8>, c: Seq<u8>)
    requires
        bytes_less(a, b),
        bytes_less(b, c),
    ensures
        bytes_less(a, c),
    decreases a.len(),
{
    if a.len() > 0 && b.len() > 0 && c.len() > 0 && a[0] == b[0] && b[0] == c[0] {
        lemma_bytes_less_transitive(a.drop_first(), b.drop_first(), c.drop_first());
    }
}

proof fn lemma_bytes_less_total(a: Seq<u8>, b: Seq<u8>)
    requires
        a != b,
    ensures
        bytes_less(a, b) || bytes_less(b, a),
    decreases a.len(),
{
    if a.len() > 0 && b.len() > 0 && a[0] == b[0] {
        if a.drop_first() == b.drop_first() {
            assert(a =~= seq![a[0]] + a.drop_first());
            assert(b =~= seq![b[0]] + b.drop_first());
        }
        lemma_bytes_less_total(a.drop_first(), b.drop_first());
    } else if a.len() == 0 && b.len() == 0 {
        assert(a =~= b);
    }
}

proof fn lemma_bytes_less_skip(a: Seq<u8>, b: Seq<u8>, i: int)
    requires
        0 <= i <= a.len(),
        i <= b.len(),
        a.take(i) == b.take(i),
    ensures
        bytes_less(a, b) == bytes_less(a.skip(i), b.skip(i)),
    decreases i,
{
    if i > 0 {
        assert(a[0] == a.take(i)[0]);
        assert(b[0] == b.take(i)[0]);
        assert(a.drop_first().take(i - 1) =~= a.take(i).drop_first());
        assert(b.drop_first().take(i - 1) =~= b.take(i).drop_first());
        lemma_bytes_less_skip(a.drop_first(), b.drop_first(), i - 1);
        assert(a.drop_first().skip(i - 1) =~= a.skip(i));
        assert(b.drop_first().skip(i - 1) =~= b.skip(i));
    } else {
        assert(a.skip(0) =~= a);
        assert(b.skip(0) =~= b);
    }
}

/// The order of texts is strict and total on distinct texts.
proof fn lemma_text_less_total(a: Seq<char>, b: Seq<char>)
    requires
        a != b,
    ensures
        text_less(a, b) || text_less(b, a),
{
    encode_utf8_decode_utf8(a);
    encode_utf8_decode_utf8(b);
    lemma_bytes_less_total(encode_utf8(a), encode_utf8(b));
}

/// Whether text `a` comes before text `b`.
fn text_before(a: &String, b: &String) -> (r: bool)
    ensures
        r == text_less(a@, b@),
{
    let x = a.as_str().as_bytes();
    let y = b.as_str().as_bytes();
    let mut i: usize = 0;
    while i < x.len() && i < y.len()
        invariant
            x@ == encode_utf8(a@),
            y@ == encode_utf8(b@),
            i <= x@.len(),
            i <= y@.len(),
            x@.take(i as int) == y@.take(i as int),
        decreases x@.len() - i,
    {
        if x[i] != y[i] {
            proof {
                lemma_bytes_less_skip(x@, y@, i as int);
                assert(x@.skip(i as int)[0] == x@[i as int]);
                assert(y@.skip(i as int)[0] == y@[i as int]);
            }
            return x[i] < y[i];
        }
        proof {
            assert(x@.take(i + 1) =~= x@.take(i as int).push(x@[i as int]));
            assert(y@.take(i + 1) =~= y@.take(i as int).push(y@[i as int]));
        }
        i = i + 1;
    }
    proof {
        lemma_bytes_less_skip(x@, y@, i as int);
    }
    i < y.len()
}

/// `s` is strictly increasing.
pub open spec fn strictly_increasing(s: Seq<usize>) -> bool {
    forall|a: int, b: int| 0 <= a < b < s.len() ==> s[a] < s[b]
}

/// Some concept of `concepts` with text `text` lists `row`.
pub open spec fn row_of_text(concepts: Seq<MiningConcept>, text: Seq<char>, row: usize) -> bool {
    exists|i: int|
        0 <= i < concepts.len() && (#[trigger] concepts[i]).original_text@ == text
            && concepts[i].row_index_list@.contains(row)
}

/// Concept `i` is the first of `concepts` with text `text`.
pub open spec fn first_with_text(concepts: Seq<MiningConcept>, i: int, text: Seq<char>) -> bool {
    &&& 0 <= i < concepts.len()
    &&& concepts[i].original_text@ == text
    &&& forall|q: int| 0 <= q < i ==> (#[trigger] concepts[q]).original_text@ != text
}

/// No concept of `concepts` has text `text`.
pub open spec fn lacks_text(concepts: Seq<MiningConcept>, text: Seq<char>) -> bool {
    forall|q: int| 0 <= q < concepts.len() ==> (#[trigger] concepts[q]).original_text@ != text
}

/// Some entry of `out` has text `text`.
pub open spec fn has_entry(out: Seq<MiningConcept>, text: Seq<char>) -> bool {
    exists|j: int| 0 <= j < out.len() && (#[trigger] out[j]).original_text@ == text
}

/// `entry` is the canonical entry of its text in `raw`: the terms and status
/// of the first raw concept with that text, and the rows of all of them,
/// sorted and without repeats.
pub open spec fn canonical_entry(raw: Seq<MiningConcept>, entry: MiningConcept) -> bool {
    &&& exists|i: int|
        first_with_text(raw, i, entry.original_text@) && (#[trigger] raw[i]).suggested_terms@
            == entry.suggested_terms@ && raw[i].mining_status == entry.mining_status
    &&& strictly_increasing(entry.row_index_list@)
    &&& forall|row: usize|
        entry.row_index_list@.contains(row) <==> #[trigger] row_of_text(
            raw,
            entry.original_text@,
            row,
        )
}

/// `out` is the canonical dictionary of `raw`: one entry per distinct text,
/// sorted by text.
pub open spec fn is_canonical(raw: Seq<MiningConcept>, out: Seq<MiningConcept>) -> bool {
    &&& forall|j1: int, j2: int|
        0 <= j1 < j2 < out.len() ==> text_less(
            (#[trigger] out[j1]).original_text@,
            (#[trigger] out[j2]).original_text@,
        )
    &&& forall|i: int| 0 <= i < raw.len() ==> has_entry(out, (#[trigger] raw[i]).original_text@)
    &&& forall|j: int| 0 <= j < out.len() ==> canonical_entry(raw, #[trigger] out[j])
}

/// Adds `x` to the strictly increasing `v`, unless it is already there.
fn insert_row(v: &mut Vec<usize>, x: usize)
    requires
        strictly_increasing(old(v)@),
    ensures
        strictly_increasing(final(v)@),
        forall|r: usize| final(v)@.contains(r) <==> (old(v)@.contains(r) || r == x),
{
    let mut pos: usize = 0;
    while pos < v.len() && v[pos] < x
        invariant
            pos <= v@.len(),
            v@ == old(v)@,
            strictly_increasing(v@),
            forall|q: int| 0 <= q < pos ==> v@[q] < x,
        decreases v@.len() - pos,
    {
        pos = pos + 1;
    }
    if pos < v.len() && v[pos] == x {
        assert(v@[pos as int] == x);
        assert(v@.contains(x));
        return ;
    }
    let ghost before = v@;
    v.insert(pos, x);
    proof {
        assert(before == old(v)@);
        assert(pos < before.len() ==> x < before[pos as int]);
        assert forall|a: int, b: int| 0 <= a < b < v@.len() implies v@[a] < v@[b] by {
            if b < pos {
                assert(v@[a] == before[a] && v@[b] == before[b]);
            } else if b == pos {
                assert(v@[a] == before[a]);
            } else if a < pos {
                assert(v@[a] == before[a] && v@[b] == before[b - 1]);
                assert(before[pos as int] <= before[b - 1]);
            } else if a == pos {
                assert(v@[b] == before[b - 1]);
                assert(before[pos as int] <= before[b - 1]);
            } else {
                assert(v@[a] == before[a - 1] && v@[b] == before[b - 1]);
            }
        }
        assert forall|r: usize| #[trigger] v@.contains(r) <==> (before.contains(r) || r == x) by {
            if before.contains(r) {
                let k = choose|k: int| 0 <= k < before.len() && before[k] == r;
                if k < pos {
                    assert(v@[k] == r);
                } else {
                    assert(v@[k + 1] == r);
                }
            }
            if r == x {
                assert(v@[pos as int] == x);
            }
            if v@.contains(r) {
                let k = choose|k: int| 0 <= k < v@.len() && v@[k] == r;
                if k < pos {
                    assert(before[k] == r);
                } else if k > pos {
                    assert(before[k - 1] == r);
                }
            }
        }
    }
}

/// The rows of every concept of `raw` with text `text`, sorted and without
/// repeats.
fn rows_of_text(raw: &Vec<MiningConcept>, text: &String) -> (r: Vec<usize>)
    ensures
        strictly_increasing(r@),
        forall|row: usize| r@.contains(row) <==> #[trigger] row_of_text(raw@, text@, row),
{
    let mut rows: Vec<usize> = Vec::new();
    let mut i: usize = 0;
    while i < raw.len()
        invariant
            i <= raw@.len(),
            strictly_increasing(rows@),
            forall|row: usize| rows@.contains(row) <==> #[trigger] row_of_text(raw@.take(i as int), text@, row),
        decreases raw@.len() - i,
    {
        let c = &raw[i];
        let ghost before = rows@;
        if c.original_text == *text {
            let mut k: usize = 0;
            while k < c.row_index_list.len()
                invariant
                    i < raw@.len(),
                    *c == raw@[i as int],
                    c.original_text@ == text@,
                    k <= c.row_index_list@.len(),
                    strictly_increasing(rows@),
                    forall|row: usize| #[trigger] rows@.contains(row) <==> (before.contains(row)
                        || c.row_index_list@.take(k as int).contains(row)),
                decreases c.row_index_list@.len() - k,
            {
                let ghost mid = rows@;
                insert_row(&mut rows, c.row_index_list[k]);
                proof {
                    let t = c.row_index_list@.take(k + 1);
                    let newest = c.row_index_list@[k as int];
                    assert(t =~= c.row_index_list@.take(k as int).push(c.row_index_list@[k as int]));
                    assert forall|row: usize| t.contains(row) <==> (c.row_index_list@.take(
                        k as int,
                    ).contains(row) || row == c.row_index_list@[k as int]) by {
                        if t.contains(row) {
                            let q = choose|q: int| 0 <= q < t.len() && t[q] == row;
                            if q < k {
                                assert(c.row_index_list@.take(k as int)[q] == row);
                            }
                        }
                        if c.row_index_list@.take(k as int).contains(row) {
                            let q = choose|q: int| 0 <= q < k && c.row_index_list@.take(k as int)[q] == row;
                            assert(t[q] == row);
                        }
                        if row == c.row_index_list@[k as int] {
                            assert(t[k as int] == row);
                        }
                    }
                    assert forall|row: usize| rows@.contains(row) <==> (before.contains(row)
                        || t.contains(row)) by {
                        assert(rows@.contains(row) <==> (mid.contains(row) || row == newest));
                        assert(mid.contains(row) <==> (before.contains(row)
                            || c.row_index_list@.take(k as int).contains(row)));
                    }
                }
                k = k + 1;
            }
            proof {
                assert(c.row_index_list@.take(c.row_index_list@.len() as int) =~= c.row_index_list@);
            }
        }
        proof {
            let pre = raw@.take(i as int);
            let nxt = raw@.take(i + 1);
            assert forall|row: usize| rows@.contains(row) <==> #[trigger] row_of_text(nxt, text@, row) by {
                if row_of_text(nxt, text@, row) {
                    let q = choose|q: int|
                        0 <= q < nxt.len() && (#[trigger] nxt[q]).original_text@ == text@
                            && nxt[q].row_index_list@.contains(row);
                    if q < i {
                        assert(pre[q] == nxt[q]);
                        assert(row_of_text(pre, text@, row));
                    } else {
                        assert(nxt[q] == raw@[i as int]);
                    }
                }
                if row_of_text(pre, text@, row) {
                    let q = choose|q: int|
                        0 <= q < pre.len() && (#[trigger] pre[q]).original_text@ == text@
                            && pre[q].row_index_list@.contains(row);
                    assert(nxt[q] == pre[q]);
                }
                if c.original_text@ == text@ && c.row_index_list@.contains(row) {
                    assert(nxt[i as int] == *c);
                }
            }
        }
        i = i + 1;
    }
    proof {
        assert(raw@.take(raw@.len() as int) =~= raw@);
    }
    rows
}


proof fn lemma_text_less_transitive(a: Seq<char>, b: Seq<char>, c: Seq<char>)
    requires
        text_less(a, b),
        text_less(b, c),
    ensures
        text_less(a, c),
{
    lemma_bytes_less_transitive(encode_utf8(a), encode_utf8(b), encode_utf8(c));
}

/// Some key of `firsts` points at a concept with text `text`.
spec fn keyed(raw: Seq<MiningConcept>, firsts: Seq<usize>, text: Seq<char>) -> bool {
    exists|q: int| 0 <= q < firsts.len() && raw[(#[trigger] firsts[q]) as int].original_text@ == text
}

/// The positions in `raw` of the first concept of each distinct text, sorted
/// by text.
fn first_positions(raw: &Vec<MiningConcept>) -> (firsts: Vec<usize>)
    ensures
        forall|q: int|
            0 <= q < firsts@.len() ==> first_with_text(
                raw@,
                (#[trigger] firsts@[q]) as int,
                raw@[firsts@[q] as int].original_text@,
            ),
        forall|q1: int, q2: int|
            0 <= q1 < q2 < firsts@.len() ==> text_less(
                raw@[(#[trigger] firsts@[q1]) as int].original_text@,
                raw@[(#[trigger] firsts@[q2]) as int].original_text@,
            ),
        forall|k: int| 0 <= k < raw@.len() ==> keyed(raw@, firsts@, (#[trigger] raw@[k]).original_text@),
{
    let mut firsts: Vec<usize> = Vec::new();
    let mut i: usize = 0;
    while i < raw.len()
        invariant
            i <= raw@.len(),
            forall|q: int|
                0 <= q < firsts@.len() ==> (#[trigger] firsts@[q]) < i && first_with_text(
                    raw@,
                    firsts@[q] as int,
                    raw@[firsts@[q] as int].original_text@,
                ),
            forall|q1: int, q2: int|
                0 <= q1 < q2 < firsts@.len() ==> text_less(
                    raw@[(#[trigger] firsts@[q1]) as int].original_text@,
                    raw@[(#[trigger] firsts@[q2]) as int].original_text@,
                ),
            forall|k: int| 0 <= k < i ==> keyed(raw@, firsts@, (#[trigger] raw@[k]).original_text@),
        decreases raw@.len() - i,
    {
        let text = &raw[i].original_text;
        let mut q: usize = 0;
        let mut present = false;
        while q < firsts.len()
            invariant
                i < raw@.len(),
                *text == raw@[i as int].original_text,
                q <= firsts@.len(),
                forall|w: int| 0 <= w < firsts@.len() ==> (#[trigger] firsts@[w]) < raw@.len(),
                present ==> keyed(raw@, firsts@, text@),
                !present ==> forall|w: int|
                    0 <= w < q ==> raw@[(#[trigger] firsts@[w]) as int].original_text@ != text@,
            decreases firsts@.len() - q,
        {
            if raw[firsts[q]].original_text == *text {
                present = true;
                assert(raw@[firsts@[q as int] as int].original_text@ == text@);
            }
            q = q + 1;
        }
        if !present {
            proof {
                assert forall|k: int| 0 <= k < i implies raw@[k].original_text@ != text@ by {
                    if raw@[k].original_text@ == text@ {
                        assert(keyed(raw@, firsts@, raw@[k].original_text@));
                    }
                }
            }
            let mut pos: usize = 0;
            while pos < firsts.len() && text_before(&raw[firsts[pos]].original_text, text)
                invariant
                    i < raw@.len(),
                    *text == raw@[i as int].original_text,
                    pos <= firsts@.len(),
                    forall|w: int| 0 <= w < firsts@.len() ==> (#[trigger] firsts@[w]) < raw@.len(),
                    forall|w: int|
                        0 <= w < pos ==> text_less(
                            raw@[(#[trigger] firsts@[w]) as int].original_text@,
                            text@,
                        ),
                decreases firsts@.len() - pos,
            {
                pos = pos + 1;
            }
            let ghost before = firsts@;
            proof {
                if pos < before.len() {
                    let t0 = raw@[before[pos as int] as int].original_text@;
                    assert(!text_less(t0, text@));
                    assert(t0 != text@);
                    lemma_text_less_total(t0, text@);
                }
            }
            firsts.insert(pos, i);
            proof {
                assert forall|q1: int, q2: int| 0 <= q1 < q2 < firsts@.len() implies text_less(
                    raw@[(#[trigger] firsts@[q1]) as int].original_text@,
                    raw@[(#[trigger] firsts@[q2]) as int].original_text@,
                ) by {
                    let t = |w: int| raw@[before[w] as int].original_text@;
                    if q2 < pos {
                        assert(firsts@[q1] == before[q1] && firsts@[q2] == before[q2]);
                    } else if q2 == pos {
                        assert(firsts@[q1] == before[q1]);
                    } else if q1 < pos {
                        assert(firsts@[q1] == before[q1] && firsts@[q2] == before[q2 - 1]);
                        assert(text_less(t(q1), text@));
                        if q2 - 1 > pos {
                            assert(text_less(t(pos as int), t(q2 - 1)));
                            lemma_text_less_transitive(text@, t(pos as int), t(q2 - 1));
                        }
                        lemma_text_less_transitive(t(q1), text@, t(q2 - 1));
                    } else if q1 == pos {
                        assert(firsts@[q2] == before[q2 - 1]);
                        if q2 - 1 > pos {
                            assert(text_less(t(pos as int), t(q2 - 1)));
                            lemma_text_less_transitive(text@, t(pos as int), t(q2 - 1));
                        }
                    } else {
                        assert(firsts@[q1] == before[q1 - 1] && firsts@[q2] == before[q2 - 1]);
                    }
                }
                assert forall|q: int| 0 <= q < firsts@.len() implies (#[trigger] firsts@[q]) < i + 1
                    && first_with_text(raw@, firsts@[q] as int, raw@[firsts@[q] as int].original_text@) by {
                    if q < pos {
                        assert(firsts@[q] == before[q]);
                    } else if q > pos {
                        assert(firsts@[q] == before[q - 1]);
                    }
                }
                assert forall|k: int| 0 <= k < i + 1 implies keyed(
                    raw@,
                    firsts@,
                    (#[trigger] raw@[k]).original_text@,
                ) by {
                    if k < i {
                        let w = choose|w: int|
                            0 <= w < before.len() && raw@[(#[trigger] before[w]) as int].original_text@
                                == raw@[k].original_text@;
                        if w < pos {
                            assert(firsts@[w] == before[w]);
                        } else {
                            assert(firsts@[w + 1] == before[w]);
                        }
                    } else {
                        assert(firsts@[pos as int] == i);
                    }
                }
            }
        } else {
            proof {
                assert forall|k: int| 0 <= k < i + 1 implies keyed(
                    raw@,
                    firsts@,
                    (#[trigger] raw@[k]).original_text@,
                ) by {}
            }
        }
        i = i + 1;
    }
    firsts
}

/// Merges raw mining concepts into a dictionary with one entry per distinct
/// text, sorted by text. Each entry keeps the terms and status of the first
/// raw concept with its text and lists the rows of all of them, sorted and
/// without repeats. Empty input gives an empty dictionary.
pub fn canonicalize(mining_results: &Vec<MiningConcept>) -> (r: Vec<MiningConcept>)
    ensures
        is_canonical(mining_results@, r@),
{
    let raw = mining_results;
    let firsts = first_positions(raw);
    let mut out: Vec<MiningConcept> = Vec::new();
    let mut q: usize = 0;
    while q < firsts.len()
        invariant
            q <= firsts@.len(),
            out@.len() == q,
            forall|w: int|
                0 <= w < firsts@.len() ==> first_with_text(
                    raw@,
                    (#[trigger] firsts@[w]) as int,
                    raw@[firsts@[w] as int].original_text@,
                ),
            forall|w: int|
                0 <= w < q ==> (#[trigger] out@[w]).original_text@ == raw@[firsts@[w] as int].original_text@
                    && canonical_entry(raw@, out@[w]),
        decreases firsts@.len() - q,
    {
        let f = firsts[q];
        let first = &raw[f];
        let text = first.original_text.clone();
        let rows = rows_of_text(raw, &text);
        let entry = MiningConcept {
            original_text: text,
            row_index_list: rows,
            suggested_terms: clone_matches(&first.suggested_terms),
            mining_status: first.mining_status,
        };
        proof {
            assert(first_with_text(raw@, f as int, entry.original_text@));
            assert(raw@[f as int].suggested_terms@ == entry.suggested_terms@);
        }
        out.push(entry);
        q = q + 1;
    }
    proof {
        assert forall|j1: int, j2: int| 0 <= j1 < j2 < out@.len() implies text_less(
            (#[trigger] out@[j1]).original_text@,
            (#[trigger] out@[j2]).original_text@,
        ) by {
            assert(text_less(
                raw@[firsts@[j1] as int].original_text@,
                raw@[firsts@[j2] as int].original_text@,
            ));
        }
        assert forall|i: int| 0 <= i < raw@.len() implies has_entry(
            out@,
            (#[trigger] raw@[i]).original_text@,
        ) by {
            assert(keyed(raw@, firsts@, raw@[i].original_text@));
            let w = choose|w: int|
                0 <= w < firsts@.len() && raw@[(#[trigger] firsts@[w]) as int].original_text@
                    == raw@[i].original_text@;
            assert(out@[w].original_text@ == raw@[i].original_text@);
        }
        assert forall|j: int| 0 <= j < out@.len() implies canonical_entry(raw@, #[trigger] out@[j]) by {}
    }
    out
}

/// `out` is `raw` with the curator's review from `dictionary` applied: the
/// text and rows of `raw`, and the terms and status of the first dictionary
/// entry with the same text, or those of `raw` when there is none.
pub open spec fn expanded_entry(
    dictionary: Seq<MiningConcept>,
    raw: MiningConcept,
    out: MiningConcept,
) -> bool {
    &&& out.original_text@ == raw.original_text@
    &&& out.row_index_list@ == raw.row_index_list@
    &&& {
        ||| exists|d: int|
            first_with_text(dictionary, d, raw.original_text@)
                && out.suggested_terms@ == (#[trigger] dictionary[d]).suggested_terms@
                && out.mining_status == dictionary[d].mining_status
        ||| lacks_text(dictionary, raw.original_text@) && out.suggested_terms@
            == raw.suggested_terms@ && out.mining_status == raw.mining_status
    }
}

/// The position of the first concept of `concepts` with text `text`.
fn find_first(concepts: &Vec<MiningConcept>, text: &String) -> (r: Option<usize>)
    ensures
        r matches Some(d) ==> first_with_text(concepts@, d as int, text@),
        r is None ==> lacks_text(concepts@, text@),
{
    let mut d: usize = 0;
    while d < concepts.len()
        invariant
            d <= concepts@.len(),
            forall|q: int| 0 <= q < d ==> (#[trigger] concepts@[q]).original_text@ != text@,
        decreases concepts@.len() - d,
    {
        if concepts[d].original_text == *text {
            return Some(d);
        }
        d = d + 1;
    }
    None
}

/// Applies the reviewed dictionary to each raw concept: where the dictionary
/// has the raw concept's text, its terms and status replace the raw ones; the
/// raw text and rows are always kept. Raw concepts whose text the dictionary
/// lacks pass through unchanged.
pub fn expand(dictionary: &Vec<MiningConcept>, raw_results: &Vec<MiningConcept>) -> (r: Vec<
    MiningConcept,
>)
    ensures
        r@.len() == raw_results@.len(),
        forall|i: int|
            0 <= i < r@.len() ==> expanded_entry(dictionary@, raw_results@[i], #[trigger] r@[i]),
{
    let mut out: Vec<MiningConcept> = Vec::new();
    let mut i: usize = 0;
    while i < raw_results.len()
        invariant
            i <= raw_results@.len(),
            out@.len() == i,
            forall|k: int|
                0 <= k < i ==> expanded_entry(dictionary@, raw_results@[k], #[trigger] out@[k]),
        decreases raw_results@.len() - i,
    {
        let raw = &raw_results[i];
        let entry = match find_first(dictionary, &raw.original_text) {
            Some(d) => MiningConcept {
                original_text: raw.original_text.clone(),
                row_index_list: clone_rows(&raw.row_index_list),
                suggested_terms: clone_matches(&dictionary[d].suggested_terms),
                mining_status: dictionary[d].mining_status,
            },
            None => MiningConcept {
                original_text: raw.original_text.clone(),
                row_index_list: clone_rows(&raw.row_index_list),
                suggested_terms: clone_matches(&raw.suggested_terms),
                mining_status: raw.mining_status,
            },
        };
        out.push(entry);
        proof {
            assert(out@[i as int] == entry);
        }
        i = i + 1;
    }
    out
}

/// Two strictly increasing sequences with the same elements are equal.
proof fn lemma_increasing_same_elements(s1: Seq<usize>, s2: Seq<usize>)
    requires
        strictly_increasing(s1),
        strictly_increasing(s2),
        forall|x: usize| s1.contains(x) <==> s2.contains(x),
    ensures
        s1 == s2,
    decreases s1.len() + s2.len(),
{
    if s1.len() == 0 {
        if s2.len() > 0 {
            assert(s2.contains(s2[0]));
        }
        assert(s1 =~= s2);
    } else if s2.len() == 0 {
        assert(s1.contains(s1[0]));
    } else {
        assert(s1.contains(s1[0]));
        assert(s2.contains(s2[0]));
        let k1 = choose|k: int| 0 <= k < s2.len() && s2[k] == s1[0];
        let k2 = choose|k: int| 0 <= k < s1.len() && s1[k] == s2[0];
        assert(s1[0] == s2[0]);
        let t1 = s1.drop_first();
        let t2 = s2.drop_first();
        assert forall|x: usize| t1.contains(x) <==> t2.contains(x) by {
            if t1.contains(x) {
                let k = choose|k: int| 0 <= k < t1.len() && t1[k] == x;
                assert(s1[k + 1] == x);
                assert(s2.contains(x));
                let m = choose|m: int| 0 <= m < s2.len() && s2[m] == x;
                assert(m != 0);
                assert(t2[m - 1] == x);
            }
            if t2.contains(x) {
                let k = choose|k: int| 0 <= k < t2.len() && t2[k] == x;
                assert(s2[k + 1] == x);
                assert(s1.contains(x));
                let m = choose|m: int| 0 <= m < s1.len() && s1[m] == x;
                assert(m != 0);
                assert(t1[m - 1] == x);
            }
        }
        lemma_increasing_same_elements(t1, t2);
        assert(s1 =~= seq![s1[0]] + t1);
        assert(s2 =~= seq![s2[0]] + t2);
    }
}

/// Two raw concepts that share a text, one listing rows 1 and 3 and the other
/// rows 3 and 5, with no third raw concept of that text, give exactly one
/// dictionary entry for the text, and its rows are 1, 3 and 5.
pub proof fn lemma_shared_text_rows_merge(
    raw: Seq<MiningConcept>,
    out: Seq<MiningConcept>,
    i1: int,
    i2: int,
)
    requires
        is_canonical(raw, out),
        0 <= i1 < raw.len(),
        0 <= i2 < raw.len(),
        i1 != i2,
        raw[i1].original_text@ == raw[i2].original_text@,
        raw[i1].row_index_list@ == seq![1usize, 3usize],
        raw[i2].row_index_list@ == seq![3usize, 5usize],
        forall|k: int|
            0 <= k < raw.len() && k != i1 && k != i2 ==> (#[trigger] raw[k]).original_text@
                != raw[i1].original_text@,
    ensures
        exists|j: int|
            0 <= j < out.len() && (#[trigger] out[j]).original_text@ == raw[i1].original_text@
                && out[j].row_index_list@ == seq![1usize, 3usize, 5usize] && forall|j2: int|
                0 <= j2 < out.len() && (#[trigger] out[j2]).original_text@ == raw[i1].original_text@
                    ==> j2 == j,
{
    let text = raw[i1].original_text@;
    assert(has_entry(out, raw[i1].original_text@));
    let j = choose|j: int| 0 <= j < out.len() && (#[trigger] out[j]).original_text@ == text;
    assert(canonical_entry(raw, out[j]));
    let rows = out[j].row_index_list@;
    let want = seq![1usize, 3usize, 5usize];
    assert forall|x: usize| rows.contains(x) <==> want.contains(x) by {
        assert(rows.contains(x) <==> row_of_text(raw, text, x));
        if row_of_text(raw, text, x) {
            let i = choose|i: int|
                0 <= i < raw.len() && (#[trigger] raw[i]).original_text@ == text
                    && raw[i].row_index_list@.contains(x);
            assert(i == i1 || i == i2);
            let m = choose|m: int| 0 <= m < raw[i].row_index_list@.len() && raw[i].row_index_list@[m] == x;
            if x == 1 {
                assert(want[0] == x);
            } else if x == 3 {
                assert(want[1] == x);
            } else {
                assert(want[2] == x);
            }
        }
        if want.contains(x) {
            let m = choose|m: int| 0 <= m < want.len() && want[m] == x;
            if m == 0 {
                assert(raw[i1].row_index_list@[0] == x);
                assert(row_of_text(raw, text, x));
            } else if m == 1 {
                assert(raw[i1].row_index_list@[1] == x);
                assert(row_of_text(raw, text, x));
            } else {
                assert(raw[i2].row_index_list@[1] == x);
                assert(raw[i2].original_text@ == text);
                assert(row_of_text(raw, text, x));
            }
        }
    }
    lemma_increasing_same_elements(rows, want);
    assert forall|j2: int|
        0 <= j2 < out.len() && (#[trigger] out[j2]).original_text@ == text implies j2 == j by {
        if j2 < j {
            assert(text_less(out[j2].original_text@, out[j].original_text@));
            lemma_bytes_less_irreflexive(encode_utf8(text));
        } else if j2 > j {
            assert(text_less(out[j].original_text@, out[j2].original_text@));
            lemma_bytes_less_irreflexive(encode_utf8(text));
        }
    }
}

} // verus!
