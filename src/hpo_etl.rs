//! Regrouping per-row texts into mined cells, and reconciling the cells back
//! into one annotation string per row.

use std::collections::HashMap;
use vstd::prelude::*;
use crate::hpo::{
    ClinicalStatus, HpoMatch, MappedTerm, MinedCell, MiningConcept, onset_placeholder, status_text,
};
use crate::decimal::{decimal, decimal_string};

verus! {

/// The rows of `values` that hold `text`, in increasing order.
pub open spec fn rows_with_text(values: Seq<String>, text: Seq<char>) -> Seq<usize>
    decreases values.len(),
{
    if values.len() == 0 {
        Seq::empty()
    } else {
        let prev = rows_with_text(values.drop_last(), text);
        if values.last()@ == text {
            prev.push((values.len() - 1) as usize)
        } else {
            prev
        }
    }
}

/// Whether a concept was mined from at least one of `rows`.
pub open spec fn touches(c: MiningConcept, rows: Seq<usize>) -> bool {
    exists|k: int| 0 <= k < c.row_index_list@.len() && rows.contains(#[trigger] c.row_index_list@[k])
}

/// The suggested terms of every concept that touches `rows`, concept by
/// concept, repeats kept.
pub open spec fn terms_for_rows(concepts: Seq<MiningConcept>, rows: Seq<usize>) -> Seq<HpoMatch>
    decreases concepts.len(),
{
    if concepts.len() == 0 {
        Seq::empty()
    } else {
        let prev = terms_for_rows(concepts.drop_last(), rows);
        if touches(concepts.last(), rows) {
            prev + concepts.last().suggested_terms@
        } else {
            prev
        }
    }
}

/// `t` is the freshly mined term for the match `m`.
pub open spec fn mapped_from(t: MappedTerm, m: HpoMatch) -> bool {
    &&& t.hpo_id@ == m.id@
    &&& t.hpo_label@ == m.label@
    &&& t.status == ClinicalStatus::Observed
    &&& t.onset@ == onset_placeholder()
}

/// `ts` holds, in order, the freshly mined term of each match in `ms`.
pub open spec fn mapped_from_all(ts: Seq<MappedTerm>, ms: Seq<HpoMatch>) -> bool {
    &&& ts.len() == ms.len()
    &&& forall|i: int| 0 <= i < ts.len() ==> mapped_from(#[trigger] ts[i], ms[i])
}

/// Some cell of `cells` has the text `value`.
pub open spec fn has_cell_for(cells: Seq<MinedCell>, value: Seq<char>) -> bool {
    exists|j: int| 0 <= j < cells.len() && (#[trigger] cells[j]).cell_text@ == value
}

/// `cells` groups the rows of `values` by identical text, one cell per
/// distinct text, each with the terms of the concepts touching its rows.
pub open spec fn is_cell_mapping(
    values: Seq<String>,
    concepts: Seq<MiningConcept>,
    cells: Seq<MinedCell>,
) -> bool {
    &&& forall|i: int| 0 <= i < values.len() ==> has_cell_for(cells, (#[trigger] values[i])@)
    &&& forall|j1: int, j2: int|
        0 <= j1 < j2 < cells.len() ==> (#[trigger] cells[j1]).cell_text@
            != (#[trigger] cells[j2]).cell_text@
    &&& forall|j: int|
        0 <= j < cells.len() ==> {
            &&& (#[trigger] cells[j]).row_index_list@ == rows_with_text(values, cells[j].cell_text@)
            &&& cells[j].row_index_list@.len() > 0
            &&& mapped_from_all(
                cells[j].mapped_term_list@,
                terms_for_rows(concepts, cells[j].row_index_list@),
            )
        }
}

/// The position of `text` in `texts`, if it is there.
fn find_text(texts: &Vec<String>, text: &String) -> (r: Option<usize>)
    ensures
        r matches Some(j) ==> j < texts@.len() && texts@[j as int]@ == text@,
        r is None ==> forall|j: int| 0 <= j < texts@.len() ==> (#[trigger] texts@[j])@ != text@,
{
    let mut j: usize = 0;
    while j < texts.len()
        invariant
            j <= texts@.len(),
            forall|k: int| 0 <= k < j ==> (#[trigger] texts@[k])@ != text@,
        decreases texts@.len() - j,
    {
        if texts[j] == *text {
            return Some(j);
        }
        j = j + 1;
    }
    None
}

/// The rows of `values` that hold `text`.
fn collect_rows(values: &Vec<String>, text: &String) -> (r: Vec<usize>)
    ensures
        r@ == rows_with_text(values@, text@),
{
    let mut rows: Vec<usize> = Vec::new();
    let mut i: usize = 0;
    while i < values.len()
        invariant
            i <= values@.len(),
            rows@ == rows_with_text(values@.take(i as int), text@),
        decreases values@.len() - i,
    {
        proof {
            assert(values@.take(i + 1).drop_last() =~= values@.take(i as int));
        }
        if values[i] == *text {
            rows.push(i);
        }
        i = i + 1;
    }
    proof {
        assert(values@.take(values@.len() as int) =~= values@);
    }
    rows
}

/// Whether `concept` was mined from one of `rows`.
fn concept_touches(concept: &MiningConcept, rows: &Vec<usize>) -> (r: bool)
    ensures
        r == touches(*concept, rows@),
{
    let mut k: usize = 0;
    while k < concept.row_index_list.len()
        invariant
            k <= concept.row_index_list@.len(),
            forall|q: int| 0 <= q < k ==> !rows@.contains(#[trigger] concept.row_index_list@[q]),
        decreases concept.row_index_list@.len() - k,
    {
        let idx = concept.row_index_list[k];
        let mut m: usize = 0;
        while m < rows.len()
            invariant
                k < concept.row_index_list@.len(),
                idx == concept.row_index_list@[k as int],
                m <= rows@.len(),
                forall|q: int| 0 <= q < m ==> rows@[q] != idx,
            decreases rows@.len() - m,
        {
            if rows[m] == idx {
                assert(rows@[m as int] == idx);
                assert(rows@.contains(concept.row_index_list@[k as int]));
                return true;
            }
            m = m + 1;
        }
        assert(!rows@.contains(idx));
        k = k + 1;
    }
    false
}

/// The mapped terms for a group of rows: one fresh term per suggested term of
/// every concept that touches the rows.
fn terms_for_group(concepts: &Vec<MiningConcept>, rows: &Vec<usize>) -> (r: Vec<MappedTerm>)
    ensures
        mapped_from_all(r@, terms_for_rows(concepts@, rows@)),
{
    let mut mapped: Vec<MappedTerm> = Vec::new();
    let mut c: usize = 0;
    while c < concepts.len()
        invariant
            c <= concepts@.len(),
            mapped_from_all(mapped@, terms_for_rows(concepts@.take(c as int), rows@)),
        decreases concepts@.len() - c,
    {
        let concept = &concepts[c];
        proof {
            assert(concepts@.take(c + 1).drop_last() =~= concepts@.take(c as int));
        }
        let ghost prefix = terms_for_rows(concepts@.take(c as int), rows@);
        if concept_touches(concept, rows) {
            let mut t: usize = 0;
            while t < concept.suggested_terms.len()
                invariant
                    t <= concept.suggested_terms@.len(),
                    mapped_from_all(mapped@, prefix + concept.suggested_terms@.take(t as int)),
                decreases concept.suggested_terms@.len() - t,
            {
                let term = &concept.suggested_terms[t];
                let ghost before = mapped@;
                mapped.push(MappedTerm::new(term.id.as_str(), term.label.as_str()));
                proof {
                    let goal = prefix + concept.suggested_terms@.take(t + 1);
                    assert(goal =~= (prefix + concept.suggested_terms@.take(t as int)).push(*term));
                    assert(mapped@ =~= before.push(mapped@.last()));
                }
                t = t + 1;
            }
            proof {
                assert(concept.suggested_terms@.take(concept.suggested_terms@.len() as int)
                    =~= concept.suggested_terms@);
            }
        }
        c = c + 1;
    }
    proof {
        assert(concepts@.take(concepts@.len() as int) =~= concepts@);
    }
    mapped
}

/// No text occurs twice in `texts`.
pub open spec fn texts_distinct(texts: Seq<String>) -> bool {
    forall|j1: int, j2: int|
        0 <= j1 < j2 < texts.len() ==> (#[trigger] texts[j1])@ != (#[trigger] texts[j2])@
}

/// `texts` holds `value`.
pub open spec fn holds_text(texts: Seq<String>, value: Seq<char>) -> bool {
    exists|j: int| 0 <= j < texts.len() && (#[trigger] texts[j])@ == value
}

/// Every text of `values` occurs in `texts`.
pub open spec fn texts_cover(texts: Seq<String>, values: Seq<String>) -> bool {
    forall|k: int| 0 <= k < values.len() ==> holds_text(texts, (#[trigger] values[k])@)
}

/// The distinct texts of `values`, in order of first occurrence.
fn distinct_texts(cell_values: &Vec<String>) -> (texts: Vec<String>)
    ensures
        texts_distinct(texts@),
        texts_cover(texts@, cell_values@),
        texts_cover(cell_values@, texts@),
{
    let mut texts: Vec<String> = Vec::new();
    let mut i: usize = 0;
    while i < cell_values.len()
        invariant
            i <= cell_values@.len(),
            texts_distinct(texts@),
            texts_cover(texts@, cell_values@.take(i as int)),
            texts_cover(cell_values@, texts@),
        decreases cell_values@.len() - i,
    {
        let found = find_text(&texts, &cell_values[i]);
        let ghost old_texts = texts@;
        proof {
            assert(cell_values@.take(i + 1).drop_last() =~= cell_values@.take(i as int));
        }
        if found.is_none() {
            texts.push(cell_values[i].clone());
            proof {
                assert(texts@[old_texts.len() as int] == cell_values@[i as int]);
                assert forall|k: int| 0 <= k <= i implies holds_text(
                    texts@,
                    (#[trigger] cell_values@.take(i + 1)[k])@,
                ) by {
                    if k < i {
                        assert(cell_values@.take(i as int)[k] == cell_values@.take(i + 1)[k]);
                        assert(holds_text(old_texts, cell_values@.take(i as int)[k]@));
                        let j = choose|j: int|
                            0 <= j < old_texts.len() && (#[trigger] old_texts[j])@
                                == cell_values@.take(i as int)[k]@;
                        assert(texts@[j] == old_texts[j]);
                    } else {
                        assert(texts@[old_texts.len() as int]@ == cell_values@.take(i + 1)[k]@);
                    }
                }
                assert forall|j: int| 0 <= j < texts@.len() implies holds_text(
                    cell_values@,
                    (#[trigger] texts@[j])@,
                ) by {
                    if j < old_texts.len() {
                        assert(texts@[j] == old_texts[j]);
                        assert(holds_text(cell_values@, old_texts[j]@));
                    } else {
                        assert(texts@[j]@ == cell_values@[i as int]@);
                    }
                }
            }
        } else {
            proof {
                let j = found->Some_0 as int;
                assert(texts@[j]@ == cell_values@[i as int]@);
                assert forall|k: int| 0 <= k <= i implies holds_text(
                    texts@,
                    (#[trigger] cell_values@.take(i + 1)[k])@,
                ) by {
                    if k < i {
                        assert(cell_values@.take(i as int)[k] == cell_values@.take(i + 1)[k]);
                    }
                }
            }
        }
        i = i + 1;
    }
    proof {
        assert(cell_values@.take(cell_values@.len() as int) =~= cell_values@);
    }
    texts
}

/// Groups the per-row texts `cell_values` by identical text and attaches to
/// each group every suggested term of every concept whose rows intersect the
/// group's rows. One cell per distinct text, in order of first occurrence.
/// This never fails.
pub fn create_cell_mappings(cell_values: Vec<String>, mining_results: Vec<MiningConcept>) -> (r:
    Result<Vec<MinedCell>, String>)
    ensures
        r matches Ok(cells) && is_cell_mapping(cell_values@, mining_results@, cells@),
{
    let texts = distinct_texts(&cell_values);
    let mut cells: Vec<MinedCell> = Vec::new();
    let mut j: usize = 0;
    while j < texts.len()
        invariant
            j <= texts@.len(),
            cells@.len() == j,
            texts_distinct(texts@),
            texts_cover(texts@, cell_values@),
            texts_cover(cell_values@, texts@),
            forall|q: int| 0 <= q < j ==> (#[trigger] cells@[q]).cell_text@ == texts@[q]@,
            forall|q: int|
                0 <= q < j ==> {
                    &&& (#[trigger] cells@[q]).row_index_list@ == rows_with_text(
                        cell_values@,
                        cells@[q].cell_text@,
                    )
                    &&& mapped_from_all(
                        cells@[q].mapped_term_list@,
                        terms_for_rows(mining_results@, cells@[q].row_index_list@),
                    )
                },
        decreases texts@.len() - j,
    {
        let rows = collect_rows(&cell_values, &texts[j]);
        let mapped = terms_for_group(&mining_results, &rows);
        cells.push(MinedCell { cell_text: texts[j].clone(), row_index_list: rows, mapped_term_list: mapped });
        j = j + 1;
    }
    proof {
        assert forall|q: int| 0 <= q < cells@.len() implies (#[trigger] cells@[q]).row_index_list@.len()
            > 0 by {
            assert(holds_text(cell_values@, texts@[q]@));
            let k = choose|k: int|
                0 <= k < cell_values@.len() && (#[trigger] cell_values@[k])@ == texts@[q]@;
            lemma_rows_with_text_contains(cell_values@, texts@[q]@, k);
        }
        assert forall|i: int| 0 <= i < cell_values@.len() implies has_cell_for(
            cells@,
            (#[trigger] cell_values@[i])@,
        ) by {
            assert(holds_text(texts@, cell_values@[i]@));
            let q = choose|q: int| 0 <= q < texts@.len() && (#[trigger] texts@[q])@ == cell_values@[i]@;
            assert(cells@[q].cell_text@ == texts@[q]@);
        }
        assert forall|j1: int, j2: int| 0 <= j1 < j2 < cells@.len() implies (
        #[trigger] cells@[j1]).cell_text@ != (#[trigger] cells@[j2]).cell_text@ by {
            assert(texts@[j1]@ != texts@[j2]@);
        }
        assert forall|q: int| 0 <= q < cells@.len() implies {
            &&& (#[trigger] cells@[q]).row_index_list@ == rows_with_text(cell_values@, cells@[q].cell_text@)
            &&& cells@[q].row_index_list@.len() > 0
            &&& mapped_from_all(
                cells@[q].mapped_term_list@,
                terms_for_rows(mining_results@, cells@[q].row_index_list@),
            )
        } by {}
    }
    Ok(cells)
}

/// A row that holds `text` is among the rows with that text.
proof fn lemma_rows_with_text_contains(values: Seq<String>, text: Seq<char>, k: int)
    requires
        0 <= k < values.len(),
        values[k]@ == text,
    ensures
        rows_with_text(values, text).contains(k as usize),
        rows_with_text(values, text).len() > 0,
    decreases values.len(),
{
    let prev = values.drop_last();
    if k == values.len() - 1 {
        assert(rows_with_text(values, text).last() == k as usize);
    } else {
        assert(prev[k] == values[k]);
        lemma_rows_with_text_contains(prev, text, k);
        let p = rows_with_text(prev, text);
        let idx = choose|idx: int| 0 <= idx < p.len() && p[idx] == k as usize;
        if values.last()@ == text {
            assert(p.push((values.len() - 1) as usize)[idx] == k as usize);
        }
    }
}


/// The code of one mapped term in a row string: `<id>-<status>-<onset>`.
pub open spec fn term_code(t: MappedTerm) -> Seq<char> {
    t.hpo_id@ + seq!['-'] + status_text(t.status) + seq!['-'] + t.onset@
}

/// The codes of `ts` joined with `;` (empty when there are none).
pub open spec fn joined_codes(ts: Seq<MappedTerm>) -> Seq<char>
    decreases ts.len(),
{
    if ts.len() == 0 {
        Seq::empty()
    } else if ts.len() == 1 {
        term_code(ts[0])
    } else {
        joined_codes(ts.drop_last()) + seq![';'] + term_code(ts.last())
    }
}

/// The row string of a mined cell.
pub open spec fn cell_code(c: MinedCell) -> Seq<char> {
    joined_codes(c.mapped_term_list@)
}

fn mined_cell_to_string(cell: &MinedCell) -> (r: String)
    ensures
        r@ == cell_code(*cell),
{
    let terms = &cell.mapped_term_list;
    let mut out = String::new();
    let mut i: usize = 0;
    proof {
        reveal_strlit(";");
        reveal_strlit("-");
    }
    while i < terms.len()
        invariant
            i <= terms@.len(),
            out@ == joined_codes(terms@.take(i as int)),
            ";"@ == seq![';'],
            "-"@ == seq!['-'],
        decreases terms@.len() - i,
    {
        let mt = &terms[i];
        let status = mt.status.to_string();
        if i > 0 {
            out.append(";");
        }
        out.append(mt.hpo_id.as_str());
        out.append("-");
        out.append(status.as_str());
        out.append("-");
        out.append(mt.onset.as_str());
        proof {
            let t = terms@.take(i + 1);
            assert(t.drop_last() =~= terms@.take(i as int));
            assert(t.last() == *mt);
            if i == 0 {
                assert(out@ =~= term_code(t[0]));
            } else {
                assert(out@ =~= joined_codes(terms@.take(i as int)) + seq![';'] + term_code(*mt));
            }
        }
        i = i + 1;
    }
    proof {
        assert(terms@.take(terms@.len() as int) =~= terms@);
    }
    out
}

/// Every (row, row string) pair that the cells assign, cell by cell, in the
/// order of each cell's rows.
pub open spec fn row_assignments(cells: Seq<MinedCell>) -> Seq<(usize, Seq<char>)>
    decreases cells.len(),
{
    if cells.len() == 0 {
        Seq::empty()
    } else {
        let c = cells.last();
        row_assignments(cells.drop_last()) + c.row_index_list@.map_values(
            |i: usize| (i, cell_code(c)),
        )
    }
}

/// The `k`-th assignment gives a row that an earlier one already gave.
pub open spec fn repeats_at(a: Seq<(usize, Seq<char>)>, k: int) -> bool {
    exists|j: int| 0 <= j < k && (#[trigger] a[j]).0 == a[k].0
}

/// Some row is assigned twice.
pub open spec fn has_repeat(a: Seq<(usize, Seq<char>)>) -> bool {
    exists|k: int| 0 <= k < a.len() && repeats_at(a, k)
}

/// The `k`-th assignment is the first that repeats a row.
pub open spec fn first_repeat(a: Seq<(usize, Seq<char>)>, k: int) -> bool {
    &&& 0 <= k < a.len()
    &&& repeats_at(a, k)
    &&& forall|q: int| 0 <= q < k ==> !repeats_at(a, q)
}

/// Some assignment gives row `row`.
pub open spec fn assigned(a: Seq<(usize, Seq<char>)>, row: nat) -> bool {
    exists|k: int| 0 <= k < a.len() && (#[trigger] a[k]).0 == row
}

/// The largest assigned row, or 0 when there is none.
pub open spec fn max_row(a: Seq<(usize, Seq<char>)>) -> nat
    decreases a.len(),
{
    if a.len() == 0 {
        0
    } else {
        let m = max_row(a.drop_last());
        if a.last().0 > m {
            a.last().0 as nat
        } else {
            m
        }
    }
}

/// `row` is the smallest row in `[0, max_row]` that no assignment gives.
pub open spec fn first_gap(a: Seq<(usize, Seq<char>)>, row: nat) -> bool {
    &&& row <= max_row(a)
    &&& !assigned(a, row)
    &&& forall|q: nat| q < row ==> assigned(a, q)
}

/// The error text for a row assigned twice.
pub open spec fn double_index_message(row: nat) -> Seq<char> {
    "double index for multi-HPO mappings: "@ + decimal(row)
}

/// The error text for a row that no cell covers.
pub open spec fn missing_index_message(row: nat) -> Seq<char> {
    "missing index in sequence: "@ + decimal(row)
}

proof fn lemma_assignments_step(cells: Seq<MinedCell>, c: int)
    requires
        0 <= c < cells.len(),
    ensures
        row_assignments(cells.take(c + 1)) == row_assignments(cells.take(c))
            + cells[c].row_index_list@.map_values(|i: usize| (i, cell_code(cells[c]))),
{
    assert(cells.take(c + 1).drop_last() =~= cells.take(c));
}

proof fn lemma_assignments_prefix(cells: Seq<MinedCell>, c: int)
    requires
        0 <= c <= cells.len(),
    ensures
        row_assignments(cells.take(c)).len() <= row_assignments(cells).len(),
        row_assignments(cells.take(c)) == row_assignments(cells).take(
            row_assignments(cells.take(c)).len() as int,
        ),
    decreases cells.len() - c,
{
    if c == cells.len() {
        assert(cells.take(c) =~= cells);
        assert(row_assignments(cells) =~= row_assignments(cells).take(
            row_assignments(cells).len() as int,
        ));
    } else {
        lemma_assignments_prefix(cells, c + 1);
        lemma_assignments_step(cells, c);
        let short = row_assignments(cells.take(c));
        let long = row_assignments(cells.take(c + 1));
        assert(short =~= long.take(short.len() as int));
        assert(short =~= row_assignments(cells).take(short.len() as int));
    }
}

proof fn lemma_max_row_bound(a: Seq<(usize, Seq<char>)>, k: int)
    requires
        0 <= k < a.len(),
    ensures
        a[k].0 <= max_row(a),
    decreases a.len(),
{
    if k < a.len() - 1 {
        lemma_max_row_bound(a.drop_last(), k);
        assert(a.drop_last()[k] == a[k]);
    }
}

/// Serialises each mined cell and assigns the string to each of its rows,
/// then returns the strings of rows `0..=max`, where `max` is the largest row
/// seen (0 if none).
///
/// Fails on the first row that a second assignment claims, naming it; failing
/// that, on the smallest row in `0..=max` that no cell claims, naming it.
pub fn get_multi_hpo_strings(mined_cells: Vec<MinedCell>) -> (r: Result<Vec<String>, String>)
    ensures
        ({
            let a = row_assignments(mined_cells@);
            match r {
                Ok(v) => {
                    &&& !has_repeat(a)
                    &&& v@.len() == max_row(a) + 1
                    &&& forall|q: nat| q <= max_row(a) ==> assigned(a, q)
                    &&& forall|k: int| 0 <= k < a.len() ==> v@[(#[trigger] a[k]).0 as int]@ == a[k].1
                },
                Err(e) => {
                    ||| exists|k: int| first_repeat(a, k) && e@ == double_index_message(a[k].0 as nat)
                    ||| !has_repeat(a) && exists|q: nat|
                        first_gap(a, q) && e@ == missing_index_message(q)
                },
            }
        }),
{
    broadcast use vstd::std_specs::hash::group_hash_axioms;

    let ghost a = row_assignments(mined_cells@);
    let mut index_map: HashMap<usize, String> = HashMap::new();
    let mut max_index: usize = 0;
    let mut c: usize = 0;
    let ghost mut p: Seq<(usize, Seq<char>)> = Seq::empty();
    proof {
        assert(mined_cells@.take(0) =~= Seq::<MinedCell>::empty());
    }
    while c < mined_cells.len()
        invariant
            c <= mined_cells@.len(),
            a == row_assignments(mined_cells@),
            p == row_assignments(mined_cells@.take(c as int)),
            p == a.take(p.len() as int),
            p.len() <= a.len(),
            !has_repeat(p),
            forall|row: usize| #[trigger] index_map@.contains_key(row) <==> assigned(p, row as nat),
            forall|k: int| 0 <= k < p.len() ==> index_map@[(#[trigger] p[k]).0]@ == p[k].1,
            max_index == max_row(p),
        decreases mined_cells@.len() - c,
    {
        let cell = &mined_cells[c];
        let content = mined_cell_to_string(cell);
        let ghost base = p;
        proof {
            lemma_assignments_step(mined_cells@, c as int);
            lemma_assignments_prefix(mined_cells@, c + 1);
        }
        let ghost full = row_assignments(mined_cells@.take(c + 1));
        let ghost pairs = cell.row_index_list@.map_values(|i: usize| (i, cell_code(*cell)));
        let mut ri: usize = 0;
        while ri < cell.row_index_list.len()
            invariant
                a == row_assignments(mined_cells@),
                c < mined_cells@.len(),
                *cell == mined_cells@[c as int],
                content@ == cell_code(*cell),
                pairs == cell.row_index_list@.map_values(|i: usize| (i, cell_code(*cell))),
                full == base + pairs,
                full == a.take(full.len() as int),
                full.len() <= a.len(),
                ri <= cell.row_index_list@.len(),
                p == base + pairs.take(ri as int),
                !has_repeat(p),
                forall|row: usize| #[trigger] index_map@.contains_key(row) <==> assigned(p, row as nat),
                forall|k: int| 0 <= k < p.len() ==> index_map@[(#[trigger] p[k]).0]@ == p[k].1,
                max_index == max_row(p),
            decreases cell.row_index_list@.len() - ri,
        {
            let i = cell.row_index_list[ri];
            let ghost next = p.push((i, cell_code(*cell)));
            proof {
                assert(base + pairs.take(ri + 1) =~= next);
                assert(next =~= full.take(next.len() as int));
                assert(next =~= a.take(next.len() as int));
                assert forall|x: int| 0 <= x < next.len() implies a[x] == #[trigger] next[x] by {
                    assert(a.take(next.len() as int)[x] == a[x]);
                }
                assert forall|x: int| 0 <= x < p.len() implies next[x] == #[trigger] p[x] by {}
            }
            let ghost old_map = index_map@;
            if index_map.insert(i, content.clone()).is_some() {
                let msg = double_index_text(i);
                proof {
                    let k = p.len() as int;
                    let j = choose|j: int| 0 <= j < p.len() && (#[trigger] p[j]).0 == i;
                    assert(a[j] == p[j]);
                    assert(a[k] == next[k]);
                    assert(repeats_at(a, k));
                    assert forall|q: int| 0 <= q < k implies !repeats_at(a, q) by {
                        if repeats_at(a, q) {
                            let w = choose|w: int| 0 <= w < q && (#[trigger] a[w]).0 == a[q].0;
                            assert(p[w] == a[w]);
                            assert(p[q] == a[q]);
                            assert(repeats_at(p, q));
                        }
                    }
                    assert(first_repeat(a, k));
                    assert(a[k].0 == i);
                }
                return Err(msg);
            }
            proof {
                assert(!assigned(p, i as nat));
                assert forall|q: int| 0 <= q < next.len() implies !repeats_at(next, q) by {
                    if q < p.len() {
                        if repeats_at(next, q) {
                            let w = choose|w: int| 0 <= w < q && (#[trigger] next[w]).0 == next[q].0;
                            assert(p[w] == next[w]);
                            assert(repeats_at(p, q));
                        }
                    } else {
                        if repeats_at(next, q) {
                            let w = choose|w: int| 0 <= w < q && (#[trigger] next[w]).0 == next[q].0;
                            assert(p[w] == next[w]);
                        }
                    }
                }
                assert forall|row: usize| #[trigger] index_map@.contains_key(row) <==> assigned(
                    next,
                    row as nat,
                ) by {
                    if assigned(next, row as nat) && row != i {
                        let k = choose|k: int| 0 <= k < next.len() && (#[trigger] next[k]).0 == row;
                        assert(p[k] == next[k]);
                    }
                    if assigned(p, row as nat) {
                        let k = choose|k: int| 0 <= k < p.len() && (#[trigger] p[k]).0 == row;
                        assert(next[k] == p[k]);
                    }
                    assert(next[p.len() as int].0 == i);
                }
                assert forall|k: int| 0 <= k < next.len() implies index_map@[(#[trigger] next[k]).0]@
                    == next[k].1 by {
                    if k < p.len() {
                        assert(next[k] == p[k]);
                        assert(p[k].0 != i);
                    }
                }
                assert(next.drop_last() =~= p);
            }
            if i > max_index {
                max_index = i;
            }
            proof {
                p = next;
            }
            ri = ri + 1;
        }
        proof {
            assert(pairs.take(cell.row_index_list@.len() as int) =~= pairs);
        }
        c = c + 1;
    }
    proof {
        assert(mined_cells@.take(mined_cells@.len() as int) =~= mined_cells@);
        assert(p == a);
    }
    let mut out: Vec<String> = Vec::new();
    let mut m: usize = 0;
    loop
        invariant_except_break
            out@.len() == m,
            forall|q: nat| q < m ==> assigned(a, q),
            forall|q: int| 0 <= q < m ==> (#[trigger] out@[q])@ == index_map@[q as usize]@,
        invariant
            a == row_assignments(mined_cells@),
            !has_repeat(a),
            forall|row: usize| #[trigger] index_map@.contains_key(row) <==> assigned(a, row as nat),
            forall|k: int| 0 <= k < a.len() ==> index_map@[(#[trigger] a[k]).0]@ == a[k].1,
            max_index == max_row(a),
            m <= max_index,
        ensures
            out@.len() == max_index + 1,
            forall|q: nat| q <= max_index ==> assigned(a, q),
            forall|q: int| 0 <= q < out@.len() ==> (#[trigger] out@[q])@ == index_map@[q as usize]@,
        decreases max_index - m,
    {
        match index_map.get(&m) {
            None => {
                let msg = missing_index_text(m);
                proof {
                    assert(!assigned(a, m as nat));
                    assert(first_gap(a, m as nat));
                }
                return Err(msg);
            },
            Some(text) => {
                out.push(text.clone());
            },
        }
        if m == max_index {
            break ;
        }
        m = m + 1;
    }
    proof {
        assert forall|k: int| 0 <= k < a.len() implies out@[(#[trigger] a[k]).0 as int]@ == a[k].1 by {
            lemma_max_row_bound(a, k);
        }
    }
    Ok(out)
}

fn double_index_text(row: usize) -> (r: String)
    ensures
        r@ == double_index_message(row as nat),
{
    let mut msg = String::from_str("double index for multi-HPO mappings: ");
    let digits = decimal_string(row);
    msg.append(digits.as_str());
    msg
}

fn missing_index_text(row: usize) -> (r: String)
    ensures
        r@ == missing_index_message(row as nat),
{
    let mut msg = String::from_str("missing index in sequence: ");
    let digits = decimal_string(row);
    msg.append(digits.as_str());
    msg
}

} // verus!
