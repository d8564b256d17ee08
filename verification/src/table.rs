//! From the rows of a table to the samples of each curve.

use vstd::prelude::*;
use crate::curve::{series, CurveConfig, Sample};
use crate::failure::Failure;

verus! {

/// What the decoding of one cell came to: the series of the sample, or
/// nothing where the cell did not hold a sample.
pub open spec fn outcome(cell: Option<Sample>) -> Option<Seq<u32>> {
    match cell {
        Some(sample) => Some(sample@),
        None => None,
    }
}

/// What the decoding of each cell of a column came to, row by row.
pub open spec fn outcomes(cells: Seq<Option<Sample>>) -> Seq<Option<Seq<u32>>> {
    Seq::new(cells.len(), |r: int| outcome(cells[r]))
}

/// The series that were decoded, in the order of their rows; a row whose
/// cell was not decoded is passed over.
pub open spec fn kept(cells: Seq<Option<Seq<u32>>>) -> Seq<Seq<u32>>
    decreases cells.len(),
{
    if cells.len() == 0 {
        Seq::empty()
    } else {
        match cells.last() {
            Some(presses) => kept(cells.drop_last()).push(presses),
            None => kept(cells.drop_last()),
        }
    }
}

/// A sample that was decoded is kept, whatever became of the other cells.
pub proof fn lemma_decoded_is_kept(cells: Seq<Option<Seq<u32>>>, r: int)
    requires
        0 <= r < cells.len(),
        cells[r] is Some,
    ensures
        kept(cells).contains(cells[r]->Some_0),
    decreases cells.len(),
{
    let rest = kept(cells.drop_last());
    if r == cells.len() - 1 {
        let all = rest.push(cells[r]->Some_0);
        assert(all[rest.len() as int] == cells[r]->Some_0);
    } else {
        lemma_decoded_is_kept(cells.drop_last(), r);
        let at = choose|at: int| 0 <= at < rest.len() && rest[at] == cells[r]->Some_0;
        match cells.last() {
            Some(presses) => {
                assert(rest.push(presses)[at] == cells[r]->Some_0);
            },
            None => {},
        }
    }
}

/// Nothing is kept but what was decoded from some row.
pub proof fn lemma_kept_was_decoded(cells: Seq<Option<Seq<u32>>>, at: int)
    requires
        0 <= at < kept(cells).len(),
    ensures
        exists|r: int| 0 <= r < cells.len() && cells[r] == Some(kept(cells)[at]),
    decreases cells.len(),
{
    if cells.len() > 0 {
        let rest = kept(cells.drop_last());
        if at < rest.len() {
            lemma_kept_was_decoded(cells.drop_last(), at);
            let r = choose|r: int|
                0 <= r < cells.drop_last().len() && cells.drop_last()[r] == Some(rest[at]);
            assert(cells[r] == Some(kept(cells)[at]));
        } else {
            assert(cells[cells.len() - 1] == Some(kept(cells)[at]));
        }
    }
}

/// The samples of a curve: those that were decoded from the cells of its
/// column, in the order of their rows.
pub fn valid_samples(cells: &Vec<Option<Sample>>) -> (samples: Vec<Sample>)
    ensures
        series(samples@) == kept(outcomes(cells@)),
{
    let ghost all = outcomes(cells@);
    let mut samples: Vec<Sample> = Vec::new();
    let mut r: usize = 0;
    assert(all.take(0) =~= Seq::empty());
    assert(series(samples@) =~= Seq::empty());
    while r < cells.len()
        invariant
            all == outcomes(cells@),
            r <= cells@.len(),
            series(samples@) == kept(all.take(r as int)),
        decreases cells@.len() - r,
    {
        assert(all.take(r + 1).drop_last() =~= all.take(r as int));
        let ghost before = series(samples@);
        match &cells[r] {
            Some(sample) => {
                let presses: Vec<u32> = sample.presses.clone();
                assert(presses@ =~= sample@);
                samples.push(Sample { presses });
                assert(series(samples@) =~= before.push(sample@));
            },
            None => {},
        }
        r += 1;
    }
    assert(all.take(r as int) =~= all);
    samples
}

/// The text of each cell of some rows.
pub open spec fn texts(rows: Seq<Vec<String>>) -> Seq<Seq<Seq<char>>> {
    Seq::new(rows.len(), |r: int| Seq::new(rows[r]@.len(), |c: int| rows[r]@[c]@))
}

/// The records that the `csv` crate reads from a text before its first
/// failure, the header row left out, and whether it fails at all.
pub uninterp spec fn csv_records(bytes: Seq<u8>) -> (Seq<Seq<Seq<char>>>, bool);

/// The header row that the `csv` crate reads from a text, or nothing where
/// it fails.
pub uninterp spec fn csv_header(bytes: Seq<u8>) -> Option<Seq<Seq<char>>>;

/// Reads records with `csv::Reader::records`, from a reader that
/// `csv::Reader::from_reader` makes over `bytes`, up to the first failure.
/// What comes back is taken to depend on `bytes` alone: the cells of the
/// records read before the first failure, and that failure, if there is one.
#[verifier::external_body]
fn read_records(bytes: &[u8]) -> (read: (Vec<Vec<String>>, Option<csv::Error>))
    ensures
        texts(read.0@) == csv_records(bytes@).0,
        read.1 is Some <==> csv_records(bytes@).1,
{
    let mut reader = csv::Reader::from_reader(bytes);
    let mut rows: Vec<Vec<String>> = Vec::new();
    for record in reader.records() {
        match record {
            Ok(record) => rows.push(record.iter().map(|cell| cell.to_string()).collect()),
            Err(e) => return (rows, Some(e)),
        }
    }
    (rows, None)
}

/// Reads the header row with `csv::Reader::headers`, from a reader that
/// `csv::Reader::from_reader` makes over `bytes`. What comes back is taken to
/// depend on `bytes` alone: the cells of the first row, or the failure.
#[verifier::external_body]
fn read_header(bytes: &[u8]) -> (read: Result<Vec<String>, csv::Error>)
    ensures
        match read {
            Ok(names) => csv_header(bytes@) == Some(Seq::new(names@.len(), |c: int| names@[c]@)),
            Err(_) => csv_header(bytes@) is None,
        },
{
    let mut reader = csv::Reader::from_reader(bytes);
    let header = reader.headers()?;
    Ok(header.iter().map(|cell| cell.to_string()).collect())
}

/// Whether `result` is what reading the header of a table owes, where
/// `header` is what the table's text holds.
pub open spec fn is_header_result(
    result: Result<Vec<String>, Failure>,
    header: Option<Seq<Seq<char>>>,
) -> bool {
    match result {
        Ok(names) => header == Some(Seq::new(names@.len(), |c: int| names@[c]@)),
        Err(e) => header is None && e is Csv,
    }
}

/// The names of a table's columns: the cells of its first row.
pub fn get_excel_header(bytes: &[u8]) -> (result: Result<Vec<String>, Failure>)
    ensures
        is_header_result(result, csv_header(bytes@)),
{
    match read_header(bytes) {
        Ok(names) => Ok(names),
        Err(e) => Err(Failure::Csv(e)),
    }
}

/// Whether row `r` has no cell in the column of curve `k`.
pub open spec fn lacks(rows: Seq<Seq<Seq<char>>>, curves: Seq<CurveConfig>, r: int, k: int) -> bool {
    &&& 0 <= r < rows.len()
    &&& 0 <= k < curves.len()
    &&& curves[k].column_id >= rows[r].len()
}

/// Whether the cell of row `r2` for curve `k2` is looked at before that of
/// row `r` for curve `k`: rows in their order, and within a row the curves in
/// theirs.
pub open spec fn comes_before(r2: int, k2: int, r: int, k: int) -> bool {
    r2 < r || (r2 == r && k2 < k)
}

/// Whether the cell of row `r` for curve `k` is the first that is missing.
pub open spec fn lacks_first(
    rows: Seq<Seq<Seq<char>>>,
    curves: Seq<CurveConfig>,
    r: int,
    k: int,
) -> bool {
    &&& lacks(rows, curves, r, k)
    &&& forall|r2: int, k2: int|
        comes_before(r2, k2, r, k) ==> !#[trigger] lacks(rows, curves, r2, k2)
}

/// Whether every row has a cell in the column of every curve.
pub open spec fn complete(rows: Seq<Seq<Seq<char>>>, curves: Seq<CurveConfig>) -> bool {
    forall|r: int, k: int| !#[trigger] lacks(rows, curves, r, k)
}

/// Whether `cells` holds, for each curve, the cell of its column in each
/// row, in the rows' order.
pub open spec fn holds_cells(
    cells: Seq<Seq<Seq<char>>>,
    rows: Seq<Seq<Seq<char>>>,
    curves: Seq<CurveConfig>,
) -> bool {
    &&& cells.len() == curves.len()
    &&& forall|k: int| 0 <= k < cells.len() ==> (#[trigger] cells[k]).len() == rows.len()
    &&& forall|k: int, r: int|
        0 <= k < cells.len() && 0 <= r < rows.len() ==> #[trigger] cells[k][r]
            == rows[r][curves[k].column_id as int]
}

/// Whether `result` is what selecting the cells of a request owes, where
/// `rows` are the rows that were read and `failed` says whether the reading
/// stopped at a failure.
///
/// A request for no curve fails. A cell that is missing fails the request, at
/// the first such cell; only then does a failure of the reading count.
pub open spec fn is_selection(
    result: Result<Vec<Vec<String>>, Failure>,
    rows: Seq<Seq<Seq<char>>>,
    failed: bool,
    curves: Seq<CurveConfig>,
) -> bool {
    match result {
        Ok(cells) => {
            &&& curves.len() > 0
            &&& complete(rows, curves)
            &&& !failed
            &&& holds_cells(texts(cells@), rows, curves)
        },
        Err(e) => if curves.len() == 0 {
            e == Failure::NoCurves
        } else if !complete(rows, curves) {
            exists|r: int, k: int|
                #[trigger] lacks_first(rows, curves, r, k) && e == (Failure::MissingColumn {
                    column_id: curves[k].column_id,
                })
        } else {
            failed && e is Csv
        },
    }
}

/// The cell of each curve's column in each row, curve by curve.
///
/// `rows` are the rows that were read from the table, and `failure` is what
/// stopped the reading after them, if anything did.
pub fn select_cells(
    rows: &Vec<Vec<String>>,
    failure: Option<csv::Error>,
    curves: &Vec<CurveConfig>,
) -> (result: Result<Vec<Vec<String>>, Failure>)
    ensures
        is_selection(result, texts(rows@), failure is Some, curves@),
        result matches Err(Failure::Csv(e)) ==> failure == Some(e),
{
    let ghost all = texts(rows@);
    if curves.len() == 0 {
        return Err(Failure::NoCurves);
    }
    let mut r: usize = 0;
    while r < rows.len()
        invariant
            all == texts(rows@),
            r <= rows@.len(),
            curves@.len() > 0,
            forall|r2: int, k2: int| r2 < r ==> !#[trigger] lacks(all, curves@, r2, k2),
        decreases rows@.len() - r,
    {
        let mut k: usize = 0;
        while k < curves.len()
            invariant
                all == texts(rows@),
                r < rows@.len(),
                k <= curves@.len(),
                curves@.len() > 0,
                forall|r2: int, k2: int|
                    comes_before(r2, k2, r as int, k as int) ==> !#[trigger] lacks(
                        all,
                        curves@,
                        r2,
                        k2,
                    ),
            decreases curves@.len() - k,
        {
            if curves[k].column_id >= rows[r].len() {
                assert(lacks_first(all, curves@, r as int, k as int));
                return Err(Failure::MissingColumn { column_id: curves[k].column_id });
            }
            k += 1;
        }
        r += 1;
    }
    assert(complete(all, curves@));
    if let Some(e) = failure {
        return Err(Failure::Csv(e));
    }
    let mut cells: Vec<Vec<String>> = Vec::new();
    let mut k: usize = 0;
    while k < curves.len()
        invariant
            all == texts(rows@),
            complete(all, curves@),
            k <= curves@.len(),
            cells@.len() == k,
            forall|j: int| 0 <= j < k ==> (#[trigger] texts(cells@)[j]).len() == rows@.len(),
            forall|j: int, r: int|
                0 <= j < k && 0 <= r < rows@.len() ==> #[trigger] texts(cells@)[j][r]
                    == all[r][curves@[j].column_id as int],
        decreases curves@.len() - k,
    {
        let column_id: usize = curves[k].column_id;
        let mut column: Vec<String> = Vec::new();
        let mut r: usize = 0;
        while r < rows.len()
            invariant
                all == texts(rows@),
                complete(all, curves@),
                k < curves@.len(),
                column_id == curves@[k as int].column_id,
                r <= rows@.len(),
                column@.len() == r,
                forall|r2: int| 0 <= r2 < r ==> (#[trigger] column@[r2])@ == all[r2][column_id as int],
            decreases rows@.len() - r,
        {
            assert(!lacks(all, curves@, r as int, k as int));
            column.push(rows[r][column_id].clone());
            r += 1;
        }
        let ghost before = texts(cells@);
        cells.push(column);
        proof {
            let after = texts(cells@);
            assert forall|j: int| 0 <= j < k implies after[j] =~= before[j] by {}
            assert(after[k as int] =~= Seq::new(
                rows@.len(),
                |r: int| all[r][column_id as int],
            ));
        }
        k += 1;
    }
    Ok(cells)
}

/// The cell of each curve's column in each row of a table, curve by curve.
pub fn curve_cells(bytes: &[u8], curves: &Vec<CurveConfig>) -> (result: Result<
    Vec<Vec<String>>,
    Failure,
>)
    ensures
        is_selection(result, csv_records(bytes@).0, csv_records(bytes@).1, curves@),
{
    let (rows, failure) = read_records(bytes);
    select_cells(&rows, failure, curves)
}

} // verus!
