//! A whole request: from the text of a table to the statistics of each
//! curve.

use vstd::prelude::*;
use crate::aggregate::{aggregate_curves, is_request_result, CurveStats};
use crate::curve::{CurveConfig, Sample};
use crate::failure::Failure;
use crate::table::{complete, csv_records, curve_cells, is_selection, texts};

verus! {

/// Whether `decoded` holds, for each cell of `cells`, something that `decode`
/// gives for that cell.
pub open spec fn decoded_by<F: Fn(&String) -> Option<Sample>>(
    decode: F,
    cells: Seq<Vec<String>>,
    decoded: Seq<Vec<Option<Sample>>>,
) -> bool {
    &&& decoded.len() == cells.len()
    &&& forall|k: int| 0 <= k < cells.len() ==> (#[trigger] decoded[k])@.len() == cells[k]@.len()
    &&& forall|k: int, r: int|
        0 <= k < cells.len() && 0 <= r < cells[k]@.len() ==> call_ensures(
            decode,
            (&cells[k]@[r],),
            #[trigger] decoded[k]@[r],
        )
}

/// Whether `result` is what a request owes, where `rows` are the rows read
/// from the table, `failed` says whether the reading stopped at a failure,
/// and `decode` is what tells the sample that a cell holds.
///
/// A request for no curve, for a cell that is missing, or on a table that
/// cannot be read to its end fails before any cell is decoded. Otherwise the
/// cell of each curve's column in each row is decoded, and each curve is
/// aggregated over the samples that its own cells gave: a cell that holds no
/// sample is passed over for its curve alone.
pub open spec fn is_data_result<F: Fn(&String) -> Option<Sample>>(
    result: Result<Vec<CurveStats>, Failure>,
    rows: Seq<Seq<Seq<char>>>,
    failed: bool,
    curves: Seq<CurveConfig>,
    decode: F,
) -> bool {
    if curves.len() == 0 || !complete(rows, curves) || failed {
        result matches Err(e) && is_selection(Err(e), rows, failed, curves)
    } else {
        exists|cells: Vec<Vec<String>>, decoded: Seq<Vec<Option<Sample>>>|
            {
                &&& is_selection(Ok(cells), rows, failed, curves)
                &&& #[trigger] decoded_by(decode, cells@, decoded)
                &&& is_request_result(result, decoded, curves)
            }
    }
}

/// The statistics of every curve of a request over the table that `bytes`
/// holds, where `decode` tells the sample that a cell holds, if it holds
/// one.
pub fn get_data<F: Fn(&String) -> Option<Sample>>(
    bytes: &[u8],
    curves: &Vec<CurveConfig>,
    decode: F,
) -> (result: Result<Vec<CurveStats>, Failure>)
    requires
        forall|cell: &String| call_requires(decode, (cell,)),
    ensures
        is_data_result(result, csv_records(bytes@).0, csv_records(bytes@).1, curves@, decode),
{
    let cells: Vec<Vec<String>> = match curve_cells(bytes, curves) {
        Ok(cells) => cells,
        Err(e) => {
            return Err(e);
        },
    };
    assert(texts(cells@).len() == curves@.len());
    let mut decoded: Vec<Vec<Option<Sample>>> = Vec::new();
    let mut k: usize = 0;
    while k < cells.len()
        invariant
            forall|cell: &String| call_requires(decode, (cell,)),
            k <= cells@.len(),
            decoded@.len() == k,
            forall|j: int| 0 <= j < k ==> (#[trigger] decoded@[j])@.len() == cells@[j]@.len(),
            forall|j: int, r: int|
                0 <= j < k && 0 <= r < cells@[j]@.len() ==> call_ensures(
                    decode,
                    (&cells@[j]@[r],),
                    #[trigger] decoded@[j]@[r],
                ),
        decreases cells@.len() - k,
    {
        let mut column: Vec<Option<Sample>> = Vec::new();
        let mut r: usize = 0;
        while r < cells[k].len()
            invariant
                forall|cell: &String| call_requires(decode, (cell,)),
                k < cells@.len(),
                r <= cells@[k as int]@.len(),
                column@.len() == r,
                forall|q: int|
                    0 <= q < r ==> call_ensures(
                        decode,
                        (&cells@[k as int]@[q],),
                        #[trigger] column@[q],
                    ),
            decreases cells@[k as int]@.len() - r,
        {
            let outcome: Option<Sample> = decode(&cells[k][r]);
            column.push(outcome);
            r += 1;
        }
        decoded.push(column);
        k += 1;
    }
    assert(decoded_by(decode, cells@, decoded@));
    let result = aggregate_curves(&decoded, curves);
    assert(is_selection(Ok(cells), csv_records(bytes@).0, csv_records(bytes@).1, curves@));
    result
}

} // verus!
