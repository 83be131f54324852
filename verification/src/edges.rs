//! The edge source: a two-column, headerless table of positive vertex
//! labels, read with the `csv` crate, and the edge list that it holds.

use crate::graph::{max_label, positive_labels};
use vstd::prelude::*;

verus! {

/// What is wrong with a table that holds no edge list.
#[derive(Debug, Clone, Copy, PartialEq, Eq)]
pub enum LoadError {
    /// The data is not a table that the `csv` crate reads.
    Malformed,
    /// The row has fewer than two columns.
    MissingColumn { row: usize },
    /// One of the first two fields of the row is no number that fits a
    /// vertex label.
    InvalidLabel { row: usize },
    /// One of the first two fields of the row is the number 0.
    ZeroLabel { row: usize },
}

/// Why a row holds no edge.
pub enum RowFault {
    /// It has fewer than two columns.
    MissingColumn,
    /// One of its first two fields is no number that fits a vertex label.
    InvalidLabel,
    /// One of its first two fields is the number 0.
    ZeroLabel,
}

/// The error of the `csv` crate: handed on as it comes, never looked into.
#[verifier::external_type_specification]
#[verifier::external_body]
pub struct ExCsvError(csv::Error);

/// The records that the `csv` crate reads from `data` without a header row,
/// each field as its bytes, or `None` where it reports an error.
pub uninterp spec fn csv_records(data: Seq<u8>) -> Option<Seq<Seq<Seq<u8>>>>;

/// The fields of a record as byte sequences.
pub open spec fn row_view(row: Vec<Vec<u8>>) -> Seq<Seq<u8>> {
    Seq::new(row@.len(), |i: int| row@[i]@)
}

/// The records of a table as sequences of byte sequences.
pub open spec fn rows_view(rows: Vec<Vec<Vec<u8>>>) -> Seq<Seq<Seq<u8>>> {
    Seq::new(rows@.len(), |i: int| row_view(rows@[i]))
}

/// Reads all records of `data` with `csv::Reader::records`, on a reader that
/// `csv::ReaderBuilder` made with `has_headers(false)`.
///
/// Trusted: what the crate reads is a function of the bytes alone, named
/// `csv_records`; nothing is claimed of what it holds.
#[verifier::external_body]
fn read_records(data: &[u8]) -> (rows: Result<Vec<Vec<Vec<u8>>>, csv::Error>)
    ensures
        match rows {
            Ok(rows) => csv_records(data@) == Some(rows_view(rows)),
            Err(_) => csv_records(data@) is None,
        },
{
    let mut reader = csv::ReaderBuilder::new().has_headers(false).from_reader(data);
    let mut rows: Vec<Vec<Vec<u8>>> = Vec::new();
    for record in reader.records() {
        rows.push(record?.iter().map(|field| field.as_bytes().to_vec()).collect());
    }
    Ok(rows)
}

/// `b` is the ASCII code of a decimal digit.
pub open spec fn is_digit(b: u8) -> bool {
    48 <= b <= 57
}

/// Every byte of `digits` is a decimal digit.
pub open spec fn all_digits(digits: Seq<u8>) -> bool {
    forall|i: int| 0 <= i < digits.len() ==> is_digit(#[trigger] digits[i])
}

/// The number that `digits` write in base ten.
pub open spec fn decimal_value(digits: Seq<u8>) -> nat
    decreases digits.len(),
{
    if digits.len() == 0 {
        0
    } else {
        decimal_value(digits.drop_last()) * 10 + (digits.last() - 48) as nat
    }
}

/// `field` without the plus sign that may lead it.
pub open spec fn unsigned_part(field: Seq<u8>) -> Seq<u8> {
    if field.len() > 0 && field[0] == 43 {
        field.drop_first()
    } else {
        field
    }
}

/// The number that `field` writes: decimal digits, at least one, after an
/// optional plus sign, with a value that fits `usize`.
pub open spec fn label_value(field: Seq<u8>) -> Option<usize> {
    let digits = unsigned_part(field);
    if digits.len() > 0 && all_digits(digits) && decimal_value(digits) <= usize::MAX {
        Some(decimal_value(digits) as usize)
    } else {
        None
    }
}

/// The edge that `row` holds in its first two fields, or why it holds none.
pub open spec fn row_edge(row: Seq<Seq<u8>>) -> Result<(usize, usize), RowFault> {
    if row.len() < 1 {
        Err(RowFault::MissingColumn)
    } else if label_value(row[0]) is None {
        Err(RowFault::InvalidLabel)
    } else if row.len() < 2 {
        Err(RowFault::MissingColumn)
    } else if label_value(row[1]) is None {
        Err(RowFault::InvalidLabel)
    } else if label_value(row[0]).unwrap() == 0 || label_value(row[1]).unwrap() == 0 {
        Err(RowFault::ZeroLabel)
    } else {
        Ok((label_value(row[0]).unwrap(), label_value(row[1]).unwrap()))
    }
}

/// The error that reports `fault` in the row of index `row`.
pub open spec fn fault_at(fault: RowFault, row: usize) -> LoadError {
    match fault {
        RowFault::MissingColumn => LoadError::MissingColumn { row },
        RowFault::InvalidLabel => LoadError::InvalidLabel { row },
        RowFault::ZeroLabel => LoadError::ZeroLabel { row },
    }
}

/// What `rows` yield: the edge of every row in order, or the fault of the
/// first row that holds none.
pub open spec fn rows_yield(
    rows: Seq<Seq<Seq<u8>>>,
    outcome: Result<Vec<(usize, usize)>, LoadError>,
) -> bool {
    match outcome {
        Ok(edges) => {
            &&& edges@.len() == rows.len()
            &&& forall|i: int| 0 <= i < rows.len() ==> row_edge(#[trigger] rows[i]) == Ok::<
                (usize, usize),
                RowFault,
            >(edges@[i])
        },
        Err(error) => exists|i: int|
            {
                &&& 0 <= i < rows.len()
                &&& i <= usize::MAX
                &&& forall|j: int| 0 <= j < i ==> row_edge(#[trigger] rows[j]) is Ok
                &&& row_edge(#[trigger] rows[i]) is Err
                &&& error == fault_at(row_edge(rows[i])->Err_0, i as usize)
            },
    }
}

/// A number does not get smaller when a digit is appended.
proof fn lemma_decimal_prefix(digits: Seq<u8>, k: int)
    requires
        0 <= k <= digits.len(),
        all_digits(digits),
    ensures
        decimal_value(digits.take(k)) <= decimal_value(digits),
    decreases digits.len() - k,
{
    if k < digits.len() {
        lemma_decimal_prefix(digits, k + 1);
        let longer = digits.take(k + 1);
        assert(longer.drop_last() == digits.take(k));
        assert(is_digit(digits[k]));
        assert(longer.last() == digits[k]);
    } else {
        assert(digits.take(k) == digits);
    }
}

/// The number that `field` writes, as `str::parse::<usize>` reads it.
pub fn parse_label(field: &[u8]) -> (label: Option<usize>)
    ensures
        label == label_value(field@),
{
    let first: usize = if field.len() > 0 && field[0] == 43 { 1 } else { 0 };
    let ghost digits = unsigned_part(field@);
    if first >= field.len() {
        return None;
    }
    let mut value: usize = 0;
    let mut i: usize = first;
    assert(digits.take(0) == Seq::<u8>::empty());
    while i < field.len()
        invariant
            first <= i <= field@.len(),
            first <= 1,
            digits == unsigned_part(field@),
            digits.len() == field@.len() - first,
            forall|j: int| 0 <= j < digits.len() ==> digits[j] == field@[j + first],
            all_digits(digits.take(i - first)),
            value == decimal_value(digits.take(i - first)),
        decreases field.len() - i,
    {
        let b: u8 = field[i];
        let ghost seen = digits.take(i - first);
        let ghost next = digits.take(i - first + 1);
        proof {
            assert(next.drop_last() == seen);
            assert(next.last() == b);
        }
        if b < 48 || b > 57 {
            proof {
                assert(!is_digit(digits[i - first]));
            }
            return None;
        }
        let d: usize = (b - 48) as usize;
        if value > (usize::MAX - d) / 10 {
            proof {
                assert(decimal_value(next) > usize::MAX) by (nonlinear_arith)
                    requires
                        decimal_value(next) == value * 10 + d,
                        value > (usize::MAX - d) / 10,
                {}
                if all_digits(digits) {
                    lemma_decimal_prefix(digits, i - first + 1);
                }
            }
            return None;
        }
        assert(value * 10 + d <= usize::MAX) by (nonlinear_arith)
            requires
                value <= (usize::MAX - d) / 10,
                d <= usize::MAX,
        {}
        value = value * 10 + d;
        proof {
            assert forall|j: int| 0 <= j < next.len() implies is_digit(#[trigger] next[j]) by {
                if j < seen.len() {
                    assert(seen[j] == next[j]);
                }
            }
        }
        i += 1;
    }
    proof {
        assert(digits.take(i - first) == digits);
    }
    Some(value)
}

/// The edge list that `rows` hold, or the fault of the first row that holds
/// no edge.
pub fn edges_from_rows(rows: &Vec<Vec<Vec<u8>>>) -> (outcome: Result<Vec<(usize, usize)>, LoadError>)
    ensures
        rows_yield(rows_view(*rows), outcome),
        outcome matches Ok(edges) ==> positive_labels(edges@),
{
    let mut edges: Vec<(usize, usize)> = Vec::new();
    let mut i: usize = 0;
    while i < rows.len()
        invariant
            i <= rows@.len(),
            edges@.len() == i,
            forall|j: int|
                0 <= j < i ==> row_edge(#[trigger] rows_view(*rows)[j]) == Ok::<
                    (usize, usize),
                    RowFault,
                >(edges@[j]),
            positive_labels(edges@),
        decreases rows.len() - i,
    {
        let row = &rows[i];
        let ghost fields = rows_view(*rows)[i as int];
        assert(fields == row_view(*row));
        if row.len() < 1 {
            assert(row_edge(fields) == Err::<(usize, usize), RowFault>(RowFault::MissingColumn));
            return Err(LoadError::MissingColumn { row: i });
        }
        assert(fields[0] == row@[0]@);
        let u = match parse_label(row[0].as_slice()) {
            Some(u) => u,
            None => {
                assert(row_edge(fields) == Err::<(usize, usize), RowFault>(RowFault::InvalidLabel));
                return Err(LoadError::InvalidLabel { row: i });
            },
        };
        if row.len() < 2 {
            assert(row_edge(fields) == Err::<(usize, usize), RowFault>(RowFault::MissingColumn));
            return Err(LoadError::MissingColumn { row: i });
        }
        assert(fields[1] == row@[1]@);
        let v = match parse_label(row[1].as_slice()) {
            Some(v) => v,
            None => {
                assert(row_edge(fields) == Err::<(usize, usize), RowFault>(RowFault::InvalidLabel));
                return Err(LoadError::InvalidLabel { row: i });
            },
        };
        if u == 0 || v == 0 {
            assert(row_edge(fields) == Err::<(usize, usize), RowFault>(RowFault::ZeroLabel));
            return Err(LoadError::ZeroLabel { row: i });
        }
        assert(row_edge(fields) == Ok::<(usize, usize), RowFault>((u, v)));
        edges.push((u, v));
        i += 1;
    }
    Ok(edges)
}

/// The edge list that the table `data` holds: one edge per record, from its
/// first two fields.
pub fn parse_edge_list(data: &[u8]) -> (outcome: Result<Vec<(usize, usize)>, LoadError>)
    ensures
        match csv_records(data@) {
            Some(rows) => rows_yield(rows, outcome),
            None => outcome == Err::<Vec<(usize, usize)>, LoadError>(LoadError::Malformed),
        },
        outcome matches Ok(edges) ==> positive_labels(edges@),
{
    match read_records(data) {
        Ok(rows) => edges_from_rows(&rows),
        Err(_) => Err(LoadError::Malformed),
    }
}

/// The largest label in `edges`, 0 where there is no edge.
pub fn max_vertex_label(edges: &[(usize, usize)]) -> (label: usize)
    ensures
        label == max_label(edges@),
{
    let mut label: usize = 0;
    let mut i: usize = 0;
    while i < edges.len()
        invariant
            i <= edges@.len(),
            label == max_label(edges@.take(i as int)),
        decreases edges.len() - i,
    {
        let (u, v) = edges[i];
        proof {
            let next = edges@.take(i + 1);
            assert(next.drop_last() == edges@.take(i as int));
            assert(next.last() == (u, v));
        }
        let top: usize = if u >= v { u } else { v };
        if top > label {
            label = top;
        }
        i += 1;
    }
    proof {
        assert(edges@.take(edges@.len() as int) == edges@);
    }
    label
}

} // verus!
