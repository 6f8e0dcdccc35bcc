//! The record source: delimited text is split into rows of fields by the `csv` crate.

use crate::builder::{build, built};
use crate::error::GraphError;
use crate::graph::Graph;
use vstd::prelude::*;

verus! {

/// The error with which the `csv` crate refuses its input.
#[verifier::external_type_specification]
#[verifier::external_body]
pub struct ExCsvError(csv::Error);

/// The rows that the `csv` crate reads from `data`, each as its fields in order, or
/// nothing where it refuses `data`. With `has_header` the first record is taken for a
/// header and is not among the rows.
pub uninterp spec fn parsed_records(data: Seq<u8>, has_header: bool) -> Option<Seq<Seq<Seq<char>>>>;

/// Reads all records of `data` with `csv::ReaderBuilder::from_reader` and
/// `csv::Reader::records`, under the crate's default settings but for the header flag,
/// and stops at the first record that the reader refuses. Trusted: the outcome depends
/// on `data` and `has_header` alone, and is what `parsed_records` names.
#[verifier::external_body]
fn read_records(data: &[u8], has_header: bool) -> (r: Result<Vec<Vec<String>>, csv::Error>)
    ensures
        match r {
            Ok(rows) => parsed_records(data@, has_header) == Some(rows.deep_view()),
            Err(_) => parsed_records(data@, has_header) is None,
        },
{
    let mut reader = csv::ReaderBuilder::new().has_headers(has_header).from_reader(data);
    let mut rows: Vec<Vec<String>> = Vec::new();
    for record in reader.records() {
        let record = record?;
        let mut row: Vec<String> = Vec::new();
        for field in record.iter() {
            row.push(field.to_string());
        }
        rows.push(row);
    }
    Ok(rows)
}

impl Graph {
    /// Builds the graph of the delimited text `data`: its records are the rows, and two
    /// rows are joined where they agree on field `key_field_a` or on field `key_field_b`.
    /// Fails with `SourceUnavailable` where `data` cannot be read as records, and with
    /// `MalformedRecord` where a record lacks one of the two fields.
    pub fn create_edges_from_csv(
        data: &[u8],
        has_header: bool,
        key_field_a: usize,
        key_field_b: usize,
    ) -> (r: Result<Graph, GraphError>)
        ensures
            match parsed_records(data@, has_header) {
                Some(table) => built(table, key_field_a as int, key_field_b as int, r),
                None => r == Err::<Graph, GraphError>(GraphError::SourceUnavailable),
            },
    {
        match read_records(data, has_header) {
            Ok(rows) => build(&rows, key_field_a, key_field_b),
            Err(_) => Err(GraphError::SourceUnavailable),
        }
    }
}

} // verus!
