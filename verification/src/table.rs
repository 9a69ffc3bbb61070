//! Reading the two tables: records from bytes, and rows from records.

use crate::graph::{fields_view, table_view, GraphData, GraphError};
use crate::text::{parse_id, parsed_id, trim, trimmed};
use vstd::prelude::*;

verus! {

/// The error type of the `csv` crate, `csv::Error`. Nothing is said of what
/// it holds: a record that comes with one counts as unreadable.
#[verifier::external_type_specification]
#[verifier::external_body]
pub struct ExCsvError(csv::Error);

/// What the `csv` crate's reader with its default settings yields for the
/// bytes `data`: comma-separated records, the first taken as the header and
/// left out; then, in order, one entry for each record: its fields, or
/// `None` where the reader reports an error for it.
pub uninterp spec fn csv_records(data: Seq<u8>) -> Seq<Option<Seq<Seq<char>>>>;

/// What was read, record by record: the fields of a record that could be
/// read, `None` for one that could not.
pub open spec fn records_view(records: Seq<Result<Vec<String>, csv::Error>>) -> Seq<
    Option<Seq<Seq<char>>>,
> {
    Seq::new(
        records.len(),
        |i: int|
            match records[i] {
                Ok(fields) => Some(fields_view(fields@)),
                Err(_) => None,
            },
    )
}

/// The records before the first one that could not be read.
pub open spec fn readable_prefix(records: Seq<Option<Seq<Seq<char>>>>) -> Seq<Seq<Seq<char>>>
    decreases records.len(),
{
    if records.len() == 0 {
        Seq::empty()
    } else {
        let before = readable_prefix(records.drop_last());
        if before.len() == records.len() - 1 && records.last() is Some {
            before.push(records.last()->Some_0)
        } else {
            before
        }
    }
}

/// What reading a table comes to, where `parsed` is what the rows of its
/// readable records give. The first bad row among them decides; without
/// one, a record that could not be read does; else all rows were parsed.
pub open spec fn table_outcome<T>(
    records: Seq<Option<Seq<Seq<char>>>>,
    parsed: Result<T, GraphError>,
) -> Result<T, GraphError> {
    match parsed {
        Err(e) => Err(e),
        Ok(value) => if readable_prefix(records).len() == records.len() {
            Ok(value)
        } else {
            Err(GraphError::Unreadable { row: readable_prefix(records).len() as usize })
        },
    }
}

/// Row by row, what `parse` makes of a table: all the parsed rows in order,
/// or the error of the first row that has one.
pub open spec fn parse_rows<T>(
    table: Seq<Seq<Seq<char>>>,
    parse: spec_fn(Seq<Seq<char>>, int) -> Result<T, GraphError>,
) -> Result<Seq<T>, GraphError>
    decreases table.len(),
{
    if table.len() == 0 {
        Ok(Seq::empty())
    } else {
        match parse_rows(table.drop_last(), parse) {
            Err(e) => Err(e),
            Ok(earlier) => match parse(table.last(), table.len() - 1) {
                Err(e) => Err(e),
                Ok(item) => Ok(earlier.push(item)),
            },
        }
    }
}

/// The edge that a record of the edge table holds: the first field is the
/// id the edge starts at, the second the id it points to, each with white
/// space around it allowed. The first field is read before the second is
/// looked for.
pub open spec fn edge_entry(fields: Seq<Seq<char>>, row: int) -> Result<(usize, usize), GraphError> {
    if fields.len() < 1 {
        Err(GraphError::MissingField { row: row as usize, column: 0 })
    } else {
        match parsed_id(trimmed(fields[0])) {
            None => Err(GraphError::InvalidId { row: row as usize, column: 0 }),
            Some(from) => if fields.len() < 2 {
                Err(GraphError::MissingField { row: row as usize, column: 1 })
            } else {
                match parsed_id(trimmed(fields[1])) {
                    None => Err(GraphError::InvalidId { row: row as usize, column: 1 }),
                    Some(to) => Ok((from, to)),
                }
            },
        }
    }
}

/// `edge_entry` as a value.
pub open spec fn edge_parser() -> spec_fn(Seq<Seq<char>>, int) -> Result<(usize, usize), GraphError> {
    |fields: Seq<Seq<char>>, row: int| edge_entry(fields, row)
}

/// The edges that an edge table holds, in table order.
pub open spec fn edges_from_table(table: Seq<Seq<Seq<char>>>) -> Result<
    Seq<(usize, usize)>,
    GraphError,
> {
    parse_rows(table, edge_parser())
}

/// The readable prefix is what its name says: it holds the first records
/// one for one, all of them readable, and ends at the first record that is
/// not, or at the end of the table.
pub proof fn lemma_readable_prefix(records: Seq<Option<Seq<Seq<char>>>>)
    ensures
        readable_prefix(records).len() <= records.len(),
        forall|i: int|
            0 <= i < readable_prefix(records).len() ==> #[trigger] records[i] == Some(
                readable_prefix(records)[i],
            ),
        readable_prefix(records).len() < records.len() ==> records[readable_prefix(
            records,
        ).len() as int] is None,
    decreases records.len(),
{
    if records.len() > 0 {
        lemma_readable_prefix(records.drop_last());
        let before = readable_prefix(records.drop_last());
        assert forall|i: int| 0 <= i < readable_prefix(records).len() implies #[trigger] records[i]
            == Some(readable_prefix(records)[i]) by {
            if i < before.len() {
                assert(records.drop_last()[i] == records[i]);
            }
        }
        if before.len() < records.len() - 1 {
            assert(records.drop_last()[before.len() as int] == records[before.len() as int]);
        }
    }
}

/// A list of edges, or the error in its place, as the contracts speak of it.
pub open spec fn edges_view(outcome: Result<Vec<(usize, usize)>, GraphError>) -> Result<
    Seq<(usize, usize)>,
    GraphError,
> {
    match outcome {
        Ok(edges) => Ok(edges@),
        Err(e) => Err(e),
    }
}

/// A table whose rows before `row` parse and whose row `row` parses to
/// `item` has one more parsed row.
pub proof fn lemma_parse_rows_step<T>(
    table: Seq<Seq<Seq<char>>>,
    parse: spec_fn(Seq<Seq<char>>, int) -> Result<T, GraphError>,
    row: int,
)
    requires
        0 <= row < table.len(),
        parse_rows(table.take(row), parse) is Ok,
    ensures
        parse_rows(table.take(row + 1), parse) == match parse(table[row], row) {
            Ok(item) => Ok::<Seq<T>, GraphError>(
                parse_rows(table.take(row), parse)->Ok_0.push(item),
            ),
            Err(e) => Err(e),
        },
{
    assert(table.take(row + 1).drop_last() =~= table.take(row));
}

/// The first row with an error decides the whole table.
pub proof fn lemma_parse_rows_stops<T>(
    table: Seq<Seq<Seq<char>>>,
    parse: spec_fn(Seq<Seq<char>>, int) -> Result<T, GraphError>,
    row: int,
)
    requires
        0 <= row <= table.len(),
        parse_rows(table.take(row), parse) is Err,
    ensures
        parse_rows(table, parse) == parse_rows(table.take(row), parse),
    decreases table.len(),
{
    if row == table.len() {
        assert(table.take(row) =~= table);
    } else {
        assert(table.drop_last().take(row) =~= table.take(row));
        lemma_parse_rows_stops(table.drop_last(), parse, row);
    }
}

/// Reads the data records of `data` with `csv::Reader::from_reader` and the
/// reader's `into_records`, and copies the fields of each record that came
/// without an error out of `csv::StringRecord::iter`. Trusted: what comes
/// back depends on the bytes alone, so it is the named `csv_records` of
/// them. Nothing is claimed of what the records hold.
#[verifier::external_body]
pub(crate) fn read_records(data: &[u8]) -> (records: Vec<Result<Vec<String>, csv::Error>>)
    ensures
        records_view(records@) == csv_records(data@),
{
    csv::Reader::from_reader(data)
        .into_records()
        .map(|record| record.map(|fields| fields.iter().map(String::from).collect()))
        .collect()
}

/// Keeps the records before the first one that could not be read.
pub(crate) fn readable_rows(records: Vec<Result<Vec<String>, csv::Error>>) -> (rows: Vec<
    Vec<String>,
>)
    ensures
        table_view(rows@) == readable_prefix(records_view(records@)),
{
    let ghost all = records_view(records@);
    let mut rows: Vec<Vec<String>> = Vec::new();
    let mut complete = true;
    proof {
        assert(all.take(0) =~= Seq::empty());
        assert(table_view(rows@) =~= Seq::empty());
    }
    for record in it: records.into_iter()
        invariant
            it.seq() == records@,
            all == records_view(records@),
            complete == (rows@.len() == it.index()),
            table_view(rows@) == readable_prefix(all.take(it.index() as int)),
    {
        let ghost at = it.index() as int;
        proof {
            assert(all.take(at + 1).drop_last() =~= all.take(at));
            assert(all.take(at + 1).last() == all[at]);
            lemma_readable_prefix(all.take(at));
        }
        if complete {
            match record {
                Ok(fields) => {
                    let ghost before = table_view(rows@);
                    rows.push(fields);
                    proof {
                        assert(table_view(rows@) =~= before.push(fields_view(fields@)));
                    }
                },
                Err(_) => {
                    complete = false;
                },
            }
        }
    }
    proof {
        assert(all.take(records@.len() as int) =~= all);
    }
    rows
}

/// Reads the edge that the record `fields`, row `row` of its table, holds.
fn read_edge_row(fields: &Vec<String>, row: usize) -> (edge: Result<(usize, usize), GraphError>)
    ensures
        edge == edge_entry(fields_view(fields@), row as int),
{
    if fields.len() < 1 {
        return Err(GraphError::MissingField { row, column: 0 });
    }
    let from = match parse_id(trim(fields[0].as_str()).as_str()) {
        Some(id) => id,
        None => {
            return Err(GraphError::InvalidId { row, column: 0 });
        },
    };
    if fields.len() < 2 {
        return Err(GraphError::MissingField { row, column: 1 });
    }
    match parse_id(trim(fields[1].as_str()).as_str()) {
        Some(to) => Ok((from, to)),
        None => Err(GraphError::InvalidId { row, column: 1 }),
    }
}

impl GraphData {
    /// Turns the records of an edge table into the list of edges, in table
    /// order. The first record that lacks a field or holds an id that is no
    /// non-negative integer ends the reading with its error.
    pub fn edge_list(rows: &Vec<Vec<String>>) -> (edges: Result<Vec<(usize, usize)>, GraphError>)
        ensures
            edges_view(edges) == edges_from_table(table_view(rows@)),
    {
        let ghost table = table_view(rows@);
        let mut edges: Vec<(usize, usize)> = Vec::new();
        let mut row: usize = 0;
        proof {
            assert(table.take(0) =~= Seq::empty());
        }
        while row < rows.len()
            invariant
                row <= rows.len(),
                table == table_view(rows@),
                parse_rows(table.take(row as int), edge_parser()) == Ok::<
                    Seq<(usize, usize)>,
                    GraphError,
                >(edges@),
            decreases rows.len() - row,
        {
            proof {
                lemma_parse_rows_step(table, edge_parser(), row as int);
            }
            match read_edge_row(&rows[row], row) {
                Ok(edge) => {
                    edges.push(edge);
                },
                Err(e) => {
                    proof {
                        lemma_parse_rows_stops(table, edge_parser(), row + 1);
                    }
                    return Err(e);
                },
            }
            row += 1;
        }
        proof {
            assert(table.take(row as int) =~= table);
        }
        Ok(edges)
    }

    /// Reads the edge table from the bytes of a CSV file with a header row:
    /// the first column is the id an edge starts at, the second the id it
    /// points to. Reading ends at the first record that cannot be read or
    /// holds no edge, with the error of that record.
    pub fn read_edges(data: &[u8]) -> (edges: Result<Vec<(usize, usize)>, GraphError>)
        ensures
            edges_view(edges) == table_outcome(
                csv_records(data@),
                edges_from_table(readable_prefix(csv_records(data@))),
            ),
    {
        let records = read_records(data);
        let total = records.len();
        let rows = readable_rows(records);
        match GraphData::edge_list(&rows) {
            Ok(edges) => if rows.len() == total {
                Ok(edges)
            } else {
                Err(GraphError::Unreadable { row: rows.len() })
            },
            Err(e) => Err(e),
        }
    }
}

} // verus!
