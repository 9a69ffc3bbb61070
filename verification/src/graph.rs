//! The graph's data and the mathematical models that the contracts speak of.

use std::collections::HashMap;
use vstd::prelude::*;

verus! {

/// A graph of people and their connections.
pub struct GraphData {
    /// Node id to display name.
    pub nodes: HashMap<usize, String>,
    /// Directed edges `(from, to)`, in table order.
    pub edges: Vec<(usize, usize)>,
    /// Node id to its successors, in edge order.
    pub connections: HashMap<usize, Vec<usize>>,
}

/// Why a table could not be turned into graph data.
#[derive(Debug, Clone, Copy, PartialEq, Eq)]
pub enum GraphError {
    /// The data row `row` (counted from 0, header excluded) could not be read as a record.
    Unreadable { row: usize },
    /// The data row `row` (counted from 0, header excluded) has no field at index `column`.
    MissingField { row: usize, column: usize },
    /// The field at index `column` of data row `row` is not a non-negative integer that fits an id.
    InvalidId { row: usize, column: usize },
}

/// A registry as a map from id to the characters of the display name.
pub open spec fn names_view(nodes: Map<usize, String>) -> Map<usize, Seq<char>> {
    Map::new(|id: usize| nodes.dom().contains(id), |id: usize| nodes[id]@)
}

/// An adjacency map as a map from id to the sequence of its successors.
pub open spec fn adjacency_view(connections: Map<usize, Vec<usize>>) -> Map<usize, Seq<usize>> {
    Map::new(|id: usize| connections.dom().contains(id), |id: usize| connections[id]@)
}

/// The fields of a record, each as its characters.
pub open spec fn fields_view(fields: Seq<String>) -> Seq<Seq<char>> {
    Seq::new(fields.len(), |j: int| fields[j]@)
}

/// A table of records as sequences of fields, each field its characters.
pub open spec fn table_view(rows: Seq<Vec<String>>) -> Seq<Seq<Seq<char>>> {
    Seq::new(rows.len(), |i: int| fields_view(rows[i]@))
}

} // verus!
