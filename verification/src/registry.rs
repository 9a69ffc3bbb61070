//! The node registry: display names made unique in table order.

use crate::graph::{fields_view, names_view, table_view, GraphData, GraphError};
use crate::table::{
    csv_records, lemma_parse_rows_step, lemma_parse_rows_stops, parse_rows, read_records,
    readable_prefix, readable_rows, table_outcome,
};
use crate::text::{
    decimal, lemma_decimal_digits, lemma_decimal_injective, parse_id, parsed_id,
    push_decimal, trim, trimmed,
};
use std::collections::HashMap;
use vstd::prelude::*;
use vstd::string::StringExecFns;

verus! {

/// How many entries of `bases` equal `name`.
pub open spec fn occurrences(bases: Seq<Seq<char>>, name: Seq<char>) -> nat
    decreases bases.len(),
{
    if bases.len() == 0 {
        0
    } else if bases.last() == name {
        occurrences(bases.drop_last(), name) + 1
    } else {
        occurrences(bases.drop_last(), name)
    }
}

/// Which occurrence of its base name row `row` is, counted from 1 in table
/// order.
pub open spec fn occurrence_at(bases: Seq<Seq<char>>, row: int) -> nat {
    occurrences(bases.take(row + 1), bases[row])
}

/// A base name with the number `n` behind an underscore.
pub open spec fn suffixed(base: Seq<char>, n: nat) -> Seq<char> {
    base + seq!['_'] + decimal(n)
}

/// The display name for the `occurrence`-th row with the base name `base`:
/// the base name itself for the first, with the number as suffix from the
/// second on.
pub open spec fn display_name(base: Seq<char>, occurrence: nat) -> Seq<char> {
    if occurrence <= 1 {
        base
    } else {
        suffixed(base, occurrence)
    }
}

/// The display name that row `row` is given.
pub open spec fn emitted_name(bases: Seq<Seq<char>>, row: int) -> Seq<char> {
    display_name(bases[row], occurrence_at(bases, row))
}

/// The base names of a sequence of `(id, base name)` entries.
pub open spec fn bases_of(entries: Seq<(usize, Seq<char>)>) -> Seq<Seq<char>> {
    Seq::new(entries.len(), |i: int| entries[i].1)
}

/// The registry of a sequence of `(id, base name)` entries: each id with the
/// display name of its row; where an id comes twice, the later row stays.
pub open spec fn registry_of(entries: Seq<(usize, Seq<char>)>) -> Map<usize, Seq<char>>
    decreases entries.len(),
{
    if entries.len() == 0 {
        Map::empty()
    } else {
        registry_of(entries.drop_last()).insert(
            entries.last().0,
            emitted_name(bases_of(entries), entries.len() - 1),
        )
    }
}

/// The entry that a record of the node table holds: the second field is the
/// name, the third the id, each taken without the white space around it.
pub open spec fn node_entry(fields: Seq<Seq<char>>, row: int) -> Result<
    (usize, Seq<char>),
    GraphError,
> {
    if fields.len() < 2 {
        Err(GraphError::MissingField { row: row as usize, column: 1 })
    } else if fields.len() < 3 {
        Err(GraphError::MissingField { row: row as usize, column: 2 })
    } else {
        match parsed_id(trimmed(fields[2])) {
            None => Err(GraphError::InvalidId { row: row as usize, column: 2 }),
            Some(id) => Ok((id, trimmed(fields[1]))),
        }
    }
}

/// `node_entry` as a value.
pub open spec fn node_parser() -> spec_fn(Seq<Seq<char>>, int) -> Result<
    (usize, Seq<char>),
    GraphError,
> {
    |fields: Seq<Seq<char>>, row: int| node_entry(fields, row)
}

/// The registry that a node table yields, or the error of its first bad row.
pub open spec fn registry_from_table(table: Seq<Seq<Seq<char>>>) -> Result<
    Map<usize, Seq<char>>,
    GraphError,
> {
    match parse_rows(table, node_parser()) {
        Ok(entries) => Ok(registry_of(entries)),
        Err(e) => Err(e),
    }
}

/// A registry, or the error in its place, as the contracts speak of it.
pub open spec fn registry_view(outcome: Result<HashMap<usize, String>, GraphError>) -> Result<
    Map<usize, Seq<char>>,
    GraphError,
> {
    match outcome {
        Ok(nodes) => Ok(names_view(nodes@)),
        Err(e) => Err(e),
    }
}

/// No base name of the table is itself the suffixed form that some row of
/// another base name is given. Tables that break this are the only ones in
/// which two rows get the same display name.
pub open spec fn collision_free(bases: Seq<Seq<char>>) -> bool {
    forall|i: int, j: int, n: nat|
        #![trigger bases[i], suffixed(bases[j], n)]
        0 <= i < bases.len() && 0 <= j < bases.len() && 2 <= n <= occurrences(bases, bases[j])
            ==> bases[i] != suffixed(bases[j], n)
}

proof fn lemma_occurrences_bounded(bases: Seq<Seq<char>>, name: Seq<char>)
    ensures
        occurrences(bases, name) <= bases.len(),
    decreases bases.len(),
{
    if bases.len() > 0 {
        lemma_occurrences_bounded(bases.drop_last(), name);
    }
}

proof fn lemma_occurrences_prefix(bases: Seq<Seq<char>>, name: Seq<char>, shorter: int, longer: int)
    requires
        0 <= shorter <= longer <= bases.len(),
    ensures
        occurrences(bases.take(shorter), name) <= occurrences(bases.take(longer), name),
    decreases longer - shorter,
{
    if shorter < longer {
        lemma_occurrences_prefix(bases, name, shorter, longer - 1);
        assert(bases.take(longer).drop_last() =~= bases.take(longer - 1));
    }
}

proof fn lemma_occurrences_absent(bases: Seq<Seq<char>>, name: Seq<char>)
    requires
        forall|k: int| 0 <= k < bases.len() ==> bases[k] != name,
    ensures
        occurrences(bases, name) == 0,
    decreases bases.len(),
{
    if bases.len() > 0 {
        lemma_occurrences_absent(bases.drop_last(), name);
    }
}

/// Two suffixed names are equal only where the base names and the numbers
/// are: a number's digits hold no underscore.
pub proof fn lemma_suffixed_injective(x: Seq<char>, m: nat, y: Seq<char>, n: nat)
    requires
        suffixed(x, m) == suffixed(y, n),
    ensures
        x == y,
        m == n,
{
    let u = decimal(m);
    let v = decimal(n);
    let whole = suffixed(x, m);
    lemma_decimal_digits(m);
    lemma_decimal_digits(n);
    assert(whole.len() == x.len() + 1 + u.len());
    assert(whole.len() == y.len() + 1 + v.len());
    if u.len() == v.len() {
        assert(x =~= whole.take(x.len() as int));
        assert(y =~= suffixed(y, n).take(y.len() as int));
        assert(u =~= whole.skip(x.len() as int + 1));
        assert(v =~= suffixed(y, n).skip(y.len() as int + 1));
        lemma_decimal_injective(m, n);
    } else if u.len() < v.len() {
        let at = x.len() as int;
        assert(whole[at] == '_');
        assert(suffixed(y, n)[at] == v[at - y.len() - 1]);
        assert(false);
    } else {
        let at = y.len() as int;
        assert(suffixed(y, n)[at] == '_');
        assert(whole[at] == u[at - x.len() - 1]);
        assert(false);
    }
}

/// The first row with a base name keeps that name unchanged.
pub proof fn lemma_first_occurrence(bases: Seq<Seq<char>>, row: int)
    requires
        0 <= row < bases.len(),
        forall|k: int| 0 <= k < row ==> bases[k] != bases[row],
    ensures
        occurrence_at(bases, row) == 1,
        emitted_name(bases, row) == bases[row],
{
    assert(bases.take(row + 1).drop_last() =~= bases.take(row));
    lemma_occurrences_absent(bases.take(row), bases[row]);
}

/// Of two rows with one base name and no such row between them, the later
/// one is the next occurrence: the suffixes run `_2`, `_3`, and so on in
/// table order.
pub proof fn lemma_next_occurrence(bases: Seq<Seq<char>>, earlier: int, later: int)
    requires
        0 <= earlier < later < bases.len(),
        bases[earlier] == bases[later],
        forall|k: int| earlier < k < later ==> bases[k] != bases[later],
    ensures
        occurrence_at(bases, later) == occurrence_at(bases, earlier) + 1,
        emitted_name(bases, later) == suffixed(bases[later], occurrence_at(bases, earlier) + 1),
{
    let name = bases[later];
    assert(bases.take(later + 1).drop_last() =~= bases.take(later));
    lemma_occurrences_between(bases, name, earlier + 1, later);
    assert(bases.take(earlier + 1).drop_last() =~= bases.take(earlier));
}

proof fn lemma_occurrences_between(bases: Seq<Seq<char>>, name: Seq<char>, from: int, to: int)
    requires
        0 <= from <= to <= bases.len(),
        forall|k: int| from <= k < to ==> bases[k] != name,
    ensures
        occurrences(bases.take(to), name) == occurrences(bases.take(from), name),
    decreases to - from,
{
    if from < to {
        lemma_occurrences_between(bases, name, from, to - 1);
        assert(bases.take(to).drop_last() =~= bases.take(to - 1));
    }
}

/// Every display name is given once: two different rows of a table that is
/// free of collisions get different names.
pub proof fn lemma_names_unique(bases: Seq<Seq<char>>, earlier: int, later: int)
    requires
        collision_free(bases),
        0 <= earlier < later < bases.len(),
    ensures
        emitted_name(bases, earlier) != emitted_name(bases, later),
{
    let a = bases[earlier];
    let b = bases[later];
    let ca = occurrence_at(bases, earlier);
    let cb = occurrence_at(bases, later);
    assert(bases.take(earlier + 1).drop_last() =~= bases.take(earlier));
    assert(bases.take(later + 1).drop_last() =~= bases.take(later));
    assert(ca >= 1 && cb >= 1);
    lemma_occurrences_prefix(bases, a, earlier + 1, bases.len() as int);
    lemma_occurrences_prefix(bases, b, later + 1, bases.len() as int);
    assert(bases.take(bases.len() as int) =~= bases);
    if a == b {
        lemma_occurrences_prefix(bases, a, earlier + 1, later);
        assert(cb >= ca + 1);
    }
    if emitted_name(bases, earlier) == emitted_name(bases, later) {
        if ca <= 1 && cb <= 1 {
            assert(a == b);
        } else if ca >= 2 && cb >= 2 {
            lemma_suffixed_injective(a, ca, b, cb);
        } else if ca <= 1 {
            assert(bases[earlier] == suffixed(bases[later], cb));
        } else {
            assert(bases[later] == suffixed(bases[earlier], ca));
        }
    }
}

/// Each name in the registry is the display name of a row with that id.
proof fn lemma_registry_source(entries: Seq<(usize, Seq<char>)>, id: usize) -> (row: int)
    requires
        registry_of(entries).dom().contains(id),
    ensures
        0 <= row < entries.len(),
        entries[row].0 == id,
        registry_of(entries)[id] == emitted_name(bases_of(entries), row),
    decreases entries.len(),
{
    if entries.last().0 == id {
        entries.len() - 1
    } else {
        let shorter = entries.drop_last();
        let row = lemma_registry_source(shorter, id);
        assert(bases_of(shorter).take(row + 1) =~= bases_of(entries).take(row + 1));
        row
    }
}

/// In the registry of a table that is free of collisions no two ids have
/// the same display name.
pub proof fn lemma_registry_names_unique(entries: Seq<(usize, Seq<char>)>, a: usize, b: usize)
    requires
        collision_free(bases_of(entries)),
        registry_of(entries).dom().contains(a),
        registry_of(entries).dom().contains(b),
        a != b,
    ensures
        registry_of(entries)[a] != registry_of(entries)[b],
{
    let row_a = lemma_registry_source(entries, a);
    let row_b = lemma_registry_source(entries, b);
    if row_a < row_b {
        lemma_names_unique(bases_of(entries), row_a, row_b);
    } else {
        lemma_names_unique(bases_of(entries), row_b, row_a);
    }
}

/// How often each base name has been seen so far.
struct NameCounts {
    names: Vec<String>,
    counts: Vec<usize>,
}

impl NameCounts {
    /// Each name is held once, beside its count.
    spec fn wf(&self) -> bool {
        &&& self.names@.len() == self.counts@.len()
        &&& forall|i: int, j: int|
            0 <= i < j < self.names@.len() ==> self.names@[i]@ != self.names@[j]@
    }

    /// `name` is held at position `at`.
    spec fn held_at(&self, name: Seq<char>, at: int) -> bool {
        0 <= at < self.names@.len() && self.names@[at]@ == name
    }

    /// The count of `name`; 0 where it has not been seen.
    spec fn count(&self, name: Seq<char>) -> nat {
        if exists|at: int| self.held_at(name, at) {
            self.counts@[choose|at: int| self.held_at(name, at)] as nat
        } else {
            0
        }
    }

    fn new() -> (fresh: NameCounts)
        ensures
            fresh.wf(),
            forall|name: Seq<char>| fresh.count(name) == 0,
    {
        NameCounts { names: Vec::new(), counts: Vec::new() }
    }

    /// Counts one more row with the base name `base` and says which
    /// occurrence it is.
    fn record(&mut self, base: &String) -> (occurrence: usize)
        requires
            old(self).wf(),
            old(self).count(base@) < usize::MAX,
        ensures
            final(self).wf(),
            occurrence == old(self).count(base@) + 1,
            forall|name: Seq<char>|
                final(self).count(name) == if name == base@ {
                    occurrence as nat
                } else {
                    old(self).count(name)
                },
    {
        let mut at: usize = 0;
        while at < self.names.len()
            invariant
                *self == *old(self),
                self.wf(),
                self.count(base@) < usize::MAX,
                at <= self.names@.len(),
                forall|k: int| 0 <= k < at ==> self.names@[k]@ != base@,
            decreases self.names@.len() - at,
        {
            if self.names[at] == *base {
                proof {
                    assert(self.held_at(base@, at as int));
                    assert(forall|k: int| self.held_at(base@, k) ==> k == at);
                    assert(self.count(base@) == self.counts@[at as int]);
                }
                let occurrence: usize = self.counts[at] + 1;
                self.counts.set(at, occurrence);
                proof {
                    assert forall|name: Seq<char>|
                        self.count(name) == if name == base@ {
                            occurrence as nat
                        } else {
                            old(self).count(name)
                        } by {
                        assert forall|k: int| self.held_at(name, k) == old(self).held_at(name, k) by {}
                        if name == base@ {
                            assert(self.held_at(name, at as int));
                        }
                    }
                }
                return occurrence;
            }
            at += 1;
        }
        let ghost end = self.names@.len() as int;
        self.names.push(base.clone());
        self.counts.push(1);
        proof {
            assert(self.held_at(base@, end));
            assert forall|name: Seq<char>|
                self.count(name) == if name == base@ {
                    1nat
                } else {
                    old(self).count(name)
                } by {
                if name == base@ {
                    assert(forall|k: int| self.held_at(name, k) ==> k == end);
                } else {
                    assert forall|k: int| self.held_at(name, k) == old(self).held_at(name, k) by {}
                    if exists|k: int| old(self).held_at(name, k) {
                        let k = choose|k: int| old(self).held_at(name, k);
                        assert(self.held_at(name, k));
                    }
                }
            }
        }
        1
    }
}

/// Reads the entry that the record `fields`, row `row` of its table, holds.
fn read_node_row(fields: &Vec<String>, row: usize) -> (entry: Result<(usize, String), GraphError>)
    ensures
        match node_entry(fields_view(fields@), row as int) {
            Ok(wanted) => entry is Ok && entry->Ok_0.0 == wanted.0 && entry->Ok_0.1@ == wanted.1,
            Err(e) => entry == Err::<(usize, String), GraphError>(e),
        },
{
    if fields.len() < 2 {
        return Err(GraphError::MissingField { row, column: 1 });
    }
    let base = trim(fields[1].as_str());
    if fields.len() < 3 {
        return Err(GraphError::MissingField { row, column: 2 });
    }
    match parse_id(trim(fields[2].as_str()).as_str()) {
        Some(id) => Ok((id, base)),
        None => Err(GraphError::InvalidId { row, column: 2 }),
    }
}

/// Builds the display name for the `occurrence`-th row with the name `base`.
fn make_display_name(base: String, occurrence: usize) -> (name: String)
    ensures
        name@ == display_name(base@, occurrence as nat),
{
    if occurrence <= 1 {
        base
    } else {
        let mut name = base;
        name.append("_");
        proof {
            reveal_strlit("_");
            assert("_"@ =~= seq!['_']);
        }
        push_decimal(&mut name, occurrence);
        name
    }
}

impl GraphData {
    /// Builds the registry from the records of a node table. Names are made
    /// unique in table order: the first row with a name keeps it, the
    /// `n`-th gets `_n` appended. A later row with an id that was seen
    /// replaces the earlier name. The first record that lacks a field or
    /// holds an id that is no non-negative integer ends the reading with its
    /// error.
    pub fn node_registry(rows: &Vec<Vec<String>>) -> (nodes: Result<
        HashMap<usize, String>,
        GraphError,
    >)
        ensures
            registry_view(nodes) == registry_from_table(table_view(rows@)),
    {
        let ghost table = table_view(rows@);
        let ghost mut entries: Seq<(usize, Seq<char>)> = Seq::empty();
        let mut nodes: HashMap<usize, String> = HashMap::new();
        let mut counts = NameCounts::new();
        let mut row: usize = 0;
        proof {
            assert(table.take(0) =~= Seq::empty());
            assert(names_view(nodes@) =~= registry_of(entries));
        }
        while row < rows.len()
            invariant
                row <= rows.len(),
                table == table_view(rows@),
                entries.len() == row,
                parse_rows(table.take(row as int), node_parser()) == Ok::<
                    Seq<(usize, Seq<char>)>,
                    GraphError,
                >(entries),
                names_view(nodes@) == registry_of(entries),
                counts.wf(),
                forall|name: Seq<char>|
                    counts.count(name) == occurrences(bases_of(entries), name),
            decreases rows.len() - row,
        {
            proof {
                lemma_parse_rows_step(table, node_parser(), row as int);
            }
            match read_node_row(&rows[row], row) {
                Ok((id, base)) => {
                    let ghost longer = entries.push((id, base@));
                    proof {
                        lemma_occurrences_bounded(bases_of(entries), base@);
                        assert(bases_of(longer).drop_last() =~= bases_of(entries));
                        assert(bases_of(longer).take(row + 1) =~= bases_of(longer));
                        assert(longer.drop_last() =~= entries);
                    }
                    let occurrence = counts.record(&base);
                    let name = make_display_name(base, occurrence);
                    nodes.insert(id, name);
                    proof {
                        assert(name@ == emitted_name(bases_of(longer), row as int));
                        assert(names_view(nodes@) =~= registry_of(longer));
                        entries = longer;
                    }
                },
                Err(e) => {
                    proof {
                        lemma_parse_rows_stops(table, node_parser(), row + 1);
                    }
                    return Err(e);
                },
            }
            row += 1;
        }
        proof {
            assert(table.take(row as int) =~= table);
        }
        Ok(nodes)
    }

    /// Reads the node table from the bytes of a CSV file with a header row:
    /// the second column is the display name, the third the node id. Reading
    /// ends at the first record that cannot be read or holds no node, with
    /// the error of that record.
    pub fn read_nodes(data: &[u8]) -> (nodes: Result<HashMap<usize, String>, GraphError>)
        ensures
            registry_view(nodes) == table_outcome(
                csv_records(data@),
                registry_from_table(readable_prefix(csv_records(data@))),
            ),
    {
        let records = read_records(data);
        let total = records.len();
        let rows = readable_rows(records);
        match GraphData::node_registry(&rows) {
            Ok(nodes) => if rows.len() == total {
                Ok(nodes)
            } else {
                Err(GraphError::Unreadable { row: rows.len() })
            },
            Err(e) => Err(e),
        }
    }
}

} // verus!
