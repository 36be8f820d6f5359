//! The table catalog: a numeric identifier and a column descriptor for each
//! table, by name.

use std::collections::HashMap;
use vstd::prelude::*;
use super::tuple::TupleMetadata;

verus! {

broadcast use vstd::std_specs::hash::group_hash_axioms;

/// The mathematical content of a catalog.
pub struct CatalogView {
    /// The identifier that the next table gets.
    pub next_id: u32,
    /// The names of the tables with their identifiers, in the order of definition.
    pub names: Seq<(Seq<char>, u32)>,
    /// The column descriptor of each table.
    pub tables: Map<u32, TupleMetadata>,
}

/// The tables of an engine.
pub struct Catalog {
    id_counter: u32,
    name_to_id: Vec<(String, u32)>,
    tables: HashMap<u32, TupleMetadata>,
}

impl View for Catalog {
    type V = CatalogView;

    closed spec fn view(&self) -> CatalogView {
        CatalogView {
            next_id: self.id_counter,
            names: Seq::new(
                self.name_to_id@.len(),
                |i: int| (self.name_to_id@[i].0@, self.name_to_id@[i].1),
            ),
            tables: self.tables@,
        }
    }
}

impl Catalog {
    /// A catalog without tables.
    pub fn new() -> (catalog: Self)
        ensures
            catalog@ == (CatalogView {
                next_id: 0,
                names: Seq::empty(),
                tables: Map::empty(),
            }),
    {
        let catalog = Self { id_counter: 0, tables: HashMap::new(), name_to_id: Vec::new() };
        assert(catalog@.names =~= Seq::empty());
        catalog
    }

    /// Defines a table and returns its identifier, the next in sequence.
    pub fn add_table(&mut self, name: String, tuple_metadata: TupleMetadata) -> (id: u32)
        requires
            old(self)@.next_id < u32::MAX,
        ensures
            id == old(self)@.next_id,
            final(self)@ == (CatalogView {
                next_id: (id + 1) as u32,
                names: old(self)@.names.push((name@, id)),
                tables: old(self)@.tables.insert(id, tuple_metadata),
            }),
    {
        let id = self.id_counter;
        self.id_counter += 1;
        self.tables.insert(id, tuple_metadata);
        self.name_to_id.push((name, id));
        assert(self@.names =~= old(self)@.names.push((name@, id)));
        id
    }

    /// The column descriptor of a table, if the table was defined.
    pub fn get_tuple_metadata(&self, table_id: u32) -> (result: Option<&TupleMetadata>)
        ensures
            match result {
                Some(metadata) => self@.tables.contains_key(table_id) && *metadata
                    == self@.tables[table_id],
                None => !self@.tables.contains_key(table_id),
            },
    {
        self.tables.get(&table_id)
    }
}

} // verus!
