//! The dataset assembler: validates the encoded items against the final
//! tables and produces the ordered output structures, ready for rendering,
//! together with the indexed lookup that reconstructs an item's pairs.

use vstd::prelude::*;
use crate::builder::{Attribute, BuildError, Builder, EncodedItem, TableState};
use crate::sanitize::{sanitize, spec_sanitize};

verus! {

/// One attribute's output table: the original name, its identifier-safe
/// symbolic name, and the deduplicated values in first-seen order.
pub struct AttributeTable {
    pub name: String,
    pub symbol: String,
    pub values: Vec<String>,
}

/// The finalized dataset: one table per attribute in first-seen order, the
/// item identifiers in ingestion order, and the fixed-width index matrix,
/// one row per item.
pub struct Dataset {
    pub attributes: Vec<AttributeTable>,
    pub dnas: Vec<String>,
    pub rows: Vec<Vec<u8>>,
}

/// An encoded item lines up with the final tables: one index per attribute,
/// each addressing an existing value of its column's table.
pub open spec fn item_conforms(st: TableState, it: EncodedItem) -> bool {
    &&& it.indices@.len() == st.names.len()
    &&& forall|j: int|
        0 <= j < it.indices@.len() ==> (#[trigger] it.indices@[j]) < st.tables[j].len()
}

pub open spec fn items_conform(st: TableState, items: Seq<EncodedItem>) -> bool {
    forall|i: int| 0 <= i < items.len() ==> item_conforms(st, #[trigger] items[i])
}

impl Dataset {
    /// Well-formedness: identifiers and rows in step, a fixed-width matrix
    /// whose entries address existing table values, and each symbolic name
    /// the sanitized rendering of its attribute name.
    pub open spec fn wf(self) -> bool {
        &&& self.dnas@.len() == self.rows@.len()
        &&& forall|i: int|
            0 <= i < self.rows@.len() ==> (#[trigger] self.rows@[i])@.len()
                == self.attributes@.len()
        &&& forall|i: int, j: int|
            0 <= i < self.rows@.len() && 0 <= j < self.attributes@.len()
                ==> (#[trigger] self.rows@[i]@[j]) < self.attributes@[j].values@.len()
        &&& forall|j: int|
            0 <= j < self.attributes@.len() ==> (#[trigger] self.attributes@[j].symbol@)
                == spec_sanitize(self.attributes@[j].name@)
    }

    /// The (name, value) pairs that row `i` reconstructs: for each column,
    /// the attribute's name and the table value its stored index addresses.
    pub open spec fn item_pairs(self, i: int) -> Seq<(Seq<char>, Seq<char>)> {
        Seq::new(
            self.attributes@.len() as nat,
            |j: int|
                (
                    self.attributes@[j].name@,
                    self.attributes@[j].values@[self.rows@[i]@[j] as int]@,
                ),
        )
    }
}

/// Copies a value table.
fn clone_strings(v: &Vec<String>) -> (r: Vec<String>)
    ensures
        r@ == v@,
{
    let mut r: Vec<String> = Vec::new();
    let mut i: usize = 0;
    while i < v.len()
        invariant
            i <= v@.len(),
            r@ == v@.take(i as int),
        decreases v@.len() - i,
    {
        r.push(v[i].clone());
        proof {
            assert(v@.take(i as int + 1) =~= v@.take(i as int).push(v@[i as int]));
        }
        i = i + 1;
    }
    proof {
        assert(v@.take(v@.len() as int) =~= v@);
    }
    r
}

/// Copies an index vector.
fn clone_indices(v: &Vec<u8>) -> (r: Vec<u8>)
    ensures
        r@ == v@,
{
    let mut r: Vec<u8> = Vec::new();
    let mut i: usize = 0;
    while i < v.len()
        invariant
            i <= v@.len(),
            r@ == v@.take(i as int),
        decreases v@.len() - i,
    {
        r.push(v[i]);
        proof {
            assert(v@.take(i as int + 1) =~= v@.take(i as int).push(v@[i as int]));
        }
        i = i + 1;
    }
    proof {
        assert(v@.take(v@.len() as int) =~= v@);
    }
    r
}

/// Checks one encoded item against the final tables.
fn check_item(builder: &Builder, it: &EncodedItem) -> (r: bool)
    requires
        builder.wf(),
    ensures
        r == item_conforms(builder.state(), *it),
{
    if it.indices.len() != builder.names.len() {
        return false;
    }
    let mut j: usize = 0;
    while j < it.indices.len()
        invariant
            builder.wf(),
            j <= it.indices@.len(),
            it.indices@.len() == builder.names@.len(),
            builder.names@.len() == builder.tables@.len(),
            forall|t: int|
                0 <= t < j ==> (#[trigger] it.indices@[t]) < builder.state().tables[t].len(),
        decreases it.indices@.len() - j,
    {
        let idx = it.indices[j];
        if (idx as usize) >= table_len(builder, j) {
            proof {
                assert(!item_conforms(builder.state(), *it));
            }
            return false;
        }
        j = j + 1;
    }
    true
}

/// The number of values the `j`-th attribute's table holds.
fn table_len(builder: &Builder, j: usize) -> (n: usize)
    requires
        j < builder.tables@.len(),
    ensures
        n == builder.state().tables[j as int].len(),
{
    proof {
        assert(builder.state().tables[j as int] == builder.tables@[j as int].deep_view());
    }
    builder.tables[j].len()
}

/// Assembles the finalized dataset from the builder's tables and the encoded
/// items, called once after all records are ingested. Succeeds exactly when
/// every item lines up with the final tables — one index per attribute, each
/// in range; any mismatch is the schema-inconsistency failure, and nothing
/// is produced.
pub fn finalize(builder: Builder, items: Vec<EncodedItem>) -> (r: Result<Dataset, BuildError>)
    requires
        builder.wf(),
    ensures
        match r {
            Ok(d) => {
                &&& items_conform(builder.state(), items@)
                &&& d.wf()
                &&& d.attributes@.len() == builder.state().names.len()
                &&& forall|j: int|
                    0 <= j < d.attributes@.len() ==> (#[trigger] d.attributes@[j].name@)
                        == builder.state().names[j]
                &&& forall|j: int|
                    0 <= j < d.attributes@.len() ==> (#[trigger] d.attributes@[j].values.deep_view())
                        == builder.state().tables[j]
                &&& d.dnas@.len() == items@.len()
                &&& forall|i: int|
                    0 <= i < items@.len() ==> (#[trigger] d.dnas@[i]@) == items@[i].dna@
                &&& d.rows@.len() == items@.len()
                &&& forall|i: int|
                    0 <= i < items@.len() ==> (#[trigger] d.rows@[i]@) == items@[i].indices@
            },
            Err(e) => {
                &&& e == BuildError::SchemaInconsistency
                &&& !items_conform(builder.state(), items@)
            },
        },
{
    let ghost st = builder.state();
    let mut i: usize = 0;
    while i < items.len()
        invariant
            builder.wf(),
            st == builder.state(),
            i <= items@.len(),
            forall|t: int| 0 <= t < i ==> item_conforms(st, #[trigger] items@[t]),
        decreases items@.len() - i,
    {
        if !check_item(&builder, &items[i]) {
            return Err(BuildError::SchemaInconsistency);
        }
        i = i + 1;
    }
    let mut attributes: Vec<AttributeTable> = Vec::new();
    let mut j: usize = 0;
    while j < builder.names.len()
        invariant
            builder.wf(),
            st == builder.state(),
            j <= builder.names@.len(),
            builder.names@.len() == builder.tables@.len(),
            attributes@.len() == j,
            forall|t: int|
                0 <= t < j ==> (#[trigger] attributes@[t].name@) == st.names[t],
            forall|t: int|
                0 <= t < j ==> (#[trigger] attributes@[t].values.deep_view()) == st.tables[t],
            forall|t: int|
                0 <= t < j ==> (#[trigger] attributes@[t].symbol@) == spec_sanitize(st.names[t]),
        decreases builder.names@.len() - j,
    {
        let name = builder.names[j].clone();
        let symbol = sanitize(name.as_str());
        let values = clone_strings(&builder.tables[j]);
        proof {
            assert(name@ == st.names[j as int]);
            assert(values.deep_view() =~= builder.tables@[j as int].deep_view());
        }
        attributes.push(AttributeTable { name, symbol, values });
        j = j + 1;
    }
    let mut dnas: Vec<String> = Vec::new();
    let mut rows: Vec<Vec<u8>> = Vec::new();
    let mut i: usize = 0;
    while i < items.len()
        invariant
            i <= items@.len(),
            dnas@.len() == i,
            rows@.len() == i,
            forall|t: int| 0 <= t < i ==> (#[trigger] dnas@[t]@) == items@[t].dna@,
            forall|t: int| 0 <= t < i ==> (#[trigger] rows@[t]@) == items@[t].indices@,
        decreases items@.len() - i,
    {
        dnas.push(items[i].dna.clone());
        rows.push(clone_indices(&items[i].indices));
        i = i + 1;
    }
    let d = Dataset { attributes, dnas, rows };
    proof {
        assert forall|a: int, b: int|
            0 <= a < d.rows@.len() && 0 <= b < d.attributes@.len() implies (#[trigger] d.rows@[a]@[
            b]) < d.attributes@[b].values@.len() by {
            assert(item_conforms(st, items@[a]));
            assert(d.attributes@[b].values.deep_view().len() == d.attributes@[b].values@.len());
        }
    }
    Ok(d)
}

impl Dataset {
    /// The lookup of the generated module: returns row `index`'s identifier
    /// and the (name, value) pairs reconstructed by indexing each column's
    /// value table with the stored index.
    pub fn read_item(&self, index: usize) -> (r: (String, Vec<Attribute>))
        requires
            self.wf(),
            index < self.dnas@.len(),
        ensures
            r.0@ == self.dnas@[index as int]@,
            r.1.deep_view() == self.item_pairs(index as int),
    {
        let row = &self.rows[index];
        let mut attrs: Vec<Attribute> = Vec::new();
        let mut j: usize = 0;
        while j < self.attributes.len()
            invariant
                self.wf(),
                index < self.rows@.len(),
                row == &self.rows@[index as int],
                j <= self.attributes@.len(),
                attrs@.len() == j,
                forall|t: int|
                    0 <= t < j ==> (#[trigger] attrs@[t].trait_type@)
                        == self.attributes@[t].name@,
                forall|t: int|
                    0 <= t < j ==> (#[trigger] attrs@[t].value@) == self.attributes@[t].values@[
                        self.rows@[index as int]@[t] as int
                    ]@,
            decreases self.attributes@.len() - j,
        {
            let col = &self.attributes[j];
            let idx = row[j] as usize;
            attrs.push(Attribute { trait_type: col.name.clone(), value: col.values[idx].clone() });
            j = j + 1;
        }
        proof {
            assert(attrs.deep_view() =~= self.item_pairs(index as int));
        }
        (self.dnas[index].clone(), attrs)
    }
}

} // verus!
