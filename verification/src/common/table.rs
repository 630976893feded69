//! Tables, their schemas, and what the catalog knows of their indexes.
use crate::common::ids::{ColumnId, ContainerId};
use vstd::prelude::*;
use vstd::std_specs::iter::IteratorSpec;
use vstd::string::*;

verus! {

/// The type of a column.
#[derive(Clone, Copy, Debug, PartialEq, Eq, Structural)]
pub enum DataType {
    BigInt,
    Decimal,
    String,
}

/// What a column must satisfy.
#[derive(Clone, Copy, Debug, PartialEq, Eq, Structural)]
pub enum Constraint {
    Nothing,
    PrimaryKey,
    Unique,
    NotNull,
    UniqueNotNull,
}

/// A column of a table.
#[derive(Clone, Debug, PartialEq, Eq)]
pub struct Attribute {
    pub name: String,
    pub dtype: DataType,
    pub constraint: Constraint,
}

/// What a column is.
pub struct AttributeView {
    pub name: Seq<char>,
    pub dtype: DataType,
    pub constraint: Constraint,
}

impl View for Attribute {
    type V = AttributeView;

    open spec fn view(&self) -> AttributeView {
        AttributeView { name: self.name@, dtype: self.dtype, constraint: self.constraint }
    }
}

impl Attribute {
    /// A column without constraints.
    pub fn new(name: String, dtype: DataType) -> (r: Self)
        ensures
            r@ == (AttributeView { name: name@, dtype, constraint: Constraint::Nothing }),
    {
        Attribute { name, dtype, constraint: Constraint::Nothing }
    }

    /// The same column again.
    pub fn duplicate(&self) -> (r: Self)
        ensures
            r@ == self@,
    {
        Attribute { name: self.name.clone(), dtype: self.dtype, constraint: self.constraint }
    }
}

/// What columns are.
pub open spec fn attribute_views(attributes: Seq<Attribute>) -> Seq<AttributeView> {
    Seq::new(attributes.len(), |i: int| attributes[i]@)
}

/// Table implementation.
#[derive(Clone, Debug)]
pub struct TableInfo {
    pub c_id: ContainerId,
    /// Table name.
    pub name: String,
    /// Table schema.
    pub schema: TableSchema,
}

impl TableInfo {
    pub fn new(c_id: ContainerId, name: String, schema: TableSchema) -> (r: Self)
        ensures
            r.c_id == c_id,
            r.name == name,
            r.schema == schema,
    {
        TableInfo { c_id, name, schema }
    }
}

/// Catalog-level metadata for a B+Tree index (primary or secondary).
/// The live B+Tree pages themselves are looked after by `IndexManager`, keyed
/// by `index_id` (which is also the index's storage container id).
#[derive(Clone, Debug)]
pub struct IndexInfo {
    pub index_id: ContainerId,
    pub name: String,
    pub table_id: ContainerId,
    /// The raw (0-based, within-table) column indices that make up the index
    /// key, in key order. A single-column index has one entry; a composite
    /// index has more than one.
    pub columns: Vec<ColumnId>,
    pub unique: bool,
}

impl IndexInfo {
    pub fn new(
        index_id: ContainerId,
        name: String,
        table_id: ContainerId,
        columns: Vec<ColumnId>,
        unique: bool,
    ) -> (r: Self)
        ensures
            r.index_id == index_id,
            r.name == name,
            r.table_id == table_id,
            r.columns == columns,
            r.unique == unique,
    {
        IndexInfo { index_id, name, table_id, columns, unique }
    }
}

/// Handle schemas.
#[derive(PartialEq, Eq, Clone, Debug)]
pub struct TableSchema {
    /// Attributes of the schema.
    pub attributes: Vec<Attribute>,
}

impl View for TableSchema {
    type V = Seq<AttributeView>;

    open spec fn view(&self) -> Seq<AttributeView> {
        attribute_views(self.attributes@)
    }
}

impl Default for TableSchema {
    fn default() -> (r: Self)
        ensures
            r@ == Seq::<AttributeView>::empty(),
    {
        let r = TableSchema { attributes: Vec::new() };
        assert(r@ =~= Seq::<AttributeView>::empty());
        r
    }
}

/// Whether a column is a primary key.
pub open spec fn is_pk() -> spec_fn(AttributeView) -> bool {
    |a: AttributeView| a.constraint == Constraint::PrimaryKey
}

/// The names of the columns, each with a tab behind it.
pub open spec fn names_text(columns: Seq<AttributeView>) -> Seq<char>
    decreases columns.len(),
{
    if columns.len() == 0 {
        Seq::empty()
    } else {
        (names_text(columns.drop_last()) + columns.last().name).push('\t')
    }
}

impl TableSchema {
    /// Create a new schema.
    ///
    /// # Arguments
    ///
    /// * `attributes` - Attributes of the schema in the order that they are in the schema.
    pub fn new(attributes: Vec<Attribute>) -> (r: Self)
        ensures
            r.attributes == attributes,
    {
        Self { attributes }
    }

    /// Create a new schema with the given names and dtypes, as many as there
    /// are of both.
    ///
    /// # Arguments
    ///
    /// * `names` - Names of the new schema.
    /// * `dtypes` - Dtypes of the new schema.
    pub fn from_vecs(names: Vec<&str>, dtypes: Vec<DataType>) -> (r: Self)
        ensures
            r@ == Seq::new(
                if names@.len() < dtypes@.len() {
                    names@.len()
                } else {
                    dtypes@.len()
                },
                |i: int|
                    AttributeView {
                        name: names@[i]@,
                        dtype: dtypes@[i],
                        constraint: Constraint::Nothing,
                    },
            ),
    {
        let mut attrs: Vec<Attribute> = Vec::new();
        let mut i: usize = 0;
        while i < names.len() && i < dtypes.len()
            invariant
                i <= names@.len(),
                i <= dtypes@.len(),
                attrs@.len() == i,
                forall|j: int|
                    0 <= j < i ==> (#[trigger] attrs@[j])@ == (AttributeView {
                        name: names@[j]@,
                        dtype: dtypes@[j],
                        constraint: Constraint::Nothing,
                    }),
            decreases names@.len() - i,
        {
            attrs.push(Attribute::new(names[i].to_owned(), dtypes[i]));
            i = i + 1;
        }
        TableSchema::new(attrs)
    }

    /// Get the attribute from the given index.
    ///
    /// # Arguments
    ///
    /// * `i` - Index of the attribute to look for.
    pub fn get_attribute(&self, i: usize) -> (r: Option<&Attribute>)
        ensures
            match r {
                Some(a) => i < self.attributes@.len() && *a == self.attributes@[i as int],
                None => i >= self.attributes@.len(),
            },
    {
        if i < self.attributes.len() {
            Some(&self.attributes[i])
        } else {
            None
        }
    }

    /// Get the index of the first attribute with the given name.
    ///
    /// # Arguments
    ///
    /// * `name` - Name of the attribute to get the index for.
    pub fn get_field_index(&self, name: &str) -> (r: Option<usize>)
        ensures
            match r {
                Some(i) => {
                    &&& i < self@.len()
                    &&& self@[i as int].name == name@
                    &&& forall|j: int| 0 <= j < i ==> (#[trigger] self@[j]).name != name@
                },
                None => forall|j: int| 0 <= j < self@.len() ==> (#[trigger] self@[j]).name != name@,
            },
    {
        let wanted: String = name.to_owned();
        let mut i: usize = 0;
        while i < self.attributes.len()
            invariant
                i <= self@.len(),
                wanted@ == name@,
                forall|j: int| 0 <= j < i ==> (#[trigger] self@[j]).name != name@,
            decreases self@.len() - i,
        {
            if self.attributes[i].name == wanted {
                return Some(i);
            }
            i = i + 1;
        }
        None
    }

    /// Returns attribute(s) that are primary keys
    pub fn get_pks(&self) -> (r: Vec<Attribute>)
        ensures
            attribute_views(r@) == self@.filter(is_pk()),
            forall|i: int|
                0 <= i < r@.len() ==> (#[trigger] r@[i])@.constraint == Constraint::PrimaryKey,
            forall|i: int|
                0 <= i < self@.len() && (#[trigger] self@[i]).constraint == Constraint::PrimaryKey
                    ==> attribute_views(r@).contains(self@[i]),
    {
        let mut pks: Vec<Attribute> = Vec::new();
        let mut i: usize = 0;
        proof {
            assert(self@.take(0) =~= Seq::<AttributeView>::empty());
            reveal(Seq::filter);
            assert(attribute_views(pks@) =~= self@.take(0).filter(is_pk()));
        }
        while i < self.attributes.len()
            invariant
                i <= self@.len(),
                attribute_views(pks@) == self@.take(i as int).filter(is_pk()),
            decreases self@.len() - i,
        {
            let ghost before = pks@;
            proof {
                reveal(Seq::filter);
                assert(self@.take(i + 1).drop_last() =~= self@.take(i as int));
            }
            if self.attributes[i].constraint == Constraint::PrimaryKey {
                pks.push(self.attributes[i].duplicate());
                assert(attribute_views(pks@) =~= attribute_views(before).push(self@[i as int]));
            }
            i = i + 1;
        }
        assert(self@.take(i as int) =~= self@);
        proof {
            broadcast use vstd::seq_lib::group_filter_ensures;

            assert forall|i: int| 0 <= i < pks@.len() implies (#[trigger] pks@[i])@.constraint
                == Constraint::PrimaryKey by {
                assert(is_pk()(self@.filter(is_pk())[i]));
                assert(attribute_views(pks@)[i] == pks@[i]@);
            }
            assert forall|i: int|
                0 <= i < self@.len() && (#[trigger] self@[i]).constraint == Constraint::PrimaryKey
                implies attribute_views(pks@).contains(self@[i]) by {
                assert(is_pk()(self@[i]));
                assert(self@.filter(is_pk()).contains(self@[i]));
            }
        }
        pks
    }

    /// Check if the attribute name is in the schema.
    ///
    /// # Arguments
    ///
    /// * `name` - Name of the attribute to look for.
    pub fn contains(&self, name: &str) -> (r: bool)
        ensures
            r <==> exists|i: int| 0 <= i < self@.len() && (#[trigger] self@[i]).name == name@,
    {
        match self.get_field_index(name) {
            Some(_) => true,
            None => false,
        }
    }

    /// Get an iterator of the attributes.
    pub fn attributes(&self) -> (r: std::slice::Iter<'_, Attribute>)
        ensures
            r.remaining() == self.attributes@.as_ref(),
    {
        self.attributes.iter()
    }

    /// Merge two schemas into one.
    ///
    /// The other schema is appended to the current schema.
    ///
    /// # Arguments
    ///
    /// * `other` - Other schema to add to current schema.
    pub fn merge(&self, other: &Self) -> (r: Self)
        ensures
            r@ == self@ + other@,
    {
        let mut merged = self.duplicate();
        let mut i: usize = 0;
        assert(merged@ =~= self@ + other@.take(0));
        while i < other.attributes.len()
            invariant
                i <= other@.len(),
                merged@ == self@ + other@.take(i as int),
            decreases other@.len() - i,
        {
            let ghost before = merged@;
            merged.attributes.push(other.attributes[i].duplicate());
            proof {
                assert(merged@ =~= before.push(other@[i as int]));
                assert(merged@ =~= self@ + other@.take(i + 1));
            }
            i = i + 1;
        }
        assert(other@.take(i as int) =~= other@);
        merged
    }

    /// Returns the length of the schema.
    pub fn size(&self) -> (r: usize)
        ensures
            r == self@.len(),
    {
        self.attributes.len()
    }

    /// The same schema again.
    pub fn duplicate(&self) -> (r: Self)
        ensures
            r@ == self@,
    {
        let mut attrs: Vec<Attribute> = Vec::new();
        let mut i: usize = 0;
        while i < self.attributes.len()
            invariant
                i <= self@.len(),
                attrs@.len() == i,
                forall|j: int| 0 <= j < i ==> (#[trigger] attrs@[j])@ == self@[j],
            decreases self@.len() - i,
        {
            attrs.push(self.attributes[i].duplicate());
            i = i + 1;
        }
        let r = TableSchema::new(attrs);
        assert(r@ =~= self@);
        r
    }

    /// The names of the attributes, each with a tab behind it.
    pub fn to_text(&self) -> (r: String)
        ensures
            r@ == names_text(self@),
    {
        let mut text: String = String::new();
        let mut i: usize = 0;
        proof {
            reveal_strlit("\t");
            assert(self@.take(0) =~= Seq::<AttributeView>::empty());
            assert(text@ =~= names_text(self@.take(0)));
        }
        while i < self.attributes.len()
            invariant
                i <= self@.len(),
                text@ == names_text(self@.take(i as int)),
                "\t"@ =~= seq!['\t'],
            decreases self@.len() - i,
        {
            let ghost before = text@;
            text.append(self.attributes[i].name.as_str());
            text.append("\t");
            proof {
                assert(self@.take(i + 1).drop_last() =~= self@.take(i as int));
                assert(text@ =~= (before + self@[i as int].name).push('\t'));
            }
            i = i + 1;
        }
        assert(self@.take(i as int) =~= self@);
        text
    }
}

/// A merged schema is as long as its two parts together, and the part in
/// front keeps its positions.
pub proof fn lemma_merge(a: TableSchema, b: TableSchema, merged: TableSchema)
    requires
        merged@ == a@ + b@,
    ensures
        merged@.len() == a@.len() + b@.len(),
        merged@.take(a@.len() as int) == a@,
        merged@.skip(a@.len() as int) == b@,
{
    assert(merged@.take(a@.len() as int) =~= a@);
    assert(merged@.skip(a@.len() as int) =~= b@);
}

/// What the database knows of its tables and indexes.
#[derive(Debug)]
pub struct Catalog {
    pub tables: Vec<TableInfo>,
    pub indexes: Vec<IndexInfo>,
}

/// Whether an index is one of the given table.
pub open spec fn indexes_table(table_id: ContainerId) -> spec_fn(IndexInfo) -> bool {
    |i: IndexInfo| i.table_id == table_id
}

impl Catalog {
    pub fn new() -> (r: Self)
        ensures
            r.tables@.len() == 0,
            r.indexes@.len() == 0,
    {
        Catalog { tables: Vec::new(), indexes: Vec::new() }
    }

    pub fn add_table(&mut self, table: TableInfo)
        ensures
            final(self).tables@ == old(self).tables@.push(table),
            final(self).indexes == old(self).indexes,
    {
        self.tables.push(table);
    }

    pub fn add_index(&mut self, index: IndexInfo)
        ensures
            final(self).indexes@ == old(self).indexes@.push(index),
            final(self).tables == old(self).tables,
    {
        self.indexes.push(index);
    }

    /// Every index on the table, in the order in which they were added.
    pub fn get_indexes_for_table(&self, table_id: ContainerId) -> (r: Vec<&IndexInfo>)
        ensures
            Seq::new(r@.len(), |i: int| *r@[i]) == self.indexes@.filter(indexes_table(table_id)),
            forall|i: int| 0 <= i < r@.len() ==> (#[trigger] r@[i]).table_id == table_id,
            forall|i: int|
                0 <= i < self.indexes@.len() && (#[trigger] self.indexes@[i]).table_id == table_id
                    ==> exists|k: int| 0 <= k < r@.len() && *#[trigger] r@[k] == self.indexes@[i],
    {
        let mut found: Vec<&IndexInfo> = Vec::new();
        let mut i: usize = 0;
        proof {
            assert(self.indexes@.take(0) =~= Seq::<IndexInfo>::empty());
            reveal(Seq::filter);
            assert(Seq::new(found@.len(), |i: int| *found@[i]) =~= self.indexes@.take(0).filter(
                indexes_table(table_id),
            ));
        }
        while i < self.indexes.len()
            invariant
                i <= self.indexes@.len(),
                Seq::new(found@.len(), |i: int| *found@[i]) == self.indexes@.take(i as int).filter(
                    indexes_table(table_id),
                ),
            decreases self.indexes@.len() - i,
        {
            let ghost before = Seq::new(found@.len(), |i: int| *found@[i]);
            proof {
                reveal(Seq::filter);
                assert(self.indexes@.take(i + 1).drop_last() =~= self.indexes@.take(i as int));
            }
            if self.indexes[i].table_id == table_id {
                found.push(&self.indexes[i]);
                assert(Seq::new(found@.len(), |i: int| *found@[i]) =~= before.push(
                    self.indexes@[i as int],
                ));
            }
            i = i + 1;
        }
        assert(self.indexes@.take(i as int) =~= self.indexes@);
        proof {
            broadcast use vstd::seq_lib::group_filter_ensures;

            let kept = self.indexes@.filter(indexes_table(table_id));
            assert forall|i: int| 0 <= i < found@.len() implies (#[trigger] found@[i]).table_id
                == table_id by {
                assert(kept[i] == *found@[i]);
                assert(indexes_table(table_id)(kept[i]));
            }
            assert forall|i: int|
                0 <= i < self.indexes@.len() && (#[trigger] self.indexes@[i]).table_id == table_id
                implies exists|k: int|
                0 <= k < found@.len() && *#[trigger] found@[k] == self.indexes@[i] by {
                assert(indexes_table(table_id)(self.indexes@[i]));
                assert(kept.contains(self.indexes@[i]));
                let k = choose|k: int| 0 <= k < kept.len() && kept[k] == self.indexes@[i];
                assert(*found@[k] == kept[k]);
            }
        }
        found
    }
}

/// The text of columns has the names of them all, one after the other, each with
/// a tab behind it: that of two schemas together is the text of the first one
/// and then that of the other.
pub proof fn lemma_names_text(a: Seq<AttributeView>, b: Seq<AttributeView>, c: AttributeView)
    ensures
        names_text(a + b) == names_text(a) + names_text(b),
        names_text(seq![c]) == c.name + seq!['\t'],
    decreases b.len(),
{
    reveal_with_fuel(names_text, 2);
    assert(seq![c].drop_last() =~= Seq::<AttributeView>::empty());
    assert(names_text(seq![c]) =~= c.name + seq!['\t']);
    if b.len() == 0 {
        assert(a + b =~= a);
        assert(names_text(a) + names_text(b) =~= names_text(a));
    } else {
        lemma_names_text(a, b.drop_last(), c);
        assert((a + b).drop_last() =~= a + b.drop_last());
        assert(names_text(a + b) =~= names_text(a) + names_text(b));
    }
}

/// What a column is tells its name, its type and its constraint.
pub proof fn lemma_column_tells(a: Attribute, b: Attribute)
    ensures
        a@ == b@ <==> a.name@ == b.name@ && a.dtype == b.dtype && a.constraint == b.constraint,
{
}

} // verus!
