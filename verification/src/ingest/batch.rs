//! Rows of the edge table as Arrow columns.

use arrow_array::{
    ArrayRef, RecordBatch, StringArray, TimestampMillisecondArray, UInt32Array, UInt64Array,
};
use arrow_schema::{DataType, Field, Schema, TimeUnit};
use std::sync::Arc;
use vstd::prelude::*;
use vstd::string::*;
use vstd::utf8::encode_utf8;

use super::buffer::{row_views, text_of, Row, RowView};
use crate::graph::stream::PartitionId;
use crate::graph::types::{NodeId, ScopeId};

verus! {

/// What a column holds.
#[derive(Debug, Clone, Copy, PartialEq, Eq, Structural)]
pub enum ColumnKind {
    U32,
    U64,
    /// Milliseconds since the epoch, without a time zone.
    Millis,
    Text,
}

/// A column of a table.
#[derive(Debug, Clone, Copy)]
pub struct Column {
    pub name: &'static str,
    pub kind: ColumnKind,
    pub nullable: bool,
}

/// What a [`Column`] says.
#[verifier::ext_equal]
pub ghost struct ColumnView {
    pub name: Seq<char>,
    pub kind: ColumnKind,
    pub nullable: bool,
}

impl View for Column {
    type V = ColumnView;

    open spec fn view(&self) -> ColumnView {
        ColumnView { name: self.name@, kind: self.kind, nullable: self.nullable }
    }
}

pub open spec fn column_views(columns: Seq<Column>) -> Seq<ColumnView> {
    columns.map_values(|c: Column| c@)
}

/// The columns of the edge table.
pub open spec fn edge_table() -> Seq<ColumnView> {
    seq![
        ColumnView { name: "partition"@, kind: ColumnKind::U32, nullable: false },
        ColumnView { name: "offset"@, kind: ColumnKind::U64, nullable: false },
        ColumnView { name: "src"@, kind: ColumnKind::U64, nullable: false },
        ColumnView { name: "dst"@, kind: ColumnKind::U64, nullable: false },
        ColumnView { name: "scope_id"@, kind: ColumnKind::U32, nullable: false },
        ColumnView { name: "event_time"@, kind: ColumnKind::Millis, nullable: false },
        ColumnView { name: "props"@, kind: ColumnKind::Text, nullable: true },
    ]
}

/// Schema of the edge table.
pub fn edge_schema() -> (columns: Vec<Column>)
    ensures
        column_views(columns@) == edge_table(),
{
    let columns: Vec<Column> = vec![
        Column { name: "partition", kind: ColumnKind::U32, nullable: false },
        Column { name: "offset", kind: ColumnKind::U64, nullable: false },
        Column { name: "src", kind: ColumnKind::U64, nullable: false },
        Column { name: "dst", kind: ColumnKind::U64, nullable: false },
        Column { name: "scope_id", kind: ColumnKind::U32, nullable: false },
        Column { name: "event_time", kind: ColumnKind::Millis, nullable: false },
        Column { name: "props", kind: ColumnKind::Text, nullable: true },
    ];
    assert(column_views(columns@) =~= edge_table());
    columns
}

/// The rows of the edge table, column by column.
#[derive(Debug)]
pub struct EdgeColumns {
    pub partition: Vec<PartitionId>,
    pub offset: Vec<u64>,
    pub src: Vec<NodeId>,
    pub dst: Vec<NodeId>,
    pub scope_id: Vec<ScopeId>,
    pub event_time: Vec<i64>,
    pub props: Vec<Option<String>>,
}

/// What [`EdgeColumns`] hold.
#[verifier::ext_equal]
pub ghost struct EdgeColumnsView {
    pub partition: Seq<PartitionId>,
    pub offset: Seq<u64>,
    pub src: Seq<NodeId>,
    pub dst: Seq<NodeId>,
    pub scope_id: Seq<ScopeId>,
    pub event_time: Seq<i64>,
    pub props: Seq<Option<Seq<char>>>,
}

impl View for EdgeColumns {
    type V = EdgeColumnsView;

    open spec fn view(&self) -> EdgeColumnsView {
        EdgeColumnsView {
            partition: self.partition@,
            offset: self.offset@,
            src: self.src@,
            dst: self.dst@,
            scope_id: self.scope_id@,
            event_time: self.event_time@,
            props: self.props@.map_values(|p: Option<String>| text_of(p)),
        }
    }
}

impl EdgeColumnsView {
    /// Every column has `n` values.
    pub open spec fn has_rows(&self, n: nat) -> bool {
        &&& self.partition.len() == n
        &&& self.offset.len() == n
        &&& self.src.len() == n
        &&& self.dst.len() == n
        &&& self.scope_id.len() == n
        &&& self.event_time.len() == n
        &&& self.props.len() == n
    }
}

/// `rows`, column by column.
pub open spec fn columns_of(rows: Seq<RowView>) -> EdgeColumnsView {
    EdgeColumnsView {
        partition: rows.map_values(|r: RowView| r.partition),
        offset: rows.map_values(|r: RowView| r.offset),
        src: rows.map_values(|r: RowView| r.src),
        dst: rows.map_values(|r: RowView| r.dst),
        scope_id: rows.map_values(|r: RowView| r.scope),
        event_time: rows.map_values(|r: RowView| r.event_time_ms),
        props: rows.map_values(|r: RowView| r.props),
    }
}

/// Bytes of the texts in a column.
pub open spec fn text_bytes(texts: Seq<Option<Seq<char>>>) -> nat
    decreases texts.len(),
{
    if texts.len() == 0 {
        0
    } else {
        text_bytes(texts.drop_last()) + match texts.last() {
            Some(t) => encode_utf8(t).len(),
            None => 0,
        }
    }
}

/// The properties of `rows` fit a column of text, whose offsets have 32 bits.
pub open spec fn text_fits(rows: Seq<RowView>) -> bool {
    text_bytes(columns_of(rows).props) <= i32::MAX
}

/// Whether the properties of `rows` fit a column of text.
pub fn props_fit(rows: &Vec<Row>) -> (r: bool)
    ensures
        r == text_fits(row_views(rows@)),
{
    let ghost texts = columns_of(row_views(rows@)).props;
    let mut room: usize = i32::MAX as usize;
    let mut i: usize = 0;
    assert(texts.take(0) =~= Seq::empty());
    while i < rows.len()
        invariant
            i <= rows@.len(),
            texts == columns_of(row_views(rows@)).props,
            room + text_bytes(texts.take(i as int)) == i32::MAX,
        decreases rows.len() - i,
    {
        proof {
            assert(texts.take(i + 1).drop_last() =~= texts.take(i as int));
            assert(texts.take(i + 1).last() == text_of(rows@[i as int].props));
            text_grows(texts, i + 1);
        }
        if let Some(p) = &rows[i].props {
            let n: usize = p.as_str().as_bytes().len();
            if n > room {
                return false;
            }
            room = room - n;
        }
        i += 1;
    }
    assert(texts.take(i as int) =~= texts);
    true
}

proof fn text_grows(texts: Seq<Option<Seq<char>>>, n: int)
    requires
        0 <= n <= texts.len(),
    ensures
        text_bytes(texts.take(n)) <= text_bytes(texts),
    decreases texts.len(),
{
    if n == texts.len() {
        assert(texts.take(n) =~= texts);
    } else {
        text_grows(texts.drop_last(), n);
        assert(texts.drop_last().take(n) =~= texts.take(n));
    }
}

/// `rows`, column by column.
pub fn to_columns(rows: &Vec<Row>) -> (c: EdgeColumns)
    ensures
        c@ == columns_of(row_views(rows@)),
{
    let ghost all = columns_of(row_views(rows@));
    let mut c = EdgeColumns {
        partition: Vec::new(),
        offset: Vec::new(),
        src: Vec::new(),
        dst: Vec::new(),
        scope_id: Vec::new(),
        event_time: Vec::new(),
        props: Vec::new(),
    };
    let mut i: usize = 0;
    while i < rows.len()
        invariant
            i <= rows@.len(),
            all == columns_of(row_views(rows@)),
            c@.has_rows(i as nat),
            c.partition@ == all.partition.take(i as int),
            c.offset@ == all.offset.take(i as int),
            c.src@ == all.src.take(i as int),
            c.dst@ == all.dst.take(i as int),
            c.scope_id@ == all.scope_id.take(i as int),
            c.event_time@ == all.event_time.take(i as int),
            c@.props == all.props.take(i as int),
        decreases rows.len() - i,
    {
        let row = &rows[i];
        let ghost was = c@.props;
        let props = match &row.props {
            Some(p) => Some(p.clone()),
            None => None,
        };
        c.partition.push(row.partition);
        c.offset.push(row.offset);
        c.src.push(row.src);
        c.dst.push(row.dst);
        c.scope_id.push(row.scope);
        c.event_time.push(row.event_time_ms);
        c.props.push(props);
        i += 1;
        proof {
            assert(c.partition@ =~= all.partition.take(i as int));
            assert(c.offset@ =~= all.offset.take(i as int));
            assert(c.src@ =~= all.src.take(i as int));
            assert(c.dst@ =~= all.dst.take(i as int));
            assert(c.scope_id@ =~= all.scope_id.take(i as int));
            assert(c.event_time@ =~= all.event_time.take(i as int));
            assert(c@.props =~= was.push(text_of(props)));
            assert(c@.props =~= all.props.take(i as int));
        }
    }
    assert(c@ =~= all);
    c
}

// --- Arrow -----------------------------------------------------------------------------------------

/// Arrow's description of a column.
#[verifier::external_type_specification]
#[verifier::external_body]
pub struct ExField(arrow_schema::Field);

/// Arrow's description of a table.
#[verifier::external_type_specification]
#[verifier::external_body]
pub struct ExSchema(arrow_schema::Schema);

/// Rows of the edge table in an Arrow `RecordBatch`: columns of one length.
#[verifier::external_body]
pub struct EdgeBatch {
    pub(crate) batch: RecordBatch,
}

/// The column that a field describes.
pub uninterp spec fn field_column(f: Field) -> ColumnView;

/// The columns that a schema describes, in order.
pub uninterp spec fn schema_columns(s: Schema) -> Seq<ColumnView>;

/// The values of a batch of the edge table.
pub uninterp spec fn batch_values(b: EdgeBatch) -> EdgeColumnsView;

/// `Field::new`: a field of this name, type and nullability.
#[verifier::external_body]
fn arrow_field(c: &Column) -> (f: Field)
    ensures
        field_column(f) == c@,
{
    let kind = match c.kind {
        ColumnKind::U32 => DataType::UInt32,
        ColumnKind::U64 => DataType::UInt64,
        ColumnKind::Millis => DataType::Timestamp(TimeUnit::Millisecond, None),
        ColumnKind::Text => DataType::Utf8,
    };
    Field::new(c.name, kind, c.nullable)
}

/// `Schema::new`: a schema of these fields, in order.
#[verifier::external_body]
fn arrow_schema(fields: Vec<Field>) -> (s: Arc<Schema>)
    ensures
        schema_columns(*s) == fields@.map_values(|f: Field| field_column(f)),
{
    Arc::new(Schema::new(fields))
}

/// A schema that describes `columns`.
pub(crate) fn arrow_schema_of(columns: &Vec<Column>) -> (s: Arc<Schema>)
    ensures
        schema_columns(*s) == column_views(columns@),
{
    let mut fields: Vec<Field> = Vec::new();
    let mut i: usize = 0;
    while i < columns.len()
        invariant
            i <= columns@.len(),
            fields@.len() == i,
            forall|j: int| 0 <= j < i ==> field_column(#[trigger] fields@[j]) == columns@[j]@,
        decreases columns.len() - i,
    {
        fields.push(arrow_field(&columns[i]));
        i += 1;
    }
    assert(fields@.map_values(|f: Field| field_column(f)) =~= column_views(columns@));
    arrow_schema(fields)
}

/// `RecordBatch::try_new` over one array per column: a batch of these values.
/// It refuses columns that differ in length, or from the schema in number, in
/// type, or by a null where none may be; these do not. A column of text holds
/// at most `i32::MAX` bytes.
#[verifier::external_body]
pub(crate) fn record_batch(schema: Arc<Schema>, c: EdgeColumns) -> (b: EdgeBatch)
    requires
        schema_columns(*schema) == edge_table(),
        c@.has_rows(c@.partition.len()),
        text_bytes(c@.props) <= i32::MAX,
    ensures
        batch_values(b) == c@,
{
    let columns: Vec<ArrayRef> = vec![
        Arc::new(UInt32Array::from(c.partition)),
        Arc::new(UInt64Array::from(c.offset)),
        Arc::new(UInt64Array::from(c.src)),
        Arc::new(UInt64Array::from(c.dst)),
        Arc::new(UInt32Array::from(c.scope_id)),
        Arc::new(TimestampMillisecondArray::from(c.event_time)),
        Arc::new(StringArray::from(c.props)),
    ];
    EdgeBatch { batch: RecordBatch::try_new(schema, columns).expect("columns of the schema") }
}

/// `RecordBatch::get_array_memory_size`: the memory that the columns take. It
/// depends on what was allocated for them, so nothing is said of it.
#[verifier::external_body]
fn batch_memory(b: &EdgeBatch) -> (n: usize) {
    b.batch.get_array_memory_size()
}

/// `rows` as a batch; `None` where their properties do not fit one.
pub(crate) fn batch_of(rows: &Vec<Row>) -> (b: Option<EdgeBatch>)
    ensures
        b is Some <==> text_fits(row_views(rows@)),
        b matches Some(batch) ==> batch_values(batch) == columns_of(row_views(rows@)),
{
    if !props_fit(rows) {
        return None;
    }
    let schema = arrow_schema_of(&edge_schema());
    Some(record_batch(schema, to_columns(rows)))
}

/// Memory that `rows` take as columns. It depends on what the columns
/// allocate, so nothing is said of it.
pub(crate) fn rows_memory(rows: &Vec<Row>) -> (n: usize) {
    match batch_of(rows) {
        Some(b) => batch_memory(&b),
        None => 0,
    }
}

/// **Columns hold the rows as they are**: value `i` of each column is that field
/// of row `i`.
pub proof fn columns_hold_the_rows(rows: Seq<Row>, i: int)
    ensures
        ({
            let c = columns_of(row_views(rows));
            &&& c.has_rows(rows.len())
            &&& 0 <= i < rows.len() ==> {
                &&& c.partition[i] == rows[i].partition
                &&& c.offset[i] == rows[i].offset
                &&& c.src[i] == rows[i].src
                &&& c.dst[i] == rows[i].dst
                &&& c.scope_id[i] == rows[i].scope
                &&& c.event_time[i] == rows[i].event_time_ms
                &&& c.props[i] is Some <==> rows[i].props is Some
                &&& rows[i].props is Some ==> c.props[i]->Some_0 == rows[i].props->Some_0@
            }
        }),
{
}

/// **Every column has as many values as there are rows.**
pub proof fn columns_have_one_length(c: EdgeColumns, n: nat)
    ensures
        c@.has_rows(n) <==> c.partition@.len() == n && c.offset@.len() == n && c.src@.len() == n
            && c.dst@.len() == n && c.scope_id@.len() == n && c.event_time@.len() == n
            && c.props@.len() == n,
        c@.partition == c.partition@ && c@.offset == c.offset@ && c@.src == c.src@ && c@.dst
            == c.dst@ && c@.scope_id == c.scope_id@ && c@.event_time == c.event_time@,
        forall|i: int|
            0 <= i < c.props@.len() ==> (#[trigger] c@.props[i] == match c.props@[i] {
                Some(t) => Some(t@),
                None => None,
            }),
{
}

/// **Texts add up**: an absent one takes nothing, another its bytes, and two
/// columns those of both.
pub proof fn texts_add_up(
    a: Seq<Option<Seq<char>>>,
    b: Seq<Option<Seq<char>>>,
    t: Seq<char>,
)
    ensures
        text_bytes(seq![None::<Seq<char>>]) == 0,
        text_bytes(seq![Some(t)]) == encode_utf8(t).len(),
        text_bytes(a + b) == text_bytes(a) + text_bytes(b),
    decreases b.len(),
{
    assert(text_bytes(Seq::empty()) == 0);
    assert(seq![None::<Seq<char>>].drop_last() =~= Seq::empty());
    assert(seq![Some(t)].drop_last() =~= Seq::empty());
    assert(seq![Some(t)].last() == Some(t));
    assert(seq![None::<Seq<char>>].last() is None);
    if b.len() == 0 {
        assert(a + b =~= a);
    } else {
        texts_add_up(a, b.drop_last(), t);
        assert((a + b).drop_last() =~= a + b.drop_last());
        assert((a + b).last() == b.last());
    }
}

/// **Rows become columns field by field.**
pub proof fn rows_become_columns(rows: Vec<Row>, c: EdgeColumns, i: int)
    requires
        call_ensures(to_columns, (&rows,), c),
        0 <= i < rows@.len(),
    ensures
        c.partition@.len() == rows@.len() && c.partition@[i] == rows@[i].partition,
        c.offset@.len() == rows@.len() && c.offset@[i] == rows@[i].offset,
        c.src@.len() == rows@.len() && c.src@[i] == rows@[i].src,
        c.dst@.len() == rows@.len() && c.dst@[i] == rows@[i].dst,
        c.scope_id@.len() == rows@.len() && c.scope_id@[i] == rows@[i].scope,
        c.event_time@.len() == rows@.len() && c.event_time@[i] == rows@[i].event_time_ms,
        c.props@.len() == rows@.len() && (c.props@[i] is Some <==> rows@[i].props is Some),
        rows@[i].props is Some ==> c.props@[i]->Some_0@ == rows@[i].props->Some_0@,
{
    columns_hold_the_rows(rows@, i);
    columns_have_one_length(c, rows@.len());
    assert(c@.props[i] == text_of(c.props@[i]));
}

/// **A column has a name of its own, and only properties may be missing.**
#[verifier::rlimit(50)]
pub proof fn columns_have_names_of_their_own(columns: Vec<Column>, i: int, j: int)
    requires
        call_ensures(edge_schema, (), columns),
        0 <= i < columns@.len(),
        0 <= j < columns@.len(),
    ensures
        columns@.len() == 7,
        columns@[i].name@ == columns@[j].name@ <==> i == j,
        columns@[i].nullable <==> columns@[i].name@ == "props"@,
        columns@[i].kind is Millis <==> columns@[i].name@ == "event_time"@,
        columns@[i].kind is Text <==> columns@[i].name@ == "props"@,
        columns@[i].kind is U32 <==> columns@[i].name@ == "partition"@ || columns@[i].name@
            == "scope_id"@,
{
    reveal_strlit("partition");
    reveal_strlit("offset");
    reveal_strlit("src");
    reveal_strlit("dst");
    reveal_strlit("scope_id");
    reveal_strlit("event_time");
    reveal_strlit("props");
    let v = column_views(columns@);
    assert(v.len() == 7);
    assert(v[i] == columns@[i]@ && v[j] == columns@[j]@);
    assert("src"@[0] == 's' && "dst"@[0] == 'd');
    assert("partition"@.len() == 9 && "offset"@.len() == 6 && "src"@.len() == 3 && "dst"@.len()
        == 3 && "scope_id"@.len() == 8 && "event_time"@.len() == 10 && "props"@.len() == 5);
}

} // verus!
