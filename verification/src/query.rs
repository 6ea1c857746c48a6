//! Query plans and the catalogue of tables they refer to.

use vstd::prelude::*;

use crate::seqs;
use crate::value::{Data, DataType, Val};

verus! {

/// The comparison that a predicate makes.
#[derive(Clone, Copy, Debug, PartialEq, Eq, Structural)]
pub enum ComparisionOperator {
    EQ,
    NE,
    GT,
    GTE,
    LT,
    LTE,
}

/// What a predicate compares its column with: another column or a literal.
/// `F32` and `F64` hold bit patterns.
#[derive(Debug)]
pub enum ComparisionValue {
    Column(String),
    I32(i32),
    I64(i64),
    F32(u32),
    F64(u64),
    String(String),
}

impl Clone for ComparisionValue {
    fn clone(&self) -> (res: ComparisionValue)
        ensures
            res == *self,
    {
        match self {
            ComparisionValue::Column(s) => ComparisionValue::Column(s.clone()),
            ComparisionValue::I32(v) => ComparisionValue::I32(*v),
            ComparisionValue::I64(v) => ComparisionValue::I64(*v),
            ComparisionValue::F32(v) => ComparisionValue::F32(*v),
            ComparisionValue::F64(v) => ComparisionValue::F64(*v),
            ComparisionValue::String(s) => ComparisionValue::String(s.clone()),
        }
    }
}

/// One comparison of a filter.
#[derive(Debug)]
pub struct Predicate {
    pub column_name: String,
    pub operator: ComparisionOperator,
    pub value: ComparisionValue,
}

impl Clone for Predicate {
    fn clone(&self) -> (res: Predicate)
        ensures
            res == *self,
    {
        Predicate {
            column_name: self.column_name.clone(),
            operator: self.operator,
            value: self.value.clone(),
        }
    }
}

/// One key of a sort.
#[derive(Debug)]
pub struct SortSpec {
    pub column_name: String,
    pub ascending: bool,
}

#[derive(Debug)]
pub struct ScanData {
    pub table_id: String,
}

#[derive(Debug)]
pub struct FilterData {
    pub predicates: Vec<Predicate>,
    pub underlying: Box<QueryOp>,
}

/// A projection: each pair names an input column and the name it has in the output.
#[derive(Debug)]
pub struct ProjectData {
    pub column_name_map: Vec<(String, String)>,
    pub underlying: Box<QueryOp>,
}

#[derive(Debug)]
pub struct CrossData {
    pub left: Box<QueryOp>,
    pub right: Box<QueryOp>,
}

#[derive(Debug)]
pub struct HashJoinData {
    pub left: Box<QueryOp>,
    pub right: Box<QueryOp>,
    pub left_join_col: String,
    pub right_join_col: String,
}

#[derive(Debug)]
pub struct SortData {
    pub sort_specs: Vec<SortSpec>,
    pub underlying: Box<QueryOp>,
}

/// A query plan.
#[derive(Debug)]
pub enum QueryOp {
    Scan(ScanData),
    Filter(FilterData),
    Project(ProjectData),
    Cross(CrossData),
    HashJoin(HashJoinData),
    Sort(SortData),
}

/// The least and the greatest value of a column.
#[derive(Debug)]
pub struct RangeStat {
    pub lower_bound: Data,
    pub upper_bound: Data,
}

/// What is known of the values of a column. `DensityStat` holds a binary32 pattern.
#[derive(Debug)]
pub enum ColumnStat {
    CardinalityStat(u64),
    DensityStat(u32),
    RangeStat(RangeStat),
    /// The ranges in which values of the column occur, each with its frequency.
    HistogramStat(Vec<(RangeStat, u64)>),
    /// The rows of the table are stored in ascending order of the column.
    IsPhysicallyOrdered,
}

#[derive(Debug)]
pub struct ColumnSpec {
    pub column_name: String,
    pub data_type: DataType,
    pub stats: Option<Vec<ColumnStat>>,
}

#[derive(Debug)]
pub struct TableSpec {
    pub file_id: String,
    pub column_specs: Vec<ColumnSpec>,
}

/// The tables of the database.
#[derive(Debug)]
pub struct DbContext {
    pub table_specs: Vec<TableSpec>,
}

// ---- mathematical models ----

/// What a predicate compares with.
pub enum Operand {
    Column(Seq<char>),
    I32(i32),
    I64(i64),
    F32(u32),
    F64(u64),
    Text(Seq<char>),
}

/// A predicate.
pub struct Test {
    pub column: Seq<char>,
    pub operator: ComparisionOperator,
    pub value: Operand,
}

/// A sort key.
pub struct SortKey {
    pub column: Seq<char>,
    pub ascending: bool,
}

/// A query plan.
pub enum Plan {
    Scan(Seq<char>),
    Filter(Seq<Test>, Box<Plan>),
    Project(Seq<(Seq<char>, Seq<char>)>, Box<Plan>),
    Cross(Box<Plan>, Box<Plan>),
    HashJoin(Box<Plan>, Box<Plan>, Seq<char>, Seq<char>),
    Sort(Seq<SortKey>, Box<Plan>),
}

/// The least and the greatest value of a column.
pub struct Range {
    pub lower: Val,
    pub upper: Val,
}

/// A statistic of a column.
pub enum Stat {
    Cardinality(u64),
    Density(u32),
    Range(Range),
    Histogram(Seq<(Range, u64)>),
    PhysicallyOrdered,
}

/// A column of a table.
pub struct TableColumn {
    pub name: Seq<char>,
    pub data_type: DataType,
    pub stats: Option<Seq<Stat>>,
}

/// A table.
pub struct Table {
    pub file_id: Seq<char>,
    pub columns: Seq<TableColumn>,
}

impl DeepView for ComparisionValue {
    type V = Operand;

    open spec fn deep_view(&self) -> Operand {
        match *self {
            ComparisionValue::Column(s) => Operand::Column(s@),
            ComparisionValue::I32(v) => Operand::I32(v),
            ComparisionValue::I64(v) => Operand::I64(v),
            ComparisionValue::F32(v) => Operand::F32(v),
            ComparisionValue::F64(v) => Operand::F64(v),
            ComparisionValue::String(s) => Operand::Text(s@),
        }
    }
}

impl DeepView for Predicate {
    type V = Test;

    open spec fn deep_view(&self) -> Test {
        Test {
            column: self.column_name@,
            operator: self.operator,
            value: self.value.deep_view(),
        }
    }
}

impl DeepView for SortSpec {
    type V = SortKey;

    open spec fn deep_view(&self) -> SortKey {
        SortKey { column: self.column_name@, ascending: self.ascending }
    }
}

impl QueryOp {
    /// The plan as a mathematical tree.
    pub open spec fn plan(self) -> Plan
        decreases self,
    {
        match self {
            QueryOp::Scan(s) => Plan::Scan(s.table_id@),
            QueryOp::Filter(f) => Plan::Filter(
                f.predicates.deep_view(),
                Box::new(f.underlying.plan()),
            ),
            QueryOp::Project(p) => Plan::Project(
                p.column_name_map.deep_view(),
                Box::new(p.underlying.plan()),
            ),
            QueryOp::Cross(c) => Plan::Cross(Box::new(c.left.plan()), Box::new(c.right.plan())),
            QueryOp::HashJoin(h) => Plan::HashJoin(
                Box::new(h.left.plan()),
                Box::new(h.right.plan()),
                h.left_join_col@,
                h.right_join_col@,
            ),
            QueryOp::Sort(s) => Plan::Sort(s.sort_specs.deep_view(), Box::new(s.underlying.plan())),
        }
    }
}

impl View for QueryOp {
    type V = Plan;

    open spec fn view(&self) -> Plan {
        self.plan()
    }
}

impl DeepView for RangeStat {
    type V = Range;

    open spec fn deep_view(&self) -> Range {
        Range { lower: self.lower_bound.deep_view(), upper: self.upper_bound.deep_view() }
    }
}

impl DeepView for ColumnStat {
    type V = Stat;

    open spec fn deep_view(&self) -> Stat {
        match *self {
            ColumnStat::CardinalityStat(c) => Stat::Cardinality(c),
            ColumnStat::DensityStat(d) => Stat::Density(d),
            ColumnStat::RangeStat(r) => Stat::Range(r.deep_view()),
            ColumnStat::HistogramStat(h) => Stat::Histogram(h.deep_view()),
            ColumnStat::IsPhysicallyOrdered => Stat::PhysicallyOrdered,
        }
    }
}

impl DeepView for ColumnSpec {
    type V = TableColumn;

    open spec fn deep_view(&self) -> TableColumn {
        TableColumn {
            name: self.column_name@,
            data_type: self.data_type,
            stats: match self.stats {
                Some(s) => Some(s.deep_view()),
                None => None,
            },
        }
    }
}

impl DeepView for TableSpec {
    type V = Table;

    open spec fn deep_view(&self) -> Table {
        Table { file_id: self.file_id@, columns: self.column_specs.deep_view() }
    }
}

impl View for DbContext {
    type V = Seq<Table>;

    open spec fn view(&self) -> Seq<Table> {
        self.table_specs.deep_view()
    }
}

/// The position of the first table of this id.
pub open spec fn table_index(tables: Seq<Table>, id: Seq<char>) -> Option<int> {
    seqs::first_where(tables, |t: Table| t.file_id == id)
}

/// The position of the first column of this name in a table.
pub open spec fn spec_index(columns: Seq<TableColumn>, name: Seq<char>) -> Option<int> {
    seqs::first_where(columns, |c: TableColumn| c.name == name)
}

impl DbContext {
    /// Finds the first table of this id.
    pub fn find_table(&self, id: &String) -> (res: Option<usize>)
        ensures
            match res {
                Some(i) => table_index(self@, id@) == Some(i as int) && i < self.table_specs@.len(),
                None => table_index(self@, id@) is None,
            },
    {
        let ghost p = |t: Table| t.file_id == id@;
        let mut i: usize = 0;
        while i < self.table_specs.len()
            invariant
                i <= self.table_specs@.len(),
                p == (|t: Table| t.file_id == id@),
                forall|j: int| 0 <= j < i ==> !p(#[trigger] self@[j]),
            decreases self.table_specs@.len() - i,
        {
            if self.table_specs[i].file_id == *id {
                proof {
                    seqs::lemma_first_where_is(self@, p, i as int);
                }
                return Some(i);
            }
            i += 1;
        }
        proof {
            seqs::lemma_first_where_none(self@, p);
        }
        None
    }
}

impl TableSpec {
    /// Finds the first column of this name.
    pub fn find_spec(&self, name: &String) -> (res: Option<usize>)
        ensures
            match res {
                Some(i) => spec_index(self.deep_view().columns, name@) == Some(i as int) && i
                    < self.column_specs@.len(),
                None => spec_index(self.deep_view().columns, name@) is None,
            },
    {
        let ghost columns = self.deep_view().columns;
        let ghost p = |c: TableColumn| c.name == name@;
        let mut i: usize = 0;
        while i < self.column_specs.len()
            invariant
                i <= self.column_specs@.len(),
                columns == self.column_specs.deep_view(),
                p == (|c: TableColumn| c.name == name@),
                forall|j: int| 0 <= j < i ==> !p(#[trigger] columns[j]),
            decreases self.column_specs@.len() - i,
        {
            if self.column_specs[i].column_name == *name {
                proof {
                    seqs::lemma_first_where_is(columns, p, i as int);
                }
                return Some(i);
            }
            i += 1;
        }
        proof {
            seqs::lemma_first_where_none(columns, p);
        }
        None
    }
}

} // verus!
