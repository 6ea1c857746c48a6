//! What can go wrong while a query is planned or executed.

use vstd::prelude::*;
use vstd::string::*;

verus! {

/// The errors of the engine. Those that concern a name carry it.
#[derive(Debug)]
pub enum DbError {
    /// The database holds no table of this id.
    TableNotFound(String),
    /// A scan names a table that the database lacks.
    ScanTable(String),
    /// A projection takes a column that its input lacks.
    ProjectColumn(String),
    /// A projection under a filter takes a column that the table lacks.
    FilteredProjectColumn(String),
    /// A predicate tests a column that its input lacks.
    FilterColumn(String),
    /// A predicate compares with a column that its input lacks.
    FilterRhsColumn(String),
    /// A predicate compares this column with a literal of an unsuitable type.
    FilterCoercion(String),
    /// A predicate over a pair of rows names a column that neither row has.
    PairColumn(String),
    /// A sort key names a column that the input lacks.
    SortColumn(String),
    /// The left input of a join lacks its join column.
    LeftJoinColumn(String),
    /// The right input of a join lacks its join column.
    RightJoinColumn(String),
    /// A string column runs to the end of the data without a terminator.
    MissingTerminator,
    /// The bytes of a string column are not UTF-8.
    InvalidUtf8,
    /// A column runs past the end of the data.
    Truncated,
    /// A reply of the disk is not a number.
    InvalidNumber,
}

/// The mathematical value of a [`DbError`].
pub enum Fault {
    TableNotFound(Seq<char>),
    ScanTable(Seq<char>),
    ProjectColumn(Seq<char>),
    FilteredProjectColumn(Seq<char>),
    FilterColumn(Seq<char>),
    FilterRhsColumn(Seq<char>),
    FilterCoercion(Seq<char>),
    PairColumn(Seq<char>),
    SortColumn(Seq<char>),
    LeftJoinColumn(Seq<char>),
    RightJoinColumn(Seq<char>),
    MissingTerminator,
    InvalidUtf8,
    Truncated,
    InvalidNumber,
}

impl View for DbError {
    type V = Fault;

    open spec fn view(&self) -> Fault {
        match *self {
            DbError::TableNotFound(s) => Fault::TableNotFound(s@),
            DbError::ScanTable(s) => Fault::ScanTable(s@),
            DbError::ProjectColumn(s) => Fault::ProjectColumn(s@),
            DbError::FilteredProjectColumn(s) => Fault::FilteredProjectColumn(s@),
            DbError::FilterColumn(s) => Fault::FilterColumn(s@),
            DbError::FilterRhsColumn(s) => Fault::FilterRhsColumn(s@),
            DbError::FilterCoercion(s) => Fault::FilterCoercion(s@),
            DbError::PairColumn(s) => Fault::PairColumn(s@),
            DbError::SortColumn(s) => Fault::SortColumn(s@),
            DbError::LeftJoinColumn(s) => Fault::LeftJoinColumn(s@),
            DbError::RightJoinColumn(s) => Fault::RightJoinColumn(s@),
            DbError::MissingTerminator => Fault::MissingTerminator,
            DbError::InvalidUtf8 => Fault::InvalidUtf8,
            DbError::Truncated => Fault::Truncated,
            DbError::InvalidNumber => Fault::InvalidNumber,
        }
    }
}

/// The text of an error, as it is shown to the user.
pub open spec fn fault_text(f: Fault) -> Seq<char> {
    match f {
        Fault::TableNotFound(s) => "Table '"@ + s + "' not found in db config"@,
        Fault::ScanTable(s) => "Table '"@ + s + "' not found"@,
        Fault::ProjectColumn(s) => "Project: column '"@ + s + "' not found"@,
        Fault::FilteredProjectColumn(s) => "Project column '"@ + s + "' not found"@,
        Fault::FilterColumn(s) => "Filter: column '"@ + s + "' not found"@,
        Fault::FilterRhsColumn(s) => "Filter: rhs column '"@ + s + "' not found"@,
        Fault::FilterCoercion(s) => "Filter: cannot coerce value for '"@ + s + "'"@,
        Fault::PairColumn(s) => "Column '"@ + s + "' not found"@,
        Fault::SortColumn(s) => "Sort: column '"@ + s + "' not found"@,
        Fault::LeftJoinColumn(s) => "Join column "@ + s + " not found in left child"@,
        Fault::RightJoinColumn(s) => "Join column "@ + s + " not found in right child"@,
        Fault::MissingTerminator => "Null terminator not found in string column"@,
        Fault::InvalidUtf8 => "invalid utf-8 sequence"@,
        Fault::Truncated => "row runs past the end of its block"@,
        Fault::InvalidNumber => "invalid number in disk reply"@,
    }
}

/// `before`, `name` and `after`, one behind the other.
fn around(before: &str, name: &String, after: &str) -> (res: String)
    ensures
        res@ == before@ + name@ + after@,
{
    let mut out = String::new();
    out.append(before);
    out.append(name.as_str());
    out.append(after);
    assert(out@ =~= before@ + name@ + after@);
    out
}

impl DbError {
    /// The text of the error.
    pub fn message(&self) -> (res: String)
        ensures
            res@ == fault_text(self@),
    {
        match self {
            DbError::TableNotFound(s) => around("Table '", s, "' not found in db config"),
            DbError::ScanTable(s) => around("Table '", s, "' not found"),
            DbError::ProjectColumn(s) => around("Project: column '", s, "' not found"),
            DbError::FilteredProjectColumn(s) => around("Project column '", s, "' not found"),
            DbError::FilterColumn(s) => around("Filter: column '", s, "' not found"),
            DbError::FilterRhsColumn(s) => around("Filter: rhs column '", s, "' not found"),
            DbError::FilterCoercion(s) => around("Filter: cannot coerce value for '", s, "'"),
            DbError::PairColumn(s) => around("Column '", s, "' not found"),
            DbError::SortColumn(s) => around("Sort: column '", s, "' not found"),
            DbError::LeftJoinColumn(s) => around("Join column ", s, " not found in left child"),
            DbError::RightJoinColumn(s) => around("Join column ", s, " not found in right child"),
            DbError::MissingTerminator => "Null terminator not found in string column".to_owned(),
            DbError::InvalidUtf8 => "invalid utf-8 sequence".to_owned(),
            DbError::Truncated => "row runs past the end of its block".to_owned(),
            DbError::InvalidNumber => "invalid number in disk reply".to_owned(),
        }
    }
}

} // verus!
