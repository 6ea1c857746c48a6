//! What the texts of errors say.

use vstd::prelude::*;
use vstd::string::*;

use crate::error::Fault;
use crate::error;

verus! {

/// An error that is about a table or a column names it, between what it says of it.
pub proof fn an_error_names_what_it_is_about(s: Seq<char>)
    ensures
        error::fault_text(Fault::TableNotFound(s)) == "Table '"@ + s + "' not found in db config"@,
        error::fault_text(Fault::ScanTable(s)) == "Table '"@ + s + "' not found"@,
        error::fault_text(Fault::ProjectColumn(s)) == "Project: column '"@ + s + "' not found"@,
        error::fault_text(Fault::FilteredProjectColumn(s)) == "Project column '"@ + s
            + "' not found"@,
        error::fault_text(Fault::FilterColumn(s)) == "Filter: column '"@ + s + "' not found"@,
        error::fault_text(Fault::FilterRhsColumn(s)) == "Filter: rhs column '"@ + s
            + "' not found"@,
        error::fault_text(Fault::FilterCoercion(s)) == "Filter: cannot coerce value for '"@ + s
            + "'"@,
        error::fault_text(Fault::PairColumn(s)) == "Column '"@ + s + "' not found"@,
        error::fault_text(Fault::SortColumn(s)) == "Sort: column '"@ + s + "' not found"@,
        error::fault_text(Fault::LeftJoinColumn(s)) == "Join column "@ + s
            + " not found in left child"@,
        error::fault_text(Fault::RightJoinColumn(s)) == "Join column "@ + s
            + " not found in right child"@,
{
}

/// Errors about different names have different texts.
pub proof fn errors_about_different_names_differ(s: Seq<char>, t: Seq<char>)
    requires
        s != t,
    ensures
        error::fault_text(Fault::TableNotFound(s)) != error::fault_text(Fault::TableNotFound(t)),
        error::fault_text(Fault::FilterColumn(s)) != error::fault_text(Fault::FilterColumn(t)),
        error::fault_text(Fault::ProjectColumn(s)) != error::fault_text(Fault::ProjectColumn(t)),
        error::fault_text(Fault::SortColumn(s)) != error::fault_text(Fault::SortColumn(t)),
{
    lemma_between("Table '"@, s, t, "' not found in db config"@);
    lemma_between("Filter: column '"@, s, t, "' not found"@);
    lemma_between("Project: column '"@, s, t, "' not found"@);
    lemma_between("Sort: column '"@, s, t, "' not found"@);
}

proof fn lemma_between(before: Seq<char>, s: Seq<char>, t: Seq<char>, after: Seq<char>)
    requires
        s != t,
    ensures
        before + s + after != before + t + after,
{
    let (x, y) = (before + s + after, before + t + after);
    if x == y {
        assert(x.len() == before.len() + s.len() + after.len());
        assert(y.len() == before.len() + t.len() + after.len());
        assert forall|i: int| 0 <= i < s.len() implies s[i] == t[i] by {
            assert(x[before.len() + i] == s[i] && y[before.len() + i] == t[i]);
        }
        assert(s =~= t);
    }
}

} // verus!
