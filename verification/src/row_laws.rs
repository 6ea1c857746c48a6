//! What comparisons, literals, tests, texts and stored bytes of values mean.

use vstd::prelude::*;
use vstd::string::*;
use vstd::utf8::*;

use crate::bytes;
use crate::error::Fault;
use crate::float;
use crate::query::{ComparisionOperator, Operand, Test};
use crate::row;
use crate::schema::Column;
use crate::schema;
use crate::seqs;
use crate::text;
use crate::value::{DataType, Val};
use crate::value;

verus! {

// ---- comparisons ----

/// Two values are unequal exactly where they are not equal, and both hold of them in either
/// order; one is less than another exactly where that is greater; and `at most` and `at
/// least` are `less or equal` and `greater or equal`. No two of less, equal and greater hold
/// together.
pub proof fn comparisons_agree_with_each_other(a: Val, b: Val)
    ensures
        row::vals_compare(a, ComparisionOperator::NE, b) == !row::vals_compare(
            a,
            ComparisionOperator::EQ,
            b,
        ),
        row::vals_compare(a, ComparisionOperator::EQ, b) == row::vals_compare(
            b,
            ComparisionOperator::EQ,
            a,
        ),
        row::vals_compare(a, ComparisionOperator::NE, b) == row::vals_compare(
            b,
            ComparisionOperator::NE,
            a,
        ),
        row::vals_compare(a, ComparisionOperator::LT, b) == row::vals_compare(
            b,
            ComparisionOperator::GT,
            a,
        ),
        row::vals_compare(a, ComparisionOperator::LTE, b) == row::vals_compare(
            b,
            ComparisionOperator::GTE,
            a,
        ),
        row::vals_compare(a, ComparisionOperator::LTE, b) == (row::vals_compare(
            a,
            ComparisionOperator::LT,
            b,
        ) || row::vals_compare(a, ComparisionOperator::EQ, b)),
        row::vals_compare(a, ComparisionOperator::GTE, b) == (row::vals_compare(
            a,
            ComparisionOperator::GT,
            b,
        ) || row::vals_compare(a, ComparisionOperator::EQ, b)),
        !(row::vals_compare(a, ComparisionOperator::LT, b) && row::vals_compare(
            a,
            ComparisionOperator::GT,
            b,
        )),
        !(row::vals_compare(a, ComparisionOperator::LT, b) && row::vals_compare(
            a,
            ComparisionOperator::EQ,
            b,
        )),
        !(row::vals_compare(a, ComparisionOperator::GT, b) && row::vals_compare(
            a,
            ComparisionOperator::EQ,
            b,
        )),
{
    value::order_is_antisymmetric(a, b);
}

/// Of two values that are no NaN one is less, equal or greater. Of a NaN and a value of its
/// type nothing holds but that they are unequal.
pub proof fn values_compare_unless_one_is_nan(a: Val, b: Val)
    ensures
        !value::is_nan(a) && !value::is_nan(b) ==> row::vals_compare(a, ComparisionOperator::LT, b)
            || row::vals_compare(a, ComparisionOperator::EQ, b) || row::vals_compare(
            a,
            ComparisionOperator::GT,
            b,
        ),
        row::val_type(a) == row::val_type(b) && (value::is_nan(a) || value::is_nan(b)) ==> {
            &&& row::vals_compare(a, ComparisionOperator::NE, b)
            &&& !row::vals_compare(a, ComparisionOperator::LTE, b)
            &&& !row::vals_compare(a, ComparisionOperator::GTE, b)
        },
{
    value::nans_alone_do_not_compare(a, b);
}

/// What is less than a value that is less than a third is less than the third, and equality
/// passes on alike.
pub proof fn comparisons_pass_on(a: Val, b: Val, c: Val)
    ensures
        row::vals_compare(a, ComparisionOperator::LT, b) && row::vals_compare(
            b,
            ComparisionOperator::LT,
            c,
        ) ==> row::vals_compare(a, ComparisionOperator::LT, c),
        row::vals_compare(a, ComparisionOperator::LTE, b) && row::vals_compare(
            b,
            ComparisionOperator::LTE,
            c,
        ) ==> row::vals_compare(a, ComparisionOperator::LTE, c),
{
    if value::at_most(value::val_order(a, b)) && value::at_most(value::val_order(b, c)) {
        value::order_is_transitive(a, b, c);
    }
}

/// Integers compare as numbers.
pub proof fn integers_compare_by_their_values(x: i64, y: i64, a: i32, b: i32)
    ensures
        row::vals_compare(Val::Int64(x), ComparisionOperator::LT, Val::Int64(y)) == (x < y),
        row::vals_compare(Val::Int64(x), ComparisionOperator::EQ, Val::Int64(y)) == (x == y),
        row::vals_compare(Val::Int64(x), ComparisionOperator::GT, Val::Int64(y)) == (x > y),
        row::vals_compare(Val::Int32(a), ComparisionOperator::LT, Val::Int32(b)) == (a < b),
        row::vals_compare(Val::Int32(a), ComparisionOperator::EQ, Val::Int32(b)) == (a == b),
        row::vals_compare(Val::Int32(a), ComparisionOperator::GT, Val::Int32(b)) == (a > b),
{
}

/// Finite numbers compare by what they stand for.
pub proof fn numbers_compare_by_their_values(x: u64, y: u64)
    requires
        float::magnitude_bits(x) < value::F64_INF,
        float::magnitude_bits(y) < value::F64_INF,
    ensures
        row::vals_compare(Val::Float64(x), ComparisionOperator::LT, Val::Float64(y)) == (
        float::finite_value(x) < float::finite_value(y)),
        row::vals_compare(Val::Float64(x), ComparisionOperator::EQ, Val::Float64(y)) == (
        float::finite_value(x) == float::finite_value(y)),
        row::vals_compare(Val::Float64(x), ComparisionOperator::GT, Val::Float64(y)) == (
        float::finite_value(x) > float::finite_value(y)),
{
    float::binary64_numbers_compare_by_their_values(x, y);
}

/// Texts are equal where they are the same, and less where they are lower at the first byte
/// in which they differ.
pub proof fn texts_compare_by_their_bytes(s: Seq<char>, t: Seq<char>)
    ensures
        row::vals_compare(Val::Text(s), ComparisionOperator::EQ, Val::Text(t)) == (s == t),
        row::vals_compare(Val::Text(s), ComparisionOperator::LT, Val::Text(t)) == (exists|n: int|
            value::parts_below(encode_utf8(s), encode_utf8(t), n)),
        row::vals_compare(Val::Text(s), ComparisionOperator::GT, Val::Text(t)) == (exists|n: int|
            value::parts_below(encode_utf8(t), encode_utf8(s), n)),
{
    value::texts_compare_by_their_first_difference(s, t);
}

// ---- literals ----

/// A literal becomes a value of the type that is asked for, or nothing. A literal of that
/// type already becomes itself.
pub proof fn a_literal_becomes_a_value_of_the_type(v: Operand, t: DataType)
    ensures
        row::coerced(v, t) matches Some(w) ==> row::val_type(w) == t,
        !(v is Column) && row::val_type(row::literal_val(v)) == t ==> row::coerced(v, t) == Some(
            row::literal_val(v),
        ),
        v is Column ==> row::coerced(v, t) is None,
{
}

/// An integer literal becomes a value of every column of integers and of binary64 numbers:
/// the same integer where the column can hold it, otherwise the one that agrees with it in
/// the low 32 bits, and the number that it is where that is within the exact range.
pub proof fn an_integer_literal_becomes_its_number(x: i32, y: i64)
    ensures
        row::coerced(Operand::I32(x), DataType::Int32) == Some(Val::Int32(x)),
        row::coerced(Operand::I32(x), DataType::Int64) matches Some(Val::Int64(w)) && w == x,
        row::coerced(Operand::I64(y), DataType::Int64) == Some(Val::Int64(y)),
        row::coerced(Operand::I64(y), DataType::Int32) matches Some(Val::Int32(w)) && (w - y)
            % 0x1_0000_0000 == 0 && (i32::MIN <= y <= i32::MAX ==> w == y),
        row::coerced(Operand::I32(x), DataType::Float64) matches Some(Val::Float64(w))
            && float::magnitude_bits(w) < value::F64_INF && float::finite_value(w) == x
            * float::units(),
        row::coerced(Operand::I64(y), DataType::Float64) matches Some(Val::Float64(w))
            && float::magnitude_bits(w) < value::F64_INF && (-0x20_0000_0000_0000 <= y
            <= 0x20_0000_0000_0000 ==> float::finite_value(w) == y * float::units()),
{
    float::an_integer_becomes_the_number_that_it_is(x as int);
    float::an_integer_becomes_the_nearest_number(y as int, 0);
    if -0x20_0000_0000_0000 <= y <= 0x20_0000_0000_0000 {
        float::an_integer_becomes_the_number_that_it_is(y as int);
    }
}

/// Of an integer literal beyond the exact range, no number is nearer to it than the one
/// that it becomes.
pub proof fn a_great_integer_literal_becomes_the_nearest_number(y: i64, c: u64)
    requires
        float::magnitude_bits(c) < value::F64_INF,
    ensures
        row::coerced(Operand::I64(y), DataType::Float64) matches Some(Val::Float64(w)) && float::off(
            y * float::units(),
            1,
            w,
        ) <= float::off(y * float::units(), 1, c),
{
    float::an_integer_becomes_the_nearest_number(y as int, c);
}

/// A binary32 literal becomes the same number of a binary64 column, so that it compares with
/// other such literals as before.
pub proof fn a_binary32_literal_keeps_its_number(x: u32, y: u32, op: ComparisionOperator)
    ensures
        row::coerced(Operand::F32(x), DataType::Float64) matches Some(v) && row::coerced(
            Operand::F32(y),
            DataType::Float64,
        ) matches Some(w) && row::vals_compare(v, op, w) == row::vals_compare(
            Val::Float32(x),
            op,
            Val::Float32(y),
        ),
        row::coerced(Operand::F32(x), DataType::Float64) matches Some(Val::Float64(w)) && (x
            < value::F32_INF ==> w < value::F64_INF && float::finite_value(w) == float::mag32(
            x as nat,
        ) * vstd::arithmetic::power2::pow2(925)),
{
    float::binary32_numbers_compare_by_their_values(x, y);
    float::a_binary32_number_is_widened_to_itself(x);
}

/// What cannot be compared with a column without a loss of meaning does not become a value
/// of it: texts and numbers do not mix, fractions do not become integers, and nothing but a
/// binary32 number becomes one.
pub proof fn a_literal_of_another_kind_becomes_nothing(v: Operand)
    ensures
        v is Text ==> (forall|t: DataType| t != DataType::String ==> row::coerced(v, t) is None),
        !(v is Text) ==> row::coerced(v, DataType::String) is None,
        v is F32 || v is F64 ==> row::coerced(v, DataType::Int32) is None && row::coerced(
            v,
            DataType::Int64,
        ) is None,
        !(v is F32) ==> row::coerced(v, DataType::Float32) is None,
        v is F32 || v is F64 || v is I32 || v is I64 ==> row::coerced(v, DataType::Float64) is Some,
        v is I32 || v is I64 ==> row::coerced(v, DataType::Int32) is Some && row::coerced(
            v,
            DataType::Int64,
        ) is Some,
{
}

/// A literal as a value of its own type is what it says.
pub proof fn a_literal_is_the_value_that_it_says(v: Operand)
    ensures
        match v {
            Operand::I32(x) => row::literal_val(v) == Val::Int32(x),
            Operand::I64(x) => row::literal_val(v) == Val::Int64(x),
            Operand::F32(x) => row::literal_val(v) == Val::Float32(x),
            Operand::F64(x) => row::literal_val(v) == Val::Float64(x),
            Operand::Text(s) => row::literal_val(v) == Val::Text(s),
            Operand::Column(_) => true,
        },
{
}

// ---- tests ----

/// Whether `i` is the first position of a column of this name.
pub open spec fn is_first(columns: Seq<Column>, name: Seq<char>, i: int) -> bool {
    &&& 0 <= i < columns.len()
    &&& columns[i].name == name
    &&& forall|j: int| 0 <= j < i ==> (#[trigger] columns[j]).name != name
}

/// A column is found by its name where there is one, and the first one of the name is found.
pub proof fn the_first_column_of_a_name_is_found(columns: Seq<Column>, name: Seq<char>, i: int)
    ensures
        schema::column_index(columns, name) == Some(i) <==> is_first(columns, name, i),
        schema::column_index(columns, name) is None <==> (forall|j: int| 0 <= j < columns.len()
            ==> (#[trigger] columns[j]).name != name),
{
    let p = |c: Column| c.name == name;
    seqs::lemma_first_where(columns, p);
    match schema::column_index(columns, name) {
        Some(k) => {
            assert(columns[k].name == name);
            assert forall|j: int| 0 <= j < k implies (#[trigger] columns[j]).name != name by {
                assert(!p(columns[j]));
            }
        },
        None => {
            assert forall|j: int| 0 <= j < columns.len() implies (#[trigger] columns[j]).name
                != name by {
                assert(!p(columns[j]));
            }
        },
    }
}

/// A test compares the value of its column with that of another column, or with its literal
/// as a value of the column.
pub proof fn a_test_compares_what_it_names(
    r: Seq<Val>,
    columns: Seq<Column>,
    test: Test,
    i: int,
    j: int,
)
    requires
        is_first(columns, test.column, i),
    ensures
        !(test.value is Column) ==> match row::coerced(test.value, columns[i].data_type) {
            Some(v) => row::test_outcome(r, columns, test) == Ok::<bool, Fault>(
                row::vals_compare(r[i], test.operator, v),
            ),
            None => row::test_outcome(r, columns, test) == Err::<bool, Fault>(
                Fault::FilterCoercion(test.column),
            ),
        },
        !(test.value is Column) ==> row::pair_test_outcome(r, columns, test) == Ok::<bool, Fault>(
            row::vals_compare(r[i], test.operator, row::literal_val(test.value)),
        ),
        test.value matches Operand::Column(other) && is_first(columns, other, j) ==> {
            &&& row::test_outcome(r, columns, test) == Ok::<bool, Fault>(
                row::vals_compare(r[i], test.operator, r[j]),
            )
            &&& row::pair_test_outcome(r, columns, test) == row::test_outcome(r, columns, test)
        },
{
    the_first_column_of_a_name_is_found(columns, test.column, i);
    match test.value {
        Operand::Column(other) => {
            the_first_column_of_a_name_is_found(columns, other, j);
        },
        _ => {},
    }
}

/// A test of a column that there is not cannot be made.
pub proof fn a_test_needs_its_columns(r: Seq<Val>, columns: Seq<Column>, test: Test)
    ensures
        (forall|j: int| 0 <= j < columns.len() ==> (#[trigger] columns[j]).name != test.column) ==> {
            &&& row::test_outcome(r, columns, test) == Err::<bool, Fault>(
                Fault::FilterColumn(test.column),
            )
            &&& row::pair_test_outcome(r, columns, test) == Err::<bool, Fault>(
                Fault::PairColumn(test.column),
            )
        },
        test.value matches Operand::Column(other) ==> (exists|j: int|
            0 <= j < columns.len() && (#[trigger] columns[j]).name == test.column) ==> (forall|j: int|
            0 <= j < columns.len() ==> (#[trigger] columns[j]).name != other) ==> {
            &&& row::test_outcome(r, columns, test) == Err::<bool, Fault>(
                Fault::FilterRhsColumn(other),
            )
            &&& row::pair_test_outcome(r, columns, test) == Err::<bool, Fault>(
                Fault::PairColumn(other),
            )
        },
{
    the_first_column_of_a_name_is_found(columns, test.column, 0);
    match test.value {
        Operand::Column(other) => {
            the_first_column_of_a_name_is_found(columns, other, 0);
        },
        _ => {},
    }
}

/// A row passes tests where it passes each. Where it does not, the first test that it does
/// not pass says why.
pub proof fn tests_are_passed_where_each_is(r: Seq<Val>, columns: Seq<Column>, tests: Seq<Test>)
    ensures
        row::tests_outcome(r, columns, tests) == Ok::<bool, Fault>(true) <==> (forall|i: int|
            0 <= i < tests.len() ==> row::test_outcome(r, columns, #[trigger] tests[i]) == Ok::<
                bool,
                Fault,
            >(true)),
        row::tests_outcome(r, columns, tests) != Ok::<bool, Fault>(true) ==> exists|i: int|
            {
                &&& 0 <= i < tests.len()
                &&& row::test_outcome(r, columns, #[trigger] tests[i]) == row::tests_outcome(
                    r,
                    columns,
                    tests,
                )
                &&& forall|j: int|
                    0 <= j < i ==> row::test_outcome(r, columns, #[trigger] tests[j]) == Ok::<
                        bool,
                        Fault,
                    >(true)
            },
    decreases tests.len(),
{
    if tests.len() > 0 {
        let before = tests.drop_last();
        tests_are_passed_where_each_is(r, columns, before);
        assert forall|i: int| 0 <= i < before.len() implies #[trigger] before[i] == tests[i] by {}
        let n = tests.len() - 1;
        if row::tests_outcome(r, columns, before) == Ok::<bool, Fault>(true) {
            assert forall|i: int| 0 <= i < n implies row::test_outcome(r, columns, #[trigger] tests[i])
                == Ok::<bool, Fault>(true) by {
                assert(before[i] == tests[i]);
            }
            assert(tests[n] == tests.last());
        } else {
            let i = choose|i: int|
                {
                    &&& 0 <= i < before.len()
                    &&& row::test_outcome(r, columns, #[trigger] before[i]) == row::tests_outcome(
                        r,
                        columns,
                        before,
                    )
                    &&& forall|j: int|
                        0 <= j < i ==> row::test_outcome(r, columns, #[trigger] before[j]) == Ok::<
                            bool,
                            Fault,
                        >(true)
                };
            assert(before[i] == tests[i]);
            assert forall|j: int| 0 <= j < i implies row::test_outcome(r, columns, #[trigger] tests[j])
                == Ok::<bool, Fault>(true) by {
                assert(before[j] == tests[j]);
            }
        }
    }
}

/// A pair of rows passes tests where it passes each, and otherwise the first test that it
/// does not pass says why.
pub proof fn tests_of_pairs_are_passed_where_each_is(
    r: Seq<Val>,
    columns: Seq<Column>,
    tests: Seq<Test>,
)
    ensures
        row::pair_tests_outcome(r, columns, tests) == Ok::<bool, Fault>(true) <==> (forall|i: int|
            0 <= i < tests.len() ==> row::pair_test_outcome(r, columns, #[trigger] tests[i]) == Ok::<
                bool,
                Fault,
            >(true)),
        row::pair_tests_outcome(r, columns, tests) != Ok::<bool, Fault>(true) ==> exists|i: int|
            {
                &&& 0 <= i < tests.len()
                &&& row::pair_test_outcome(r, columns, #[trigger] tests[i])
                    == row::pair_tests_outcome(r, columns, tests)
                &&& forall|j: int|
                    0 <= j < i ==> row::pair_test_outcome(r, columns, #[trigger] tests[j]) == Ok::<
                        bool,
                        Fault,
                    >(true)
            },
    decreases tests.len(),
{
    if tests.len() > 0 {
        let before = tests.drop_last();
        tests_of_pairs_are_passed_where_each_is(r, columns, before);
        assert forall|i: int| 0 <= i < before.len() implies #[trigger] before[i] == tests[i] by {}
        let n = tests.len() - 1;
        if row::pair_tests_outcome(r, columns, before) == Ok::<bool, Fault>(true) {
            assert forall|i: int| 0 <= i < n implies row::pair_test_outcome(
                r,
                columns,
                #[trigger] tests[i],
            ) == Ok::<bool, Fault>(true) by {
                assert(before[i] == tests[i]);
            }
            assert(tests[n] == tests.last());
        } else {
            let i = choose|i: int|
                {
                    &&& 0 <= i < before.len()
                    &&& row::pair_test_outcome(r, columns, #[trigger] before[i])
                        == row::pair_tests_outcome(r, columns, before)
                    &&& forall|j: int|
                        0 <= j < i ==> row::pair_test_outcome(r, columns, #[trigger] before[j])
                            == Ok::<bool, Fault>(true)
                };
            assert(before[i] == tests[i]);
            assert forall|j: int| 0 <= j < i implies row::pair_test_outcome(
                r,
                columns,
                #[trigger] tests[j],
            ) == Ok::<bool, Fault>(true) by {
                assert(before[j] == tests[j]);
            }
        }
    }
}

// ---- texts ----

/// The text of an integer is read back as the integer: the digits of what is without the
/// sign, behind a minus sign where it is negative and nowhere else. A text is shown as it is.
pub proof fn the_text_of_a_value_is_read_back(v: Val, number: Seq<char>)
    ensures
        v matches Val::Int32(x) ==> {
            let t = row::val_text(v, number);
            &&& t.len() > 0
            &&& t[0] == '-' <==> x < 0
            &&& x < 0 ==> text::digits_value(t.drop_first()) == Some((-x) as nat)
            &&& x >= 0 ==> text::digits_value(t) == Some(x as nat)
        },
        v matches Val::Int64(x) ==> {
            let t = row::val_text(v, number);
            &&& t.len() > 0
            &&& t[0] == '-' <==> x < 0
            &&& x < 0 ==> text::digits_value(t.drop_first()) == Some((-x) as nat)
            &&& x >= 0 ==> text::digits_value(t) == Some(x as nat)
        },
        v matches Val::Text(s) ==> row::val_text(v, number) == s,
{
    match v {
        Val::Int32(x) => text::a_signed_decimal_is_read_back(x as int),
        Val::Int64(x) => text::a_signed_decimal_is_read_back(x as int),
        _ => {},
    }
}

/// Different integers have different texts, of either width.
pub proof fn integers_are_told_apart_by_their_texts(
    x: i64,
    y: i64,
    a: i32,
    m: Seq<char>,
    n: Seq<char>,
)
    ensures
        row::val_text(Val::Int64(x), m) == row::val_text(Val::Int64(y), n) <==> x == y,
        row::val_text(Val::Int32(a), m) == row::val_text(Val::Int64(y), n) <==> a == y,
{
    text::different_integers_have_different_texts(x as int, y as int);
    text::different_integers_have_different_texts(a as int, y as int);
}

/// The text of a floating-point number starts with the number's decimal text. It stays as it
/// is where a point, an exponent or one of the words `inf` and `nan` stands in it, and
/// otherwise a fraction of zero follows.
pub proof fn the_text_of_a_number_shows_a_fraction(v: Val, number: Seq<char>)
    requires
        v is Float32 || v is Float64,
    ensures
        row::val_text(v, number) == number || row::val_text(v, number) == number + seq!['.', '0'],
        row::val_text(v, number) == number <==> ((exists|i: int|
            0 <= i < number.len() && (#[trigger] number[i] == '.' || number[i] == 'e' || number[i]
                == 'E')) || (exists|i: int|
            0 <= i && i + 3 <= number.len() && (#[trigger] number.subrange(i, i + 3) == seq![
                'i',
                'n',
                'f',
            ] || number.subrange(i, i + 3) == seq!['n', 'a', 'n']))),
{
    reveal_strlit("inf");
    reveal_strlit("nan");
    reveal_strlit(".0");
    assert(".0"@ =~= seq!['.', '0']);
    assert("inf"@ =~= seq!['i', 'n', 'f']);
    assert("nan"@ =~= seq!['n', 'a', 'n']);
    let shown = row::shows_float(number);
    if shown {
        if number.contains('.') {
            let i = choose|i: int| 0 <= i < number.len() && number[i] == '.';
            assert(number[i] == '.');
        }
        if number.contains('e') {
            let i = choose|i: int| 0 <= i < number.len() && number[i] == 'e';
            assert(number[i] == 'e');
        }
        if number.contains('E') {
            let i = choose|i: int| 0 <= i < number.len() && number[i] == 'E';
            assert(number[i] == 'E');
        }
        if row::holds(number, "inf"@) {
            let i = choose|i: int| row::stands_at(number, "inf"@, i);
            assert(number.subrange(i, i + 3) == seq!['i', 'n', 'f']);
        }
        if row::holds(number, "nan"@) {
            let i = choose|i: int| row::stands_at(number, "nan"@, i);
            assert(number.subrange(i, i + 3) == seq!['n', 'a', 'n']);
        }
    } else {
        assert forall|i: int| 0 <= i < number.len() implies !(#[trigger] number[i] == '.'
            || number[i] == 'e' || number[i] == 'E') by {
            assert(number.contains(number[i]));
        }
        assert forall|i: int| 0 <= i && i + 3 <= number.len() implies !(
        #[trigger] number.subrange(i, i + 3) == seq!['i', 'n', 'f'] || number.subrange(i, i + 3)
            == seq!['n', 'a', 'n']) by {
            assert(!row::stands_at(number, "inf"@, i));
            assert(!row::stands_at(number, "nan"@, i));
        }
        assert((number + seq!['.', '0']).len() == number.len() + 2);
    }
}

/// The line of a row is made of its texts in order, each with one bar behind it, and one
/// newline at the end: the line of more texts is the line of the first, without its newline,
/// and the line of the others.
pub proof fn a_line_has_a_bar_behind_each_text(first: Seq<char>, texts: Seq<Seq<char>>)
    ensures
        row::row_line(Seq::empty()) == seq!['\n'],
        row::row_line(seq![first] + texts) == first + seq!['|'] + row::row_line(texts),
{
    reveal_strlit("|");
    reveal_strlit("\n");
    assert("|"@ =~= seq!['|']);
    assert("\n"@ =~= seq!['\n']);
    assert(row::row_line(Seq::empty()) =~= seq!['\n']);
    lemma_barred(first, texts);
    assert(row::row_line(seq![first] + texts) =~= first + seq!['|'] + row::row_line(texts));
}

proof fn lemma_barred(first: Seq<char>, texts: Seq<Seq<char>>)
    ensures
        row::barred(seq![first] + texts) == first + "|"@ + row::barred(texts),
    decreases texts.len(),
{
    let all = seq![first] + texts;
    if texts.len() == 0 {
        assert(all.drop_last() =~= Seq::empty());
        assert(all.last() == first);
        assert(row::barred(Seq::empty()) == Seq::<char>::empty());
        assert(texts =~= Seq::empty());
        assert(row::barred(all) =~= first + "|"@ + row::barred(texts));
    } else {
        lemma_barred(first, texts.drop_last());
        assert(all.drop_last() =~= seq![first] + texts.drop_last());
        assert(all.last() == texts.last());
        assert(row::barred(all) =~= first + "|"@ + row::barred(texts));
    }
}

proof fn lemma_up_to_bar(s: Seq<char>, t: Seq<char>, u: Seq<char>, v: Seq<char>)
    requires
        !s.contains('|'),
        !t.contains('|'),
        s + seq!['|'] + u == t + seq!['|'] + v,
    ensures
        s == t,
        u == v,
{
    let (x, y) = (s + seq!['|'] + u, t + seq!['|'] + v);
    assert(x[s.len() as int] == '|');
    assert(y[t.len() as int] == '|');
    if s.len() < t.len() {
        assert(y[s.len() as int] == t[s.len() as int]);
    }
    if t.len() < s.len() {
        assert(x[t.len() as int] == s[t.len() as int]);
    }
    assert forall|i: int| 0 <= i < s.len() implies s[i] == t[i] by {
        assert(x[i] == s[i] && y[i] == t[i]);
    }
    assert(s =~= t);
    assert(x.len() == s.len() + 1 + u.len());
    assert(y.len() == t.len() + 1 + v.len());
    assert forall|i: int| 0 <= i < u.len() implies u[i] == v[i] by {
        assert(x[s.len() + 1 + i] == u[i] && y[s.len() + 1 + i] == v[i]);
    }
    assert(u =~= v);
}

/// Rows whose texts hold no bars and no newlines are told apart by their lines.
pub proof fn rows_are_told_apart_by_their_lines(a: Seq<Seq<char>>, b: Seq<Seq<char>>)
    requires
        forall|i: int| 0 <= i < a.len() ==> !(#[trigger] a[i]).contains('|') && !a[i].contains('\n'),
        forall|i: int| 0 <= i < b.len() ==> !(#[trigger] b[i]).contains('|') && !b[i].contains('\n'),
        row::row_line(a) == row::row_line(b),
    ensures
        a == b,
    decreases a.len(),
{
    if a.len() > 0 && b.len() > 0 {
        let (s, t) = (a[0], b[0]);
        let (u, v) = (a.drop_first(), b.drop_first());
        assert(a =~= seq![s] + u);
        assert(b =~= seq![t] + v);
        a_line_has_a_bar_behind_each_text(s, u);
        a_line_has_a_bar_behind_each_text(t, v);
        lemma_up_to_bar(s, t, row::row_line(u), row::row_line(v));
        assert forall|i: int| 0 <= i < u.len() implies !(#[trigger] u[i]).contains('|')
            && !u[i].contains('\n') by {
            assert(u[i] == a[i + 1]);
        }
        assert forall|i: int| 0 <= i < v.len() implies !(#[trigger] v[i]).contains('|')
            && !v[i].contains('\n') by {
            assert(v[i] == b[i + 1]);
        }
        rows_are_told_apart_by_their_lines(u, v);
    } else {
        a_line_has_a_bar_behind_each_text(Seq::empty(), Seq::empty());
        if a.len() > 0 {
            lemma_no_bare_newline(a);
        }
        if b.len() > 0 {
            lemma_no_bare_newline(b);
        }
        assert(a =~= b);
    }
}

proof fn lemma_no_bare_newline(a: Seq<Seq<char>>)
    requires
        a.len() > 0,
    ensures
        row::row_line(a) != seq!['\n'],
{
    let u = a.drop_first();
    assert(a =~= seq![a[0]] + u);
    a_line_has_a_bar_behind_each_text(a[0], u);
    let line = row::row_line(a);
    if line == seq!['\n'] {
        assert(line.len() == 1);
        assert(line[a[0].len() as int] == '|');
    }
}

// ---- stored bytes ----

/// The bytes of a row are those of its values in order.
pub proof fn a_row_is_stored_value_by_value(first: Val, others: Seq<Val>)
    ensures
        row::encode_vals(Seq::empty()) == Seq::<u8>::empty(),
        row::encode_vals(seq![first] + others) == row::encode_val(first) + row::encode_vals(others),
    decreases others.len(),
{
    let all = seq![first] + others;
    if others.len() == 0 {
        assert(all.drop_last() =~= Seq::empty());
        assert(all.last() == first);
        assert(row::encode_vals(Seq::empty()) == Seq::<u8>::empty());
        assert(others =~= Seq::empty());
        assert(row::encode_vals(all) =~= row::encode_val(first) + row::encode_vals(others));
    } else {
        a_row_is_stored_value_by_value(first, others.drop_last());
        assert(all.drop_last() =~= seq![first] + others.drop_last());
        assert(all.last() == others.last());
        assert(row::encode_vals(all) =~= row::encode_val(first) + row::encode_vals(others));
    }
}

/// The number of four bytes, the lowest first.
pub open spec fn four(b: Seq<u8>) -> int {
    b[0] + 0x100 * b[1] + 0x1_0000 * b[2] + 0x100_0000 * b[3]
}

proof fn lemma_four(x: nat)
    requires
        x < 0x1_0000_0000,
    ensures
        bytes::le_bytes(x, 4).len() == 4,
        four(bytes::le_bytes(x, 4)) == x,
{
    reveal_with_fuel(bytes::le_bytes, 5);
    let b = bytes::le_bytes(x, 4);
    assert(b[0] == x % 256);
    assert(b[1] == x / 256 % 256);
    assert(b[2] == x / 256 / 256 % 256);
    assert(b[3] == x / 256 / 256 / 256 % 256);
}

proof fn lemma_eight(x: nat)
    requires
        x < 0x1_0000_0000_0000_0000,
    ensures
        bytes::le_bytes(x, 8).len() == 8,
        four(bytes::le_bytes(x, 8)) + 0x1_0000_0000 * four(bytes::le_bytes(x, 8).skip(4)) == x,
{
    reveal_with_fuel(bytes::le_bytes, 9);
    let b = bytes::le_bytes(x, 8);
    let h = x / 0x1_0000_0000;
    assert(b[0] == x % 256);
    assert(b[1] == x / 256 % 256);
    assert(b[2] == x / 256 / 256 % 256);
    assert(b[3] == x / 256 / 256 / 256 % 256);
    assert(x / 256 / 256 / 256 / 256 == h);
    assert(b[4] == h % 256);
    assert(b[5] == h / 256 % 256);
    assert(b[6] == h / 256 / 256 % 256);
    assert(b[7] == h / 256 / 256 / 256 % 256);
    let c = b.skip(4);
    assert(c[0] == b[4] && c[1] == b[5] && c[2] == b[6] && c[3] == b[7]);
}

/// Integers are stored in two's complement and numbers by their patterns, the lowest byte
/// first, in four bytes or eight. A text is stored in UTF-8 with a zero byte behind it.
pub proof fn values_are_stored_with_the_lowest_byte_first(v: Val)
    ensures
        ({
            let b = row::encode_val(v);
            match v {
                Val::Int32(x) => b.len() == 4 && four(b) == if x < 0 { x + 0x1_0000_0000 } else { x as int },
                Val::Float32(x) => b.len() == 4 && four(b) == x,
                Val::Int64(x) => b.len() == 8 && four(b) + 0x1_0000_0000 * four(b.skip(4)) == if x < 0 {
                    x + 0x1_0000_0000_0000_0000
                } else {
                    x as int
                },
                Val::Float64(x) => b.len() == 8 && four(b) + 0x1_0000_0000 * four(b.skip(4)) == x,
                Val::Text(s) => b == encode_utf8(s) + seq![0u8],
            }
        }),
{
    match v {
        Val::Int32(x) => lemma_four(bytes::i32_bits(x)),
        Val::Float32(x) => lemma_four(x as nat),
        Val::Int64(x) => lemma_eight(bytes::i64_bits(x)),
        Val::Float64(x) => lemma_eight(x as nat),
        Val::Text(s) => {
            assert(row::encode_val(v) =~= encode_utf8(s) + seq![0u8]);
        },
    }
}

/// Two values are equal where a test for equality of them passes.
pub proof fn equal_values_pass_the_test_for_equality(a: Val, b: Val)
    ensures
        value::val_eq(a, b) == row::vals_compare(a, ComparisionOperator::EQ, b),
        value::val_eq(a, b) ==> row::val_type(a) == row::val_type(b),
{
}

} // verus!
