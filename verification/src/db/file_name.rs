//! Names of the files of a database.

use vstd::prelude::*;

verus! {

/// The decimal digits of `n`, most significant first; none for 0.
pub open spec fn decimal_digits(n: nat) -> Seq<char>
    decreases n,
{
    if n == 0 {
        Seq::empty()
    } else {
        decimal_digits(n / 10).push(((n % 10) + 48) as char)
    }
}

/// `n` in decimal, with zeros in front up to six digits.
pub open spec fn number_06(n: nat) -> Seq<char> {
    let digits = decimal_digits(n);
    if digits.len() >= 6 {
        digits
    } else {
        Seq::new((6 - digits.len()) as nat, |i: int| '0') + digits
    }
}

/// The name of the file of number `number` and kind `suffix` in the
/// directory `db_name`.
pub open spec fn file_name_spec(db_name: Seq<char>, number: u64, suffix: Seq<char>) -> Seq<char> {
    db_name + seq!['/'] + number_06(number as nat) + seq!['.'] + suffix
}

/// Calls `format!` to put a directory, a number of at least six decimal
/// digits and a suffix together.
#[verifier::external_body]
fn make_file_name(db_name: &String, number: u64, suffix: &str) -> (name: String)
    ensures
        name@ == file_name_spec(db_name@, number, suffix@),
{
    format!("{db_name}/{number:06}.{suffix}")
}

/// The name of the table file of number `number`.
pub fn table_file_name(db_name: &String, number: u64) -> (name: String)
    ensures
        name@ == file_name_spec(db_name@, number, "ldb"@),
{
    make_file_name(db_name, number, "ldb")
}

/// The name that table files had in earlier versions.
pub fn sst_table_file_name(db_name: &String, number: u64) -> (name: String)
    ensures
        name@ == file_name_spec(db_name@, number, "sst"@),
{
    make_file_name(db_name, number, "sst")
}

} // verus!
