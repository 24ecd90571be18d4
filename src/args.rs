use vstd::prelude::*;
use vstd::string::StringExecFns;

verus! {

/// Start of the error for an option given without its value.
pub const MISSING_VALUE: &'static str = "missing value for ";

/// The error for option `flag` given without its value.
pub open spec fn missing_value_message(flag: Seq<char>) -> Seq<char> {
    MISSING_VALUE@ + flag
}

/// The value at position `i` of `argv`, or an error naming `flag` when
/// `argv` ends before it.
pub fn required_arg(argv: &[String], i: usize, flag: &str) -> (r: Result<String, String>)
    ensures
        i < argv@.len() ==> r == Ok::<String, String>(argv@[i as int]),
        i >= argv@.len() ==> (r matches Err(e) && e@ == missing_value_message(flag@)),
{
    if i < argv.len() {
        Ok(argv[i].clone())
    } else {
        Err(String::from_str(MISSING_VALUE).concat(flag))
    }
}

} // verus!
