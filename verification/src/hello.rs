//! A greeting.

use vstd::prelude::*;
use vstd::string::StringExecFns;

verus! {

/// `text` in upper case, as `str::to_uppercase` gives it.
pub uninterp spec fn uppercased(text: Seq<char>) -> Seq<char>;

/// The greeting for `name` as it is written.
pub open spec fn plain_greeting(name: Seq<char>) -> Seq<char> {
    "Hello, "@ + name + "!"@
}

/// The greeting for `name`, in capitals throughout where `upper` is set.
pub open spec fn greeting_for(name: Seq<char>, upper: bool) -> Seq<char> {
    if upper {
        uppercased(plain_greeting(name))
    } else {
        plain_greeting(name)
    }
}

/// `text` in upper case, by `str::to_uppercase`. The contract gives the
/// result a name and claims no more of it.
#[verifier::external_body]
fn uppercase(text: &str) -> (out: String)
    ensures
        out@ == uppercased(text@),
{
    text.to_uppercase()
}

/// The greeting for `name`, in capitals throughout where `upper` is set.
pub fn greeting(name: &str, upper: bool) -> (out: String)
    ensures
        out@ == greeting_for(name@, upper),
{
    let mut plain = String::from_str("Hello, ");
    plain.append(name);
    plain.append("!");
    if upper {
        uppercase(plain.as_str())
    } else {
        plain
    }
}

} // verus!
