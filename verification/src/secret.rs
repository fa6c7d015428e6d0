//! Passwords in the configuration may refer to variables (`$NAME`,
//! `${NAME}`, `${NAME:default}`); they are resolved against a map of
//! variables, which the program fills from its environment.
use std::collections::BTreeMap;
use vstd::prelude::*;

verus! {

/// Whether a template holds no `$` and no `\`: nothing in it is substituted
/// or escaped.
pub open spec fn is_plain_text(template: Seq<char>) -> bool {
    forall|i: int| 0 <= i < template.len() ==> #[trigger] template[i] != '$' && template[i] != '\\'
}

/// What subst's `substitute` gives for `template` over the variables `vars`:
/// the expanded text, or the message of the error it reports.
pub uninterp spec fn substitution(template: Seq<char>, vars: Map<Seq<char>, Seq<char>>) -> Result<
    Seq<char>,
    Seq<char>,
>;

/// Calls subst's `substitute` with `vars` as its variable map; an error is
/// handed back as its message (`to_string`). The contract names the outcome
/// `substitution`, a function of the template and the map alone, and states
/// the one fact that subst's parser shows plainly: a template with neither
/// `$` nor `\` is a single literal part and comes back unchanged. The
/// grammar of references and escapes is left to subst.
#[verifier::external_body]
fn substitute_vars(template: &str, vars: &BTreeMap<String, String>) -> (r: Result<String, String>)
    ensures
        match r {
            Ok(s) => substitution(template@, vars.deep_view()) == Ok::<Seq<char>, Seq<char>>(s@),
            Err(m) => substitution(template@, vars.deep_view()) == Err::<Seq<char>, Seq<char>>(
                m@,
            ),
        },
        is_plain_text(template@) ==> (r is Ok && r->Ok_0@ == template@),
{
    match subst::substitute(template, vars) {
        Ok(s) => Ok(s),
        Err(e) => Err(e.to_string()),
    }
}

/// Why a password could not be resolved.
pub struct SecretError {
    /// What the substitution reported.
    pub message: String,
}

/// Resolves the variable references in a password against `vars`. The
/// result is subst's expansion, or its error; a password with neither `$`
/// nor `\` is used as it is written.
pub fn resolve_secret(template: &str, vars: &BTreeMap<String, String>) -> (r: Result<
    String,
    SecretError,
>)
    ensures
        match r {
            Ok(s) => substitution(template@, vars.deep_view()) == Ok::<Seq<char>, Seq<char>>(s@),
            Err(e) => substitution(template@, vars.deep_view()) == Err::<Seq<char>, Seq<char>>(
                e.message@,
            ),
        },
        is_plain_text(template@) ==> (r is Ok && r->Ok_0@ == template@),
{
    match substitute_vars(template, vars) {
        Ok(s) => Ok(s),
        Err(message) => Err(SecretError { message }),
    }
}

} // verus!
