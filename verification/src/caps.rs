//! The capability chain that a publisher presents to hosts.

use vstd::prelude::*;

use crate::text::trim;

verus! {

/// Chooses the chain to present: the one given on the command line, else the one in the
/// environment, else what the caps file holds, without the white space around it; empty if there is
/// none at all.
pub fn resolve(arg: Option<String>, env: Option<String>, file: Option<String>) -> (r: String)
    ensures
        r@ == (match (arg, env, file) {
            (Some(chain), _, _) => chain@,
            (None, Some(chain), _) => chain@,
            (None, None, Some(text)) => crate::text::trimmed(text@),
            (None, None, None) => Seq::empty(),
        }),
{
    match arg {
        Some(chain) => chain,
        None => match env {
            Some(chain) => chain,
            None => match file {
                Some(text) => trim(text.as_str()).to_string(),
                None => String::new(),
            },
        },
    }
}

} // verus!
