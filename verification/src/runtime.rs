//! Names under which the runtime serves and invokes component functions.

use vstd::prelude::*;

use crate::subject::strip_prefix;

verus! {

/// The name a function is invoked under: its component-model name without
/// the `[constructor]`, `[static]` or `[method]` prefix it may have.
pub open spec fn rpc_name(name: Seq<char>) -> Seq<char> {
    let c = "[constructor]"@;
    let s = "[static]"@;
    let m = "[method]"@;
    if c.is_prefix_of(name) {
        name.subrange(c.len() as int, name.len() as int)
    } else if s.is_prefix_of(name) {
        name.subrange(s.len() as int, name.len() as int)
    } else if m.is_prefix_of(name) {
        name.subrange(m.len() as int, name.len() as int)
    } else {
        name
    }
}

/// The name a function is invoked under.
pub fn rpc_func_name(name: &str) -> (r: &str)
    ensures
        r@ == rpc_name(name@),
{
    if let Some(rest) = strip_prefix(name, "[constructor]") {
        rest
    } else if let Some(rest) = strip_prefix(name, "[static]") {
        rest
    } else if let Some(rest) = strip_prefix(name, "[method]") {
        rest
    } else {
        name
    }
}

} // verus!
