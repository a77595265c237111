use vstd::prelude::*;

verus! {

/// The largest integer that a JavaScript number holds exactly (`Number.MAX_SAFE_INTEGER`).
pub const JS_MAX_SAFE_INTEGER: i128 = 9007199254740991;

/// Whether a decoded integer can be handed to JavaScript as a plain number without
/// losing precision; outside this range a host has to use a `BigInt`.
pub fn within_js_safe_range(i: i128) -> (r: bool)
    ensures
        r <==> -JS_MAX_SAFE_INTEGER <= i <= JS_MAX_SAFE_INTEGER,
{
    -JS_MAX_SAFE_INTEGER <= i && i <= JS_MAX_SAFE_INTEGER
}

} // verus!
