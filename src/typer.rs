use vstd::prelude::*;
use crate::ast::Module;
use crate::effects::Effect;

verus! {

/// A well-formedness failure, with its message.
#[derive(Debug)]
pub struct TypeError(pub String);

/// Post-parse well-formedness: the module name must be non-empty; every effect of the
/// closed vocabulary is accepted.
pub fn typecheck(m: &Module) -> (r: Result<(), TypeError>)
    ensures
        r is Ok <==> m.name@.len() > 0,
        r matches Err(e) ==> e.0@ == "empty module name"@,
{
    if m.name.as_str().is_empty() {
        return Err(TypeError(String::from_str("empty module name")));
    }
    let mut k: usize = 0;
    while k < m.effects.len()
        invariant
            k <= m.effects@.len(),
        decreases m.effects@.len() - k,
    {
        // Each effect of the vocabulary is accepted as it stands.
        match m.effects[k] {
            Effect::Db | Effect::Net | Effect::Now | Effect::Kms | Effect::Serial => {},
        }
        k += 1;
    }
    Ok(())
}

} // verus!
