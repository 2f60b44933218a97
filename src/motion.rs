use vstd::prelude::*;

verus! {

/// Ends a motion step the same way for moving, turning and rolling: once
/// the step has gone past its target, the value is placed exactly on the
/// target and the motion is complete; otherwise the stepped value stands
/// and the motion goes on.
///
/// Frame steps of any length therefore end on the target itself, never
/// next to it.
pub fn settle<T>(stepped: T, target: T, passed: bool) -> (r: (T, bool))
    ensures
        r == if passed {
            (target, true)
        } else {
            (stepped, false)
        },
{
    if passed {
        (target, true)
    } else {
        (stepped, false)
    }
}

} // verus!
