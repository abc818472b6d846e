//! When a store writes itself back: only while it holds changes that were not written.

use vstd::prelude::*;

verus! {

/// One call of `save_if_modified`: with no pending change nothing is written (`Ok(false)`);
/// otherwise the records are handed to the writer, and a successful write (`Ok(true)`)
/// leaves nothing pending, while a failed one leaves the change pending.
pub open spec fn save_step<E>(was_modified: bool, r: Result<bool, E>, now_modified: bool) -> bool {
    if !was_modified {
        r == Ok::<bool, E>(false) && !now_modified
    } else {
        match r {
            Ok(wrote) => wrote && !now_modified,
            Err(_) => now_modified,
        }
    }
}

/// Saving twice with no change in between writes at most once: the second call writes
/// nothing, and the first wrote exactly when a change was pending.
pub proof fn lemma_save_twice_writes_once<E>(
    m0: bool,
    r1: Result<bool, E>,
    m1: bool,
    r2: Result<bool, E>,
    m2: bool,
)
    requires
        save_step(m0, r1, m1),
        r1 is Ok,
        save_step(m1, r2, m2),
    ensures
        r1 == Ok::<bool, E>(m0),
        r2 == Ok::<bool, E>(false),
        !m2,
{
}

} // verus!
