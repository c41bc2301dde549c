//! Stack-effect reports: what an external analyzer says a chunk does to the
//! two data stacks, and the translation into non-negative chunk I/O sizes.
use std::rc::Rc;
use vstd::prelude::*;

use crate::program::Builder;

verus! {

/// The net effect of simulating one chunk, as the external analyzer reports
/// it: the deepest points reached below the starting stack pointers (both
/// `<= 0` for a well-behaved analyzer) and the net height changes.
#[derive(Debug, Clone, Copy, PartialEq, Eq, Structural)]
pub struct StackStatus {
    pub deepest_stack_accessed: i64,
    pub stack_changed: i64,
    pub deepest_altstack_accessed: i64,
    pub altstack_changed: i64,
}

/// A stack-effect analyzer as the chunker consumes it: simulates a chunk's
/// blocks and reports their net effect. Nothing is assumed of the report;
/// whatever comes back is checked against the contract below.
pub trait StackAnalyzer {
    fn analyze_blocks(&mut self, chunk: &Vec<Rc<Builder>>) -> StackStatus;
}

/// A report that honours the analyzer's contract: the deepest accesses are
/// not positive, the derived sizes are not negative, and everything fits the
/// machine's size type.
pub open spec fn status_valid(s: StackStatus) -> bool {
    &&& s.deepest_stack_accessed <= 0
    &&& s.stack_changed - s.deepest_stack_accessed >= 0
    &&& s.deepest_altstack_accessed <= 0
    &&& s.altstack_changed - s.deepest_altstack_accessed >= 0
    &&& -(s.deepest_stack_accessed as int) <= usize::MAX
    &&& s.stack_changed - s.deepest_stack_accessed <= usize::MAX
    &&& -(s.deepest_altstack_accessed as int) <= usize::MAX
    &&& s.altstack_changed - s.deepest_altstack_accessed <= usize::MAX
}

/// How much the chunk reads from below its starting stack pointer.
pub open spec fn spec_stack_input(s: StackStatus) -> int {
    -(s.deepest_stack_accessed as int)
}

/// How much the chunk leaves on the stack above its deepest access.
pub open spec fn spec_stack_output(s: StackStatus) -> int {
    s.stack_changed - s.deepest_stack_accessed
}

/// As `spec_stack_input`, for the alternate stack.
pub open spec fn spec_altstack_input(s: StackStatus) -> int {
    -(s.deepest_altstack_accessed as int)
}

/// As `spec_stack_output`, for the alternate stack.
pub open spec fn spec_altstack_output(s: StackStatus) -> int {
    s.altstack_changed - s.deepest_altstack_accessed
}

/// Non-negativity: every derived quantity of an accepted report is >= 0, so
/// the four I/O sizes of a produced tuple are never negative.
pub proof fn lemma_io_sizes_nonnegative(s: StackStatus)
    requires
        status_valid(s),
    ensures
        spec_stack_input(s) >= 0,
        spec_stack_output(s) >= 0,
        spec_altstack_input(s) >= 0,
        spec_altstack_output(s) >= 0,
{
}

/// Translates an analyzer report into the four chunk I/O sizes
/// `(stack_input, stack_output, altstack_input, altstack_output)`. Returns
/// `None` exactly when the report violates the analyzer's contract — the
/// internal-consistency failure, kept apart from the infeasible-window error.
pub fn stack_io_sizes(status: &StackStatus) -> (r: Option<(usize, usize, usize, usize)>)
    ensures
        r is Some <==> status_valid(*status),
        r matches Some(io) ==> {
            &&& io.0 == spec_stack_input(*status)
            &&& io.1 == spec_stack_output(*status)
            &&& io.2 == spec_altstack_input(*status)
            &&& io.3 == spec_altstack_output(*status)
        },
{
    let d = status.deepest_stack_accessed as i128;
    let c = status.stack_changed as i128;
    let da = status.deepest_altstack_accessed as i128;
    let ca = status.altstack_changed as i128;
    if d > 0 || da > 0 {
        return None;
    }
    let stack_in = -d;
    let stack_out = c - d;
    let altstack_in = -da;
    let altstack_out = ca - da;
    if stack_out < 0 || altstack_out < 0 {
        return None;
    }
    let bound = usize::MAX as i128;
    if stack_in > bound || stack_out > bound || altstack_in > bound || altstack_out > bound {
        return None;
    }
    Some((stack_in as usize, stack_out as usize, altstack_in as usize, altstack_out as usize))
}

} // verus!
