use vstd::prelude::*;
use crate::exec::Feedback;

verus! {

/// One step of the first run over the seeds: the first run that reaches
/// any node sets the node count, every later run adds its new nodes.
pub fn accumulate_nodes(total: u32, feedback: &Feedback) -> (r: u32)
    requires
        total == 0 || total + feedback.newnode <= u32::MAX,
    ensures
        total == 0 ==> r == feedback.node,
        total != 0 ==> r == total + feedback.newnode,
{
    if total == 0 {
        feedback.node
    } else {
        total + feedback.newnode
    }
}

} // verus!
