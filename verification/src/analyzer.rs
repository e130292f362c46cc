//! What a stack analysis reports of a run of scripts, and what a chunk
//! publishes of it.

use vstd::prelude::*;

verus! {

/// The stack effect of a run of scripts, as a stack analysis reports it: the
/// deepest item read, as an offset from the top at the start and so never
/// positive, and the change of height; the same for the altstack.
#[derive(Debug, Clone, Copy, PartialEq, Eq, Structural)]
pub struct StackStatus {
    pub deepest_stack_accessed: i32,
    pub stack_changed: i32,
    pub deepest_altstack_accessed: i32,
    pub altstack_changed: i32,
}

/// The interface of a chunk to what runs before and after it: how many items
/// it needs on the stack and on the altstack, and how many it leaves where
/// those were.
#[derive(Debug, Clone, Copy, PartialEq, Eq, Structural)]
pub struct ChunkStats {
    pub stack_input_size: usize,
    pub stack_output_size: usize,
    pub altstack_input_size: usize,
    pub altstack_output_size: usize,
}

impl StackStatus {
    /// No access above the start of either stack, and neither stack ends
    /// below the deepest item that was read.
    pub open spec fn valid(self) -> bool {
        &&& self.deepest_stack_accessed <= 0
        &&& self.deepest_altstack_accessed <= 0
        &&& self.stack_changed >= self.deepest_stack_accessed
        &&& self.altstack_changed >= self.deepest_altstack_accessed
    }

    /// The interface that the status describes: as input the depth of the
    /// deepest access, as output the change of height above that depth.
    pub open spec fn stats(self) -> ChunkStats {
        ChunkStats {
            stack_input_size: (-self.deepest_stack_accessed) as usize,
            stack_output_size: (self.stack_changed - self.deepest_stack_accessed) as usize,
            altstack_input_size: (-self.deepest_altstack_accessed) as usize,
            altstack_output_size: (self.altstack_changed - self.deepest_altstack_accessed) as usize,
        }
    }
}

impl ChunkStats {
    /// The interface that `status` describes, where `status` is valid.
    pub fn from_status(status: &StackStatus) -> (r: Option<ChunkStats>)
        ensures
            r == if status.valid() {
                Some(status.stats())
            } else {
                None::<ChunkStats>
            },
            status.valid() ==> {
                &&& r.unwrap().stack_input_size == -status.deepest_stack_accessed
                &&& r.unwrap().stack_output_size == status.stack_changed
                    - status.deepest_stack_accessed
                &&& r.unwrap().altstack_input_size == -status.deepest_altstack_accessed
                &&& r.unwrap().altstack_output_size == status.altstack_changed
                    - status.deepest_altstack_accessed
            },
    {
        if status.deepest_stack_accessed > 0 || status.deepest_altstack_accessed > 0 {
            return None;
        }
        let stack_in: i64 = -(status.deepest_stack_accessed as i64);
        let stack_out: i64 = status.stack_changed as i64 - status.deepest_stack_accessed as i64;
        let alt_in: i64 = -(status.deepest_altstack_accessed as i64);
        let alt_out: i64 = status.altstack_changed as i64 - status.deepest_altstack_accessed as i64;
        if stack_out < 0 || alt_out < 0 {
            return None;
        }
        Some(
            ChunkStats {
                stack_input_size: stack_in as usize,
                stack_output_size: stack_out as usize,
                altstack_input_size: alt_in as usize,
                altstack_output_size: alt_out as usize,
            },
        )
    }
}

/// A chunk that reads nothing below the top of the stack it starts with
/// needs no input, and leaves what it pushes less what it pops.
pub proof fn lemma_no_access_below_start(status: StackStatus)
    requires
        status.valid(),
        status.deepest_stack_accessed == 0,
    ensures
        status.stats().stack_input_size == 0,
        status.stats().stack_output_size == status.stack_changed,
{
}

} // verus!
