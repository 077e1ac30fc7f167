//! The interrupt controller.
use crate::trap::frame::{SimTrapFrame};
use vstd::prelude::*;

verus! {

/// The state of the trap layer: vector masks, the last frame, and a stack of saved
/// frames.
pub struct TrapController {
    pub handler_active: bool,
    /// A set bit lets the hardware vector of its number through.
    pub hardware_vector_mask_bits: u32,
    /// A set bit lets the software vector of its number, plus 8, through.
    pub software_vector_mask_bits: u32,
    pub handler_nesting_depth: usize,
    pub last_dispatched_frame: Option<SimTrapFrame>,
    pub saved_frame_stack: Vec<SimTrapFrame>,
    pub interrupts_enabled: bool,
    pub interrupts_suppressed: bool,
}

/// Whether the masks let a vector through.
pub open spec fn lets_through(hardware: u32, software: u32, vector: usize) -> bool {
    if vector < 8 {
        hardware & (1u32 << vector) != 0
    } else if vector < 16 {
        software & (1u32 << (vector - 8)) != 0
    } else {
        false
    }
}

impl TrapController {
    pub fn new() -> (r: Self)
        ensures
            r.saved_frame_stack@ == Seq::<SimTrapFrame>::empty(),
            r == (TrapController {
                handler_active: false,
                hardware_vector_mask_bits: 0,
                software_vector_mask_bits: 0,
                handler_nesting_depth: 0,
                last_dispatched_frame: None,
                saved_frame_stack: r.saved_frame_stack,
                interrupts_enabled: true,
                interrupts_suppressed: false,
            }),
    {
        Self {
            handler_active: false,
            hardware_vector_mask_bits: 0,
            software_vector_mask_bits: 0,
            handler_nesting_depth: 0,
            last_dispatched_frame: None,
            saved_frame_stack: Vec::new(),
            interrupts_enabled: true,
            interrupts_suppressed: false,
        }
    }

    pub fn configure_vector_masks(&mut self, software_mask: u32, hardware_mask: u32)
        ensures
            *final(self) == (TrapController {
                hardware_vector_mask_bits: hardware_mask,
                software_vector_mask_bits: software_mask,
                ..*old(self)
            }),
    {
        self.hardware_vector_mask_bits = hardware_mask;
        self.software_vector_mask_bits = software_mask;
    }

    pub fn hardware_vector_mask(&self) -> (r: u32)
        ensures
            r == self.hardware_vector_mask_bits,
    {
        self.hardware_vector_mask_bits
    }

    pub fn software_vector_mask(&self) -> (r: u32)
        ensures
            r == self.software_vector_mask_bits,
    {
        self.software_vector_mask_bits
    }

    pub fn is_in_handler(&self) -> (r: bool)
        ensures
            r == (self.handler_active || self.handler_nesting_depth > 0),
    {
        self.handler_active || self.handler_nesting_depth > 0
    }

    /// Records the frame and hands it back. The nesting depth is raised and lowered
    /// again on the way.
    pub fn dispatch_trap_frame(&mut self, trap_frame: SimTrapFrame) -> (r: SimTrapFrame)
        requires
            old(self).handler_nesting_depth < usize::MAX,
        ensures
            r == trap_frame,
            *final(self) == (TrapController {
                last_dispatched_frame: Some(trap_frame),
                ..*old(self)
            }),
    {
        self.last_dispatched_frame = Some(trap_frame);
        self.handler_nesting_depth = self.handler_nesting_depth + 1;
        self.handler_nesting_depth = self.handler_nesting_depth - 1;
        trap_frame
    }

    pub fn last_trap_frame(&self) -> (r: Option<SimTrapFrame>)
        ensures
            r == self.last_dispatched_frame,
    {
        self.last_dispatched_frame
    }

    /// Dispatches a frame as an interrupt: interrupts are enabled and no handler is
    /// active afterwards.
    pub fn handle_interrupt(&mut self, trap_frame: SimTrapFrame) -> (r: SimTrapFrame)
        requires
            old(self).handler_nesting_depth < usize::MAX,
        ensures
            r == trap_frame,
            *final(self) == (TrapController {
                last_dispatched_frame: Some(trap_frame),
                handler_active: false,
                interrupts_enabled: true,
                ..*old(self)
            }),
    {
        self.handler_active = true;
        self.interrupts_enabled = true;
        let dispatched_frame = self.dispatch_trap_frame(trap_frame);
        self.handler_active = false;
        dispatched_frame
    }

    /// Page faults are accepted at any address and in any state.
    pub fn handle_page_fault(&self, _fault_address: u64) -> (r: Result<(), &'static str>)
        ensures
            r is Ok,
    {
        Ok(())
    }

    /// Dispatches the frame if the masks let the vector through.
    pub fn dispatch_trap_vector(&mut self, vector: usize, trap_frame: SimTrapFrame) -> (r:
        SimTrapFrame)
        requires
            old(self).handler_nesting_depth < usize::MAX,
        ensures
            r == trap_frame,
            *final(self) == if lets_through(
                old(self).hardware_vector_mask_bits,
                old(self).software_vector_mask_bits,
                vector,
            ) {
                TrapController { last_dispatched_frame: Some(trap_frame), ..*old(self) }
            } else {
                *old(self)
            },
    {
        let hardware_mask = self.hardware_vector_mask_bits;
        let software_mask = self.software_vector_mask_bits;
        if vector < 8 {
            if hardware_mask & (1u32 << vector) != 0 {
                return self.dispatch_trap_frame(trap_frame);
            }
        } else if vector < 16 {
            let software_vector_bit: usize = vector - 8;
            if software_mask & (1u32 << software_vector_bit) != 0 {
                return self.dispatch_trap_frame(trap_frame);
            }
        }
        trap_frame
    }

    pub fn push_saved_frame(&mut self, trap_frame: &SimTrapFrame)
        ensures
            final(self).saved_frame_stack@ == old(self).saved_frame_stack@.push(*trap_frame),
            *final(self) == (TrapController {
                saved_frame_stack: final(self).saved_frame_stack,
                ..*old(self)
            }),
    {
        self.saved_frame_stack.push(*trap_frame);
    }

    pub fn pop_saved_frame(&mut self) -> (r: Option<SimTrapFrame>)
        ensures
            ({
                let s = old(self).saved_frame_stack@;
                &&& s.len() == 0 ==> r is None && final(self).saved_frame_stack@ == s
                &&& s.len() > 0 ==> r == Some(s.last()) && final(self).saved_frame_stack@
                    == s.drop_last()
            }),
            *final(self) == (TrapController {
                saved_frame_stack: final(self).saved_frame_stack,
                ..*old(self)
            }),
    {
        self.saved_frame_stack.pop()
    }

    pub fn current_nesting_depth(&self) -> (r: usize)
        ensures
            r == self.handler_nesting_depth,
    {
        self.handler_nesting_depth
    }

    pub fn suppress_interrupt_handling(&mut self)
        ensures
            *final(self) == (TrapController { interrupts_suppressed: true, ..*old(self) }),
    {
        self.interrupts_suppressed = true;
    }

    pub fn resume_interrupt_handling(&mut self)
        ensures
            *final(self) == (TrapController { interrupts_suppressed: false, ..*old(self) }),
    {
        self.interrupts_suppressed = false;
    }
}

/// A frame that is saved and taken back is the one that was saved, and the frames
/// below it are untouched.
pub proof fn lemma_pop_undoes_push(stack: Seq<SimTrapFrame>, frame: SimTrapFrame)
    ensures
        stack.push(frame).last() == frame,
        stack.push(frame).drop_last() == stack,
{
    assert(stack.push(frame).drop_last() =~= stack);
}

/// Each vector has a bit of its own: the first eight in the hardware mask, the next
/// eight in the software mask. A vector gets through exactly if its bit is set.
pub proof fn lemma_vector_bits(hardware: u32, software: u32, v: usize, w: usize)
    requires
        v < 16,
        w < 8,
    ensures
        v < 8 ==> (lets_through(1u32 << w, software, v) <==> v == w),
        v >= 8 ==> (lets_through(hardware, 1u32 << w, v) <==> v == w + 8),
        v < 8 ==> !lets_through(0, software, v),
        v >= 8 ==> !lets_through(hardware, 0, v),
        !lets_through(hardware, software, 16),
{
    let x = (v % 8) as u32;
    let y = w as u32;
    assert(((1u32 << y) & (1u32 << x) != 0) == (x == y) && 0u32 & (1u32 << x) == 0) by (bit_vector)
        requires
            x < 8,
            y < 8,
    ;
}

} // verus!
