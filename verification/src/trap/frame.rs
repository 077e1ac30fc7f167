//! The register frame that a trap saves.
use crate::consts::N_REGS;
use vstd::prelude::*;

verus! {

/// The contents of a frame.
#[verifier::ext_equal]
pub struct FrameView {
    pub regs: Seq<u64>,
    pub ip: u64,
    pub flags: u64,
}

/// The register of the stack pointer.
pub open spec fn sp_slot() -> int {
    N_REGS - 1
}

/// The register of the thread pointer.
pub open spec fn tp_slot() -> int {
    N_REGS - 2
}

/// The saved user registers. Register 0 is the first syscall argument and the
/// return value, the last one is the stack pointer, the one before it the thread
/// pointer.
#[derive(Clone, Copy, Debug, PartialEq, Eq)]
pub struct SimTrapFrame {
    pub general_registers: [u64; N_REGS],
    pub instruction_pointer: u64,
    pub status_flags: u64,
}

impl View for SimTrapFrame {
    type V = FrameView;

    open spec fn view(&self) -> FrameView {
        FrameView {
            regs: self.general_registers@,
            ip: self.instruction_pointer,
            flags: self.status_flags,
        }
    }
}

/// The frame after an edit: the low four bits of the opcode name what is set. Edit
/// 5 carries the number of a register in the top byte of the value.
pub open spec fn edited(f: FrameView, edit_opcode: u8, value: u64) -> FrameView {
    let op = edit_opcode % 16;
    if op == 0 {
        FrameView { regs: f.regs.update(0, value), ..f }
    } else if op == 1 {
        FrameView { ip: value, ..f }
    } else if op == 2 {
        FrameView { regs: f.regs.update(sp_slot(), value), ..f }
    } else if op == 3 {
        FrameView { regs: f.regs.update(tp_slot(), value), ..f }
    } else if op == 4 {
        FrameView { flags: value, ..f }
    } else if op == 5 && value / 0x100_0000_0000_0000 < N_REGS {
        FrameView {
            regs: f.regs.update(
                (value / 0x100_0000_0000_0000) as int,
                value % 0x100_0000_0000_0000,
            ),
            ..f
        }
    } else {
        f
    }
}

/// The registers below `n` in which two frames differ, with both values.
pub open spec fn changed_below(a: Seq<u64>, b: Seq<u64>, n: nat) -> Seq<(usize, u64, u64)>
    decreases n,
{
    if n == 0 {
        Seq::empty()
    } else {
        let rest = changed_below(a, b, (n - 1) as nat);
        if a[n - 1] != b[n - 1] {
            rest.push(((n - 1) as usize, a[n - 1], b[n - 1]))
        } else {
            rest
        }
    }
}

/// All that two frames differ in. The instruction pointer counts as the register
/// behind the last, the flags as the one behind that.
pub open spec fn changes(a: FrameView, b: FrameView) -> Seq<(usize, u64, u64)> {
    let regs = changed_below(a.regs, b.regs, N_REGS as nat);
    let with_ip = if a.ip != b.ip {
        regs.push((N_REGS, a.ip, b.ip))
    } else {
        regs
    };
    if a.flags != b.flags {
        with_ip.push(((N_REGS + 1) as usize, a.flags, b.flags))
    } else {
        with_ip
    }
}

/// One step of the FNV-1a hash on whole words.
pub open spec fn fnv_step(h: u64, x: u64) -> u64 {
    (h ^ x).wrapping_mul(0x100000001b3)
}

pub open spec fn fnv_words(h: u64, s: Seq<u64>) -> u64
    decreases s.len(),
{
    if s.len() == 0 {
        h
    } else {
        fnv_step(fnv_words(h, s.drop_last()), s.last())
    }
}

/// A value by its top four bits: below 8 they are cleared, from 8 to 11 the value
/// is negated, above that it is taken as it is.
pub open spec fn tagged(v: u64) -> u64 {
    let tag = v / 0x1000_0000_0000_0000;
    if tag <= 7 {
        v % 0x1000_0000_0000_0000
    } else if tag <= 11 {
        (0x1_0000_0000_0000_0000 - v) as u64
    } else {
        v
    }
}

proof fn lemma_opcode(op: u8)
    by (bit_vector)
    ensures
        op & 0x0F == op % 16,
{
}

proof fn lemma_fields(v: u64)
    by (bit_vector)
    ensures
        v >> 56u64 == v / 0x100_0000_0000_0000u64,
        v & 0x00FF_FFFF_FFFF_FFFFu64 == v % 0x100_0000_0000_0000u64,
        v >> 60u64 == v / 0x1000_0000_0000_0000u64,
        v & 0x0FFF_FFFF_FFFF_FFFFu64 == v % 0x1000_0000_0000_0000u64,
{
}

impl SimTrapFrame {
    pub fn zeroed() -> (r: Self)
        ensures
            r@ == (FrameView { regs: Seq::new(N_REGS as nat, |i: int| 0u64), ip: 0, flags: 0 }),
    {
        let r = Self {
            general_registers: [0, 0, 0, 0, 0, 0, 0, 0, 0, 0, 0, 0, 0, 0, 0, 0],
            instruction_pointer: 0,
            status_flags: 0,
        };
        assert(r.general_registers@ =~= Seq::new(N_REGS as nat, |i: int| 0u64));
        r
    }

    pub fn from_registers(source_registers: &[u64; N_REGS]) -> (r: Self)
        ensures
            r@ == (FrameView { regs: source_registers@, ip: 0, flags: 0 }),
    {
        let mut frame = SimTrapFrame::zeroed();
        frame.general_registers = *source_registers;
        frame
    }

    pub fn to_registers(&self) -> (r: [u64; N_REGS])
        ensures
            r@ == self@.regs,
    {
        self.general_registers
    }

    pub fn set_instruction_pointer(&mut self, value: u64)
        ensures
            final(self)@ == (FrameView { ip: value, ..old(self)@ }),
    {
        self.instruction_pointer = value;
    }

    pub fn set_stack_pointer(&mut self, value: u64)
        ensures
            final(self)@ == (FrameView {
                regs: old(self)@.regs.update(sp_slot(), value),
                ..old(self)@
            }),
    {
        self.general_registers[N_REGS - 1] = value;
    }

    pub fn set_return_value(&mut self, value: u64)
        ensures
            final(self)@ == (FrameView { regs: old(self)@.regs.update(0, value), ..old(self)@ }),
    {
        self.general_registers[0] = value;
    }

    pub fn set_thread_pointer(&mut self, value: u64)
        ensures
            final(self)@ == (FrameView {
                regs: old(self)@.regs.update(tp_slot(), value),
                ..old(self)@
            }),
    {
        self.general_registers[N_REGS - 2] = value;
    }

    /// A copy of the frame with one edit made.
    pub fn with_opcode_edit(&self, edit_opcode: u8, value: u64) -> (r: SimTrapFrame)
        ensures
            r@ == edited(self@, edit_opcode, value),
    {
        proof {
            lemma_opcode(edit_opcode);
            lemma_fields(value);
        }
        let mut frame: SimTrapFrame = *self;
        let op: u8 = edit_opcode & 0x0F;
        if op == 0 {
            frame.general_registers[0] = value;
        } else if op == 1 {
            frame.instruction_pointer = value;
        } else if op == 2 {
            frame.general_registers[N_REGS - 1] = value;
        } else if op == 3 {
            frame.general_registers[N_REGS - 2] = value;
        } else if op == 4 {
            frame.status_flags = value;
        } else if op == 5 {
            let register_index: u64 = value >> 56;
            if register_index < N_REGS as u64 {
                frame.general_registers[register_index as usize] = value & 0x00FF_FFFF_FFFF_FFFF;
            }
        }
        frame
    }

    /// The registers of the six syscall arguments.
    pub fn syscall_argument_registers(&self) -> (r: (u64, u64, u64, u64, u64, u64))
        ensures
            r == (
                self@.regs[0],
                self@.regs[1],
                self@.regs[2],
                self@.regs[3],
                self@.regs[4],
                self@.regs[5],
            ),
    {
        (
            self.general_registers[0],
            self.general_registers[1],
            self.general_registers[2],
            self.general_registers[3],
            self.general_registers[4],
            self.general_registers[5],
        )
    }

    pub fn clone_with_return_value(&self, return_value: u64) -> (r: SimTrapFrame)
        ensures
            r@ == (FrameView { regs: self@.regs.update(0, return_value), ..self@ }),
    {
        let mut cloned: SimTrapFrame = *self;
        cloned.general_registers[0] = return_value;
        cloned
    }

    /// What the frame and another differ in: place, own value, other value.
    pub fn changed_slots(&self, other: &SimTrapFrame) -> (r: Vec<(usize, u64, u64)>)
        ensures
            r@ == changes(self@, other@),
    {
        let mut changes: Vec<(usize, u64, u64)> = Vec::new();
        let mut i: usize = 0;
        while i < N_REGS
            invariant
                i <= N_REGS,
                changes@ == changed_below(
                    self.general_registers@,
                    other.general_registers@,
                    i as nat,
                ),
            decreases N_REGS - i,
        {
            let own: u64 = self.general_registers[i];
            let theirs: u64 = other.general_registers[i];
            if own != theirs {
                changes.push((i, own, theirs));
            }
            i = i + 1;
        }
        if self.instruction_pointer != other.instruction_pointer {
            changes.push((N_REGS, self.instruction_pointer, other.instruction_pointer));
        }
        if self.status_flags != other.status_flags {
            changes.push((N_REGS + 1, self.status_flags, other.status_flags));
        }
        changes
    }

    /// A hash of the contents.
    pub fn fingerprint(&self) -> (r: u64)
        ensures
            r == fnv_step(fnv_words(0xcbf29ce484222325, self@.regs), self@.ip) ^ self@.flags,
    {
        let ghost regs = self.general_registers@;
        let mut h: u64 = 0xcbf29ce484222325;
        let mut i: usize = 0;
        while i < N_REGS
            invariant
                i <= N_REGS,
                regs == self.general_registers@,
                h == fnv_words(0xcbf29ce484222325, regs.take(i as int)),
            decreases N_REGS - i,
        {
            assert(regs.take(i + 1).drop_last() =~= regs.take(i as int));
            h = h ^ self.general_registers[i];
            h = h.wrapping_mul(0x100000001b3);
            i = i + 1;
        }
        assert(regs.take(i as int) =~= regs);
        h = (h ^ self.instruction_pointer).wrapping_mul(0x100000001b3);
        h ^ self.status_flags
    }

    /// The value of a register by its tag; 0 if there is no such register.
    pub fn tagged_register_value(&self, register_index: usize) -> (r: u64)
        ensures
            r == if register_index < N_REGS {
                tagged(self@.regs[register_index as int])
            } else {
                0
            },
    {
        if register_index >= N_REGS {
            return 0;
        }
        let value: u64 = self.general_registers[register_index];
        proof {
            lemma_fields(value);
        }
        let tag: u64 = value >> 60;
        if tag <= 7 {
            value & 0x0FFF_FFFF_FFFF_FFFF
        } else if tag <= 11 {
            0u64.wrapping_sub(value)
        } else {
            value
        }
    }
}

/// Saving registers in a frame and restoring them gives them back, and a frame
/// differs from itself in nothing.
pub proof fn lemma_frame_compares_equal(f: FrameView)
    ensures
        changes(f, f) == Seq::<(usize, u64, u64)>::empty(),
{
    lemma_none_changed(f.regs, N_REGS as nat);
}

proof fn lemma_none_changed(a: Seq<u64>, n: nat)
    ensures
        changed_below(a, a, n) == Seq::<(usize, u64, u64)>::empty(),
    decreases n,
{
    if n > 0 {
        lemma_none_changed(a, (n - 1) as nat);
    }
}

/// The registers that a frame was made from are those that it gives back.
pub proof fn lemma_registers_read_back(f: SimTrapFrame, saved: Seq<u64>, restored: Seq<u64>)
    requires
        f@ == (FrameView { regs: saved, ip: 0, flags: 0 }),
        restored == f@.regs,
    ensures
        restored == saved,
{
}

/// An edit changes one thing: the return value, the instruction pointer, the stack
/// pointer, the thread pointer, the flags, or the register that the value names; every
/// other opcode changes nothing.
pub proof fn lemma_edit_changes_one_thing(f: FrameView, op: u8, value: u64, i: int)
    requires
        f.regs.len() == N_REGS,
        0 <= i < N_REGS,
    ensures
        ({
            let g = edited(f, op, value);
            let code = op % 16;
            let top = value / 0x100_0000_0000_0000;
            &&& g.regs.len() == N_REGS
            &&& code == 0 ==> g.regs[0] == value
            &&& code == 1 ==> g.ip == value
            &&& code == 2 ==> g.regs[N_REGS - 1] == value
            &&& code == 3 ==> g.regs[N_REGS - 2] == value
            &&& code == 4 ==> g.flags == value
            &&& code == 5 && top == i ==> g.regs[i] + top * 0x100_0000_0000_0000 == value
            &&& code != 1 ==> g.ip == f.ip
            &&& code != 4 ==> g.flags == f.flags
            &&& code >= 6 || code == 1 || code == 4 ==> g.regs[i] == f.regs[i]
            &&& code == 0 && i != 0 ==> g.regs[i] == f.regs[i]
            &&& code == 2 && i != N_REGS - 1 ==> g.regs[i] == f.regs[i]
            &&& code == 3 && i != N_REGS - 2 ==> g.regs[i] == f.regs[i]
            &&& code == 5 && top != i ==> g.regs[i] == f.regs[i]
        }),
{
}

/// The differences of two frames: each register that differs, with its values, and no
/// other one.
pub proof fn lemma_changes_list_differences(a: Seq<u64>, b: Seq<u64>, n: nat, i: int)
    requires
        0 <= i < n <= usize::MAX,
    ensures
        a[i] != b[i] ==> changed_below(a, b, n).contains((i as usize, a[i], b[i])),
        forall|k: int|
            0 <= k < changed_below(a, b, n).len() ==> {
                let c = #[trigger] changed_below(a, b, n)[k];
                c.0 < n && c.1 == a[c.0 as int] && c.2 == b[c.0 as int] && c.1 != c.2
            },
    decreases n,
{
    let m = (n - 1) as nat;
    let rest = changed_below(a, b, m);
    let all = changed_below(a, b, n);
    if i < m {
        lemma_changes_list_differences(a, b, m, i);
        if a[i] != b[i] {
            let k = choose|k: int| 0 <= k < rest.len() && rest[k] == (i as usize, a[i], b[i]);
            assert(all[k] == rest[k]);
        }
    } else {
        if m > 0 {
            lemma_changes_list_differences(a, b, m, 0);
        }
        if a[i] != b[i] {
            assert(all[rest.len() as int] == (i as usize, a[i], b[i]));
        }
    }
    assert forall|k: int| 0 <= k < all.len() implies {
        let c = #[trigger] all[k];
        c.0 < n && c.1 == a[c.0 as int] && c.2 == b[c.0 as int] && c.1 != c.2
    } by {
        if k < rest.len() {
            assert(all[k] == rest[k]);
        }
    }
}

/// What the top four bits of a value say: below 8 they go, from 8 to 11 the value is
/// taken from 2^64, above that it stays.
pub proof fn lemma_tag_says(v: u64, low: u64, tag: u64)
    requires
        v == tag * 0x1000_0000_0000_0000 + low,
        low < 0x1000_0000_0000_0000,
        tag < 16,
    ensures
        tag < 8 ==> tagged(v) == low,
        8 <= tag < 12 ==> tagged(v) + v == 0x1_0000_0000_0000_0000,
        tag >= 12 ==> tagged(v) == v,
{
}

} // verus!
