//! Capabilities, signal sets, process ids and resource limits.
use crate::consts::{
    INHERITABLE_MASK, KERNEL_HEAP_SIZE, NSIG, SIGKILL, SIGSTOP, SIG_DFL, SIG_IGN, UNMASKABLE,
    USER_STACK_SIZE,
};
use crate::util::words;
use vstd::prelude::*;

verus! {

/// The capabilities of a task.
#[derive(Clone, Copy, Debug, PartialEq, Eq, Structural)]
pub struct CapSet {
    /// Those that the task owns.
    pub bits: u64,
    /// Those that count in permission checks.
    pub effective: u64,
    /// Those that are kept when a program is started.
    pub ambient: u64,
}

proof fn lemma_bit_changes(v: u64, i: u64, j: u64)
    requires
        i < 64,
        j < 64,
    ensures
        words::bit(v | (1u64 << i), j) <==> words::bit(v, j) || i == j,
        words::bit(v & !(1u64 << i), j) <==> words::bit(v, j) && i != j,
{
    words::lemma_bitwise(v, 1u64 << i, j, i);
    words::lemma_bitwise(v, !(1u64 << i), j, i);
    words::lemma_bitwise(1u64 << i, 0, j, i);
}

/// The capability counts in permission checks.
pub open spec fn has_cap(c: CapSet, cap: u32) -> bool {
    cap < 64 && words::bit(c.effective, cap as u64)
}

impl CapSet {
    pub fn new() -> (r: Self)
        ensures
            r == (CapSet { bits: 0, effective: 0, ambient: 0 }),
    {
        Self { bits: 0, effective: 0, ambient: 0 }
    }

    pub fn full() -> (r: Self)
        ensures
            r == (CapSet { bits: u64::MAX, effective: u64::MAX, ambient: 0 }),
    {
        Self { bits: u64::MAX, effective: u64::MAX, ambient: 0 }
    }

    pub fn check(&self, cap: u32) -> (r: bool)
        ensures
            r == has_cap(*self, cap),
    {
        if cap >= 64 {
            return false;
        }
        proof {
            words::lemma_bit_test(self.effective, cap as u64);
        }
        (self.effective & (1u64 << cap)) != 0
    }

    /// Makes a capability owned and effective. Numbers from 64 on are ignored.
    pub fn grant(&mut self, cap: u32)
        ensures
            *final(self) == if cap < 64 {
                CapSet {
                    bits: old(self).bits | (1u64 << cap),
                    effective: old(self).effective | (1u64 << cap),
                    ..*old(self)
                }
            } else {
                *old(self)
            },
            forall|c: u64|
                c < 64 ==> (#[trigger] words::bit(final(self).effective, c) <==> words::bit(old(self).effective, c) || c == cap),
    {
        if cap < 64 {
            self.bits = self.bits | (1u64 << cap);
            self.effective = self.effective | (1u64 << cap);
        }
        proof {
            assert forall|c: u64| c < 64 implies (#[trigger] words::bit(self.effective, c) <==> words::bit(old(self).effective, c) || c == cap) by {
                lemma_bit_changes(old(self).effective, (cap % 64) as u64, c);
            }
        }
    }

    /// Takes a capability away.
    pub fn drop_cap(&mut self, cap: u32)
        ensures
            *final(self) == if cap < 64 {
                CapSet {
                    bits: old(self).bits & !(1u64 << cap),
                    effective: old(self).effective & !(1u64 << cap),
                    ..*old(self)
                }
            } else {
                *old(self)
            },
            forall|c: u64|
                c < 64 ==> (#[trigger] words::bit(final(self).effective, c) <==> words::bit(old(self).effective, c) && c != cap),
    {
        if cap < 64 {
            self.bits = self.bits & !(1u64 << cap);
            self.effective = self.effective & !(1u64 << cap);
        }
        proof {
            assert forall|c: u64| c < 64 implies (#[trigger] words::bit(self.effective, c) <==> words::bit(old(self).effective, c) && c != cap) by {
                lemma_bit_changes(old(self).effective, (cap % 64) as u64, c);
            }
        }
    }

    /// The set of a child: the parent's without the masked capabilities.
    pub fn inherit(parent: &CapSet) -> (r: CapSet)
        ensures
            r == (CapSet {
                bits: parent.bits & !INHERITABLE_MASK,
                effective: parent.effective & !INHERITABLE_MASK,
                ambient: parent.ambient,
            }),
            forall|c: u64|
                c < 64 ==> (#[trigger] words::bit(r.effective, c) <==> words::bit(
                    parent.effective,
                    c,
                ) && !words::bit(INHERITABLE_MASK, c)),
            forall|c: u64|
                c < 64 ==> (#[trigger] words::bit(r.bits, c) <==> words::bit(parent.bits, c)
                    && !words::bit(INHERITABLE_MASK, c)),
    {
        proof {
            assert forall|c: u64| c < 64 implies (#[trigger] words::bit(
                parent.effective & !INHERITABLE_MASK,
                c,
            ) <==> words::bit(parent.effective, c) && !words::bit(INHERITABLE_MASK, c)) by {
                words::lemma_bitwise(parent.effective, !INHERITABLE_MASK, c, 0);
                words::lemma_bitwise(INHERITABLE_MASK, 0, c, 0);
            }
            assert forall|c: u64| c < 64 implies (#[trigger] words::bit(
                parent.bits & !INHERITABLE_MASK,
                c,
            ) <==> words::bit(parent.bits, c) && !words::bit(INHERITABLE_MASK, c)) by {
                words::lemma_bitwise(parent.bits, !INHERITABLE_MASK, c, 0);
                words::lemma_bitwise(INHERITABLE_MASK, 0, c, 0);
            }
        }
        CapSet {
            bits: parent.bits & !INHERITABLE_MASK,
            effective: parent.effective & !INHERITABLE_MASK,
            ambient: parent.ambient,
        }
    }

    /// Whether any capability of the mask is effective.
    pub fn has_any(&self, mask: u64) -> (r: bool)
        ensures
            r == (self.effective & mask != 0),
    {
        (self.effective & mask) != 0
    }

    pub fn clear_ambient(&mut self)
        ensures
            *final(self) == (CapSet { ambient: 0, ..*old(self) }),
    {
        self.ambient = 0;
    }

    /// Makes an owned capability ambient; says whether it was owned.
    pub fn raise_ambient(&mut self, cap: u32) -> (r: bool)
        ensures
            r == (cap < 64 && words::bit(old(self).bits, cap as u64)),
            *final(self) == if r {
                CapSet { ambient: old(self).ambient | (1u64 << cap), ..*old(self) }
            } else {
                *old(self)
            },
    {
        if cap >= 64 {
            return false;
        }
        proof {
            words::lemma_bit_test(self.bits, cap as u64);
        }
        let bit: u64 = 1u64 << cap;
        if (self.bits & bit) != 0 {
            self.ambient = self.ambient | bit;
            true
        } else {
            false
        }
    }
}

/// A granted capability is there, a dropped one is not, and no other is touched.
pub proof fn lemma_grant_and_drop(c: CapSet, cap: u32, other: u32)
    requires
        cap < 64,
        other < 64,
    ensures
        has_cap(CapSet { effective: c.effective | (1u64 << cap), ..c }, other) == (has_cap(c, other)
            || other == cap),
        has_cap(CapSet { effective: c.effective & !(1u64 << cap), ..c }, other) == (has_cap(
            c,
            other,
        ) && other != cap),
{
    lemma_bit_changes(c.effective, cap as u64, other as u64);
}

/// How a signal is handled.
#[derive(Clone, Copy, Debug, PartialEq, Eq, Structural)]
pub struct SigAction {
    /// The address of the handler, or one of the two special values.
    pub handler: usize,
    pub flags: u32,
    /// Signals that are blocked while the handler runs.
    pub mask: u64,
}

/// Pending and blocked signals as bit sets, and an action for each signal.
pub struct SigSet {
    pub pending: u64,
    pub blocked: u64,
    pub actions: Vec<SigAction>,
}

/// The signals that could be delivered. Signal 0 is none.
pub open spec fn actionable(pending: u64, blocked: u64) -> u64 {
    (pending & !blocked) & !1u64
}

/// The action at the start of a program: a handler is forgotten.
pub open spec fn reset_action(a: SigAction) -> SigAction {
    if a.handler != SIG_DFL && a.handler != SIG_IGN {
        SigAction { handler: SIG_DFL, ..a }
    } else {
        a
    }
}

proof fn lemma_actionable(pending: u64, blocked: u64, s: u64)
    requires
        s < 64,
    ensures
        words::bit(actionable(pending, blocked), s) <==> s > 0 && words::bit(pending, s)
            && !words::bit(blocked, s),
{
    words::lemma_bitwise(pending & !blocked, !1u64, s, 0);
    words::lemma_bitwise(pending, !blocked, s, 0);
    words::lemma_bitwise(blocked, 0, s, 0);
    words::lemma_bitwise(1, 0, s, 0);
}

impl SigSet {
    pub open spec fn wf(&self) -> bool {
        self.actions@.len() == NSIG + 1
    }

    pub fn new() -> (r: Self)
        ensures
            r.wf(),
            r.pending == 0,
            r.blocked == 0,
            r.actions@ == Seq::new(
                (NSIG + 1) as nat,
                |i: int| SigAction { handler: SIG_DFL, flags: 0, mask: 0 },
            ),
    {
        let mut actions: Vec<SigAction> = Vec::new();
        let mut i: u32 = 0;
        while i <= NSIG
            invariant
                i <= NSIG + 1,
                actions@ == Seq::new(
                    i as nat,
                    |k: int| SigAction { handler: SIG_DFL, flags: 0, mask: 0 },
                ),
            decreases NSIG + 1 - i,
        {
            actions.push(SigAction { handler: SIG_DFL, flags: 0, mask: 0 });
            i = i + 1;
            assert(actions@ =~= Seq::new(
                i as nat,
                |k: int| SigAction { handler: SIG_DFL, flags: 0, mask: 0 },
            ));
        }
        Self { pending: 0, blocked: 0, actions }
    }

    pub fn sig_pending(&self, signo: u32) -> (r: bool)
        requires
            signo < 64,
        ensures
            r == words::bit(self.pending, signo as u64),
    {
        proof {
            words::lemma_bit_test(self.pending, signo as u64);
        }
        (self.pending & (1u64 << signo)) != 0
    }

    pub fn sig_raise(&mut self, signo: u32)
        ensures
            final(self).pending == if signo < NSIG {
                old(self).pending | (1u64 << signo)
            } else {
                old(self).pending
            },
            final(self).blocked == old(self).blocked,
            final(self).actions == old(self).actions,
            forall|s: u64|
                s < 64 ==> (#[trigger] words::bit(final(self).pending, s) <==> words::bit(old(self).pending, s) || s == signo),
    {
        if signo < NSIG {
            self.pending = self.pending | (1u64 << signo);
        }
        proof {
            assert forall|s: u64| s < 64 implies (#[trigger] words::bit(self.pending, s) <==> words::bit(old(self).pending, s) || s == signo) by {
                words::lemma_bitwise(old(self).pending, 1u64 << signo, s, (signo % 64) as u64);
                words::lemma_bitwise(0, 0, s, (signo % 64) as u64);
            }
        }
    }

    /// The pending signals that are not blocked.
    pub fn coalesce_pending(&mut self) -> (r: u64)
        ensures
            r == actionable(old(self).pending, old(self).blocked),
            *final(self) == *old(self),
            forall|s: u64|
                s < 64 ==> (#[trigger] words::bit(r, s) <==> s > 0 && words::bit(
                    old(self).pending,
                    s,
                ) && !words::bit(old(self).blocked, s)),
    {
        let active: u64 = self.pending & !self.blocked;
        proof {
            assert forall|s: u64| s < 64 implies (#[trigger] words::bit(
                actionable(self.pending, self.blocked),
                s,
            ) <==> s > 0 && words::bit(self.pending, s) && !words::bit(self.blocked, s)) by {
                lemma_actionable(self.pending, self.blocked, s);
            }
        }
        active & !1u64
    }

    pub fn sig_clear(&mut self, signo: u32)
        ensures
            final(self).pending == if signo < NSIG {
                old(self).pending & !(1u64 << signo)
            } else {
                old(self).pending
            },
            final(self).blocked == old(self).blocked,
            final(self).actions == old(self).actions,
            forall|s: u64|
                s < 64 ==> (#[trigger] words::bit(final(self).pending, s) <==> words::bit(old(self).pending, s) && s != signo),
    {
        if signo < NSIG {
            self.pending = self.pending & !(1u64 << signo);
        }
        proof {
            assert forall|s: u64| s < 64 implies (#[trigger] words::bit(self.pending, s) <==> words::bit(old(self).pending, s) && s != signo) by {
                words::lemma_bitwise(old(self).pending, !(1u64 << signo), s, 0);
                words::lemma_bitwise(1u64 << signo, 0, s, (signo % 64) as u64);
            }
        }
    }

    /// Blocks more signals, but never the two that cannot be blocked.
    pub fn sig_block(&mut self, mask: u64)
        ensures
            final(self).blocked == (old(self).blocked | mask) & !UNMASKABLE,
            final(self).pending == old(self).pending,
            final(self).actions == old(self).actions,
            forall|s: u64|
                s < 64 ==> (#[trigger] words::bit(final(self).blocked, s) <==> (words::bit(old(self).blocked, s) || words::bit(mask, s)) && s != SIGKILL && s != SIGSTOP),
    {
        self.blocked = (self.blocked | mask) & !UNMASKABLE;
        proof {
            assert forall|s: u64| s < 64 implies (#[trigger] words::bit(self.blocked, s) <==> (words::bit(old(self).blocked, s) || words::bit(mask, s)) && s != SIGKILL && s != SIGSTOP) by {
                words::lemma_bitwise(old(self).blocked | mask, !UNMASKABLE, s, 0);
                words::lemma_bitwise(old(self).blocked, mask, s, 0);
                words::lemma_bitwise(UNMASKABLE, 0, s, 0);
            }
        }
    }

    pub fn sig_unblock(&mut self, mask: u64)
        ensures
            final(self).blocked == old(self).blocked & !mask,
            final(self).pending == old(self).pending,
            final(self).actions == old(self).actions,
            forall|s: u64|
                s < 64 ==> (#[trigger] words::bit(final(self).blocked, s) <==> words::bit(old(self).blocked, s) && !words::bit(mask, s)),
    {
        self.blocked = self.blocked & !mask;
        proof {
            assert forall|s: u64| s < 64 implies (#[trigger] words::bit(self.blocked, s) <==> words::bit(old(self).blocked, s) && !words::bit(mask, s)) by {
                words::lemma_bitwise(old(self).blocked, !mask, s, 0);
                words::lemma_bitwise(mask, 0, s, 0);
            }
        }
    }

    /// Blocks exactly these signals, but never the two that cannot be blocked.
    pub fn sig_setmask(&mut self, mask: u64)
        ensures
            final(self).blocked == mask & !UNMASKABLE,
            final(self).pending == old(self).pending,
            final(self).actions == old(self).actions,
            forall|s: u64|
                s < 64 ==> (#[trigger] words::bit(final(self).blocked, s) <==> words::bit(mask, s) && s != SIGKILL && s != SIGSTOP),
    {
        self.blocked = mask & !UNMASKABLE;
        proof {
            assert forall|s: u64| s < 64 implies (#[trigger] words::bit(self.blocked, s) <==> words::bit(mask, s) && s != SIGKILL && s != SIGSTOP) by {
                words::lemma_bitwise(mask, !UNMASKABLE, s, 0);
                words::lemma_bitwise(UNMASKABLE, 0, s, 0);
            }
        }
    }

    /// The lowest signal that is pending and not blocked.
    pub fn deliverable(&self) -> (r: Option<u32>)
        ensures
            ({
                let a = actionable(self.pending, self.blocked);
                match r {
                    None => a == 0,
                    Some(s) => {
                        &&& s < 64
                        &&& words::bit(a, s as u64)
                        &&& forall|j: u64| j < s ==> !#[trigger] words::bit(a, j)
                    },
                }
            }),
            match r {
                None => forall|s: u64|
                    0 < s < 64 && words::bit(self.pending, s) ==> #[trigger] words::bit(
                        self.blocked,
                        s,
                    ),
                Some(x) => {
                    &&& 0 < x < 64
                    &&& words::bit(self.pending, x as u64)
                    &&& !words::bit(self.blocked, x as u64)
                    &&& forall|s: u64|
                        0 < s < x && words::bit(self.pending, s) ==> #[trigger] words::bit(
                            self.blocked,
                            s,
                        )
                },
            },
    {
        let a: u64 = (self.pending & !self.blocked) & !1u64;
        proof {
            assert forall|s: u64| s < 64 implies (#[trigger] words::bit(a, s) <==> s > 0
                && words::bit(self.pending, s) && !words::bit(self.blocked, s)) by {
                lemma_actionable(self.pending, self.blocked, s);
            }
        }
        if a == 0 {
            proof {
                assert forall|s: u64| 0 < s < 64 && words::bit(
                    self.pending,
                    s,
                ) implies #[trigger] words::bit(self.blocked, s) by {
                    assert(!words::bit(a, s)) by {
                        words::lemma_bitwise(0, 0, s, 0);
                    }
                }
            }
            return None;
        }
        proof {
            broadcast use vstd::std_specs::bits::axiom_u64_trailing_zeros;

            assert(vstd::std_specs::bits::u64_trailing_zeros(a) < 64);
            let x = vstd::std_specs::bits::u64_trailing_zeros(a);
            assert(words::bit(a, x as u64));
            assert forall|s: u64| 0 < s < x && words::bit(
                self.pending,
                s,
            ) implies #[trigger] words::bit(self.blocked, s) by {
                assert(!words::bit(a, s));
            }
        }
        Some(a.trailing_zeros())
    }

    /// Sets the action of a signal, except for the two that cannot be handled.
    /// There is no signal 0.
    pub fn set_action(&mut self, signo: u32, action: SigAction)
        requires
            old(self).wf(),
        ensures
            final(self).wf(),
            final(self).pending == old(self).pending,
            final(self).blocked == old(self).blocked,
            final(self).actions@ == if 0 < signo < NSIG && signo != SIGKILL && signo != SIGSTOP {
                old(self).actions@.update(signo as int, action)
            } else {
                old(self).actions@
            },
    {
        if signo > 0 && signo < NSIG && signo != SIGKILL && signo != SIGSTOP {
            self.actions.set(signo as usize, action);
        }
    }

    /// The action of a signal; that of signal 0 for numbers that have none.
    pub fn get_action(&self, signo: u32) -> (r: &SigAction)
        requires
            self.actions@.len() > 0,
        ensures
            *r == if signo < self.actions@.len() {
                self.actions@[signo as int]
            } else {
                self.actions@[0]
            },
    {
        if (signo as usize) < self.actions.len() {
            &self.actions[signo as usize]
        } else {
            &self.actions[0]
        }
    }

    pub fn is_ignored(&self, signo: u32) -> (r: bool)
        ensures
            r == (signo < self.actions@.len() && self.actions@[signo as int].handler == SIG_IGN),
    {
        if (signo as usize) < self.actions.len() {
            self.actions[signo as usize].handler == SIG_IGN
        } else {
            false
        }
    }

    /// Forgets every handler, as at the start of a program. Signal 0 is left alone.
    pub fn clear_non_caught(&mut self)
        ensures
            final(self).pending == old(self).pending,
            final(self).blocked == old(self).blocked,
            final(self).actions@ == Seq::new(
                old(self).actions@.len(),
                |i: int|
                    if i == 0 {
                        old(self).actions@[i]
                    } else {
                        reset_action(old(self).actions@[i])
                    },
            ),
    {
        let ghost a = self.actions@;
        let mut i: usize = 1;
        while i < self.actions.len()
            invariant
                1 <= i,
                self.actions@.len() == a.len(),
                a == old(self).actions@,
                self.pending == old(self).pending,
                self.blocked == old(self).blocked,
                forall|k: int|
                    0 <= k < i && k < a.len() ==> #[trigger] self.actions@[k] == if k == 0 {
                        a[k]
                    } else {
                        reset_action(a[k])
                    },
                forall|k: int| i <= k < a.len() ==> #[trigger] self.actions@[k] == a[k],
            decreases self.actions@.len() - i,
        {
            let mut action: SigAction = self.actions[i];
            if action.handler != SIG_DFL && action.handler != SIG_IGN {
                action.handler = SIG_DFL;
                self.actions.set(i, action);
            }
            i = i + 1;
        }
        assert(self.actions@ =~= Seq::new(
            a.len(),
            |i: int|
                if i == 0 {
                    a[i]
                } else {
                    reset_action(a[i])
                },
        ));
    }
}

/// The two unmaskable signals get through, whatever is blocked.
pub proof fn lemma_kill_cannot_be_blocked(blocked: u64, mask: u64)
    ensures
        !words::bit((blocked | mask) & !UNMASKABLE, SIGKILL as u64),
        !words::bit((blocked | mask) & !UNMASKABLE, SIGSTOP as u64),
        !words::bit(mask & !UNMASKABLE, SIGKILL as u64),
        !words::bit(mask & !UNMASKABLE, SIGSTOP as u64),
{
    let a = blocked | mask;
    assert((a & !0x8_0200u64) >> 9 & 1 != 1 && (a & !0x8_0200u64) >> 19 & 1 != 1 && (mask
        & !0x8_0200u64) >> 9 & 1 != 1 && (mask & !0x8_0200u64) >> 19 & 1 != 1) by (bit_vector);
}

/// A raised signal that is not blocked is delivered, unless a lower one is; once it
/// is cleared it is not.
pub proof fn lemma_raise_and_clear(pending: u64, signo: u32, other: u32)
    requires
        signo < 64,
        other < 64,
    ensures
        words::bit(pending | (1u64 << signo), other as u64) == (words::bit(pending, other as u64)
            || other == signo),
        words::bit(pending & !(1u64 << signo), other as u64) == (words::bit(pending, other as u64)
            && other != signo),
{
    lemma_bit_changes(pending, signo as u64, other as u64);
}

/// A process id.
#[derive(Clone, Copy, Debug, PartialEq, Eq, PartialOrd, Ord, Structural)]
pub struct Pid(pub u64);

impl Pid {
    pub const INIT: u64 = 1;

    pub fn new() -> (r: Self)
        ensures
            r == Pid(0),
    {
        Pid(0)
    }

    pub fn get(&self) -> (r: u64)
        ensures
            r == self.0,
    {
        self.0
    }

    pub fn is_init(&self) -> (r: bool)
        ensures
            r == (self.0 == 1),
    {
        self.0 == Self::INIT
    }
}

/// What a process may use.
#[derive(Clone, Copy, Debug, PartialEq, Eq, Structural)]
pub struct ResourceLimits {
    pub max_fds: u64,
    pub max_threads: u64,
    pub max_stack_size: u64,
    pub max_data_size: u64,
    pub max_file_size: u64,
    pub max_mappings: u64,
    pub cpu_time_limit: u64,
}

/// The limit of a resource by its number.
pub open spec fn limit_of(l: ResourceLimits, resource: u64) -> Option<u64> {
    if resource == 0 {
        Some(l.cpu_time_limit)
    } else if resource == 1 {
        Some(l.max_file_size)
    } else if resource == 2 {
        Some(l.max_data_size)
    } else if resource == 3 {
        Some(l.max_stack_size)
    } else if resource == 7 {
        Some(l.max_fds)
    } else {
        None
    }
}

impl ResourceLimits {
    pub fn default_limits() -> (r: Self)
        ensures
            r == (ResourceLimits {
                max_fds: 1024,
                max_threads: 256,
                max_stack_size: (USER_STACK_SIZE * 4) as u64,
                max_data_size: KERNEL_HEAP_SIZE,
                max_file_size: u64::MAX,
                max_mappings: 65536,
                cpu_time_limit: 0,
            }),
    {
        Self {
            max_fds: 1024,
            max_threads: 256,
            max_stack_size: USER_STACK_SIZE * 4,
            max_data_size: KERNEL_HEAP_SIZE,
            max_file_size: u64::MAX,
            max_mappings: 65536,
            cpu_time_limit: 0,
        }
    }

    pub fn check_fd(&self, current: u64) -> (r: bool)
        ensures
            r == (current < self.max_fds),
    {
        current < self.max_fds
    }

    pub fn check_threads(&self, current: u64) -> (r: bool)
        ensures
            r == (current < self.max_threads),
    {
        current < self.max_threads
    }

    pub fn check_stack(&self, requested: u64) -> (r: bool)
        ensures
            r == (requested <= self.max_stack_size),
    {
        requested <= self.max_stack_size
    }

    pub fn check_data(&self, requested: u64) -> (r: bool)
        ensures
            r == (requested <= self.max_data_size),
    {
        requested <= self.max_data_size
    }

    pub fn check_filesize(&self, requested: u64) -> (r: bool)
        ensures
            r == (requested <= self.max_file_size),
    {
        requested <= self.max_file_size
    }

    pub fn check_mappings(&self, current: u64) -> (r: bool)
        ensures
            r == (current < self.max_mappings),
    {
        current < self.max_mappings
    }

    pub fn inherit(&self) -> (r: Self)
        ensures
            r == *self,
    {
        *self
    }

    /// Sets the limit of a resource, if there is a resource of that number.
    pub fn set_limit(&mut self, resource: u64, value: u64) -> (r: Result<(), &'static str>)
        ensures
            r == if limit_of(*old(self), resource) is Some {
                Ok::<(), &'static str>(())
            } else {
                Err("einval")
            },
            *final(self) == if resource == 0 {
                ResourceLimits { cpu_time_limit: value, ..*old(self) }
            } else if resource == 1 {
                ResourceLimits { max_file_size: value, ..*old(self) }
            } else if resource == 2 {
                ResourceLimits { max_data_size: value, ..*old(self) }
            } else if resource == 3 {
                ResourceLimits { max_stack_size: value, ..*old(self) }
            } else if resource == 7 {
                ResourceLimits { max_fds: value, ..*old(self) }
            } else {
                *old(self)
            },
    {
        if resource == 0 {
            self.cpu_time_limit = value;
        } else if resource == 1 {
            self.max_file_size = value;
        } else if resource == 2 {
            self.max_data_size = value;
        } else if resource == 3 {
            self.max_stack_size = value;
        } else if resource == 7 {
            self.max_fds = value;
        } else {
            return Err("einval");
        }
        Ok(())
    }

    pub fn get_limit(&self, resource: u64) -> (r: Result<u64, &'static str>)
        ensures
            r == match limit_of(*self, resource) {
                Some(v) => Ok::<u64, &'static str>(v),
                None => Err("einval"),
            },
    {
        if resource == 0 {
            Ok(self.cpu_time_limit)
        } else if resource == 1 {
            Ok(self.max_file_size)
        } else if resource == 2 {
            Ok(self.max_data_size)
        } else if resource == 3 {
            Ok(self.max_stack_size)
        } else if resource == 7 {
            Ok(self.max_fds)
        } else {
            Err("einval")
        }
    }

    /// Whether any of the three is above its limit.
    pub fn exceeds_any(&self, fds: u64, threads: u64, stack: u64) -> (r: bool)
        ensures
            r == (fds > self.max_fds || threads > self.max_threads || stack > self.max_stack_size),
    {
        fds > self.max_fds || threads > self.max_threads || stack > self.max_stack_size
    }
}

/// A program that starts keeps what is ignored and forgets every handler; nothing else
/// of an action changes.
pub proof fn lemma_start_forgets_handlers(a: SigAction)
    ensures
        reset_action(a).handler == SIG_DFL || reset_action(a).handler == SIG_IGN,
        reset_action(a).handler == SIG_IGN <==> a.handler == SIG_IGN,
        reset_action(a).flags == a.flags,
        reset_action(a).mask == a.mask,
{
}

/// A signal is delivered exactly if it was raised and is not blocked; blocking one
/// signal holds back no other.
pub proof fn lemma_delivery_is_per_signal(pending: u64, blocked: u64, s: u32, other: u32)
    requires
        0 < s < 64,
        0 < other < 64,
    ensures
        words::bit(actionable(pending, blocked), s as u64) <==> words::bit(pending, s as u64)
            && !words::bit(blocked, s as u64),
        words::bit(actionable(pending | (1u64 << s), blocked), s as u64) <==> !words::bit(
            blocked,
            s as u64,
        ),
        s != other ==> (words::bit(actionable(pending, blocked | (1u64 << s)), other as u64)
            <==> words::bit(actionable(pending, blocked), other as u64)),
        !words::bit(actionable(pending, blocked | (1u64 << s)), s as u64),
        !words::bit(actionable(pending, blocked), 0),
{
    lemma_actionable(pending, blocked, s as u64);
    lemma_actionable(pending, blocked, other as u64);
    lemma_actionable(pending, blocked, 0);
    lemma_actionable(pending | (1u64 << s), blocked, s as u64);
    lemma_actionable(pending, blocked | (1u64 << s), s as u64);
    lemma_actionable(pending, blocked | (1u64 << s), other as u64);
    lemma_bit_changes(pending, s as u64, s as u64);
    lemma_bit_changes(blocked, s as u64, s as u64);
    lemma_bit_changes(blocked, s as u64, other as u64);
}

/// The limits that can be asked for: processor time, file size, data, stack and the
/// number of descriptors.
pub proof fn lemma_limits_by_number(l: ResourceLimits, resource: u64)
    ensures
        limit_of(l, 0) == Some(l.cpu_time_limit),
        limit_of(l, 1) == Some(l.max_file_size),
        limit_of(l, 2) == Some(l.max_data_size),
        limit_of(l, 3) == Some(l.max_stack_size),
        limit_of(l, 7) == Some(l.max_fds),
        limit_of(l, resource) is Some <==> resource <= 3 || resource == 7,
{
}

} // verus!
