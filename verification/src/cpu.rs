//! The slice of hart state the kernel drives: the `satp` and `stvec`
//! control registers, the supervisor-timer interrupt enable, and a model
//! of the translation lookaside buffer as a list of cached translations.
//! Writing `satp` and fencing installs a page table: afterwards the
//! cached translations are gone and the hart translates through the new
//! table alone.
use vstd::prelude::*;

verus! {

/// One cached translation: a virtual page and the leaf entry the hardware
/// kept for it.
#[derive(Clone, Copy, Debug, PartialEq, Eq, Structural)]
pub struct TlbEntry {
    /// The virtual page number.
    pub vpn: u64,
    /// The cached leaf entry.
    pub pte: u64,
}

/// The modelled hart state.
pub struct Cpu {
    /// The address-translation control register.
    pub satp: u64,
    /// The trap-vector control register.
    pub stvec: u64,
    /// Whether the supervisor-timer interrupt is enabled.
    pub sie_stimer: bool,
    /// The cached translations currently held by the hardware.
    pub tlb: Vec<TlbEntry>,
}

/// What installing the token leaves behind: the token is in `satp`, no
/// stale translation survives the fence, and nothing else moved.
pub open spec fn activate_post(pre: Cpu, post: Cpu, token: u64) -> bool {
    &&& post.satp == token
    &&& post.tlb@ == Seq::<TlbEntry>::empty()
    &&& post.stvec == pre.stvec
    &&& post.sie_stimer == pre.sie_stimer
}

impl Cpu {
    /// The hart as the firmware hands it over: nothing installed, nothing
    /// cached, timer interrupt off.
    pub fn boot() -> (r: Cpu)
        ensures
            r.satp == 0,
            r.stvec == 0,
            !r.sie_stimer,
            r.tlb@ == Seq::<TlbEntry>::empty(),
    {
        Cpu { satp: 0, stvec: 0, sie_stimer: false, tlb: Vec::new() }
    }

    /// Write `satp` and fence: install the token and drop every cached
    /// translation.
    pub fn write_satp_and_fence(&mut self, token: u64)
        ensures
            activate_post(*old(self), *final(self), token),
    {
        self.satp = token;
        self.tlb.clear();
    }

    /// Point the trap vector at `va`.
    pub fn write_stvec(&mut self, va: u64)
        ensures
            final(self).stvec == va,
            final(self).satp == old(self).satp,
            final(self).sie_stimer == old(self).sie_stimer,
            final(self).tlb@ == old(self).tlb@,
    {
        self.stvec = va;
    }

    /// Enable the supervisor-timer interrupt.
    pub fn enable_timer_interrupt(&mut self)
        ensures
            final(self).sie_stimer,
            final(self).satp == old(self).satp,
            final(self).stvec == old(self).stvec,
            final(self).tlb@ == old(self).tlb@,
    {
        self.sie_stimer = true;
    }
}

/// Writing the same token twice is idempotent: the second install leaves
/// the translation state exactly where the first one put it.
pub proof fn lemma_activate_idempotent(c0: Cpu, c1: Cpu, c2: Cpu, token: u64)
    requires
        activate_post(c0, c1, token),
        activate_post(c1, c2, token),
    ensures
        c2.satp == c1.satp,
        c2.tlb@ == c1.tlb@,
        c2.stvec == c1.stvec,
        c2.sie_stimer == c1.sie_stimer,
{
}

} // verus!
