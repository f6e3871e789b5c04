use vstd::prelude::*;

use crate::memory::{after_alloc, covers, FrameAllocator, FRAME_SIZE};
use crate::table::{
    backed_by, is_owned_word, is_table_word, page_va, IntermediateTable, Slot, TopLevelTable, index_at, ADDRESS_MASK,
    RECURSIVE_SLOT,
};
use crate::vm::{MapError, PhysicalAddress, VirtualAddress};

verus! {

/// The lowest address of the user stack page.
pub const USER_STACK: usize = 0x7FFF_F000;

/// The size of the user stack.
pub const USER_STACK_SIZE: usize = 4096;

/// The bits of the translation-base register that hold the table's physical address.
pub const TABLE_BASE_MASK: u64 = 0x0000_FFFF_FFFF_FFFE;

/// The general registers x0 to x30, in the order the trap entry saves them.
#[derive(Clone, Copy)]
pub struct Registers {
    pub x: [usize; 31],
}

/// The control registers that entering and suspending a context write and read: the user stack
/// pointer, the exception return address, the saved processor state and the translation base
/// of the user half.
#[derive(Clone, Copy, Debug, PartialEq, Eq)]
pub struct ControlRegisters {
    pub sp_el0: usize,
    pub elr_el1: usize,
    pub spsr_el1: u64,
    pub ttbr0_el1: usize,
}

/// The physical root of the table that a translation-base value selects.
pub open spec fn table_root(ttbr0: usize) -> usize {
    ((ttbr0 as u64) & TABLE_BASE_MASK) as usize
}

/// A table root that the translation-base register holds unchanged: below 2^48, bit 0 clear.
pub open spec fn root_fits(root: usize) -> bool {
    (root as u64) & TABLE_BASE_MASK == root as u64
}

/// A context that runs nowhere: its saved registers and its table's physical root.
#[derive(Clone, Copy)]
pub struct SuspendedContext {
    pub table: PhysicalAddress,
    pub registers: Registers,
    pub sp: VirtualAddress,
    pub elr: VirtualAddress,
    pub spsr: u64,
}

/// A context that runs: only the general registers; the rest lives in the control registers.
#[derive(Clone, Copy)]
pub struct ActiveContext {
    pub registers: Registers,
}

/// The control registers after `s` was entered.
pub open spec fn entered(s: SuspendedContext) -> ControlRegisters {
    ControlRegisters { sp_el0: s.sp.0, elr_el1: s.elr.0, spsr_el1: s.spsr, ttbr0_el1: s.table.0 }
}

/// The snapshot that suspending `a` takes while the control registers hold `cpu`.
pub open spec fn suspended(a: ActiveContext, cpu: ControlRegisters) -> SuspendedContext {
    SuspendedContext {
        table: PhysicalAddress(table_root(cpu.ttbr0_el1)),
        registers: a.registers,
        sp: VirtualAddress(cpu.sp_el0),
        elr: VirtualAddress(cpu.elr_el1),
        spsr: cpu.spsr_el1,
    }
}

/// Entering a context, suspending it and entering it again installs the same registers and the
/// same table root, for any registers and any table root that the translation base holds.
pub proof fn lemma_enter_suspend_enter(s: SuspendedContext)
    requires
        root_fits(s.table.0),
    ensures
        suspended(ActiveContext { registers: s.registers }, entered(s)) == s,
        entered(suspended(ActiveContext { registers: s.registers }, entered(s))) == entered(s),
{
    let t = s.table.0 as u64;
    assert((t & TABLE_BASE_MASK) == t);
    assert(table_root(s.table.0) == s.table.0);
}

/// What the translation base selects always fits it.
proof fn lemma_table_root_fits(ttbr0: usize)
    ensures
        root_fits(table_root(ttbr0)),
{
    let x = ttbr0 as u64;
    assert((((x & 0x0000_FFFF_FFFF_FFFEu64) as usize) as u64) & 0x0000_FFFF_FFFF_FFFEu64 == ((x
        & 0x0000_FFFF_FFFF_FFFEu64) as usize) as u64) by (bit_vector);
}

impl SuspendedContext {
    /// A fresh context: zeroed registers, and one frame from `frames` for its top-level table.
    pub fn new(frames: &mut FrameAllocator) -> (r: Self)
        requires
            old(frames).wf(),
            old(frames)@.len() > 0,
        ensures
            final(frames).wf(),
            final(frames).free_frames() == old(frames).free_frames() - 1,
            final(frames)@ == after_alloc(old(frames)@),
            r.table.0 == old(frames)@[0].start * 4096,
            r.registers.x@ == Seq::new(31, |i: int| 0usize),
            r.sp.0 == 0,
            r.elr.0 == 0,
            r.spsr == 0,
    {
        let table = frames.allocate();
        let r = SuspendedContext {
            table,
            registers: Registers { x: [0usize; 31] },
            sp: VirtualAddress(0),
            elr: VirtualAddress(0),
            spsr: 0,
        };
        assert(r.registers.x@ =~= Seq::new(31, |i: int| 0usize));
        r
    }

    /// Loads the snapshot into the control registers, switching to its table.
    pub fn enter(self, cpu: &mut ControlRegisters) -> (r: ActiveContext)
        ensures
            *final(cpu) == entered(self),
            r.registers == self.registers,
    {
        switch_table(cpu, self.table);
        cpu.sp_el0 = self.sp.0;
        cpu.elr_el1 = self.elr.0;
        cpu.spsr_el1 = self.spsr;
        ActiveContext { registers: self.registers }
    }
}

impl ActiveContext {
    /// Reads the control registers back into a snapshot, with the table that is installed.
    pub fn suspend(self, cpu: &ControlRegisters) -> (r: SuspendedContext)
        ensures
            r == suspended(self, *cpu),
    {
        SuspendedContext {
            table: get_current_user_table(cpu),
            registers: self.registers,
            sp: VirtualAddress(cpu.sp_el0),
            elr: VirtualAddress(cpu.elr_el1),
            spsr: cpu.spsr_el1,
        }
    }

    /// Makes user code resume at `virt`.
    pub fn set_entry_point(&self, cpu: &mut ControlRegisters, virt: VirtualAddress)
        ensures
            *final(cpu) == (ControlRegisters { elr_el1: virt.0, ..*old(cpu) }),
    {
        cpu.elr_el1 = virt.0;
    }

    /// Points the user stack pointer at `virt`.
    pub fn set_stack_pointer(&self, cpu: &mut ControlRegisters, virt: VirtualAddress)
        ensures
            *final(cpu) == (ControlRegisters { sp_el0: virt.0, ..*old(cpu) }),
    {
        cpu.sp_el0 = virt.0;
    }

    /// The eight system-call slots, x0 to x7.
    pub fn syscall_params(&self) -> (r: [usize; 8])
        ensures
            r@ == self.registers.x@.subrange(0, 8),
    {
        let x = &self.registers.x;
        let r = [x[0], x[1], x[2], x[3], x[4], x[5], x[6], x[7]];
        assert(r@ =~= self.registers.x@.subrange(0, 8));
        r
    }

    /// Writes the eight system-call slots back into x0 to x7.
    pub fn set_syscall_params(&mut self, params: [usize; 8])
        ensures
            final(self).registers.x@ == params@ + old(self).registers.x@.subrange(8, 31),
    {
        let mut i: usize = 0;
        while i < 8
            invariant
                i <= 8,
                self.registers.x@.len() == 31,
                forall|j: int| 0 <= j < i ==> #[trigger] self.registers.x@[j] == params@[j],
                forall|j: int| i <= j < 31 ==> #[trigger] self.registers.x@[j] == old(self).registers.x@[j],
            decreases 8 - i,
        {
            self.registers.x[i] = params[i];
            i += 1;
        }
        assert(self.registers.x@ =~= params@ + old(self).registers.x@.subrange(8, 31));
    }
}

/// Installs the table at `phys` as the user half's translation base.
pub fn switch_table(cpu: &mut ControlRegisters, phys: PhysicalAddress)
    ensures
        *final(cpu) == (ControlRegisters { ttbr0_el1: phys.0, ..*old(cpu) }),
{
    cpu.ttbr0_el1 = phys.0;
}

/// Wires the recursive self-mapping of `table`, a fresh top-level table, to its root `phys`.
pub fn init_user_table(table: &mut TopLevelTable, phys: PhysicalAddress) -> (r: Result<(), MapError>)
    requires
        old(table).wf(),
    ensures
        final(table).wf(),
        r is Ok <==> old(table).entry_at(RECURSIVE_SLOT as int)@ & 1 == 0,
        r is Err ==> *final(table) == *old(table),
        r is Ok ==> is_table_word(final(table).entry_at(RECURSIVE_SLOT as int)@),
        r is Ok ==> !is_owned_word(final(table).entry_at(RECURSIVE_SLOT as int)@),
        r is Ok ==> forall|w: usize|
            index_at(w, 0) != RECURSIVE_SLOT ==> #[trigger] final(table).missing(w) == old(table).missing(w),
        r is Ok ==> final(table).entry_at(RECURSIVE_SLOT as int)@ & ADDRESS_MASK == (phys.0 as u64) & ADDRESS_MASK,
        r is Ok ==> forall|w: usize|
            #[trigger] final(table).slot(w) == (if index_at(w, 0) == RECURSIVE_SLOT {
                Slot::Fixed
            } else {
                old(table).slot(w)
            }),
{
    table.insert_raw(phys, RECURSIVE_SLOT)
}

/// The physical root of the user table that the translation base selects now.
pub fn get_current_user_table(cpu: &ControlRegisters) -> (r: PhysicalAddress)
    ensures
        r.0 == table_root(cpu.ttbr0_el1),
{
    PhysicalAddress(((cpu.ttbr0_el1 as u64) & TABLE_BASE_MASK) as usize)
}

/// Either a saved snapshot, while the context is suspended, or the live general registers,
/// while it is active.
#[derive(Clone, Copy)]
pub enum ArchContext {
    Suspended(SuspendedContext),
    Active(ActiveContext),
}

impl ArchContext {
    /// Marks the state active and hands out the snapshot it held, if it was suspended; the
    /// registers of the snapshot become the live ones.
    pub fn take(&mut self) -> (r: Option<SuspendedContext>)
        ensures
            *final(self) is Active,
            *old(self) is Suspended ==> r == Some(old(self)->Suspended_0) && final(self)->Active_0.registers
                == old(self)->Suspended_0.registers,
            *old(self) is Active ==> r is None && *final(self) == *old(self),
    {
        match *self {
            ArchContext::Suspended(s) => {
                *self = ArchContext::Active(ActiveContext { registers: s.registers });
                Some(s)
            },
            ArchContext::Active(_) => None,
        }
    }
}

/// One address space and one register file: the kernel's unit of scheduling.
pub struct Context {
    pub id: usize,
    active: bool,
    arch: ArchContext,
    table: TopLevelTable,
}

/// Proof that the context with this id is the one that runs on this execution unit.
pub struct ActiveContextHandle {
    id: usize,
}

impl Context {
    /// The context's id.
    pub closed spec fn ident(&self) -> usize {
        self.id
    }

    /// The flag agrees with the state that is held, and the table is well formed.
    pub closed spec fn wf(&self) -> bool {
        &&& self.active == (self.arch is Active)
        &&& self.table.wf()
        &&& !self.active ==> root_fits(self.saved().table.0)
    }

    /// The context runs.
    pub closed spec fn active(&self) -> bool {
        self.active
    }

    /// The saved snapshot of a suspended context.
    pub closed spec fn saved(&self) -> SuspendedContext {
        match self.arch {
            ArchContext::Suspended(s) => s,
            ArchContext::Active(_) => arbitrary(),
        }
    }

    /// The live general registers of an active context.
    pub closed spec fn live(&self) -> ActiveContext {
        match self.arch {
            ArchContext::Active(a) => a,
            ArchContext::Suspended(_) => arbitrary(),
        }
    }

    /// The context's address space.
    pub closed spec fn space(&self) -> TopLevelTable {
        self.table
    }

    /// A suspended context with a fresh, empty address space whose root frame comes from
    /// `frames`.
    pub fn new(id: usize, frames: &mut FrameAllocator) -> (r: Context)
        requires
            old(frames).wf(),
            old(frames)@.len() > 0,
            root_fits((old(frames)@[0].start * 4096) as usize),
        ensures
            r.wf(),
            r.ident() == id,
            !r.active(),
            r.saved().table.0 == old(frames)@[0].start * 4096,
            r.saved().sp.0 == 0 && r.saved().elr.0 == 0 && r.saved().spsr == 0,
            forall|w: usize| #[trigger] r.space().slot(w) == Slot::Free,
            final(frames).wf(),
            final(frames).free_frames() == old(frames).free_frames() - 1,
            final(frames)@ == after_alloc(old(frames)@),
    {
        let s = SuspendedContext::new(frames);
        let table = IntermediateTable::new(0);
        Context { id, active: false, arch: ArchContext::Suspended(s), table }
    }

    /// Whether the context runs.
    pub fn is_active(&self) -> (r: bool)
        ensures
            r == self.active(),
    {
        self.active
    }

    /// Claims the context and loads its snapshot into the control registers. The caller
    /// guarantees that no other context runs on this unit.
    pub fn enter(&mut self, cpu: &mut ControlRegisters) -> (r: ActiveContextHandle)
        requires
            old(self).wf(),
            !old(self).active(),
        ensures
            final(self).wf(),
            final(self).active(),
            final(self).ident() == old(self).ident(),
            final(self).space() == old(self).space(),
            final(self).live().registers == old(self).saved().registers,
            *final(cpu) == entered(old(self).saved()),
            root_fits(old(self).saved().table.0),
            r.id() == old(self).ident(),
    {
        if let Some(s) = self.arch.take() {
            let a = s.enter(cpu);
            self.arch = ArchContext::Active(a);
        }
        self.active = true;
        ActiveContextHandle { id: self.id }
    }

    /// A handle on the running context, whose trapped registers are `state`.
    pub fn get_handle(&mut self, state: ActiveContext) -> (r: ActiveContextHandle)
        requires
            old(self).wf(),
            old(self).active(),
        ensures
            final(self).wf(),
            final(self).active(),
            final(self).ident() == old(self).ident(),
            final(self).space() == old(self).space(),
            final(self).live() == state,
            r.id() == old(self).ident(),
    {
        self.arch = ArchContext::Active(state);
        ActiveContextHandle { id: self.id }
    }
}

/// For any suspended context, entering it, suspending it and entering it again installs the same
/// registers and the same table root: a context's table root always fits the translation base.
pub proof fn lemma_context_round_trip(cx: Context)
    requires
        cx.wf(),
        !cx.active(),
    ensures
        suspended(ActiveContext { registers: cx.saved().registers }, entered(cx.saved())) == cx.saved(),
        entered(suspended(ActiveContext { registers: cx.saved().registers }, entered(cx.saved())))
            == entered(cx.saved()),
{
    lemma_enter_suspend_enter(cx.saved());
}

impl ActiveContextHandle {
    pub closed spec fn id(&self) -> usize {
        self.id
    }

    /// The id of the running context.
    pub fn context_id(&self) -> (r: usize)
        ensures
            r == self.id(),
    {
        self.id
    }

    /// The running context's general registers.
    pub fn arch(&self, cx: &Context) -> (r: ActiveContext)
        requires
            cx.wf(),
            cx.active(),
            cx.ident() == self.id(),
        ensures
            r == cx.live(),
    {
        match &cx.arch {
            ArchContext::Active(a) => *a,
            ArchContext::Suspended(_) => {
                assert(false);
                ActiveContext { registers: Registers { x: [0usize; 31] } }
            },
        }
    }

    /// Replaces the running context's general registers.
    pub fn set_arch(&self, cx: &mut Context, state: ActiveContext)
        requires
            old(cx).wf(),
            old(cx).active(),
            old(cx).ident() == self.id(),
        ensures
            final(cx).wf(),
            final(cx).active(),
            final(cx).ident() == old(cx).ident(),
            final(cx).space() == old(cx).space(),
            final(cx).live() == state,
    {
        cx.arch = ArchContext::Active(state);
    }

    /// Makes the running context resume at `virt`.
    pub fn set_entry_point(&self, cpu: &mut ControlRegisters, virt: VirtualAddress)
        ensures
            *final(cpu) == (ControlRegisters { elr_el1: virt.0, ..*old(cpu) }),
    {
        cpu.elr_el1 = virt.0;
    }

    /// The running context's address space. The handle is the only way to it, so the window
    /// onto the active table is used only while the context runs.
    pub fn table<'a>(&self, cx: &'a mut Context) -> (r: &'a mut TopLevelTable)
        requires
            old(cx).wf(),
            old(cx).ident() == self.id(),
        ensures
            *r == old(cx).space(),
            final(cx).space() == *final(r),
            final(cx).ident() == old(cx).ident(),
            final(cx).active() == old(cx).active(),
            final(cx).saved() == old(cx).saved(),
            final(cx).live() == old(cx).live(),
            final(r).wf() ==> final(cx).wf(),
    {
        &mut cx.table
    }

    /// First-time setup of a freshly entered context: wires the recursive self-mapping of its
    /// table to the root the translation base holds, maps the user stack page and points the
    /// stack pointer at its top.
    pub fn init(
        &self,
        cx: &mut Context,
        frames: &mut FrameAllocator,
        cpu: &mut ControlRegisters,
    ) -> (r: Result<(), MapError>)
        requires
            old(cx).wf(),
            old(cx).ident() == self.id(),
            old(frames).wf(),
            old(frames).free_frames() >= 1 + old(cx).space().missing(USER_STACK),
        ensures
            final(cx).wf(),
            final(frames).wf(),
            final(cx).ident() == old(cx).ident(),
            final(cx).active() == old(cx).active(),
            r is Ok <==> old(cx).space().entry_at(RECURSIVE_SLOT as int)@ & 1 == 0,
            r is Ok ==> final(cx).space().slot(USER_STACK) is Page,
            r is Ok ==> forall|w: usize| index_at(w, 0) == RECURSIVE_SLOT ==> #[trigger] final(cx).space().slot(w) == Slot::Fixed,
            r is Ok ==> final(cpu).sp_el0 == USER_STACK + USER_STACK_SIZE,
            r is Ok ==> is_table_word(final(cx).space().entry_at(RECURSIVE_SLOT as int)@),
            r is Ok ==> final(cx).space().entry_at(RECURSIVE_SLOT as int)@ & ADDRESS_MASK == (table_root(
                old(cpu).ttbr0_el1,
            ) as u64) & ADDRESS_MASK,
            r is Ok ==> exists|f: int|
                final(cx).space().slot(USER_STACK) == Slot::Page(((f * FRAME_SIZE) as u64) & ADDRESS_MASK)
                    && covers(old(frames)@, f) && !#[trigger] covers(final(frames)@, f),
    {
        let root = get_current_user_table(cpu);
        let res = init_user_table(&mut cx.table, root);
        if res.is_err() {
            return Err(MapError::AlreadyMapped);
        }
        let ghost wired = cx.table;
        assert(wired.entry_at(RECURSIVE_SLOT as int)@ & 1 == 1) by {
            let v = wired.entry_at(RECURSIVE_SLOT as int)@;
            assert(v & 3 == 3 ==> v & 1 == 1) by (bit_vector);
        }
        assert(index_at(USER_STACK, 0) == 0) by {
            assert(((0x7FFF_F000u64) >> 39u64) & 0x1FFu64 == 0) by (bit_vector);
        }
        assert(page_va(USER_STACK, 0) == USER_STACK);
        assert(crate::memory::frames_for(USER_STACK_SIZE as int) == 1);
        assert(crate::table::table_frames(cx.table, USER_STACK, 0) == 0);
        proof {
            crate::table::lemma_missing_bounds(cx.table, 0, page_va(USER_STACK, 0));
        }
        assert(cx.table.missing(USER_STACK) == old(cx).space().missing(USER_STACK));
        assert(crate::table::table_frames(cx.table, USER_STACK, 1) == cx.table.missing(USER_STACK));
        assert(!wired.self_mapped(page_va(USER_STACK, 0)));
        let res = cx.table.allocate(frames, VirtualAddress(USER_STACK), USER_STACK_SIZE);
        if res.is_err() {
            return Err(MapError::AlreadyMapped);
        }
        assert(cx.table.entry_at(RECURSIVE_SLOT as int) == wired.entry_at(RECURSIVE_SLOT as int));
        assert forall|w: usize| index_at(w, 0) == RECURSIVE_SLOT implies #[trigger] cx.table.slot(w) == Slot::Fixed by {
            assert(cx.table.self_mapped(w));
            crate::table::lemma_self_mapped_fixed(cx.table, w);
        }
        proof {
            let g = choose|g: Seq<int>| #[trigger] backed_by(cx.table, old(frames)@, frames@, USER_STACK, g, 1);
            assert(cx.table.slot(page_va(USER_STACK, 0)) == Slot::Page(((g[0] * FRAME_SIZE) as u64) & ADDRESS_MASK));
            assert(covers(old(frames)@, g[0]) && !covers(frames@, g[0]));
        }
        cpu.sp_el0 = USER_STACK + USER_STACK_SIZE;
        Ok(())
    }

    /// Suspends the running context `current` and enters `other` in its place. Nothing happens
    /// where `other` is the running context itself. Entering a context that already runs is a
    /// kernel bug, so the caller guarantees that `other` is suspended.
    pub fn switch_to(
        self,
        current: &mut Context,
        other: &mut Context,
        cpu: &mut ControlRegisters,
    ) -> (r: ActiveContextHandle)
        requires
            old(current).wf(),
            old(current).active(),
            old(current).ident() == self.id(),
            old(other).wf(),
            old(other).ident() != self.id() ==> !old(other).active(),
        ensures
            final(current).wf(),
            final(other).wf(),
            final(current).ident() == old(current).ident(),
            final(other).ident() == old(other).ident(),
            final(current).space() == old(current).space(),
            final(other).space() == old(other).space(),
            old(other).ident() == self.id() ==> {
                &&& r.id() == self.id()
                &&& *final(current) == *old(current)
                &&& *final(other) == *old(other)
                &&& *final(cpu) == *old(cpu)
            },
            old(other).ident() != self.id() ==> {
                &&& r.id() == old(other).ident()
                &&& !final(current).active()
                &&& final(current).saved() == suspended(old(current).live(), *old(cpu))
                &&& final(other).active()
                &&& final(other).live().registers == old(other).saved().registers
                &&& *final(cpu) == entered(old(other).saved())
            },
    {
        if other.id == self.id {
            return self;
        }
        let mine = self.arch(current);
        let snapshot = mine.suspend(cpu);
        proof {
            lemma_table_root_fits(cpu.ttbr0_el1);
        }
        let handle = other.enter(cpu);
        current.arch = ArchContext::Suspended(snapshot);
        current.active = false;
        handle
    }
}

} // verus!
