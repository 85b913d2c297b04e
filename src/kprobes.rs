use vstd::prelude::*;

use crate::arch::{
    get_insn_length, get_insn_type, inject_breakpoints, insn_length_of, insn_type_of,
    is_breakpoint_pattern, Memory, SingleStepType, BREAKPOINT_LENGTH, PAGE_SIZE,
};
use crate::breakpoint::BreakpointAllocator;
use crate::error::SysError;

verus! {

/// One armed software breakpoint.
#[derive(Clone, Copy, Debug, PartialEq, Eq, Structural)]
pub struct KProbe {
    /// The probed kernel address.
    pub addr: usize,
    /// The slot holding the displaced instruction followed by a breakpoint.
    pub insn_buf: usize,
    /// Byte length of the displaced instruction.
    pub insn_len: usize,
    /// Single-step traversals begun and not yet completed.
    pub active_count: usize,
    /// The displaced instruction is emulated instead of executed.
    pub emulate: bool,
    /// A post-handler is installed.
    pub has_post_handler: bool,
    /// Word passed through to the handlers.
    pub user_data: usize,
}

impl KProbe {
    /// A probe at `addr` whose displaced instruction goes to slot `insn_buf`;
    /// its length is decoded from memory.
    pub fn new(mem: &Memory, addr: usize, insn_buf: usize, emulate: bool, args: KProbeArgs) -> (r: Self)
        requires
            mem.in_range(addr as int, 1),
        ensures
            r == (KProbe {
                addr,
                insn_buf,
                insn_len: insn_length_of(mem.bytes@[addr - mem.base]),
                active_count: 0,
                emulate,
                has_post_handler: args.has_post_handler,
                user_data: args.user_data,
            }),
    {
        KProbe {
            addr,
            insn_buf,
            insn_len: get_insn_length(mem, addr),
            active_count: 0,
            emulate,
            has_post_handler: args.has_post_handler,
            user_data: args.user_data,
        }
    }

    /// Copies the probed instruction into the buffer, ends the buffer with a
    /// breakpoint, and overwrites the probed instruction with breakpoints.
    pub fn arm(&self, mem: &mut Memory)
        requires
            self.insn_len % 2 == 0,
            old(mem).in_range(self.addr as int, self.insn_len as int),
            old(mem).in_range(self.insn_buf as int, self.insn_len + BREAKPOINT_LENGTH),
            self.addr + self.insn_len <= self.insn_buf || self.insn_buf + self.insn_len + BREAKPOINT_LENGTH
                <= self.addr,
        ensures
            final(mem).base == old(mem).base,
            final(mem).bytes@.len() == old(mem).bytes@.len(),
            final(mem).range(self.insn_buf as int, self.insn_len as int) == old(mem).range(
                self.addr as int,
                self.insn_len as int,
            ),
            is_breakpoint_pattern(final(mem).range(post_addr(*self), BREAKPOINT_LENGTH as int)),
            is_breakpoint_pattern(final(mem).range(self.addr as int, self.insn_len as int)),
            forall|k: int|
                0 <= k < old(mem).bytes@.len() && !(self.addr - old(mem).base <= k < self.addr - old(mem).base
                    + self.insn_len) && !(self.insn_buf - old(mem).base <= k < self.insn_buf - old(mem).base
                    + self.insn_len + BREAKPOINT_LENGTH) ==> final(mem).bytes@[k] == old(mem).bytes@[k],
    {
        mem.byte_copy(self.insn_buf, self.addr, self.insn_len);
        let ghost mem2 = *mem;
        inject_breakpoints(mem, self.insn_buf + self.insn_len, None);
        let ghost mem3 = *mem;
        inject_breakpoints(mem, self.addr, Some(self.insn_len));
        proof {
            assert(mem.range(self.insn_buf as int, self.insn_len as int) =~= mem2.range(
                self.insn_buf as int,
                self.insn_len as int,
            ));
            assert(mem.range(post_addr(*self), 2) =~= mem3.range(post_addr(*self), 2));
        }
    }

    /// Writes the displaced instruction back over the probed address.
    pub fn disarm(&self, mem: &mut Memory)
        requires
            old(mem).in_range(self.addr as int, self.insn_len as int),
            old(mem).in_range(self.insn_buf as int, self.insn_len as int),
        ensures
            final(mem).base == old(mem).base,
            final(mem).range(self.addr as int, self.insn_len as int) == old(mem).range(
                self.insn_buf as int,
                self.insn_len as int,
            ),
            crate::arch::same_outside(
                old(mem).bytes@,
                final(mem).bytes@,
                self.addr - old(mem).base,
                self.insn_len as int,
            ),
    {
        mem.byte_copy(self.addr, self.insn_buf, self.insn_len);
    }
}

/// Registration arguments; the handlers themselves are kept by the caller.
#[derive(Clone, Copy, Debug)]
pub struct KProbeArgs {
    pub has_post_handler: bool,
    pub user_data: usize,
}

/// What the trap path must do after a breakpoint exception at some address.
#[derive(Clone, Copy, Debug, PartialEq, Eq, Structural)]
pub enum TrapAction {
    /// The address belongs to no probe.
    NotHandled,
    /// Run the pre-handler, emulate the instruction displaced into `buf` as
    /// if it ran at `addr`, then run the post-handler if there is one.
    Emulate { addr: usize, buf: usize, user_data: usize, has_post_handler: bool },
    /// Run the pre-handler, then resume at `resume_pc` to execute the
    /// displaced instruction.
    SingleStep { addr: usize, user_data: usize, resume_pc: usize },
    /// The displaced instruction of the probe at `addr` has run: run the
    /// post-handler if there is one and resume at `resume_pc`.
    PostStep { addr: usize, user_data: usize, has_post_handler: bool, resume_pc: usize },
}

pub open spec fn has_probe(probes: Seq<KProbe>, addr: usize) -> bool {
    exists|i: int| 0 <= i < probes.len() && #[trigger] probes[i].addr == addr
}

pub open spec fn probe_index(probes: Seq<KProbe>, addr: usize) -> int {
    choose|i: int| 0 <= i < probes.len() && #[trigger] probes[i].addr == addr
}

pub open spec fn has_key(amap: Seq<(usize, usize)>, k: usize) -> bool {
    exists|j: int| 0 <= j < amap.len() && #[trigger] amap[j].0 == k
}

pub open spec fn key_index(amap: Seq<(usize, usize)>, k: usize) -> int {
    choose|j: int| 0 <= j < amap.len() && #[trigger] amap[j].0 == k
}

/// Address of the breakpoint that follows the displaced instruction of `p`.
pub open spec fn post_addr(p: KProbe) -> int {
    p.insn_buf + p.insn_len
}

/// The probe table and the reverse map agree: entry `i` of the reverse map
/// sends the post-step breakpoint of probe `i` to its address; probe
/// addresses and reverse keys are each distinct and never meet.
pub open spec fn tables_agree(probes: Seq<KProbe>, amap: Seq<(usize, usize)>) -> bool {
    &&& amap.len() == probes.len()
    &&& forall|i: int|
        0 <= i < probes.len() ==> amap[i].0 == post_addr(#[trigger] probes[i]) && amap[i].1
            == probes[i].addr
    &&& forall|i: int, j: int|
        0 <= i < probes.len() && 0 <= j < probes.len() && i != j ==> probes[i].addr
            != probes[j].addr && amap[i].0 != amap[j].0
    &&& forall|i: int, j: int|
        0 <= i < probes.len() && 0 <= j < probes.len() ==> probes[i].addr != amap[j].0
}

/// Effect of a breakpoint trap at `pc` on the probe table, and the action owed.
pub open spec fn trap_spec(probes: Seq<KProbe>, amap: Seq<(usize, usize)>, pc: usize) -> (
    Seq<KProbe>,
    TrapAction,
) {
    if has_probe(probes, pc) {
        let i = probe_index(probes, pc);
        let p = probes[i];
        if p.emulate {
            (
                probes,
                TrapAction::Emulate {
                    addr: pc,
                    buf: p.insn_buf,
                    user_data: p.user_data,
                    has_post_handler: p.has_post_handler,
                },
            )
        } else if p.active_count < usize::MAX {
            (
                probes.update(i, KProbe { active_count: (p.active_count + 1) as usize, ..p }),
                TrapAction::SingleStep { addr: pc, user_data: p.user_data, resume_pc: p.insn_buf },
            )
        } else {
            (probes, TrapAction::NotHandled)
        }
    } else if has_key(amap, pc) {
        let j = key_index(amap, pc);
        let p = probes[j];
        (
            probes.update(
                j,
                KProbe {
                    active_count: if p.active_count > 0 {
                        (p.active_count - 1) as usize
                    } else {
                        0
                    },
                    ..p
                },
            ),
            TrapAction::PostStep {
                addr: p.addr,
                user_data: p.user_data,
                has_post_handler: p.has_post_handler,
                resume_pc: (p.addr + p.insn_len) as usize,
            },
        )
    } else {
        (probes, TrapAction::NotHandled)
    }
}

/// For a probe whose instruction is executed out of line, the hit and the
/// post-step trap that follows it are matched: the hit asks for a single
/// step into the probe's buffer, the trap at the breakpoint after the
/// displaced instruction names the same probe and resumes after the probed
/// instruction, and the probe table is as it was before the hit.
pub proof fn lemma_single_step_balanced(probes: Seq<KProbe>, amap: Seq<(usize, usize)>, addr: usize)
    requires
        tables_agree(probes, amap),
        has_probe(probes, addr),
        !probes[probe_index(probes, addr)].emulate,
        probes[probe_index(probes, addr)].active_count < usize::MAX,
    ensures
        ({
            let p = probes[probe_index(probes, addr)];
            let (after_hit, hit_action) = trap_spec(probes, amap, addr);
            let (after_step, step_action) = trap_spec(after_hit, amap, post_addr(p) as usize);
            &&& hit_action == TrapAction::SingleStep { addr, user_data: p.user_data, resume_pc: p.insn_buf }
            &&& step_action == TrapAction::PostStep {
                addr,
                user_data: p.user_data,
                has_post_handler: p.has_post_handler,
                resume_pc: (addr + p.insn_len) as usize,
            }
            &&& after_step == probes
        }),
{
    let i = probe_index(probes, addr);
    let p = probes[i];
    let after_hit = trap_spec(probes, amap, addr).0;
    let k = post_addr(p) as usize;
    assert(amap[i].0 == k);
    assert(after_hit.len() == probes.len());
    assert forall|j: int| 0 <= j < after_hit.len() implies #[trigger] after_hit[j].addr != k by {
        assert(after_hit[j].addr == probes[j].addr);
    }
    assert(!has_probe(after_hit, k));
    assert(has_key(amap, k));
    assert(key_index(amap, k) == i);
    assert(trap_spec(after_hit, amap, k).0 =~= probes);
}

/// The kprobe engine: probes, the reverse map from post-step breakpoints to
/// probed addresses, the slot pool, spare executable frames, and the memory
/// it patches.
pub struct KProbes {
    pub mem: Memory,
    pub slots: BreakpointAllocator,
    pub frames: Vec<usize>,
    pub probes: Vec<KProbe>,
    pub addr_map: Vec<(usize, usize)>,
}

impl KProbes {
    pub open spec fn wf(&self) -> bool {
        &&& self.mem.wf()
        &&& self.slots.wf()
        &&& tables_agree(self.probes@, self.addr_map@)
        &&& forall|i: int|
            0 <= i < self.probes@.len() ==> {
                let p = #[trigger] self.probes@[i];
                &&& self.mem.in_range(p.addr as int, p.insn_len as int)
                &&& self.mem.in_range(p.insn_buf as int, p.insn_len + BREAKPOINT_LENGTH)
            }
    }

    /// Slot `b` can hold the displaced `len`-byte instruction at `addr`: the
    /// buffer fits in memory, lies apart from the probed site, and neither
    /// its post-step address nor `addr` is taken.
    pub open spec fn slot_usable(&self, addr: usize, len: int, b: int) -> bool {
        &&& self.mem.in_range(b, len + BREAKPOINT_LENGTH)
        &&& (addr + len <= b || b + PAGE_SIZE <= addr)
        &&& !has_key(self.addr_map@, (b + len) as usize)
        &&& !has_probe(self.probes@, (b + len) as usize)
        &&& !has_key(self.addr_map@, addr)
    }

    /// Registration at `addr` succeeds: no probe is there, the instruction
    /// lies in memory and is supported, and the next slot can hold it.
    pub open spec fn can_register(&self, addr: usize) -> bool {
        &&& !has_probe(self.probes@, addr)
        &&& self.mem.in_range(addr as int, 2)
        &&& insn_type_of(self.mem.bytes@[addr - self.mem.base], self.mem.bytes@[addr - self.mem.base + 1])
            != SingleStepType::Unsupported
        &&& self.mem.in_range(addr as int, insn_length_of(self.mem.bytes@[addr - self.mem.base]) as int)
        &&& self.next_slot_usable(addr)
    }

    /// The slot the pool hands out next can hold the instruction at `addr`.
    pub open spec fn next_slot_usable(&self, addr: usize) -> bool {
        match self.slots.next_slot(&self.mem, self.frames@) {
            Some(b) => self.slot_usable(
                addr,
                insn_length_of(self.mem.bytes@[addr - self.mem.base]) as int,
                b as int,
            ),
            None => false,
        }
    }

    pub open spec fn probe(&self, addr: usize) -> KProbe {
        self.probes@[probe_index(self.probes@, addr)]
    }

    /// Lookup of `k` in the reverse map.
    pub open spec fn addr_map_get(&self, k: usize) -> Option<usize> {
        if has_key(self.addr_map@, k) {
            Some(self.addr_map@[key_index(self.addr_map@, k)].1)
        } else {
            None
        }
    }

    /// An engine over `mem` with no probes, slots taken from `frames`.
    pub fn new(mem: Memory, frames: Vec<usize>) -> (r: Self)
        requires
            mem.wf(),
        ensures
            r.wf(),
            r.probes@.len() == 0,
            r.mem == mem,
            r.frames == frames,
    {
        KProbes {
            mem,
            slots: BreakpointAllocator::new(),
            frames,
            probes: Vec::new(),
            addr_map: Vec::new(),
        }
    }

    fn find_probe(&self, addr: usize) -> (r: Option<usize>)
        ensures
            r matches Some(i) ==> i < self.probes@.len() && self.probes@[i as int].addr == addr,
            r is None ==> !has_probe(self.probes@, addr),
    {
        let mut i: usize = 0;
        while i < self.probes.len()
            invariant
                i <= self.probes@.len(),
                forall|j: int| 0 <= j < i ==> self.probes@[j].addr != addr,
            decreases self.probes@.len() - i,
        {
            if self.probes[i].addr == addr {
                return Some(i);
            }
            i = i + 1;
        }
        None
    }

    fn find_key(&self, k: usize) -> (r: Option<usize>)
        ensures
            r matches Some(j) ==> j < self.addr_map@.len() && self.addr_map@[j as int].0 == k,
            r is None ==> !has_key(self.addr_map@, k),
    {
        let mut j: usize = 0;
        while j < self.addr_map.len()
            invariant
                j <= self.addr_map@.len(),
                forall|m: int| 0 <= m < j ==> self.addr_map@[m].0 != k,
            decreases self.addr_map@.len() - j,
        {
            if self.addr_map[j].0 == k {
                return Some(j);
            }
            j = j + 1;
        }
        None
    }

    /// Whether a probe is armed at `addr`.
    pub fn is_registered(&self, addr: usize) -> (r: bool)
        ensures
            r == has_probe(self.probes@, addr),
    {
        self.find_probe(addr).is_some()
    }

    /// Arms a probe at `addr`: the instruction there is copied into a fresh
    /// slot followed by a breakpoint, then overwritten by breakpoints.
    pub fn register_kprobe(&mut self, addr: usize, args: KProbeArgs) -> (r: Result<(), SysError>)
        requires
            old(self).wf(),
        ensures
            final(self).wf(),
            has_probe(old(self).probes@, addr) ==> r == Err::<(), SysError>(SysError::EEXIST) && *final(self)
                == *old(self),
            !has_probe(old(self).probes@, addr) && !old(self).mem.in_range(addr as int, 2) ==> r == Err::<(), SysError>(
                SysError::EINVAL,
            ),
            !has_probe(old(self).probes@, addr) && old(self).mem.in_range(addr as int, 2) && ({
                let b0 = old(self).mem.bytes@[addr - old(self).mem.base];
                let b1 = old(self).mem.bytes@[addr - old(self).mem.base + 1];
                insn_type_of(b0, b1) == SingleStepType::Unsupported || !old(self).mem.in_range(
                    addr as int,
                    insn_length_of(b0) as int,
                )
            }) ==> r == Err::<(), SysError>(SysError::EINVAL),
            !has_probe(old(self).probes@, addr) && old(self).mem.in_range(addr as int, 2) && ({
                let b0 = old(self).mem.bytes@[addr - old(self).mem.base];
                let b1 = old(self).mem.bytes@[addr - old(self).mem.base + 1];
                insn_type_of(b0, b1) != SingleStepType::Unsupported && old(self).mem.in_range(
                    addr as int,
                    insn_length_of(b0) as int,
                )
            }) ==> (r is Ok <==> old(self).next_slot_usable(addr)),
            (r is Ok) == old(self).can_register(addr),
            !has_probe(old(self).probes@, addr) && !(old(self).mem.in_range(addr as int, 2) && ({
                let b0 = old(self).mem.bytes@[addr - old(self).mem.base];
                let b1 = old(self).mem.bytes@[addr - old(self).mem.base + 1];
                insn_type_of(b0, b1) != SingleStepType::Unsupported && old(self).mem.in_range(
                    addr as int,
                    insn_length_of(b0) as int,
                )
            })) ==> *final(self) == *old(self),
            r is Err ==> final(self).probes@ == old(self).probes@ && final(self).addr_map@ == old(
                self,
            ).addr_map@,
            r is Ok ==> {
                let p = final(self).probe(addr);
                let b0 = old(self).mem.bytes@[addr - old(self).mem.base];
                let b1 = old(self).mem.bytes@[addr - old(self).mem.base + 1];
                &&& has_probe(final(self).probes@, addr)
                &&& final(self).probes@ == old(self).probes@.push(p)
                &&& p.addr == addr
                &&& p.insn_len == insn_length_of(b0)
                &&& p.emulate == (insn_type_of(b0, b1) == SingleStepType::Emulate)
                &&& insn_type_of(b0, b1) != SingleStepType::Unsupported
                &&& p.active_count == 0
                &&& p.user_data == args.user_data
                &&& p.has_post_handler == args.has_post_handler
                &&& final(self).mem.range(p.insn_buf as int, p.insn_len as int) == old(self).mem.range(
                    addr as int,
                    p.insn_len as int,
                )
                &&& is_breakpoint_pattern(
                    final(self).mem.range(post_addr(p), BREAKPOINT_LENGTH as int),
                )
                &&& is_breakpoint_pattern(final(self).mem.range(addr as int, p.insn_len as int))
                &&& final(self).addr_map_get(post_addr(p) as usize) == Some(addr)
                &&& old(self).slots.next_slot(&old(self).mem, old(self).frames@) == Some(p.insn_buf)
                &&& final(self).mem.base == old(self).mem.base
                &&& final(self).mem.bytes@.len() == old(self).mem.bytes@.len()
                &&& forall|k: int|
                    0 <= k < old(self).mem.bytes@.len() && !(addr - old(self).mem.base <= k < addr
                        - old(self).mem.base + p.insn_len) && !(p.insn_buf - old(self).mem.base <= k
                        < p.insn_buf - old(self).mem.base + PAGE_SIZE) ==> final(self).mem.bytes@[k] == old(
                        self,
                    ).mem.bytes@[k]
            },
    {
        if self.find_probe(addr).is_some() {
            return Err(SysError::EEXIST);
        }
        if !self.mem.contains(addr, 2) {
            return Err(SysError::EINVAL);
        }
        let insn_type = get_insn_type(&self.mem, addr);
        if insn_type == SingleStepType::Unsupported {
            return Err(SysError::EINVAL);
        }
        let insn_len = get_insn_length(&self.mem, addr);
        if !self.mem.contains(addr, insn_len) {
            return Err(SysError::EINVAL);
        }
        let ghost mem0 = self.mem;
        let buf = match self.slots.alloc_breakpoint(&mut self.mem, &mut self.frames) {
            Some(b) => b,
            None => {
                return Err(SysError::EINVAL);
            },
        };
        let fits = self.mem.contains(buf, insn_len + BREAKPOINT_LENGTH);
        let disjoint = fits && (addr + insn_len <= buf || (buf <= usize::MAX - PAGE_SIZE && buf
            + PAGE_SIZE <= addr));
        if !disjoint || self.find_key(buf + insn_len).is_some() || self.find_probe(buf + insn_len).is_some()
            || self.find_key(addr).is_some() {
            if self.slots.is_slot_allocated(buf) {
                self.slots.free_breakpoint(buf, &mut self.frames);
            }
            return Err(SysError::EINVAL);
        }
        proof {
            assert(self.mem.range(addr as int, insn_len as int) =~= mem0.range(addr as int, insn_len as int));
            assert(self.mem.bytes@[addr - self.mem.base] == mem0.bytes@[addr - mem0.base]);
            assert(self.mem.bytes@[addr - self.mem.base + 1] == mem0.bytes@[addr - mem0.base + 1]);
        }
        let p = KProbe::new(&self.mem, addr, buf, insn_type == SingleStepType::Emulate, args);
        p.arm(&mut self.mem);
        let ghost old_probes = self.probes@;
        let ghost old_amap = self.addr_map@;
        self.addr_map.push((buf + insn_len, addr));
        self.probes.push(p);
        proof {
            let n = old_probes.len() as int;
            assert(self.probes@[n].addr == addr);
            assert(has_probe(self.probes@, addr));
            assert(probe_index(self.probes@, addr) == n);
            assert(self.addr_map@[n].0 == buf + insn_len);
            assert(has_key(self.addr_map@, (buf + insn_len) as usize));
            assert(key_index(self.addr_map@, (buf + insn_len) as usize) == n);
        }
        Ok(())
    }

    /// Disarms the probe at `addr`, restoring the displaced instruction, and
    /// returns its slot to the pool.
    pub fn unregister_kprobe(&mut self, addr: usize) -> (r: Result<(), SysError>)
        requires
            old(self).wf(),
        ensures
            final(self).wf(),
            !has_probe(old(self).probes@, addr) ==> r == Err::<(), SysError>(SysError::ENOENT)
                && *final(self) == *old(self),
            has_probe(old(self).probes@, addr) && old(self).probe(addr).active_count > 0 ==> r
                == Err::<(), SysError>(SysError::EBUSY) && *final(self) == *old(self),
            has_probe(old(self).probes@, addr) && old(self).probe(addr).active_count == 0 ==> {
                let i = probe_index(old(self).probes@, addr);
                let p = old(self).probe(addr);
                &&& r is Ok
                &&& final(self).probes@ == old(self).probes@.remove(i)
                &&& final(self).addr_map@ == old(self).addr_map@.remove(i)
                &&& !has_probe(final(self).probes@, addr)
                &&& final(self).addr_map_get(post_addr(p) as usize) is None
                &&& final(self).mem.range(addr as int, p.insn_len as int) == old(self).mem.range(
                    p.insn_buf as int,
                    p.insn_len as int,
                )
                &&& final(self).mem.base == old(self).mem.base
                &&& !final(self).slots.is_allocated(p.insn_buf as int)
                &&& crate::arch::same_outside(
                    old(self).mem.bytes@,
                    final(self).mem.bytes@,
                    addr - old(self).mem.base,
                    p.insn_len as int,
                )
            },
    {
        let i = match self.find_probe(addr) {
            Some(i) => i,
            None => {
                return Err(SysError::ENOENT);
            },
        };
        proof {
            assert(probe_index(self.probes@, addr) == i);
        }
        let p = self.probes[i];
        if p.active_count > 0 {
            return Err(SysError::EBUSY);
        }
        let ghost old_self = *self;
        p.disarm(&mut self.mem);
        self.probes.remove(i);
        self.addr_map.remove(i);
        proof {
            let ps = self.probes@;
            let am = self.addr_map@;
            assert(ps =~= old_self.probes@.remove(i as int));
            assert(am =~= old_self.addr_map@.remove(i as int));
            assert forall|j: int| 0 <= j < ps.len() implies #[trigger] ps[j].addr != addr by {
                let j2 = if j < i { j } else { j + 1 };
                assert(old_self.probes@[j2] == ps[j]);
            }
            assert forall|j: int| 0 <= j < am.len() implies #[trigger] am[j].0 != post_addr(p) by {
                let j2 = if j < i { j } else { j + 1 };
                assert(old_self.addr_map@[j2] == am[j]);
            }
            assert forall|i1: int, j1: int|
                0 <= i1 < ps.len() && 0 <= j1 < ps.len() && i1 != j1 implies ps[i1].addr
                    != ps[j1].addr && am[i1].0 != am[j1].0 by {
                let a = if i1 < i { i1 } else { i1 + 1 };
                let b = if j1 < i { j1 } else { j1 + 1 };
                assert(old_self.probes@[a] == ps[i1] && old_self.probes@[b] == ps[j1]);
                assert(old_self.addr_map@[a] == am[i1] && old_self.addr_map@[b] == am[j1]);
            }
            assert forall|i1: int, j1: int|
                0 <= i1 < ps.len() && 0 <= j1 < ps.len() implies ps[i1].addr != am[j1].0 by {
                let a = if i1 < i { i1 } else { i1 + 1 };
                let b = if j1 < i { j1 } else { j1 + 1 };
                assert(old_self.probes@[a] == ps[i1]);
                assert(old_self.addr_map@[b] == am[j1]);
            }
        }
        if self.slots.is_slot_allocated(p.insn_buf) {
            self.slots.free_breakpoint(p.insn_buf, &mut self.frames);
        }
        Ok(())
    }

    /// Routes a breakpoint trap at `pc`: a probe hit, the post-step
    /// breakpoint of a probe, or neither.
    pub fn kprobe_trap_handler(&mut self, pc: usize) -> (r: TrapAction)
        requires
            old(self).wf(),
        ensures
            final(self).wf(),
            (final(self).probes@, r) == trap_spec(old(self).probes@, old(self).addr_map@, pc),
            final(self).addr_map@ == old(self).addr_map@,
            final(self).mem == old(self).mem,
            final(self).slots == old(self).slots,
            final(self).frames == old(self).frames,
    {
        let ghost old_probes = self.probes@;
        match self.find_probe(pc) {
            Some(i) => {
                proof {
                    assert(probe_index(old_probes, pc) == i);
                }
                let p = self.probes[i];
                if p.emulate {
                    TrapAction::Emulate {
                        addr: pc,
                        buf: p.insn_buf,
                        user_data: p.user_data,
                        has_post_handler: p.has_post_handler,
                    }
                } else if p.active_count < usize::MAX {
                    self.probes.set(i, KProbe { active_count: p.active_count + 1, ..p });
                    TrapAction::SingleStep { addr: pc, user_data: p.user_data, resume_pc: p.insn_buf }
                } else {
                    TrapAction::NotHandled
                }
            },
            None => match self.find_key(pc) {
                Some(j) => {
                    proof {
                        assert(key_index(self.addr_map@, pc) == j);
                    }
                    let p = self.probes[j];
                    let count = if p.active_count > 0 {
                        p.active_count - 1
                    } else {
                        0
                    };
                    self.probes.set(j, KProbe { active_count: count, ..p });
                    TrapAction::PostStep {
                        addr: p.addr,
                        user_data: p.user_data,
                        has_post_handler: p.has_post_handler,
                        resume_pc: p.addr + p.insn_len,
                    }
                },
                None => TrapAction::NotHandled,
            },
        }
    }
}

} // verus!
