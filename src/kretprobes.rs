use vstd::prelude::*;

use crate::error::SysError;
use crate::kprobes::{has_probe, KProbeArgs, KProbes};

verus! {

/// Registration arguments of a return probe; the handlers are kept by the caller.
#[derive(Clone, Copy, Debug)]
pub struct KRetProbeArgs {
    pub has_entry_handler: bool,
    /// Bound on outstanding invocations; `None` for no bound.
    pub limit: Option<usize>,
    pub user_data: usize,
}

/// A return probe on the function at `addr`.
#[derive(Clone, Copy, Debug, PartialEq, Eq, Structural)]
pub struct KRetProbe {
    pub addr: usize,
    pub has_entry_handler: bool,
    pub limit: Option<usize>,
    pub user_data: usize,
}

/// One intercepted invocation that has not returned yet.
#[derive(Clone, Copy, Debug, PartialEq, Eq, Structural)]
pub struct KRetProbeInstance {
    /// The caller's true return address.
    pub ret_addr: usize,
    /// The task that made the call.
    pub task: usize,
    /// Address of the owning return probe.
    pub probe_addr: usize,
}

pub open spec fn has_ret(rets: Seq<KRetProbe>, addr: usize) -> bool {
    exists|i: int| 0 <= i < rets.len() && #[trigger] rets[i].addr == addr
}

pub open spec fn ret_index(rets: Seq<KRetProbe>, addr: usize) -> int {
    choose|i: int| 0 <= i < rets.len() && #[trigger] rets[i].addr == addr
}

/// Number of outstanding instances of the probe at `addr`.
pub open spec fn outstanding(insts: Seq<KRetProbeInstance>, addr: usize) -> nat
    decreases insts.len(),
{
    if insts.len() == 0 {
        0
    } else {
        outstanding(insts.drop_last(), addr) + if insts.last().probe_addr == addr {
            1nat
        } else {
            0nat
        }
    }
}

/// Return probes on top of the kprobe engine; every entry probe is a kprobe.
pub struct KRetProbes {
    pub kprobes: KProbes,
    /// Address that intercepted functions return to.
    pub trampoline: usize,
    pub rets: Vec<KRetProbe>,
    pub instances: Vec<KRetProbeInstance>,
}

impl KRetProbes {
    pub open spec fn wf(&self) -> bool {
        &&& self.kprobes.wf()
        &&& forall|i: int|
            0 <= i < self.rets@.len() ==> has_probe(self.kprobes.probes@, #[trigger] self.rets@[i].addr)
        &&& forall|i: int, j: int|
            0 <= i < self.rets@.len() && 0 <= j < self.rets@.len() && i != j ==> self.rets@[i].addr
                != self.rets@[j].addr
    }

    pub fn new(kprobes: KProbes, trampoline: usize) -> (r: Self)
        requires
            kprobes.wf(),
        ensures
            r.wf(),
            r.kprobes == kprobes,
            r.trampoline == trampoline,
            r.rets@.len() == 0,
            r.instances@.len() == 0,
    {
        KRetProbes { kprobes, trampoline, rets: Vec::new(), instances: Vec::new() }
    }

    fn find_ret(&self, addr: usize) -> (r: Option<usize>)
        ensures
            r matches Some(i) ==> i < self.rets@.len() && self.rets@[i as int].addr == addr,
            r is None ==> !has_ret(self.rets@, addr),
    {
        let mut i: usize = 0;
        while i < self.rets.len()
            invariant
                i <= self.rets@.len(),
                forall|j: int| 0 <= j < i ==> self.rets@[j].addr != addr,
            decreases self.rets@.len() - i,
        {
            if self.rets[i].addr == addr {
                return Some(i);
            }
            i = i + 1;
        }
        None
    }

    fn count_outstanding(&self, addr: usize) -> (r: usize)
        ensures
            r == outstanding(self.instances@, addr),
    {
        let mut n: usize = 0;
        let mut i: usize = 0;
        while i < self.instances.len()
            invariant
                i <= self.instances@.len(),
                n == outstanding(self.instances@.subrange(0, i as int), addr),
                n <= i,
            decreases self.instances@.len() - i,
        {
            proof {
                assert(self.instances@.subrange(0, i + 1).drop_last() =~= self.instances@.subrange(0, i as int));
            }
            if self.instances[i].probe_addr == addr {
                n = n + 1;
            }
            i = i + 1;
        }
        proof {
            assert(self.instances@.subrange(0, i as int) =~= self.instances@);
        }
        n
    }

    /// Installs a return probe on the function at `addr`, through a kprobe there.
    pub fn register_kretprobe(&mut self, addr: usize, args: KRetProbeArgs) -> (r: Result<(), SysError>)
        requires
            old(self).wf(),
        ensures
            final(self).wf(),
            final(self).trampoline == old(self).trampoline,
            final(self).instances == old(self).instances,
            has_ret(old(self).rets@, addr) || has_probe(old(self).kprobes.probes@, addr) ==> r
                == Err::<(), SysError>(SysError::EEXIST) && *final(self) == *old(self),
            r is Err ==> final(self).rets@ == old(self).rets@
                && final(self).kprobes.probes@ == old(self).kprobes.probes@,
            (r is Ok) == (!has_ret(old(self).rets@, addr) && old(self).kprobes.can_register(addr)),
            r is Ok ==> {
                &&& final(self).rets@ == old(self).rets@.push(
                    KRetProbe {
                        addr,
                        has_entry_handler: args.has_entry_handler,
                        limit: args.limit,
                        user_data: args.user_data,
                    },
                )
                &&& has_probe(final(self).kprobes.probes@, addr)
                &&& final(self).kprobes.probes@.len() == old(self).kprobes.probes@.len() + 1
            },
    {
        if self.find_ret(addr).is_some() {
            return Err(SysError::EEXIST);
        }
        let kargs = KProbeArgs { has_post_handler: false, user_data: args.user_data };
        match self.kprobes.register_kprobe(addr, kargs) {
            Err(e) => {
                return Err(e);
            },
            Ok(()) => {},
        }
        let ghost old_probes = old(self).kprobes.probes@;
        self.rets.push(
            KRetProbe {
                addr,
                has_entry_handler: args.has_entry_handler,
                limit: args.limit,
                user_data: args.user_data,
            },
        );
        proof {
            assert forall|i: int| 0 <= i < self.rets@.len() implies has_probe(
                self.kprobes.probes@,
                #[trigger] self.rets@[i].addr,
            ) by {
                if i < self.rets@.len() - 1 {
                    let a = self.rets@[i].addr;
                    assert(has_probe(old_probes, a));
                    let j = choose|j: int| 0 <= j < old_probes.len() && #[trigger] old_probes[j].addr == a;
                    assert(self.kprobes.probes@[j].addr == a);
                }
            }
        }
        Ok(())
    }

    /// Removes the return probe at `addr` together with its kprobe.
    pub fn unregister_kretprobe(&mut self, addr: usize) -> (r: Result<(), SysError>)
        requires
            old(self).wf(),
        ensures
            final(self).wf(),
            !has_ret(old(self).rets@, addr) ==> r == Err::<(), SysError>(SysError::ENOENT)
                && *final(self) == *old(self),
            r is Err ==> final(self).rets@ == old(self).rets@,
            r is Ok ==> has_ret(old(self).rets@, addr) && final(self).rets@ == old(self).rets@.remove(
                ret_index(old(self).rets@, addr),
            ) && !has_probe(final(self).kprobes.probes@, addr),
            has_ret(old(self).rets@, addr) && old(self).kprobes.probe(addr).active_count == 0 ==> r is Ok,
            has_ret(old(self).rets@, addr) && old(self).kprobes.probe(addr).active_count > 0 ==> r
                == Err::<(), SysError>(SysError::EBUSY) && *final(self) == *old(self),
    {
        let i = match self.find_ret(addr) {
            Some(i) => i,
            None => {
                return Err(SysError::ENOENT);
            },
        };
        proof {
            assert(ret_index(self.rets@, addr) == i);
        }
        match self.kprobes.unregister_kprobe(addr) {
            Err(e) => {
                return Err(e);
            },
            Ok(()) => {},
        }
        let ghost old_rets = self.rets@;
        let ghost old_probes = old(self).kprobes.probes@;
        let ghost pi = probe_index_of(old_probes, addr);
        self.rets.remove(i);
        proof {
            assert(self.rets@ =~= old_rets.remove(i as int));
            assert forall|j: int| 0 <= j < self.rets@.len() implies has_probe(
                self.kprobes.probes@,
                #[trigger] self.rets@[j].addr,
            ) by {
                let j2 = if j < i { j } else { j + 1 };
                let a = old_rets[j2].addr;
                assert(old_rets[j2] == self.rets@[j]);
                assert(old_rets[i as int].addr == addr);
                assert(a != addr);
                assert(has_probe(old_probes, a));
                let q = choose|q: int| 0 <= q < old_probes.len() && #[trigger] old_probes[q].addr == a;
                assert(q != pi);
                let q2 = if q < pi { q } else { q - 1 };
                assert(self.kprobes.probes@[q2].addr == a);
            }
        }
        Ok(())
    }

    /// Function entry through the return probe at `addr` by `task`, which
    /// will return to `ret_addr`: records an instance and answers the
    /// trampoline as the new return address, unless the probe is unknown or
    /// its limit of outstanding instances is reached.
    pub fn kretprobe_entry(&mut self, addr: usize, ret_addr: usize, task: usize) -> (r: Option<usize>)
        requires
            old(self).wf(),
        ensures
            final(self).wf(),
            final(self).kprobes == old(self).kprobes,
            final(self).rets == old(self).rets,
            final(self).trampoline == old(self).trampoline,
            ({
                let ok = has_ret(old(self).rets@, addr) && match old(self).rets@[ret_index(
                    old(self).rets@,
                    addr,
                )].limit {
                    Some(l) => outstanding(old(self).instances@, addr) < l,
                    None => true,
                };
                if ok {
                    &&& r == Some(old(self).trampoline)
                    &&& final(self).instances@ == old(self).instances@.push(
                        KRetProbeInstance { ret_addr, task, probe_addr: addr },
                    )
                } else {
                    &&& r is None
                    &&& final(self).instances == old(self).instances
                }
            }),
    {
        let i = match self.find_ret(addr) {
            Some(i) => i,
            None => {
                return None;
            },
        };
        proof {
            assert(ret_index(self.rets@, addr) == i);
        }
        match self.rets[i].limit {
            Some(l) => {
                if self.count_outstanding(addr) >= l {
                    return None;
                }
            },
            None => {},
        }
        self.instances.push(KRetProbeInstance { ret_addr, task, probe_addr: addr });
        Some(self.trampoline)
    }

    /// Return of `task` through the trampoline: takes its most recent
    /// instance and answers the owning probe's address and the true return
    /// address.
    pub fn kretprobe_exit(&mut self, task: usize) -> (r: Option<(usize, usize)>)
        requires
            old(self).wf(),
        ensures
            final(self).wf(),
            final(self).kprobes == old(self).kprobes,
            final(self).rets == old(self).rets,
            final(self).trampoline == old(self).trampoline,
            r is None ==> final(self).instances == old(self).instances && forall|j: int|
                0 <= j < old(self).instances@.len() ==> old(self).instances@[j].task != task,
            r matches Some((a, ret)) ==> exists|j: int|
                0 <= j < old(self).instances@.len() && old(self).instances@[j].task == task && (forall|m: int|
                    j < m < old(self).instances@.len() ==> old(self).instances@[m].task != task)
                    && old(self).instances@[j].probe_addr == a && old(self).instances@[j].ret_addr == ret
                    && final(self).instances@ == old(self).instances@.remove(j),
    {
        let mut i: usize = self.instances.len();
        while i > 0
            invariant
                i <= self.instances@.len(),
                self.wf(),
                *self == *old(self),
                forall|m: int| i <= m < self.instances@.len() ==> self.instances@[m].task != task,
            decreases i,
        {
            if self.instances[i - 1].task == task {
                let inst = self.instances.remove(i - 1);
                return Some((inst.probe_addr, inst.ret_addr));
            }
            i = i - 1;
        }
        None
    }
}

pub open spec fn probe_index_of(probes: Seq<crate::kprobes::KProbe>, addr: usize) -> int {
    crate::kprobes::probe_index(probes, addr)
}

} // verus!
