use vstd::prelude::*;

verus! {

/// A loaded trace program: native code from the JIT and the map-descriptor
/// table its relocations point into.
pub struct BpfProgram {
    pub bpf_insns: Option<Vec<u64>>,
    pub jited_prog: Option<Vec<u32>>,
    pub map_fd_table: Option<Vec<u32>>,
}

/// The object table: programs under their descriptors.
pub struct ProgramTable {
    pub entries: Vec<(u32, BpfProgram)>,
    pub next_fd: u32,
}

pub open spec fn has_fd(entries: Seq<(u32, BpfProgram)>, fd: u32) -> bool {
    exists|i: int| 0 <= i < entries.len() && #[trigger] entries[i].0 == fd
}

impl ProgramTable {
    /// Descriptors in use are below `next_fd`.
    pub open spec fn wf(&self) -> bool {
        forall|i: int| 0 <= i < self.entries@.len() ==> #[trigger] self.entries@[i].0 < self.next_fd
    }

    pub fn new() -> (r: Self)
        ensures
            r.wf(),
            r.entries@.len() == 0,
    {
        ProgramTable { entries: Vec::new(), next_fd: 0 }
    }

    /// Whether `fd` names a loaded program.
    pub fn contains(&self, fd: u32) -> (r: bool)
        ensures
            r == has_fd(self.entries@, fd),
    {
        let mut i: usize = 0;
        while i < self.entries.len()
            invariant
                i <= self.entries@.len(),
                forall|j: int| 0 <= j < i ==> self.entries@[j].0 != fd,
            decreases self.entries@.len() - i,
        {
            if self.entries[i].0 == fd {
                return true;
            }
            i = i + 1;
        }
        false
    }

    /// Stores `program` under a fresh descriptor, which is returned; `None`
    /// when the descriptors are used up.
    pub fn bpf_object_create_program(&mut self, program: BpfProgram) -> (r: Option<u32>)
        requires
            old(self).wf(),
        ensures
            final(self).wf(),
            r matches Some(fd) ==> !has_fd(old(self).entries@, fd) && final(self).entries@ == old(
                self,
            ).entries@.push((fd, program)),
            r is None <==> old(self).next_fd == u32::MAX,
            r is None ==> final(self).entries@ == old(self).entries@,
    {
        if self.next_fd == u32::MAX {
            return None;
        }
        let fd = self.next_fd;
        self.entries.push((fd, program));
        self.next_fd = fd + 1;
        Some(fd)
    }
}

} // verus!
