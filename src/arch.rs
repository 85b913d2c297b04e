use vstd::prelude::*;

verus! {

/// Byte length of one compressed breakpoint instruction.
pub const BREAKPOINT_LENGTH: usize = 2;

/// Size of one executable page.
pub const PAGE_SIZE: usize = 4096;

/// Number of breakpoint slots on one page.
pub const BREAKPOINTS_PER_PAGE: usize = PAGE_SIZE / BREAKPOINT_LENGTH;

/// The compressed breakpoint opcode (C.EBREAK).
pub const C_EBREAK: u16 = 0x9002;

/// How a displaced instruction can be executed.
#[derive(Clone, Copy, Debug, PartialEq, Eq, Structural)]
pub enum SingleStepType {
    Unsupported,
    Execute,
    Emulate,
}

/// A window `[base, base + bytes.len())` of kernel memory, byte by byte.
pub struct Memory {
    pub base: usize,
    pub bytes: Vec<u8>,
}

/// Byte `i` of a run of consecutive little-endian C.EBREAK opcodes.
pub open spec fn breakpoint_byte(i: int) -> u8 {
    if i % 2 == 0 {
        0x02u8
    } else {
        0x90u8
    }
}

/// `s` is a run of whole breakpoint opcodes.
pub open spec fn is_breakpoint_pattern(s: Seq<u8>) -> bool {
    s.len() % 2 == 0 && forall|i: int| 0 <= i < s.len() ==> s[i] == breakpoint_byte(i)
}

/// `new` equals `old` outside `[off, off + n)`.
pub open spec fn same_outside(old: Seq<u8>, new: Seq<u8>, off: int, n: int) -> bool {
    new.len() == old.len() && forall|i: int|
        0 <= i < old.len() && !(off <= i < off + n) ==> new[i] == old[i]
}

impl Memory {
    pub open spec fn wf(&self) -> bool {
        self.base + self.bytes@.len() <= usize::MAX
    }

    /// `[addr, addr + len)` lies inside the window.
    pub open spec fn in_range(&self, addr: int, len: int) -> bool {
        self.wf() && self.base <= addr && 0 <= len && addr + len <= self.base + self.bytes@.len()
    }

    /// The bytes at `[addr, addr + len)`.
    pub open spec fn range(&self, addr: int, len: int) -> Seq<u8> {
        self.bytes@.subrange(addr - self.base, addr - self.base + len)
    }

    pub fn new(base: usize, bytes: Vec<u8>) -> (r: Option<Memory>)
        ensures
            r matches Some(m) ==> m.base == base && m.bytes@ == bytes@ && m.wf(),
            r is None <==> base + bytes@.len() > usize::MAX,
    {
        if bytes.len() > usize::MAX - base {
            None
        } else {
            Some(Memory { base, bytes })
        }
    }

    /// Whether `[addr, addr + len)` lies inside the window.
    pub fn contains(&self, addr: usize, len: usize) -> (r: bool)
        requires
            self.wf(),
        ensures
            r == self.in_range(addr as int, len as int),
    {
        addr >= self.base && addr - self.base <= self.bytes.len() && len <= self.bytes.len() - (addr
            - self.base)
    }

    pub fn read_byte(&self, addr: usize) -> (r: u8)
        requires
            self.in_range(addr as int, 1),
        ensures
            r == self.bytes@[addr - self.base],
    {
        self.bytes[addr - self.base]
    }

    /// Copies `len` bytes from `src` to `dst`; the bytes are read before any is written.
    pub fn byte_copy(&mut self, dst: usize, src: usize, len: usize)
        requires
            old(self).in_range(dst as int, len as int),
            old(self).in_range(src as int, len as int),
        ensures
            final(self).base == old(self).base,
            final(self).range(dst as int, len as int) == old(self).range(src as int, len as int),
            same_outside(
                old(self).bytes@,
                final(self).bytes@,
                dst - old(self).base,
                len as int,
            ),
    {
        let mut tmp: Vec<u8> = Vec::new();
        let s = src - self.base;
        let mut i: usize = 0;
        while i < len
            invariant
                i <= len,
                self.in_range(src as int, len as int),
                s == src - self.base,
                self.bytes@.len() <= usize::MAX,
                tmp@ =~= self.bytes@.subrange(s as int, s + i),
            decreases len - i,
        {
            tmp.push(self.bytes[s + i]);
            i = i + 1;
        }
        let d = dst - self.base;
        let ghost before = self.bytes@;
        let mut j: usize = 0;
        while j < len
            invariant
                j <= len,
                tmp@.len() == len,
                d + len <= before.len(),
                before.len() <= usize::MAX,
                self.base == old(self).base,
                before == old(self).bytes@,
                self.bytes@.len() == before.len(),
                forall|k: int| 0 <= k < j ==> self.bytes@[d + k] == tmp@[k],
                forall|k: int|
                    0 <= k < before.len() && !(d <= k < d + j) ==> self.bytes@[k] == before[k],
            decreases len - j,
        {
            self.bytes.set(d + j, tmp[j]);
            j = j + 1;
        }
        assert(self.range(dst as int, len as int) =~= old(self).range(src as int, len as int));
    }
}

/// Writes breakpoint opcodes at `addr`: one when `length` is `None`, else as
/// many as fill `length` bytes.
pub fn inject_breakpoints(mem: &mut Memory, addr: usize, length: Option<usize>)
    requires
        length matches Some(len) ==> len % BREAKPOINT_LENGTH == 0,
        old(mem).in_range(
            addr as int,
            match length {
                Some(len) => len as int,
                None => BREAKPOINT_LENGTH as int,
            },
        ),
    ensures
        ({
            let n = match length {
                Some(len) => len as int,
                None => BREAKPOINT_LENGTH as int,
            };
            &&& final(mem).base == old(mem).base
            &&& is_breakpoint_pattern(final(mem).range(addr as int, n))
            &&& same_outside(old(mem).bytes@, final(mem).bytes@, addr - old(mem).base, n)
        }),
{
    let n: usize = match length {
        Some(len) => len,
        None => BREAKPOINT_LENGTH,
    };
    let off = addr - mem.base;
    let ghost before = mem.bytes@;
    let mut i: usize = 0;
    while i < n
        invariant
            n % 2 == 0,
            i % 2 == 0,
            i <= n,
            off + n <= before.len(),
            before.len() <= usize::MAX,
            off == addr - mem.base,
            mem.base == old(mem).base,
            before == old(mem).bytes@,
            mem.bytes@.len() == before.len(),
            forall|k: int| 0 <= k < i ==> mem.bytes@[off + k] == breakpoint_byte(k),
            forall|k: int| 0 <= k < before.len() && !(off <= k < off + i) ==> mem.bytes@[k] == before[k],
        decreases n - i,
    {
        mem.bytes.set(off + i, 0x02u8);
        mem.bytes.set(off + i + 1, 0x90u8);
        i = i + 2;
    }
    assert forall|k: int| 0 <= k < n implies mem.range(addr as int, n as int)[k] == breakpoint_byte(
        k,
    ) by {
        assert(mem.range(addr as int, n as int)[k] == mem.bytes@[off + k]);
    }
}

/// Length in bytes of the instruction whose first byte is `b0`.
pub open spec fn insn_length_of(b0: u8) -> usize {
    if b0 % 4 == 3 {
        4
    } else {
        2
    }
}

/// How the instruction with bytes `b0 b1 ...` is handled. Compressed:
/// C.J, C.BEQZ, C.BNEZ, C.JR and C.JALR are emulated, C.EBREAK is refused.
/// Full width: JAL, JALR, branches and AUIPC are emulated, SYSTEM is refused.
pub open spec fn insn_type_of(b0: u8, b1: u8) -> SingleStepType {
    if b0 % 4 == 3 {
        let opcode = b0 % 128;
        if opcode == 0x6f || opcode == 0x67 || opcode == 0x63 || opcode == 0x17 {
            SingleStepType::Emulate
        } else if opcode == 0x73 {
            SingleStepType::Unsupported
        } else {
            SingleStepType::Execute
        }
    } else {
        let quadrant = b0 % 4;
        let funct3 = b1 / 32;
        let rs2 = (b0 / 4) % 32;
        let rd = b0 / 128 + (b1 % 16) * 2;
        if quadrant == 1 && (funct3 == 5 || funct3 == 6 || funct3 == 7) {
            SingleStepType::Emulate
        } else if quadrant == 2 && funct3 == 4 && rs2 == 0 && rd != 0 {
            SingleStepType::Emulate
        } else if b0 == 0x02 && b1 == 0x90 {
            SingleStepType::Unsupported
        } else {
            SingleStepType::Execute
        }
    }
}

/// Decodes the length of the instruction at `addr`.
pub fn get_insn_length(mem: &Memory, addr: usize) -> (r: usize)
    requires
        mem.in_range(addr as int, 1),
    ensures
        r == insn_length_of(mem.bytes@[addr - mem.base]),
{
    let b0 = mem.read_byte(addr);
    if b0 % 4 == 3 {
        4
    } else {
        2
    }
}

/// Classifies the instruction at `addr`.
pub fn get_insn_type(mem: &Memory, addr: usize) -> (r: SingleStepType)
    requires
        mem.in_range(addr as int, 2),
    ensures
        r == insn_type_of(mem.bytes@[addr - mem.base], mem.bytes@[addr - mem.base + 1]),
{
    let b0 = mem.read_byte(addr);
    let b1 = mem.read_byte(addr + 1);
    if b0 % 4 == 3 {
        let opcode = b0 % 128;
        if opcode == 0x6f || opcode == 0x67 || opcode == 0x63 || opcode == 0x17 {
            SingleStepType::Emulate
        } else if opcode == 0x73 {
            SingleStepType::Unsupported
        } else {
            SingleStepType::Execute
        }
    } else {
        let quadrant = b0 % 4;
        let funct3 = b1 / 32;
        let rs2 = (b0 / 4) % 32;
        let rd = b0 / 128 + (b1 % 16) * 2;
        if quadrant == 1 && (funct3 == 5 || funct3 == 6 || funct3 == 7) {
            SingleStepType::Emulate
        } else if quadrant == 2 && funct3 == 4 && rs2 == 0 && rd != 0 {
            SingleStepType::Emulate
        } else if b0 == 0x02 && b1 == 0x90 {
            SingleStepType::Unsupported
        } else {
            SingleStepType::Execute
        }
    }
}

} // verus!
