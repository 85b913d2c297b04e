use ktrace::arch::{
    get_insn_length, get_insn_type, inject_breakpoints, Memory, SingleStepType, BREAKPOINTS_PER_PAGE,
    PAGE_SIZE,
};
use ktrace::breakpoint::BreakpointAllocator;
use ktrace::error::SysError;
use ktrace::kprobes::{KProbe, KProbeArgs, KProbes, TrapAction};
use ktrace::kretprobes::{KRetProbeArgs, KRetProbes};

const TEXT: usize = 0x10000;

fn engine(code: &[u8]) -> KProbes {
    let mut bytes = vec![0u8; 3 * PAGE_SIZE];
    bytes[..code.len()].copy_from_slice(code);
    let mem = Memory::new(TEXT, bytes).unwrap();
    KProbes::new(mem, vec![TEXT + PAGE_SIZE, TEXT + 2 * PAGE_SIZE])
}

fn bytes_at(k: &KProbes, addr: usize, len: usize) -> Vec<u8> {
    k.mem.bytes[addr - k.mem.base..addr - k.mem.base + len].to_vec()
}

fn args() -> KProbeArgs {
    KProbeArgs { has_post_handler: true, user_data: 42 }
}

const ADDI: [u8; 4] = [0x13, 0x05, 0x10, 0x00];

#[test]
fn register_patches_site_and_buffer() {
    let mut k = engine(&ADDI);
    assert_eq!(k.register_kprobe(TEXT, args()), Ok(()));
    let p = k.probes[0];
    assert_eq!(p.insn_len, 4);
    assert!(!p.emulate);
    assert_eq!(p.insn_buf, TEXT + 2 * PAGE_SIZE);
    assert_eq!(bytes_at(&k, TEXT, 4), vec![0x02, 0x90, 0x02, 0x90]);
    assert_eq!(bytes_at(&k, p.insn_buf, 4), ADDI.to_vec());
    assert_eq!(bytes_at(&k, p.insn_buf + 4, 2), vec![0x02, 0x90]);
    assert_eq!(k.addr_map, vec![(p.insn_buf + 4, TEXT)]);
}

#[test]
fn register_twice_is_already_exists() {
    let mut k = engine(&ADDI);
    assert_eq!(k.register_kprobe(TEXT, args()), Ok(()));
    let mem_before = k.mem.bytes.clone();
    let probes_before = k.probes.clone();
    assert_eq!(k.register_kprobe(TEXT, args()), Err(SysError::EEXIST));
    assert_eq!(k.mem.bytes, mem_before);
    assert_eq!(k.probes, probes_before);
    assert_eq!(k.addr_map.len(), 1);
}

#[test]
fn unsupported_instruction_is_invalid() {
    let mut k = engine(&[0x73, 0x00, 0x00, 0x00]);
    assert_eq!(k.register_kprobe(TEXT, args()), Err(SysError::EINVAL));
    let mut k = engine(&[0x02, 0x90]);
    assert_eq!(k.register_kprobe(TEXT, args()), Err(SysError::EINVAL));
    assert!(k.probes.is_empty());
}

#[test]
fn outside_memory_is_invalid() {
    let mut k = engine(&ADDI);
    assert_eq!(k.register_kprobe(TEXT - 8, args()), Err(SysError::EINVAL));
}

#[test]
fn branch_is_emulated() {
    let mut k = engine(&[0x6f, 0x00, 0x00, 0x00]);
    assert_eq!(k.register_kprobe(TEXT, args()), Ok(()));
    assert!(k.probes[0].emulate);
    let buf = k.probes[0].insn_buf;
    assert_eq!(
        k.kprobe_trap_handler(TEXT),
        TrapAction::Emulate { addr: TEXT, buf, user_data: 42, has_post_handler: true }
    );
    assert_eq!(k.probes[0].active_count, 0);
}

#[test]
fn compressed_instruction_length_two() {
    // c.addi a0, 1
    let mut k = engine(&[0x05, 0x05]);
    assert_eq!(k.register_kprobe(TEXT, args()), Ok(()));
    assert_eq!(k.probes[0].insn_len, 2);
    assert_eq!(bytes_at(&k, TEXT, 2), vec![0x02, 0x90]);
}

#[test]
fn unregister_restores_instruction_and_reverse_map() {
    let mut k = engine(&ADDI);
    k.register_kprobe(TEXT, args()).unwrap();
    assert_eq!(k.unregister_kprobe(TEXT), Ok(()));
    assert_eq!(bytes_at(&k, TEXT, 4), ADDI.to_vec());
    assert!(k.addr_map.is_empty());
    assert!(!k.is_registered(TEXT));
    assert_eq!(k.unregister_kprobe(TEXT), Err(SysError::ENOENT));
}

#[test]
fn single_step_round_trip_balances_count() {
    let mut k = engine(&ADDI);
    k.register_kprobe(TEXT, args()).unwrap();
    let buf = k.probes[0].insn_buf;
    assert_eq!(
        k.kprobe_trap_handler(TEXT),
        TrapAction::SingleStep { addr: TEXT, user_data: 42, resume_pc: buf }
    );
    assert_eq!(k.probes[0].active_count, 1);
    assert_eq!(k.unregister_kprobe(TEXT), Err(SysError::EBUSY));
    assert_eq!(
        k.kprobe_trap_handler(buf + 4),
        TrapAction::PostStep { addr: TEXT, user_data: 42, has_post_handler: true, resume_pc: TEXT + 4 }
    );
    assert_eq!(k.probes[0].active_count, 0);
    assert_eq!(k.kprobe_trap_handler(TEXT + 100), TrapAction::NotHandled);
    assert_eq!(k.unregister_kprobe(TEXT), Ok(()));
}

#[test]
fn nested_hits_count_up() {
    let mut k = engine(&ADDI);
    k.register_kprobe(TEXT, args()).unwrap();
    k.kprobe_trap_handler(TEXT);
    k.kprobe_trap_handler(TEXT);
    assert_eq!(k.probes[0].active_count, 2);
    let post = k.probes[0].insn_buf + 4;
    k.kprobe_trap_handler(post);
    k.kprobe_trap_handler(post);
    assert_eq!(k.probes[0].active_count, 0);
}

fn slot_memory() -> Memory {
    Memory::new(0x20000, vec![0u8; 2 * PAGE_SIZE]).unwrap()
}

#[test]
fn alloc_fills_page_with_breakpoints() {
    let mut mem = slot_memory();
    let mut frames = vec![0x20000];
    let mut pool = BreakpointAllocator::new();
    assert_eq!(pool.alloc_breakpoint(&mut mem, &mut frames), Some(0x20000));
    assert!(frames.is_empty());
    assert_eq!(pool.nr_pages(), 1);
    assert_eq!(pool.page_free_count(0), BREAKPOINTS_PER_PAGE - 1);
    assert!(mem.bytes[..PAGE_SIZE].chunks(2).all(|c| c == [0x02, 0x90]));
    assert_eq!(pool.alloc_breakpoint(&mut mem, &mut frames), Some(0x20002));
    assert_eq!(pool.alloc_breakpoint(&mut mem, &mut frames), Some(0x20004));
}

#[test]
fn alloc_without_frames_fails() {
    let mut mem = slot_memory();
    let mut frames = vec![];
    let mut pool = BreakpointAllocator::new();
    assert_eq!(pool.alloc_breakpoint(&mut mem, &mut frames), None);
    let mut frames = vec![0x20001];
    assert_eq!(pool.alloc_breakpoint(&mut mem, &mut frames), None);
}

#[test]
fn alloc_all_then_free_all_keeps_one_page() {
    let mut mem = slot_memory();
    let mut frames = vec![0x20000];
    let mut pool = BreakpointAllocator::new();
    let mut slots = Vec::new();
    for _ in 0..BREAKPOINTS_PER_PAGE {
        slots.push(pool.alloc_breakpoint(&mut mem, &mut frames).unwrap());
    }
    assert_eq!(pool.page_free_count(0), 0);
    for s in slots {
        pool.free_breakpoint(s, &mut frames);
    }
    assert_eq!(pool.nr_pages(), 1);
    assert_eq!(pool.page_free_count(0), BREAKPOINTS_PER_PAGE);
    assert!(frames.is_empty());
    assert_eq!(pool.alloc_breakpoint(&mut mem, &mut frames), Some(0x20000));
}

#[test]
fn freeing_second_page_returns_frame() {
    let mut mem = slot_memory();
    let mut frames = vec![0x21000, 0x20000];
    let mut pool = BreakpointAllocator::new();
    for _ in 0..BREAKPOINTS_PER_PAGE {
        pool.alloc_breakpoint(&mut mem, &mut frames).unwrap();
    }
    let extra = pool.alloc_breakpoint(&mut mem, &mut frames).unwrap();
    assert_eq!(extra, 0x21000);
    assert_eq!(pool.nr_pages(), 2);
    pool.free_breakpoint(extra, &mut frames);
    assert_eq!(pool.nr_pages(), 1);
    assert_eq!(frames, vec![0x21000]);
}

#[test]
fn freed_slot_is_reused_smallest_first() {
    let mut mem = slot_memory();
    let mut frames = vec![0x20000];
    let mut pool = BreakpointAllocator::new();
    let a = pool.alloc_breakpoint(&mut mem, &mut frames).unwrap();
    let _b = pool.alloc_breakpoint(&mut mem, &mut frames).unwrap();
    pool.free_breakpoint(a, &mut frames);
    assert_eq!(pool.alloc_breakpoint(&mut mem, &mut frames), Some(a));
}

#[test]
fn inject_breakpoints_single_and_run() {
    let mut mem = slot_memory();
    inject_breakpoints(&mut mem, 0x20010, None);
    assert_eq!(mem.bytes[0x10..0x12].to_vec(), vec![0x02, 0x90]);
    assert_eq!(mem.bytes[0x12], 0);
    inject_breakpoints(&mut mem, 0x20020, Some(6));
    assert_eq!(mem.bytes[0x20..0x26].to_vec(), vec![0x02, 0x90, 0x02, 0x90, 0x02, 0x90]);
    assert_eq!(mem.bytes[0x26], 0);
}

#[test]
fn byte_copy_moves_bytes() {
    let mut mem = Memory::new(0x100, vec![1, 2, 3, 4, 0, 0, 0, 0]).unwrap();
    mem.byte_copy(0x104, 0x100, 3);
    assert_eq!(mem.bytes, vec![1, 2, 3, 4, 1, 2, 3, 0]);
}

#[test]
fn kretprobe_instances_follow_limit() {
    let k = engine(&ADDI);
    let mut r = KRetProbes::new(k, 0x9000);
    let a = KRetProbeArgs { has_entry_handler: true, limit: Some(1), user_data: 0 };
    assert_eq!(r.register_kretprobe(TEXT, a), Ok(()));
    assert_eq!(r.register_kretprobe(TEXT, a), Err(SysError::EEXIST));
    assert_eq!(r.kretprobe_entry(TEXT, 0x5555, 1), Some(0x9000));
    assert_eq!(r.kretprobe_entry(TEXT, 0x6666, 2), None);
    assert_eq!(r.kretprobe_exit(2), None);
    assert_eq!(r.kretprobe_exit(1), Some((TEXT, 0x5555)));
    assert_eq!(r.kretprobe_entry(TEXT, 0x7777, 2), Some(0x9000));
    assert_eq!(r.unregister_kretprobe(TEXT), Ok(()));
    assert_eq!(r.unregister_kretprobe(TEXT), Err(SysError::ENOENT));
    assert!(!r.kprobes.is_registered(TEXT));
}

#[test]
fn probe_arm_and_disarm_directly() {
    let mut mem = Memory::new(0x100, vec![0x13, 0x05, 0x10, 0x00, 0, 0, 0, 0, 0, 0, 0, 0]).unwrap();
    let p = KProbe::new(&mem, 0x100, 0x106, false, args());
    assert_eq!(p.insn_len, 4);
    assert_eq!(p.active_count, 0);
    assert_eq!(p.user_data, 42);
    p.arm(&mut mem);
    assert_eq!(mem.bytes, vec![0x02, 0x90, 0x02, 0x90, 0, 0, 0x13, 0x05, 0x10, 0x00, 0x02, 0x90]);
    p.disarm(&mut mem);
    assert_eq!(mem.bytes[..4].to_vec(), ADDI.to_vec());
}

#[test]
fn decoder_classifies_instructions() {
    let mem = Memory::new(0, vec![0x63, 0x00, 0x01, 0x00, 0x82, 0x80, 0x01, 0xa0, 0x17, 0x05, 0x00, 0x00]).unwrap();
    // beq, c.jr ra, c.j, auipc
    assert_eq!(get_insn_type(&mem, 0), SingleStepType::Emulate);
    assert_eq!(get_insn_length(&mem, 0), 4);
    assert_eq!(get_insn_type(&mem, 4), SingleStepType::Emulate);
    assert_eq!(get_insn_length(&mem, 4), 2);
    assert_eq!(get_insn_type(&mem, 6), SingleStepType::Emulate);
    assert_eq!(get_insn_type(&mem, 8), SingleStepType::Emulate);
    let mem = Memory::new(0, vec![0x05, 0x05, 0x02, 0x90, 0x13, 0x00]).unwrap();
    assert_eq!(get_insn_type(&mem, 0), SingleStepType::Execute);
    assert_eq!(get_insn_type(&mem, 2), SingleStepType::Unsupported);
    assert_eq!(get_insn_type(&mem, 4), SingleStepType::Execute);
}

#[test]
fn memory_window_bounds() {
    assert!(Memory::new(usize::MAX - 1, vec![0, 0, 0]).is_none());
    let mem = Memory::new(0x100, vec![0; 8]).unwrap();
    assert!(mem.contains(0x100, 8));
    assert!(!mem.contains(0x100, 9));
    assert!(!mem.contains(0xff, 1));
    assert_eq!(mem.read_byte(0x107), 0);
}
