use ktrace::arch::{Memory, PAGE_SIZE};
use ktrace::error::SysError;
use ktrace::kprobes::KProbes;
use ktrace::kretprobes::KRetProbes;
use ktrace::program::BpfProgram;
use ktrace::tracepoints::{parse_tracepoint, Tracepoint, TracepointType, Tracer};

const TEXT: usize = 0x10000;

fn tracer() -> Tracer {
    let mut bytes = vec![0u8; 3 * PAGE_SIZE];
    // addi at foo, addi at bar, addi at baz
    for off in [0usize, 4, 8] {
        bytes[off..off + 4].copy_from_slice(&[0x13, 0x05, 0x10, 0x00]);
    }
    let mem = Memory::new(TEXT, bytes).unwrap();
    let k = KProbes::new(mem, vec![TEXT + PAGE_SIZE, TEXT + 2 * PAGE_SIZE]);
    let symbols = vec![
        (b"foo".to_vec(), TEXT),
        (b"bar".to_vec(), TEXT + 4),
        (b"baz".to_vec(), TEXT + 8),
    ];
    Tracer::new(KRetProbes::new(k, 0x9000), symbols)
}

fn program(t: &mut Tracer) -> u32 {
    let p = BpfProgram { bpf_insns: None, jited_prog: None, map_fd_table: None };
    t.programs.bpf_object_create_program(p).unwrap()
}

#[test]
fn parse_accepts_kinds_in_any_case() {
    assert_eq!(
        parse_tracepoint(b"KPROBE:foo"),
        Ok((TracepointType::KProbe, b"foo".to_vec()))
    );
    assert_eq!(
        parse_tracepoint(b"kretprobe@Entry:foo"),
        Ok((TracepointType::KRetProbeEntry, b"foo".to_vec()))
    );
    assert_eq!(
        parse_tracepoint(b"kretprobe@exit:foo"),
        Ok((TracepointType::KRetProbeExit, b"foo".to_vec()))
    );
}

#[test]
fn parse_rejects_other_prefixes() {
    assert_eq!(parse_tracepoint(b"uprobe:foo"), Err(SysError::EINVAL));
    assert_eq!(parse_tracepoint(b"kprobe"), Err(SysError::EINVAL));
    assert_eq!(parse_tracepoint(b"kprobes:foo"), Err(SysError::EINVAL));
    assert_eq!(parse_tracepoint(b"kretprobe:foo"), Err(SysError::EINVAL));
    assert_eq!(parse_tracepoint(b""), Err(SysError::EINVAL));
}

#[test]
fn parse_splits_at_first_colon() {
    assert_eq!(
        parse_tracepoint(b"kprobe:a:b"),
        Ok((TracepointType::KProbe, b"a:b".to_vec()))
    );
    assert_eq!(parse_tracepoint(b"kprobe:"), Ok((TracepointType::KProbe, vec![])));
}

#[test]
fn tracepoint_new_sets_fields() {
    let tp = Tracepoint::new(TracepointType::KRetProbeExit, 7);
    assert_eq!(tp.tp_type, TracepointType::KRetProbeExit);
    assert_eq!(tp.token, 7);
    assert!(Tracepoint::new(TracepointType::KProbe, 9) < tp);
}

#[test]
fn resolve_symbol_finds_address() {
    let t = tracer();
    assert_eq!(t.resolve_symbol(b"bar"), Some(TEXT + 4));
    assert_eq!(t.resolve_symbol(b"nope"), None);
}

#[test]
fn attach_twice_is_already_attached() {
    let mut t = tracer();
    let first = program(&mut t);
    assert_eq!(t.bpf_program_attach("kprobe:foo", first), Ok(0));
    assert_eq!(t.bpf_program_attach("kprobe:foo", first), Err(SysError::EAGAIN));
    assert_eq!(t.kprobe_handler(TEXT), vec![first]);
}

#[test]
fn attach_to_two_tracepoints() {
    let mut t = tracer();
    let first = program(&mut t);
    assert_eq!(t.bpf_program_attach("kprobe:foo", first), Ok(0));
    assert_eq!(t.bpf_program_attach("kprobe:bar", first), Ok(0));
    assert_eq!(t.kprobe_handler(TEXT), vec![first]);
    assert_eq!(t.kprobe_handler(TEXT + 4), vec![first]);
    assert!(t.probes.kprobes.is_registered(TEXT));
    assert!(t.probes.kprobes.is_registered(TEXT + 4));
}

#[test]
fn programs_run_in_attach_order() {
    let mut t = tracer();
    let first = program(&mut t);
    let second = program(&mut t);
    t.bpf_program_attach("kprobe:foo", first).unwrap();
    t.bpf_program_attach("kprobe:foo", second).unwrap();
    let tp = Tracepoint::new(TracepointType::KProbe, TEXT);
    assert_eq!(t.run_attached_programs(&tp), vec![first, second]);
    assert_eq!(t.probes.kprobes.probes.len(), 1);
}

#[test]
fn kretprobe_sibling_attach_registers_once() {
    let mut t = tracer();
    let first = program(&mut t);
    let second = program(&mut t);
    assert_eq!(t.bpf_program_attach("kretprobe@entry:baz", first), Ok(0));
    assert_eq!(t.kretprobe_exit_handler(TEXT + 8), Vec::<u32>::new());
    assert_eq!(t.bpf_program_attach("kretprobe@exit:baz", second), Ok(0));
    assert_eq!(t.probes.rets.len(), 1);
    assert_eq!(t.kretprobe_entry_handler(TEXT + 8), vec![first]);
    assert_eq!(t.kretprobe_exit_handler(TEXT + 8), vec![second]);
}

#[test]
fn attach_errors() {
    let mut t = tracer();
    let first = program(&mut t);
    assert_eq!(t.bpf_program_attach("kprobe:foo", first + 1), Err(SysError::ENOENT));
    assert_eq!(t.bpf_program_attach("kprobe:missing", first), Err(SysError::ENOENT));
    assert_eq!(t.bpf_program_attach("bogus:foo", first), Err(SysError::EINVAL));
    assert_eq!(t.bpf_program_attach("foo", first), Err(SysError::EINVAL));
    assert!(t.attached.is_empty());
}

#[test]
fn kprobe_attach_on_kretprobe_site_is_invalid() {
    let mut t = tracer();
    let first = program(&mut t);
    t.bpf_program_attach("kretprobe@entry:foo", first).unwrap();
    assert_eq!(t.bpf_program_attach("kprobe:foo", first), Err(SysError::EINVAL));
}

#[test]
fn unattached_tracepoint_runs_nothing() {
    let t = tracer();
    assert_eq!(t.kprobe_handler(TEXT), Vec::<u32>::new());
}

#[test]
fn program_descriptors_are_fresh() {
    let mut t = tracer();
    let a = program(&mut t);
    let b = program(&mut t);
    assert_ne!(a, b);
    assert!(t.programs.contains(a));
    assert!(!t.programs.contains(b + 1));
}
