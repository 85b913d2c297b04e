use ktrace::error::SysError;
use ktrace::loader::{bpf_program_load_ex, build_map_fd_table};

fn push_u16(v: &mut Vec<u8>, x: u16) {
    v.extend_from_slice(&x.to_le_bytes());
}
fn push_u32(v: &mut Vec<u8>, x: u32) {
    v.extend_from_slice(&x.to_le_bytes());
}
fn push_u64(v: &mut Vec<u8>, x: u64) {
    v.extend_from_slice(&x.to_le_bytes());
}

fn section(v: &mut Vec<u8>, name: u32, ty: u32, off: u64, size: u64, link: u32, info: u32, entsize: u64) {
    push_u32(v, name);
    push_u32(v, ty);
    push_u64(v, 0);
    push_u64(v, 0);
    push_u64(v, off);
    push_u64(v, size);
    push_u32(v, link);
    push_u32(v, info);
    push_u64(v, 8);
    push_u64(v, entsize);
}

/// A relocatable object: `.text` holding one load-immediate-64, `.symtab`
/// with symbol `m`, and `.rel.text` with one map reference at offset 0.
fn object(machine: u16) -> Vec<u8> {
    let text: Vec<u8> = vec![0x18, 0x01, 0, 0, 0, 0, 0, 0, 0, 0, 0, 0, 0, 0, 0, 0];
    let strtab: Vec<u8> = b"\0m\0\0\0\0\0\0".to_vec();
    let shstrtab: Vec<u8> = b"\0.text\0.symtab\0.strtab\0.rel.text\0.shstrtab\0\0\0\0\0\0".to_vec();
    let text_off = 64u64;
    let sym_off = text_off + 16;
    let str_off = sym_off + 48;
    let rel_off = str_off + strtab.len() as u64;
    let shstr_off = rel_off + 16;
    let sh_off = shstr_off + shstrtab.len() as u64;

    let mut v = Vec::new();
    v.extend_from_slice(&[0x7f, b'E', b'L', b'F', 2, 1, 1, 0, 0, 0, 0, 0, 0, 0, 0, 0]);
    push_u16(&mut v, 1);
    push_u16(&mut v, machine);
    push_u32(&mut v, 1);
    push_u64(&mut v, 0);
    push_u64(&mut v, 0);
    push_u64(&mut v, sh_off);
    push_u32(&mut v, 0);
    push_u16(&mut v, 64);
    push_u16(&mut v, 56);
    push_u16(&mut v, 0);
    push_u16(&mut v, 64);
    push_u16(&mut v, 6);
    push_u16(&mut v, 5);
    assert_eq!(v.len(), 64);
    v.extend_from_slice(&text);
    v.extend_from_slice(&[0u8; 24]);
    push_u32(&mut v, 1);
    v.push(0x11);
    v.push(0);
    push_u16(&mut v, 1);
    push_u64(&mut v, 0);
    push_u64(&mut v, 0);
    v.extend_from_slice(&strtab);
    push_u64(&mut v, 0);
    push_u64(&mut v, (1u64 << 32) | 1);
    v.extend_from_slice(&shstrtab);
    assert_eq!(v.len() as u64, sh_off);
    section(&mut v, 0, 0, 0, 0, 0, 0, 0);
    section(&mut v, 1, 1, text_off, 16, 0, 0, 0);
    section(&mut v, 7, 2, sym_off, 48, 3, 1, 24);
    section(&mut v, 15, 3, str_off, 3, 0, 0, 0);
    section(&mut v, 23, 9, rel_off, 16, 2, 1, 16);
    section(&mut v, 33, 3, shstr_off, 43, 0, 0, 0);
    v
}

#[test]
fn map_reference_is_relocated() {
    let prog = object(0xF7);
    let maps = vec![(b"m".to_vec(), 7u32)];
    let table = build_map_fd_table(&maps);
    assert_eq!(table, vec![7]);
    let base = table.as_ptr() as usize;
    let text = bpf_program_load_ex(&prog, &maps, base).unwrap();
    assert_eq!(text.len(), 16);
    let lo = u32::from_le_bytes([text[4], text[5], text[6], text[7]]);
    let hi = u32::from_le_bytes([text[12], text[13], text[14], text[15]]);
    assert_eq!(((hi as u64) << 32) | lo as u64, base as u64);
    assert_eq!(text[0], 0x18);
    assert_eq!(table[0], 7);
}

#[test]
fn second_map_slot_is_four_bytes_on() {
    let prog = object(0xF7);
    let maps = vec![(b"other".to_vec(), 3u32), (b"m".to_vec(), 7u32)];
    let text = bpf_program_load_ex(&prog, &maps[1..].to_vec(), 0x1000).unwrap();
    assert_eq!(u32::from_le_bytes([text[4], text[5], text[6], text[7]]), 0x1000);
    let maps2 = vec![(b"m".to_vec(), 3u32), (b"m".to_vec(), 7u32)];
    let text = bpf_program_load_ex(&prog, &maps2, 0x1000).unwrap();
    assert_eq!(u32::from_le_bytes([text[4], text[5], text[6], text[7]]), 0x1004);
    assert_eq!(u32::from_le_bytes([text[12], text[13], text[14], text[15]]), 0);
}

#[test]
fn no_maps_leaves_code_unchanged() {
    let prog = object(0xF7);
    let text = bpf_program_load_ex(&prog, &vec![], 0x1000).unwrap();
    assert_eq!(text, vec![0x18, 0x01, 0, 0, 0, 0, 0, 0, 0, 0, 0, 0, 0, 0, 0, 0]);
}

#[test]
fn missing_map_is_not_found() {
    let prog = object(0xF7);
    let maps = vec![(b"x".to_vec(), 7u32)];
    assert_eq!(bpf_program_load_ex(&prog, &maps, 0x1000), Err(SysError::ENOENT));
}

#[test]
fn wrong_machine_is_invalid() {
    let prog = object(0x3E);
    let maps = vec![(b"m".to_vec(), 7u32)];
    assert_eq!(bpf_program_load_ex(&prog, &maps, 0x1000), Err(SysError::EINVAL));
}

#[test]
fn garbage_is_invalid() {
    assert_eq!(bpf_program_load_ex(&[1, 2, 3], &vec![], 0x1000), Err(SysError::EINVAL));
}

#[test]
fn unaligned_object_loads() {
    let mut v = vec![0u8];
    v.extend_from_slice(&object(0xF7));
    let text = bpf_program_load_ex(&v[1..], &vec![], 0x1000).unwrap();
    assert_eq!(text.len(), 16);
}

#[test]
fn truncated_object_is_invalid() {
    let mut prog = object(0xF7);
    prog.truncate(prog.len() - 10);
    assert_eq!(bpf_program_load_ex(&prog, &vec![], 0x1000), Err(SysError::EINVAL));
}

#[test]
fn section_past_end_is_invalid() {
    let mut prog = object(0xF7);
    // size of .text (section 1) made larger than the file
    let sh_off = u64::from_le_bytes(prog[40..48].try_into().unwrap()) as usize;
    let at = sh_off + 64 + 32;
    prog[at..at + 8].copy_from_slice(&100000u64.to_le_bytes());
    assert_eq!(bpf_program_load_ex(&prog, &vec![], 0x1000), Err(SysError::EINVAL));
}

#[test]
fn symbol_name_outside_string_table_is_invalid() {
    let mut prog = object(0xF7);
    // name of symbol 1 of .symtab (at 80 + 24) pointed past .strtab
    prog[104..108].copy_from_slice(&50u32.to_le_bytes());
    assert_eq!(bpf_program_load_ex(&prog, &vec![], 0x1000), Err(SysError::EINVAL));
}
