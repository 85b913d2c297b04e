use vstd::prelude::*;

use crate::elf_check::{elf_check, elf_well_formed, sec_type, sh_count};
use crate::error::SysError;
use xmas_elf::header::Machine;
use xmas_elf::sections::{SectionData, ShType};
use xmas_elf::symbol_table::Entry;

verus! {

/// Relocation type of a 64-bit load-immediate that references a map.
pub const R_BPF_64_64: u32 = 1;

/// One map binding of a load request: address of the NUL-terminated map
/// name and the map descriptor.
#[derive(Clone, Copy, Debug)]
pub struct MapFdEntry {
    pub name: usize,
    pub fd: u32,
}

/// Program-load request payload: the object file and the map bindings, by
/// address and length.
#[derive(Clone, Copy, Debug)]
pub struct ProgramLoadExAttr {
    pub elf_prog: u64,
    pub elf_size: u32,
    pub map_array_len: u32,
    pub map_array: usize,
}

/// One entry of a relocation section.
#[derive(Clone, Copy, Debug, PartialEq, Eq, Structural)]
pub struct RelEntry {
    pub offset: u64,
    pub sym_idx: u32,
    pub rel_type: u32,
}


/// Whether the object file `prog` parses (`Some`) and names the BPF machine.
pub uninterp spec fn elf_is_bpf_of(prog: Seq<u8>) -> Option<bool>;

/// The names of the symbols in `.symtab`, one per entry (`None` for a name
/// that cannot be read); `None` without a `.symtab`.
pub uninterp spec fn elf_symbol_names_of(prog: Seq<u8>) -> Option<Seq<Option<Seq<u8>>>>;

/// The sections of `prog`, in file order: whether each is a relocation
/// section, and its name.
pub uninterp spec fn elf_section_tags_of(prog: Seq<u8>) -> Seq<(bool, Option<Seq<u8>>)>;

/// The 64-bit relocation entries of section `i` of `prog`.
pub uninterp spec fn elf_rel_entries_of(prog: Seq<u8>, i: int) -> Seq<RelEntry>;

/// File offset and size of the first section named `name`.
pub uninterp spec fn elf_section_range_of(prog: Seq<u8>, name: Seq<u8>) -> Option<(u64, u64)>;

pub open spec fn opt_bytes_view(o: Option<Vec<u8>>) -> Option<Seq<u8>> {
    match o {
        Some(v) => Some(v@),
        None => None,
    }
}

pub open spec fn names_view(v: Seq<Option<Vec<u8>>>) -> Seq<Option<Seq<u8>>> {
    v.map_values(|o: Option<Vec<u8>>| opt_bytes_view(o))
}

pub open spec fn tags_view(v: Seq<(bool, Option<Vec<u8>>)>) -> Seq<(bool, Option<Seq<u8>>)> {
    v.map_values(|s: (bool, Option<Vec<u8>>)| (s.0, opt_bytes_view(s.1)))
}

/// Relies on xmas_elf::ElfFile::new and Machine_::as_machine: parses the
/// header and tells whether the machine is BPF. The header is read from a
/// copy placed at an 8-aligned address, as the reader asserts alignment.
#[verifier::external_body]
fn elf_is_bpf(prog: &[u8]) -> (r: Option<bool>)
    requires
        elf_well_formed(prog@),
    ensures
        r == elf_is_bpf_of(prog@),
{
    let mut buf: Vec<u8> = Vec::with_capacity(prog.len() + 8);
    buf.resize((8 - buf.as_ptr() as usize % 8) % 8, 0);
    let pad = buf.len();
    buf.extend_from_slice(prog);
    match xmas_elf::ElfFile::new(&buf[pad..]) {
        Ok(elf) => Some(matches!(elf.header.pt2.machine().as_machine(), Machine::BPF)),
        Err(_) => None,
    }
}

/// Relies on xmas_elf's find_section_by_name, get_data and Entry::get_name:
/// the names of the 64-bit symbol table's entries, read from an 8-aligned copy.
#[verifier::external_body]
fn elf_symbol_names(prog: &[u8]) -> (r: Option<Vec<Option<Vec<u8>>>>)
    requires
        elf_well_formed(prog@),
    ensures
        match r {
            Some(v) => elf_symbol_names_of(prog@) == Some(names_view(v@)),
            None => elf_symbol_names_of(prog@) is None,
        },
{
    let mut buf: Vec<u8> = Vec::with_capacity(prog.len() + 8);
    buf.resize((8 - buf.as_ptr() as usize % 8) % 8, 0);
    let pad = buf.len();
    buf.extend_from_slice(prog);
    let elf = xmas_elf::ElfFile::new(&buf[pad..]).ok()?;
    let hdr = elf.find_section_by_name(".symtab")?;
    let mut names = Vec::new();
    if let Ok(SectionData::SymbolTable64(entries)) = hdr.get_data(&elf) {
        names = entries.iter().map(|sym| sym.get_name(&elf).ok().map(|n| n.as_bytes().to_vec())).collect();
    }
    Some(names)
}

/// Relies on xmas_elf's section_iter, get_type and get_name: for every
/// section, whether its type is REL (9) and its name; read from an
/// 8-aligned copy.
#[verifier::external_body]
fn elf_section_tags(prog: &[u8]) -> (r: Vec<(bool, Option<Vec<u8>>)>)
    requires
        elf_well_formed(prog@),
    ensures
        tags_view(r@) == elf_section_tags_of(prog@),
        r@.len() == sh_count(prog@),
        forall|i: int| 0 <= i < r@.len() ==> (#[trigger] r@[i].0 <==> sec_type(prog@, i) == 9),
{
    let mut buf: Vec<u8> = Vec::with_capacity(prog.len() + 8);
    buf.resize((8 - buf.as_ptr() as usize % 8) % 8, 0);
    let pad = buf.len();
    buf.extend_from_slice(prog);
    let elf = match xmas_elf::ElfFile::new(&buf[pad..]) { Ok(e) => e, Err(_) => return Vec::new() };
    elf.section_iter().map(|sec| (matches!(sec.get_type(), Ok(ShType::Rel)), sec.get_name(&elf).ok().map(|n| n.as_bytes().to_vec()))).collect()
}

/// Relies on xmas_elf's section_header and get_data: the 64-bit relocation
/// entries of section `i`; read from an 8-aligned copy.
#[verifier::external_body]
fn elf_rel_entries(prog: &[u8], i: u16) -> (r: Vec<RelEntry>)
    requires
        elf_well_formed(prog@),
        i < sh_count(prog@),
        sec_type(prog@, i as int) == 9,
    ensures
        r@ == elf_rel_entries_of(prog@, i as int),
{
    let mut buf: Vec<u8> = Vec::with_capacity(prog.len() + 8);
    buf.resize((8 - buf.as_ptr() as usize % 8) % 8, 0);
    let pad = buf.len();
    buf.extend_from_slice(prog);
    let elf = match xmas_elf::ElfFile::new(&buf[pad..]) { Ok(e) => e, Err(_) => return Vec::new() };
    match elf.section_header(i).ok().and_then(|s| s.get_data(&elf).ok()) {
        Some(SectionData::Rel64(rels)) => rels.iter().map(|e| RelEntry { offset: e.get_offset(), sym_idx: e.get_symbol_table_index(), rel_type: e.get_type() }).collect(),
        _ => Vec::new(),
    }
}

/// Relies on xmas_elf's find_section_by_name, offset and size: where the
/// section named `name` lies in the file; read from an 8-aligned copy.
#[verifier::external_body]
fn elf_section_range(prog: &[u8], name: &[u8]) -> (r: Option<(u64, u64)>)
    requires
        elf_well_formed(prog@),
    ensures
        r == elf_section_range_of(prog@, name@),
{
    let mut buf: Vec<u8> = Vec::with_capacity(prog.len() + 8);
    buf.resize((8 - buf.as_ptr() as usize % 8) % 8, 0);
    let pad = buf.len();
    buf.extend_from_slice(prog);
    let elf = xmas_elf::ElfFile::new(&buf[pad..]).ok()?;
    let sec = elf.find_section_by_name(core::str::from_utf8(name).ok()?)?;
    Some((sec.offset(), sec.size()))
}

/// Last index of a map binding named `name`.
pub open spec fn map_index_of(maps: Seq<(Vec<u8>, u32)>, name: Seq<u8>) -> Option<int>
    decreases maps.len(),
{
    if maps.len() == 0 {
        None
    } else if maps.last().0@ == name {
        Some(maps.len() - 1)
    } else {
        map_index_of(maps.drop_last(), name)
    }
}

/// Address that references to symbol `s` are relocated to: the slot, in the
/// descriptor table at `base`, of the map bound to the symbol's name.
pub open spec fn symbol_addr(names: Seq<Option<Seq<u8>>>, maps: Seq<(Vec<u8>, u32)>, base: int, s: int) -> Option<u64> {
    if 0 <= s < names.len() && names[s] is Some && map_index_of(maps, names[s]->0) is Some {
        Some((base + 4 * (map_index_of(maps, names[s]->0)->0)) as u64)
    } else {
        None
    }
}

pub open spec fn symbol_addrs(names: Seq<Option<Seq<u8>>>, maps: Seq<(Vec<u8>, u32)>, base: int) -> Seq<Option<u64>> {
    Seq::new(names.len(), |s: int| symbol_addr(names, maps, base, s))
}

/// Some symbol is named `name`.
pub open spec fn symbol_named(names: Seq<Option<Seq<u8>>>, name: Seq<u8>) -> bool {
    exists|s: int| 0 <= s < names.len() && names[s] == Some(name)
}

/// Every map binding names some symbol.
pub open spec fn all_maps_resolved(names: Seq<Option<Seq<u8>>>, maps: Seq<(Vec<u8>, u32)>) -> bool {
    forall|m: int| 0 <= m < maps.len() ==> symbol_named(names, #[trigger] maps[m].0@)
}

/// `s` with the little-endian bytes of `v` written at `p`.
pub open spec fn write_u32(s: Seq<u8>, p: int, v: u32) -> Seq<u8> {
    s.update(p, (v % 256) as u8).update(p + 1, ((v / 256) % 256) as u8).update(p + 2, ((v / 65536) % 256) as u8).update(p + 3, (v / 16777216) as u8)
}

/// One relocation entry applied to `img`, whose target section starts at `sec_off`.
pub open spec fn apply_entry(img: Seq<u8>, sec_off: int, e: RelEntry, addrs: Seq<Option<u64>>) -> Result<Seq<u8>, SysError> {
    if e.sym_idx < addrs.len() && addrs[e.sym_idx as int] is Some && e.rel_type == R_BPF_64_64 {
        let a = addrs[e.sym_idx as int]->0;
        let p = sec_off + e.offset;
        if p + 16 <= img.len() {
            Ok(write_u32(write_u32(img, p + 4, (a % 4294967296) as u32), p + 12, (a / 4294967296) as u32))
        } else {
            Err(SysError::EINVAL)
        }
    } else {
        Ok(img)
    }
}

pub open spec fn apply_entries(img: Seq<u8>, sec_off: int, es: Seq<RelEntry>, addrs: Seq<Option<u64>>) -> Result<Seq<u8>, SysError>
    decreases es.len(),
{
    if es.len() == 0 {
        Ok(img)
    } else {
        match apply_entries(img, sec_off, es.drop_last(), addrs) {
            Ok(i) => apply_entry(i, sec_off, es.last(), addrs),
            Err(e) => Err(e),
        }
    }
}

/// One relocation section `.rel<target>` applied to `img`.
pub open spec fn apply_section(prog: Seq<u8>, img: Seq<u8>, i: int, sec: (bool, Option<Seq<u8>>), addrs: Seq<Option<u64>>) -> Result<Seq<u8>, SysError> {
    if !sec.0 {
        Ok(img)
    } else {
    match sec.1 {
        None => Err(SysError::EINVAL),
        Some(name) => if name.len() < 4 {
            Err(SysError::EINVAL)
        } else {
            match elf_section_range_of(prog, name.subrange(4, name.len() as int)) {
                None => Err(SysError::ENOENT),
                Some((off, _)) => apply_entries(img, off as int, elf_rel_entries_of(prog, i), addrs),
            }
        },
    }
    }
}

pub open spec fn apply_sections(prog: Seq<u8>, img: Seq<u8>, secs: Seq<(bool, Option<Seq<u8>>)>, addrs: Seq<Option<u64>>) -> Result<Seq<u8>, SysError>
    decreases secs.len(),
{
    if secs.len() == 0 {
        Ok(img)
    } else {
        match apply_sections(prog, img, secs.drop_last(), addrs) {
            Ok(i) => apply_section(prog, i, secs.len() - 1, secs.last(), addrs),
            Err(e) => Err(e),
        }
    }
}

pub open spec fn text_name() -> Seq<u8> {
    seq![46u8, 116, 101, 120, 116]
}

/// Loading `prog` with map bindings `maps` and the descriptor table at
/// `base`: the relocated bytes of `.text`, or the error.
pub open spec fn load_spec(prog: Seq<u8>, maps: Seq<(Vec<u8>, u32)>, base: int) -> Result<Seq<u8>, SysError> {
    if !elf_well_formed(prog) || elf_is_bpf_of(prog) != Some(true) {
        Err(SysError::EINVAL)
    } else {
        match elf_symbol_names_of(prog) {
            None => Err(SysError::ENOENT),
            Some(names) => if !all_maps_resolved(names, maps) {
                Err(SysError::ENOENT)
            } else {
                match apply_sections(prog, prog, elf_section_tags_of(prog), symbol_addrs(names, maps, base)) {
                    Err(e) => Err(e),
                    Ok(img) => match elf_section_range_of(prog, text_name()) {
                        None => Err(SysError::ENOENT),
                        Some((off, size)) => if off + size <= img.len() {
                            Ok(img.subrange(off as int, off + size))
                        } else {
                            Err(SysError::EINVAL)
                        },
                    },
                }
            },
        }
    }
}

/// The map-descriptor table: the descriptors of `map_info`, in order.
pub fn build_map_fd_table(map_info: &Vec<(Vec<u8>, u32)>) -> (r: Vec<u32>)
    ensures
        r@.len() == map_info@.len(),
        forall|i: int| 0 <= i < r@.len() ==> r@[i] == map_info@[i].1,
{
    let mut t: Vec<u32> = Vec::new();
    let mut i: usize = 0;
    while i < map_info.len()
        invariant
            i <= map_info@.len(),
            t@.len() == i,
            forall|k: int| 0 <= k < i ==> t@[k] == map_info@[k].1,
        decreases map_info@.len() - i,
    {
        t.push(map_info[i].1);
        i = i + 1;
    }
    t
}

fn bytes_equal(a: &Vec<u8>, b: &Vec<u8>) -> (r: bool)
    ensures
        r == (a@ == b@),
{
    if a.len() != b.len() {
        return false;
    }
    let mut i: usize = 0;
    while i < a.len()
        invariant
            a@.len() == b@.len(),
            i <= a@.len(),
            forall|k: int| 0 <= k < i ==> a@[k] == b@[k],
        decreases a@.len() - i,
    {
        if a[i] != b[i] {
            return false;
        }
        i = i + 1;
    }
    assert(a@ =~= b@);
    true
}

fn map_index(maps: &Vec<(Vec<u8>, u32)>, name: &Vec<u8>) -> (r: Option<usize>)
    ensures
        r matches Some(m) ==> map_index_of(maps@, name@) == Some(m as int) && m < maps@.len(),
        r is None ==> map_index_of(maps@, name@) is None,
{
    let mut i: usize = maps.len();
    assert(maps@.subrange(0, i as int) =~= maps@);
    while i > 0
        invariant
            i <= maps@.len(),
            map_index_of(maps@, name@) == map_index_of(maps@.subrange(0, i as int), name@),
        decreases i,
    {
        let ghost pre = maps@.subrange(0, i as int);
        assert(pre.drop_last() =~= maps@.subrange(0, i - 1));
        if bytes_equal(&maps[i - 1].0, name) {
            return Some(i - 1);
        }
        i = i - 1;
    }
    None
}

fn symbol_addresses(names: &Vec<Option<Vec<u8>>>, maps: &Vec<(Vec<u8>, u32)>, base: usize) -> (r: Vec<Option<u64>>)
    requires
        base + 4 * maps@.len() <= usize::MAX,
    ensures
        r@ == symbol_addrs(names_view(names@), maps@, base as int),
{
    let ghost nv = names_view(names@);
    let mut out: Vec<Option<u64>> = Vec::new();
    let mut s: usize = 0;
    while s < names.len()
        invariant
            s <= names@.len(),
            nv == names_view(names@),
            nv.len() == names@.len(),
            base + 4 * maps@.len() <= usize::MAX,
            out@.len() == s,
            forall|k: int| 0 <= k < s ==> out@[k] == symbol_addr(nv, maps@, base as int, k),
        decreases names@.len() - s,
    {
        proof {
            assert(nv[s as int] == opt_bytes_view(names@[s as int]));
        }
        let a: Option<u64> = match &names[s] {
            Some(n) => match map_index(maps, n) {
                Some(m) => {
                    assert(nv[s as int] == Some(n@));
                    assert(map_index_of(maps@, n@) == Some(m as int));
                    Some((base + 4 * m) as u64)
                },
                None => None,
            },
            None => None,
        };
        assert(a == symbol_addr(nv, maps@, base as int, s as int));
        out.push(a);
        s = s + 1;
    }
    assert(out@ =~= symbol_addrs(nv, maps@, base as int));
    out
}

fn all_resolved(names: &Vec<Option<Vec<u8>>>, maps: &Vec<(Vec<u8>, u32)>) -> (r: bool)
    ensures
        r == all_maps_resolved(names_view(names@), maps@),
{
    let ghost nv = names_view(names@);
    let mut m: usize = 0;
    while m < maps.len()
        invariant
            m <= maps@.len(),
            nv == names_view(names@),
            nv.len() == names@.len(),
            forall|k: int| 0 <= k < m ==> symbol_named(nv, #[trigger] maps@[k].0@),
        decreases maps@.len() - m,
    {
        let mut found = false;
        let mut s: usize = 0;
        while s < names.len() && !found
            invariant
                s <= names@.len(),
                m < maps@.len(),
                nv == names_view(names@),
                nv.len() == names@.len(),
                found ==> symbol_named(nv, maps@[m as int].0@),
                !found ==> forall|j: int| 0 <= j < s ==> nv[j] != Some(maps@[m as int].0@),
            decreases names@.len() - s,
        {
            proof {
                assert(nv[s as int] == opt_bytes_view(names@[s as int]));
            }
            match &names[s] {
                Some(n) => {
                    if bytes_equal(n, &maps[m].0) {
                        found = true;
                        assert(nv[s as int] == Some(maps@[m as int].0@));
                        assert(symbol_named(nv, maps@[m as int].0@));
                    }
                },
                None => {},
            }
            s = s + 1;
        }
        if !found {
            proof {
                assert(!symbol_named(nv, maps@[m as int].0@));
            }
            return false;
        }
        m = m + 1;
    }
    true
}

fn put_u32(img: &mut Vec<u8>, p: usize, v: u32)
    requires
        p + 4 <= old(img)@.len() <= usize::MAX,
    ensures
        final(img)@ == write_u32(old(img)@, p as int, v),
{
    img.set(p, (v % 256) as u8);
    img.set(p + 1, ((v / 256) % 256) as u8);
    img.set(p + 2, ((v / 65536) % 256) as u8);
    img.set(p + 3, (v / 16777216) as u8);
}

fn relocate_entries(img: &mut Vec<u8>, sec_off: u64, es: &Vec<RelEntry>, addrs: &Vec<Option<u64>>) -> (r: Result<(), SysError>)
    ensures
        match apply_entries(old(img)@, sec_off as int, es@, addrs@) {
            Ok(s) => r is Ok && final(img)@ == s,
            Err(e) => r == Err::<(), SysError>(e),
        },
{
    let ghost img0 = img@;
    let mut i: usize = 0;
    while i < es.len()
        invariant
            i <= es@.len(),
            img0 == old(img)@,
            apply_entries(img0, sec_off as int, es@.subrange(0, i as int), addrs@) == Ok::<Seq<u8>, SysError>(img@),
        decreases es@.len() - i,
    {
        let ghost pre = es@.subrange(0, i + 1);
        assert(pre.drop_last() =~= es@.subrange(0, i as int));
        let e = es[i];
        proof {
            assert(pre.last() == e);
        }
        let len = img.len();
        if (e.sym_idx as usize) < addrs.len() && e.rel_type == R_BPF_64_64 {
            match addrs[e.sym_idx as usize] {
                Some(a) => {
                    if e.offset > u64::MAX - sec_off || sec_off + e.offset > img.len() as u64 || img.len() - ((sec_off + e.offset) as usize) < 16 {
                        proof {
                            assert(sec_off + e.offset + 16 > img@.len());
                            assert(apply_entries(img0, sec_off as int, pre, addrs@) == apply_entry(img@, sec_off as int, e, addrs@));
                            assert(apply_entry(img@, sec_off as int, e, addrs@) == Err::<Seq<u8>, SysError>(SysError::EINVAL));
                            lemma_apply_entries_err(img0, sec_off as int, es@, addrs@, i as int);
                            assert(apply_entries(img0, sec_off as int, es@, addrs@) == Err::<Seq<u8>, SysError>(SysError::EINVAL));
                        }
                        return Err(SysError::EINVAL);
                    }
                    let p = (sec_off + e.offset) as usize;
                    let ghost img_i = img@;
                    put_u32(img, p + 4, (a % 4294967296) as u32);
                    put_u32(img, p + 12, (a / 4294967296) as u32);
                    proof {
                        assert(apply_entry(img_i, sec_off as int, e, addrs@) == Ok::<Seq<u8>, SysError>(img@));
                    }
                },
                None => {},
            }
        }
        i = i + 1;
    }
    assert(es@.subrange(0, i as int) =~= es@);
    Ok(())
}

/// Once a prefix of the entries fails, the whole run fails the same way.
proof fn lemma_apply_entries_err(img: Seq<u8>, off: int, es: Seq<RelEntry>, addrs: Seq<Option<u64>>, i: int)
    requires
        0 <= i < es.len(),
        apply_entries(img, off, es.subrange(0, i + 1), addrs) is Err,
    ensures
        apply_entries(img, off, es, addrs) == apply_entries(img, off, es.subrange(0, i + 1), addrs),
    decreases es.len() - i,
{
    if i + 1 == es.len() {
        assert(es.subrange(0, i + 1) =~= es);
    } else {
        let pre = es.subrange(0, i + 2);
        assert(pre.drop_last() =~= es.subrange(0, i + 1));
        lemma_apply_entries_err(img, off, es, addrs, i + 1);
    }
}

/// Once a prefix of the sections fails, the whole run fails the same way.
proof fn lemma_apply_sections_err(prog: Seq<u8>, img: Seq<u8>, secs: Seq<(bool, Option<Seq<u8>>)>, addrs: Seq<Option<u64>>, i: int)
    requires
        0 <= i < secs.len(),
        apply_sections(prog, img, secs.subrange(0, i + 1), addrs) is Err,
    ensures
        apply_sections(prog, img, secs, addrs) == apply_sections(prog, img, secs.subrange(0, i + 1), addrs),
    decreases secs.len() - i,
{
    if i + 1 == secs.len() {
        assert(secs.subrange(0, i + 1) =~= secs);
    } else {
        let pre = secs.subrange(0, i + 2);
        assert(pre.drop_last() =~= secs.subrange(0, i + 1));
        lemma_apply_sections_err(prog, img, secs, addrs, i + 1);
    }
}

fn copy_range(v: &[u8], from: usize, to: usize) -> (r: Vec<u8>)
    requires
        from <= to <= v@.len(),
    ensures
        r@ == v@.subrange(from as int, to as int),
{
    let mut out: Vec<u8> = Vec::new();
    let mut i: usize = from;
    while i < to
        invariant
            from <= i <= to <= v@.len(),
            out@ =~= v@.subrange(from as int, i as int),
        decreases to - i,
    {
        out.push(v[i]);
        i = i + 1;
    }
    out
}

fn relocate_sections(prog: &[u8], img: &mut Vec<u8>, secs: &Vec<(bool, Option<Vec<u8>>)>, addrs: &Vec<Option<u64>>) -> (r: Result<(), SysError>)
    requires
        elf_well_formed(prog@),
        secs@.len() == sh_count(prog@),
        forall|i: int| 0 <= i < secs@.len() ==> (#[trigger] secs@[i].0 <==> sec_type(prog@, i) == 9),
    ensures
        match apply_sections(prog@, old(img)@, tags_view(secs@), addrs@) {
            Ok(s) => r is Ok && final(img)@ == s,
            Err(e) => r == Err::<(), SysError>(e),
        },
{
    let ghost img0 = img@;
    let ghost rv = tags_view(secs@);
    let mut i: usize = 0;
    while i < secs.len()
        invariant
            i <= secs@.len(),
            img0 == old(img)@,
            rv == tags_view(secs@),
            rv.len() == secs@.len(),
            elf_well_formed(prog@),
            secs@.len() == sh_count(prog@),
            forall|i: int| 0 <= i < secs@.len() ==> (#[trigger] secs@[i].0 <==> sec_type(prog@, i) == 9),
            apply_sections(prog@, img0, rv.subrange(0, i as int), addrs@) == Ok::<Seq<u8>, SysError>(img@),
        decreases secs@.len() - i,
    {
        let ghost pre = rv.subrange(0, i + 1);
        let ghost img_i = img@;
        proof {
            assert(pre.drop_last() =~= rv.subrange(0, i as int));
            assert(pre.last() == rv[i as int]);
            assert(rv[i as int] == (secs@[i as int].0, opt_bytes_view(secs@[i as int].1)));
        }
        let res: Result<(), SysError> = if !secs[i].0 {
            Ok(())
        } else {
            match &secs[i].1 {
                None => Err(SysError::EINVAL),
                Some(name) => {
                    if name.len() < 4 {
                        Err(SysError::EINVAL)
                    } else {
                        let target = copy_range(name.as_slice(), 4, name.len());
                        match elf_section_range(prog, target.as_slice()) {
                            None => Err(SysError::ENOENT),
                            Some((off, _size)) => {
                                let entries = elf_rel_entries(prog, i as u16);
                                relocate_entries(img, off, &entries, addrs)
                            },
                        }
                    }
                },
            }
        };
        match res {
            Err(e) => {
                proof {
                    assert(apply_sections(prog@, img0, pre, addrs@) == apply_section(prog@, img_i, i as int, rv[i as int], addrs@));
                    lemma_apply_sections_err(prog@, img0, rv, addrs@, i as int);
                }
                return Err(e);
            },
            Ok(()) => {},
        }
        i = i + 1;
    }
    assert(rv.subrange(0, i as int) =~= rv);
    Ok(())
}

/// Loads the object file `prog`: checks that it is for the BPF machine,
/// points every symbol named by a map binding of `map_info` at that map's
/// slot in the descriptor table at `table_base`, applies the
/// load-immediate relocations, and returns the relocated `.text` bytes.
pub fn bpf_program_load_ex(prog: &[u8], map_info: &Vec<(Vec<u8>, u32)>, table_base: usize) -> (r: Result<Vec<u8>, SysError>)
    requires
        table_base + 4 * map_info@.len() <= usize::MAX,
    ensures
        match load_spec(prog@, map_info@, table_base as int) {
            Ok(t) => r matches Ok(v) && v@ == t,
            Err(e) => r == Err::<Vec<u8>, SysError>(e),
        },
{
    if !elf_check(prog) {
        return Err(SysError::EINVAL);
    }
    match elf_is_bpf(prog) {
        Some(true) => {},
        _ => {
            return Err(SysError::EINVAL);
        },
    }
    let names = match elf_symbol_names(prog) {
        None => {
            return Err(SysError::ENOENT);
        },
        Some(n) => n,
    };
    if !all_resolved(&names, map_info) {
        return Err(SysError::ENOENT);
    }
    let addrs = symbol_addresses(&names, map_info, table_base);
    let mut img = copy_range(prog, 0, prog.len());
    proof {
        assert(img@ =~= prog@);
    }
    let secs = elf_section_tags(prog);
    match relocate_sections(prog, &mut img, &secs, &addrs) {
        Err(e) => {
            return Err(e);
        },
        Ok(()) => {},
    }
    let text: Vec<u8> = vec![46u8, 116, 101, 120, 116];
    assert(text@ =~= text_name());
    match elf_section_range(prog, text.as_slice()) {
        None => Err(SysError::ENOENT),
        Some((off, size)) => {
            if off <= img.len() as u64 && size <= img.len() as u64 - off {
                Ok(copy_range(img.as_slice(), off as usize, (off + size) as usize))
            } else {
                Err(SysError::EINVAL)
            }
        },
    }
}

} // verus!
