use vstd::prelude::*;

verus! {

/// Little-endian integers at byte `i` of `p`.
pub open spec fn le16(p: Seq<u8>, i: int) -> int {
    p[i] + p[i + 1] * 256
}

pub open spec fn le32(p: Seq<u8>, i: int) -> int {
    le16(p, i) + le16(p, i + 2) * 65536
}

pub open spec fn le64(p: Seq<u8>, i: int) -> int {
    le32(p, i) + le32(p, i + 4) * 4294967296
}

pub open spec fn sh_offset(p: Seq<u8>) -> int {
    le64(p, 40)
}

pub open spec fn sh_count(p: Seq<u8>) -> int {
    le16(p, 60)
}

pub open spec fn sh_str_index(p: Seq<u8>) -> int {
    le16(p, 62)
}

/// Start of the header of section `i`.
pub open spec fn sh_at(p: Seq<u8>, i: int) -> int {
    sh_offset(p) + 64 * i
}

pub open spec fn sec_name(p: Seq<u8>, i: int) -> int {
    le32(p, sh_at(p, i))
}

pub open spec fn sec_type(p: Seq<u8>, i: int) -> int {
    le32(p, sh_at(p, i) + 4)
}

pub open spec fn sec_off(p: Seq<u8>, i: int) -> int {
    le64(p, sh_at(p, i) + 24)
}

pub open spec fn sec_size(p: Seq<u8>, i: int) -> int {
    le64(p, sh_at(p, i) + 32)
}

/// A NUL-terminated ASCII string starts at `start` and ends before `end`.
pub open spec fn cstr_ok(p: Seq<u8>, start: int, end: int) -> bool {
    exists|j: int|
        0 <= start <= j < end && j < p.len() && p[j] == 0 && forall|k: int| start <= k < j ==> #[trigger] p[k] < 128
}

/// Start of the name of section `i` in the section-name table.
pub open spec fn name_at(p: Seq<u8>, i: int) -> int {
    sec_off(p, sh_str_index(p)) + sec_name(p, i)
}

/// Section `i` is named `w` (`w` holds the terminating NUL).
pub open spec fn is_named(p: Seq<u8>, i: int, w: Seq<u8>) -> bool {
    name_at(p, i) + w.len() <= p.len() && p.subrange(name_at(p, i), name_at(p, i) + w.len()) == w
}

pub open spec fn symtab_word() -> Seq<u8> {
    seq![46u8, 115, 121, 109, 116, 97, 98, 0]
}

pub open spec fn strtab_word() -> Seq<u8> {
    seq![46u8, 115, 116, 114, 116, 97, 98, 0]
}

/// The ELF header: a little-endian 64-bit file whose section-header table,
/// of 64-byte entries, fewer than 0xff00 of them, 8-aligned, lies in the file.
pub open spec fn header_ok(p: Seq<u8>) -> bool {
    &&& p.len() >= 64
    &&& p[0] == 0x7f && p[1] == 0x45 && p[2] == 0x4c && p[3] == 0x46
    &&& p[4] == 2 && p[5] == 1
    &&& le16(p, 58) == 64
    &&& sh_count(p) < 0xff00
    &&& sh_offset(p) % 8 == 0
    &&& sh_offset(p) + 64 * sh_count(p) <= p.len()
    &&& sh_str_index(p) < sh_count(p)
    &&& sec_off(p, sh_str_index(p)) <= p.len()
}

/// Section `i`: its data lies in the file (but for NULL and NOBITS), its
/// name is a string of the name table, symbol and relocation tables are
/// 8-aligned whole numbers of entries, and a `.symtab` is a symbol table.
pub open spec fn section_ok(p: Seq<u8>, i: int) -> bool {
    let t = sec_type(p, i);
    &&& (t != 0 && t != 8 ==> sec_off(p, i) + sec_size(p, i) <= p.len())
    &&& cstr_ok(p, name_at(p, i), p.len() as int)
    &&& (t == 2 ==> sec_off(p, i) % 8 == 0 && sec_size(p, i) % 24 == 0)
    &&& (t == 9 ==> sec_off(p, i) % 8 == 0 && sec_size(p, i) % 16 == 0)
    &&& (is_named(p, i, symtab_word()) ==> t == 2)
}

/// Symbol `e` of table `a` has a name string inside string table `b`.
pub open spec fn sym_name_ok(p: Seq<u8>, a: int, b: int, e: int) -> bool {
    let n = le32(p, sec_off(p, a) + 24 * e);
    n < sec_size(p, b) && cstr_ok(p, sec_off(p, b) + n, sec_off(p, b) + sec_size(p, b))
}

/// When `a` is a `.symtab` and `b` a `.strtab` string table, every symbol of
/// `a` is named inside `b`.
pub open spec fn pair_ok(p: Seq<u8>, a: int, b: int) -> bool {
    is_named(p, a, symtab_word()) && is_named(p, b, strtab_word()) && sec_type(p, b) == 3 ==> forall|e: int|
        0 <= e < sec_size(p, a) / 24 ==> #[trigger] sym_name_ok(p, a, b, e)
}

/// The object file can be read by the ELF reader without fault.
pub open spec fn elf_well_formed(p: Seq<u8>) -> bool {
    &&& header_ok(p)
    &&& forall|i: int| 0 <= i < sh_count(p) ==> #[trigger] section_ok(p, i)
    &&& forall|a: int, b: int| 0 <= a < sh_count(p) && 0 <= b < sh_count(p) ==> #[trigger] pair_ok(p, a, b)
}

fn rd16(p: &[u8], i: usize) -> (r: u128)
    requires
        i + 2 <= p@.len() <= usize::MAX,
    ensures
        r == le16(p@, i as int),
{
    p[i] as u128 + p[i + 1] as u128 * 256
}

fn rd32(p: &[u8], i: usize) -> (r: u128)
    requires
        i + 4 <= p@.len() <= usize::MAX,
    ensures
        r == le32(p@, i as int),
        r < 4294967296,
{
    rd16(p, i) + rd16(p, i + 2) * 65536
}

fn rd64(p: &[u8], i: usize) -> (r: u128)
    requires
        i + 8 <= p@.len() <= usize::MAX,
    ensures
        r == le64(p@, i as int),
        r < 18446744073709551616,
{
    rd32(p, i) + rd32(p, i + 4) * 4294967296
}

/// Whether a NUL-terminated ASCII string starts at `start` and ends before `end`.
fn check_cstr(p: &[u8], start: u128, end: u128) -> (r: bool)
    ensures
        r == cstr_ok(p@, start as int, end as int),
{
    let lim: u128 = if end < p.len() as u128 { end } else { p.len() as u128 };
    if start >= lim {
        proof {
            assert(!cstr_ok(p@, start as int, end as int));
        }
        return false;
    }
    let mut k: usize = start as usize;
    while k < lim as usize
        invariant
            start <= k <= lim,
            lim <= end,
            lim <= p@.len(),
            forall|m: int| start <= m < k ==> p@[m] != 0 && p@[m] < 128,
        decreases lim - k,
    {
        if p[k] == 0 {
            proof {
                assert(forall|m: int| start <= m < k ==> #[trigger] p@[m] < 128);
            }
            return true;
        }
        if p[k] >= 128 {
            proof {
                if cstr_ok(p@, start as int, end as int) {
                    let j = choose|j: int|
                        0 <= start <= j < end && j < p@.len() && p@[j] == 0 && forall|m: int|
                            start <= m < j ==> #[trigger] p@[m] < 128;
                    assert(j > k);
                    assert(p@[k as int] < 128);
                }
            }
            return false;
        }
        k = k + 1;
    }
    proof {
        if cstr_ok(p@, start as int, end as int) {
            let j = choose|j: int|
                0 <= start <= j < end && j < p@.len() && p@[j] == 0 && forall|m: int|
                    start <= m < j ==> #[trigger] p@[m] < 128;
            assert(p@[j] != 0);
        }
    }
    false
}

fn check_named(p: &[u8], start: u128, w: &Vec<u8>) -> (r: bool)
    ensures
        r == (start + w@.len() <= p@.len() && p@.subrange(start as int, start + w@.len()) == w@),
{
    if start > p.len() as u128 || (p.len() as u128) - start < w.len() as u128 {
        return false;
    }
    let s = start as usize;
    let mut k: usize = 0;
    while k < w.len()
        invariant
            s + w@.len() <= p@.len(),
            p@.len() <= usize::MAX,
            s == start,
            k <= w@.len(),
            forall|m: int| 0 <= m < k ==> p@[s + m] == w@[m],
        decreases w@.len() - k,
    {
        if p[s + k] != w[k] {
            proof {
                assert(p@.subrange(start as int, start + w@.len())[k as int] != w@[k as int]);
            }
            return false;
        }
        k = k + 1;
    }
    assert(p@.subrange(start as int, start + w@.len()) =~= w@);
    true
}

fn check_header(p: &[u8]) -> (r: bool)
    ensures
        r == header_ok(p@),
{
    let n = p.len();
    if n < 64 {
        return false;
    }
    if !(p[0] == 0x7f && p[1] == 0x45 && p[2] == 0x4c && p[3] == 0x46 && p[4] == 2 && p[5] == 1) {
        return false;
    }
    if rd16(p, 58) != 64 {
        return false;
    }
    let shoff = rd64(p, 40);
    let cnt = rd16(p, 60);
    let stri = rd16(p, 62);
    if cnt >= 0xff00 || shoff % 8 != 0 || shoff + 64 * cnt > n as u128 || stri >= cnt {
        return false;
    }
    let sh = shoff + 64 * stri;
    let off = rd64(p, (sh + 24) as usize);
    off <= n as u128
}

fn check_section(p: &[u8], i: u128) -> (r: bool)
    requires
        header_ok(p@),
        i < sh_count(p@),
    ensures
        r == section_ok(p@, i as int),
{
    let n = p.len() as u128;
    let sh = rd64(p, 40) + 64 * i;
    let name = rd32(p, sh as usize);
    let t = rd32(p, (sh + 4) as usize);
    let off = rd64(p, (sh + 24) as usize);
    let size = rd64(p, (sh + 32) as usize);
    let stri = rd16(p, 62);
    let ssh = rd64(p, 40) + 64 * stri;
    let name_start = rd64(p, (ssh + 24) as usize) + name;
    if t != 0 && t != 8 && off + size > n {
        return false;
    }
    if !check_cstr(p, name_start, n) {
        return false;
    }
    if t == 2 && !(off % 8 == 0 && size % 24 == 0) {
        return false;
    }
    if t == 9 && !(off % 8 == 0 && size % 16 == 0) {
        return false;
    }
    let w: Vec<u8> = vec![46u8, 115, 121, 109, 116, 97, 98, 0];
    assert(w@ =~= symtab_word());
    if check_named(p, name_start, &w) && t != 2 {
        return false;
    }
    true
}

#[verifier::rlimit(50)]
fn check_pair(p: &[u8], a: u128, b: u128) -> (r: bool)
    requires
        header_ok(p@),
        a < sh_count(p@),
        b < sh_count(p@),
        section_ok(p@, a as int),
    ensures
        r == pair_ok(p@, a as int, b as int),
{
    let n: usize = p.len();
    let stri = rd16(p, 62);
    let ssh = rd64(p, 40) + 64 * stri;
    let names = rd64(p, (ssh + 24) as usize);
    let sha = rd64(p, 40) + 64 * a;
    let shb = rd64(p, 40) + 64 * b;
    let w1: Vec<u8> = vec![46u8, 115, 121, 109, 116, 97, 98, 0];
    assert(w1@ =~= symtab_word());
    let w2: Vec<u8> = vec![46u8, 115, 116, 114, 116, 97, 98, 0];
    assert(w2@ =~= strtab_word());
    if !(check_named(p, names + rd32(p, sha as usize), &w1) && check_named(p, names + rd32(p, shb as usize), &w2)
        && rd32(p, (shb + 4) as usize) == 3) {
        return true;
    }
    assert(is_named(p@, a as int, symtab_word()));
    let off_a = rd64(p, (sha + 24) as usize);
    let size_a = rd64(p, (sha + 32) as usize);
    let off_b = rd64(p, (shb + 24) as usize);
    let size_b = rd64(p, (shb + 32) as usize);
    let count = size_a / 24;
    let mut e: u128 = 0;
    while e < count
        invariant
            header_ok(p@),
            off_a == sec_off(p@, a as int),
            size_a == sec_size(p@, a as int),
            off_b == sec_off(p@, b as int),
            size_b == sec_size(p@, b as int),
            off_a + size_a <= p@.len(),
            p@.len() <= usize::MAX,
            count == size_a / 24,
            is_named(p@, a as int, symtab_word()),
            is_named(p@, b as int, strtab_word()),
            sec_type(p@, b as int) == 3,
            e <= count,
            forall|k: int| 0 <= k < e ==> #[trigger] sym_name_ok(p@, a as int, b as int, k),
        decreases count - e,
    {
        assert(24 * e + 24 <= size_a) by (nonlinear_arith)
            requires
                e < count,
                count == size_a / 24,
        ;
        let nm = rd32(p, (off_a + 24 * e) as usize);
        if !(nm < size_b && check_cstr(p, off_b + nm, off_b + size_b)) {
            assert(!sym_name_ok(p@, a as int, b as int, e as int));
            return false;
        }
        e = e + 1;
    }
    true
}

/// Whether `p` is an object file that the ELF reader handles without fault.
pub fn elf_check(p: &[u8]) -> (r: bool)
    ensures
        r == elf_well_formed(p@),
{
    let n: usize = p.len();
    if !check_header(p) {
        return false;
    }
    let cnt = rd16(p, 60);
    let mut i: u128 = 0;
    while i < cnt
        invariant
            header_ok(p@),
            p@.len() <= usize::MAX,
            cnt == sh_count(p@),
            i <= cnt,
            forall|k: int| 0 <= k < i ==> #[trigger] section_ok(p@, k),
        decreases cnt - i,
    {
        if !check_section(p, i) {
            return false;
        }
        i = i + 1;
    }
    let mut a: u128 = 0;
    while a < cnt
        invariant
            header_ok(p@),
            p@.len() <= usize::MAX,
            cnt == sh_count(p@),
            a <= cnt,
            forall|k: int| 0 <= k < cnt ==> #[trigger] section_ok(p@, k),
            forall|x: int, y: int| 0 <= x < a && 0 <= y < cnt ==> #[trigger] pair_ok(p@, x, y),
        decreases cnt - a,
    {
        let mut b: u128 = 0;
        while b < cnt
            invariant
                header_ok(p@),
                p@.len() <= usize::MAX,
                cnt == sh_count(p@),
                a < cnt,
                b <= cnt,
                forall|k: int| 0 <= k < cnt ==> #[trigger] section_ok(p@, k),
                forall|x: int, y: int| 0 <= x < a && 0 <= y < cnt ==> #[trigger] pair_ok(p@, x, y),
                forall|y: int| 0 <= y < b ==> #[trigger] pair_ok(p@, a as int, y),
            decreases cnt - b,
        {
            if !check_pair(p, a, b) {
                return false;
            }
            b = b + 1;
        }
        a = a + 1;
    }
    true
}

} // verus!
