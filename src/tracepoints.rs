use vstd::prelude::*;
use vstd::string::StringSliceAdditionalSpecFns;

use crate::error::{SysError, SysResult};
use crate::kprobes::{has_probe, KProbeArgs};
use crate::kretprobes::{has_ret, KRetProbeArgs, KRetProbes};
use crate::program::{has_fd, ProgramTable};

verus! {

/// The kinds of tracepoint a program can be attached to.
#[derive(Clone, Copy, Debug, PartialEq, Eq, Structural, PartialOrd, Ord)]
pub enum TracepointType {
    KProbe,
    KRetProbeEntry,
    KRetProbeExit,
}

/// A (kind, kernel address) pair at which programs may be attached.
#[derive(Clone, Copy, Debug, PartialEq, Eq, Structural, PartialOrd, Ord)]
pub struct Tracepoint {
    pub tp_type: TracepointType,
    pub token: usize,
}

impl Tracepoint {
    pub fn new(tp_type: TracepointType, token: usize) -> (r: Self)
        ensures
            r == (Tracepoint { tp_type, token }),
    {
        Tracepoint { tp_type, token }
    }
}

/// Attach request payload: address of a NUL-terminated target string and a
/// program descriptor.
#[derive(Clone, Copy, Debug)]
pub struct AttachTarget {
    pub target: usize,
    pub prog_fd: u32,
}

pub open spec fn ascii_lower(b: u8) -> u8 {
    if 65 <= b <= 90 {
        (b + 32) as u8
    } else {
        b
    }
}

/// `a` equals `b` when ASCII letters are compared without regard to case.
pub open spec fn eq_ignore_ascii_case(a: Seq<u8>, b: Seq<u8>) -> bool {
    a.len() == b.len() && forall|i: int| 0 <= i < a.len() ==> ascii_lower(a[i]) == ascii_lower(b[i])
}

pub open spec fn kprobe_word() -> Seq<u8> {
    seq![107u8, 112, 114, 111, 98, 101]
}

pub open spec fn kretprobe_entry_word() -> Seq<u8> {
    seq![107u8, 114, 101, 116, 112, 114, 111, 98, 101, 64, 101, 110, 116, 114, 121]
}

pub open spec fn kretprobe_exit_word() -> Seq<u8> {
    seq![107u8, 114, 101, 116, 112, 114, 111, 98, 101, 64, 101, 120, 105, 116]
}

/// The tracepoint kind named by `s`, if any.
pub open spec fn kind_of(s: Seq<u8>) -> Option<TracepointType> {
    if eq_ignore_ascii_case(s, kprobe_word()) {
        Some(TracepointType::KProbe)
    } else if eq_ignore_ascii_case(s, kretprobe_entry_word()) {
        Some(TracepointType::KRetProbeEntry)
    } else if eq_ignore_ascii_case(s, kretprobe_exit_word()) {
        Some(TracepointType::KRetProbeExit)
    } else {
        None
    }
}

/// `pos` is the position of the first `:` in `s`.
pub open spec fn is_first_colon(s: Seq<u8>, pos: int) -> bool {
    0 <= pos < s.len() && s[pos] == 58u8 && forall|j: int| 0 <= j < pos ==> s[j] != 58u8
}

pub open spec fn has_colon(s: Seq<u8>) -> bool {
    exists|j: int| 0 <= j < s.len() && s[j] == 58u8
}

/// What parsing `kind:symbol` yields: the kind and the bytes after the first colon.
pub open spec fn parse_spec(s: Seq<u8>) -> Option<(TracepointType, Seq<u8>)> {
    if has_colon(s) {
        let pos = choose|pos: int| is_first_colon(s, pos);
        match kind_of(s.subrange(0, pos)) {
            Some(t) => Some((t, s.subrange(pos + 1, s.len() as int))),
            None => None,
        }
    } else {
        None
    }
}

proof fn lemma_first_colon_unique(s: Seq<u8>, p: int, q: int)
    requires
        is_first_colon(s, p),
        is_first_colon(s, q),
    ensures
        p == q,
{
}

fn lower(b: u8) -> (r: u8)
    ensures
        r == ascii_lower(b),
{
    if 65 <= b && b <= 90 {
        b + 32
    } else {
        b
    }
}

/// Compares `s[start..end]` with `word` ignoring ASCII case.
fn range_eq_ignore_case(s: &[u8], start: usize, end: usize, word: &Vec<u8>) -> (r: bool)
    requires
        start <= end <= s@.len(),
    ensures
        r == eq_ignore_ascii_case(s@.subrange(start as int, end as int), word@),
{
    if end - start != word.len() {
        return false;
    }
    let mut i: usize = 0;
    while i < word.len()
        invariant
            end - start == word@.len(),
            start <= end <= s@.len(),
            i <= word@.len(),
            forall|k: int|
                0 <= k < i ==> ascii_lower(s@[start + k]) == ascii_lower(word@[k]),
        decreases word@.len() - i,
    {
        if lower(s[start + i]) != lower(word[i]) {
            assert(s@.subrange(start as int, end as int)[i as int] == s@[start + i]);
            return false;
        }
        i = i + 1;
    }
    assert forall|k: int| 0 <= k < word@.len() implies ascii_lower(
        s@.subrange(start as int, end as int)[k],
    ) == ascii_lower(word@[k]) by {
        assert(s@.subrange(start as int, end as int)[k] == s@[start + k]);
    }
    true
}

fn tracepoint_kind(s: &[u8], end: usize) -> (r: Option<TracepointType>)
    requires
        end <= s@.len(),
    ensures
        r == kind_of(s@.subrange(0, end as int)),
{
    let w1: Vec<u8> = vec![107u8, 112, 114, 111, 98, 101];
    assert(w1@ =~= kprobe_word());
    if range_eq_ignore_case(s, 0, end, &w1) {
        return Some(TracepointType::KProbe);
    }
    let w2: Vec<u8> = vec![107u8, 114, 101, 116, 112, 114, 111, 98, 101, 64, 101, 110, 116, 114, 121];
    assert(w2@ =~= kretprobe_entry_word());
    if range_eq_ignore_case(s, 0, end, &w2) {
        return Some(TracepointType::KRetProbeEntry);
    }
    let w3: Vec<u8> = vec![107u8, 114, 101, 116, 112, 114, 111, 98, 101, 64, 101, 120, 105, 116];
    assert(w3@ =~= kretprobe_exit_word());
    if range_eq_ignore_case(s, 0, end, &w3) {
        return Some(TracepointType::KRetProbeExit);
    }
    None
}

/// Parses a tracepoint specifier `kind:symbol`, where `kind` is `kprobe`,
/// `kretprobe@entry` or `kretprobe@exit` in any letter case. Returns the
/// kind and the symbol bytes.
pub fn parse_tracepoint(target: &[u8]) -> (r: Result<(TracepointType, Vec<u8>), SysError>)
    ensures
        match parse_spec(target@) {
            Some((t, sym)) => r matches Ok((rt, rs)) && rt == t && rs@ == sym,
            None => r == Err::<(TracepointType, Vec<u8>), SysError>(SysError::EINVAL),
        },
{
    let mut pos: usize = 0;
    while pos < target.len() && target[pos] != 58u8
        invariant
            pos <= target@.len(),
            forall|j: int| 0 <= j < pos ==> target@[j] != 58u8,
        decreases target@.len() - pos,
    {
        pos = pos + 1;
    }
    if pos == target.len() {
        return Err(SysError::EINVAL);
    }
    proof {
        assert(is_first_colon(target@, pos as int));
        assert(has_colon(target@));
        let p = choose|p: int| is_first_colon(target@, p);
        lemma_first_colon_unique(target@, p, pos as int);
    }
    match tracepoint_kind(target, pos) {
        None => Err(SysError::EINVAL),
        Some(t) => {
            let mut sym: Vec<u8> = Vec::new();
            let mut i: usize = pos + 1;
            while i < target.len()
                invariant
                    pos + 1 <= i <= target@.len(),
                    sym@ =~= target@.subrange(pos + 1, i as int),
                decreases target@.len() - i,
            {
                sym.push(target[i]);
                i = i + 1;
            }
            Ok((t, sym))
        },
    }
}

/// Programs attached at `tp`, in attach order; `None` when `tp` has no list.
pub open spec fn progs_at(attached: Seq<(Tracepoint, Vec<u32>)>, tp: Tracepoint) -> Option<Seq<u32>> {
    if exists|i: int| 0 <= i < attached.len() && #[trigger] attached[i].0 == tp {
        let i = choose|i: int| 0 <= i < attached.len() && #[trigger] attached[i].0 == tp;
        Some(attached[i].1@)
    } else {
        None
    }
}

/// The sibling of a return-probe tracepoint: entry for exit and exit for entry.
pub open spec fn dual(tp: Tracepoint) -> Tracepoint {
    match tp.tp_type {
        TracepointType::KRetProbeEntry => Tracepoint { tp_type: TracepointType::KRetProbeExit, token: tp.token },
        TracepointType::KRetProbeExit => Tracepoint { tp_type: TracepointType::KRetProbeEntry, token: tp.token },
        TracepointType::KProbe => tp,
    }
}

/// The first address bound to `name` in the symbol table.
pub open spec fn symbol_lookup(symbols: Seq<(Vec<u8>, usize)>, name: Seq<u8>) -> Option<usize> {
    if exists|i: int| 0 <= i < symbols.len() && #[trigger] symbols[i].0@ == name {
        let i = choose|i: int|
            0 <= i < symbols.len() && #[trigger] symbols[i].0@ == name && forall|j: int|
                0 <= j < i ==> symbols[j].0@ != name;
        Some(symbols[i].1)
    } else {
        None
    }
}

proof fn lemma_first_symbol(symbols: Seq<(Vec<u8>, usize)>, name: Seq<u8>, k: int)
    requires
        0 <= k < symbols.len(),
        symbols[k].0@ == name,
        forall|j: int| 0 <= j < k ==> symbols[j].0@ != name,
    ensures
        symbol_lookup(symbols, name) == Some(symbols[k].1),
{
    let i = choose|i: int|
        0 <= i < symbols.len() && #[trigger] symbols[i].0@ == name && forall|j: int|
            0 <= j < i ==> symbols[j].0@ != name;
    assert(0 <= i < symbols.len() && symbols[i].0@ == name && forall|j: int|
            0 <= j < i ==> symbols[j].0@ != name);
    if i < k {
    } else if i > k {
    }
}

fn bytes_eq(a: &Vec<u8>, b: &[u8]) -> (r: bool)
    ensures
        r == (a@ == b@),
{
    if a.len() != b.len() {
        return false;
    }
    let mut i: usize = 0;
    while i < a.len()
        invariant
            a@.len() == b@.len(),
            i <= a@.len(),
            forall|k: int| 0 <= k < i ==> a@[k] == b@[k],
        decreases a@.len() - i,
    {
        if a[i] != b[i] {
            return false;
        }
        i = i + 1;
    }
    assert(a@ =~= b@);
    true
}

/// Tracepoint keys of `attached` are distinct.
pub open spec fn keys_unique(attached: Seq<(Tracepoint, Vec<u32>)>) -> bool {
    forall|i: int, j: int|
        0 <= i < attached.len() && 0 <= j < attached.len() && i != j ==> attached[i].0 != attached[j].0
}

proof fn lemma_progs_at_index(attached: Seq<(Tracepoint, Vec<u32>)>, k: int)
    requires
        keys_unique(attached),
        0 <= k < attached.len(),
    ensures
        progs_at(attached, attached[k].0) == Some(attached[k].1@),
{
    let tp = attached[k].0;
    let i = choose|i: int| 0 <= i < attached.len() && #[trigger] attached[i].0 == tp;
    assert(attached[k].0 == tp);
    assert(i == k);
}

/// Two key-unique tables with the same keys at the same places, equal but at
/// place `k`, agree at every tracepoint but `attached[k].0`.
proof fn lemma_progs_at_update(a: Seq<(Tracepoint, Vec<u32>)>, b: Seq<(Tracepoint, Vec<u32>)>, k: int, x: Tracepoint)
    requires
        keys_unique(a),
        a.len() == b.len(),
        0 <= k < a.len(),
        forall|i: int| 0 <= i < a.len() ==> #[trigger] b[i].0 == a[i].0,
        forall|i: int| 0 <= i < a.len() && i != k ==> #[trigger] b[i] == a[i],
        x != a[k].0,
    ensures
        keys_unique(b),
        progs_at(b, x) == progs_at(a, x),
{
    assert forall|i: int, j: int| 0 <= i < b.len() && 0 <= j < b.len() && i != j implies b[i].0 != b[j].0 by {
        assert(b[i].0 == a[i].0 && b[j].0 == a[j].0);
    }
    if exists|i: int| 0 <= i < a.len() && #[trigger] a[i].0 == x {
        let i = choose|i: int| 0 <= i < a.len() && #[trigger] a[i].0 == x;
        lemma_progs_at_index(a, i);
        lemma_progs_at_index(b, i);
    } else {
        assert forall|i: int| 0 <= i < b.len() implies #[trigger] b[i].0 != x by {
            assert(b[i].0 == a[i].0);
        }
    }
}

/// Appending an entry with a new key changes no other tracepoint's list.
proof fn lemma_progs_at_push(a: Seq<(Tracepoint, Vec<u32>)>, e: (Tracepoint, Vec<u32>), x: Tracepoint)
    requires
        keys_unique(a),
        progs_at(a, e.0) is None,
    ensures
        keys_unique(a.push(e)),
        progs_at(a.push(e), e.0) == Some(e.1@),
        x != e.0 ==> progs_at(a.push(e), x) == progs_at(a, x),
{
    let b = a.push(e);
    assert forall|i: int, j: int| 0 <= i < b.len() && 0 <= j < b.len() && i != j implies b[i].0 != b[j].0 by {
        if i == a.len() {
            assert(b[j] == a[j]);
            assert(a[j].0 != e.0);
        } else if j == a.len() {
            assert(b[i] == a[i]);
            assert(a[i].0 != e.0);
        } else {
            assert(b[i] == a[i] && b[j] == a[j]);
        }
    }
    lemma_progs_at_index(b, a.len() as int);
    if x != e.0 {
        if exists|i: int| 0 <= i < a.len() && #[trigger] a[i].0 == x {
            let i = choose|i: int| 0 <= i < a.len() && #[trigger] a[i].0 == x;
            lemma_progs_at_index(a, i);
            assert(b[i] == a[i]);
            lemma_progs_at_index(b, i);
        } else {
            assert forall|i: int| 0 <= i < b.len() implies #[trigger] b[i].0 != x by {
                if i < a.len() {
                    assert(b[i] == a[i]);
                }
            }
        }
    }
}

fn contains_fd(list: &Vec<u32>, fd: u32) -> (r: bool)
    ensures
        r == list@.contains(fd),
{
    let mut i: usize = 0;
    while i < list.len()
        invariant
            i <= list@.len(),
            forall|j: int| 0 <= j < i ==> list@[j] != fd,
        decreases list@.len() - i,
    {
        if list[i] == fd {
            assert(list@[i as int] == fd);
            return true;
        }
        i = i + 1;
    }
    false
}

/// The tracing registry: probes, loaded programs, the kernel symbol table
/// and, per tracepoint, the programs attached there in attach order.
pub struct Tracer {
    pub probes: KRetProbes,
    pub programs: ProgramTable,
    pub symbols: Vec<(Vec<u8>, usize)>,
    pub attached: Vec<(Tracepoint, Vec<u32>)>,
}

impl Tracer {
    /// Tracepoints are listed once, and a return-probe tracepoint is listed
    /// together with its sibling.
    pub open spec fn wf(&self) -> bool {
        &&& self.probes.wf()
        &&& self.programs.wf()
        &&& keys_unique(self.attached@)
        &&& forall|i: int|
            0 <= i < self.attached@.len() ==> progs_at(self.attached@, dual(#[trigger] self.attached@[i].0))
                is Some
    }

    pub fn new(probes: KRetProbes, symbols: Vec<(Vec<u8>, usize)>) -> (r: Self)
        requires
            probes.wf(),
        ensures
            r.wf(),
            r.probes == probes,
            r.symbols == symbols,
            r.attached@.len() == 0,
            r.programs.entries@.len() == 0,
    {
        Tracer { probes, programs: ProgramTable::new(), symbols, attached: Vec::new() }
    }

    /// Attaches program `prog_fd` at the tracepoint that `target` names
    /// (`kind:symbol`). The first attachment at a tracepoint registers its
    /// probe; for a return probe both the entry and the exit tracepoint then
    /// get a list.
    pub fn bpf_program_attach(&mut self, target: &str, prog_fd: u32) -> (r: SysResult)
        requires
            old(self).wf(),
        ensures
            final(self).wf(),
            final(self).programs == old(self).programs,
            final(self).symbols == old(self).symbols,
            !has_fd(old(self).programs.entries@, prog_fd) ==> r == Err::<usize, SysError>(SysError::ENOENT)
                && *final(self) == *old(self),
            has_fd(old(self).programs.entries@, prog_fd) ==> match parse_spec(target.spec_bytes()) {
                None => r == Err::<usize, SysError>(SysError::EINVAL) && *final(self) == *old(self),
                Some((t, sym)) => match symbol_lookup(old(self).symbols@, sym) {
                None => r == Err::<usize, SysError>(SysError::ENOENT) && *final(self) == *old(self),
                Some(addr) => {
                    let tp = Tracepoint { tp_type: t, token: addr };
                    match progs_at(old(self).attached@, tp) {
                        Some(l) => if l.contains(prog_fd) {
                            r == Err::<usize, SysError>(SysError::EAGAIN) && *final(self) == *old(self)
                        } else {
                            &&& r == Ok::<usize, SysError>(0)
                            &&& final(self).probes == old(self).probes
                            &&& progs_at(final(self).attached@, tp) == Some(l.push(prog_fd))
                            &&& forall|x: Tracepoint|
                                x != tp ==> progs_at(final(self).attached@, x) == progs_at(
                                    old(self).attached@,
                                    x,
                                )
                        },
                        None => {
                            &&& t == TracepointType::KProbe && has_probe(old(self).probes.kprobes.probes@, addr)
                                ==> r == Err::<usize, SysError>(SysError::EINVAL)
                            &&& t != TracepointType::KProbe && (has_ret(old(self).probes.rets@, addr)
                                || has_probe(old(self).probes.kprobes.probes@, addr)) ==> r == Err::<
                                usize,
                                SysError,
                            >(SysError::EINVAL)
                            &&& t == TracepointType::KProbe ==> ((r is Ok) == old(self).probes.kprobes.can_register(addr))
                            &&& t != TracepointType::KProbe ==> ((r is Ok) == (!has_ret(old(self).probes.rets@, addr)
                                && old(self).probes.kprobes.can_register(addr)))
                            &&& r is Err ==> r == Err::<usize, SysError>(SysError::EINVAL)
                                && final(self).attached == old(self).attached
                            &&& r is Ok ==> {
                                &&& r == Ok::<usize, SysError>(0)
                                &&& has_probe(final(self).probes.kprobes.probes@, addr)
                                &&& t != TracepointType::KProbe ==> has_ret(final(self).probes.rets@, addr)
                                &&& t == TracepointType::KProbe ==> final(self).probes.kprobes.probe(addr).user_data == addr
                                    && !final(self).probes.kprobes.probe(addr).has_post_handler
                                &&& t != TracepointType::KProbe ==> final(self).probes.rets@ == old(self).probes.rets@.push(
                                    crate::kretprobes::KRetProbe { addr, has_entry_handler: true, limit: None, user_data: addr },
                                )
                                &&& progs_at(final(self).attached@, tp) == Some(seq![prog_fd])
                                &&& t != TracepointType::KProbe ==> progs_at(final(self).attached@, dual(tp))
                                    == Some(Seq::<u32>::empty())
                                &&& forall|x: Tracepoint|
                                    x != tp && x != dual(tp) ==> progs_at(final(self).attached@, x)
                                        == progs_at(old(self).attached@, x)
                            }
                        },
                    }
                },
            },
            },
    {
        if !self.programs.contains(prog_fd) {
            return Err(SysError::ENOENT);
        }
        let (tp_type, fn_name) = match parse_tracepoint(target.as_bytes()) {
            Ok(v) => v,
            Err(e) => {
                return Err(e);
            },
        };
        let addr = match self.resolve_symbol(fn_name.as_slice()) {
            Some(a) => a,
            None => {
                return Err(SysError::ENOENT);
            },
        };
        let tracepoint = Tracepoint::new(tp_type, addr);
        let ghost old_att = self.attached@;
        match self.find_tracepoint(tracepoint) {
            Some(k) => {
                if contains_fd(&self.attached[k].1, prog_fd) {
                    return Err(SysError::EAGAIN);
                }
                let (t, mut programs) = self.attached.remove(k);
                programs.push(prog_fd);
                self.attached.insert(k, (t, programs));
                proof {
                    let new_att = self.attached@;
                    assert(new_att =~= old_att.update(k as int, (t, programs)));
                    lemma_progs_at_index(old_att, k as int);
                    assert forall|x: Tracepoint| x != tracepoint implies progs_at(new_att, x) == progs_at(old_att, x) by {
                        lemma_progs_at_update(old_att, new_att, k as int, x);
                    }
                    lemma_progs_at_index(new_att, k as int);
                    assert(keys_unique(new_att));
                    assert forall|i: int| 0 <= i < new_att.len() implies progs_at(new_att, dual(#[trigger] new_att[i].0)) is Some by {
                        assert(new_att[i].0 == old_att[i].0);
                        assert(progs_at(old_att, dual(old_att[i].0)) is Some);
                        if dual(new_att[i].0) != tracepoint {
                            lemma_progs_at_update(old_att, new_att, k as int, dual(new_att[i].0));
                        }
                    }
                }
                Ok(0)
            },
            None => {
                match tp_type {
                    TracepointType::KProbe => {
                        let args = KProbeArgs { has_post_handler: false, user_data: addr };
                        let ghost old_probes = self.probes.kprobes.probes@;
                        if self.probes.kprobes.register_kprobe(addr, args).is_err() {
                            return Err(SysError::EINVAL);
                        }
                        proof {
                            let rets = self.probes.rets@;
                            assert forall|i: int| 0 <= i < rets.len() implies has_probe(
                                self.probes.kprobes.probes@,
                                #[trigger] rets[i].addr,
                            ) by {
                                let a = rets[i].addr;
                                let j = choose|j: int| 0 <= j < old_probes.len() && #[trigger] old_probes[j].addr == a;
                                assert(self.probes.kprobes.probes@[j] == old_probes[j]);
                            }
                        }
                        let mut programs: Vec<u32> = Vec::new();
                        programs.push(prog_fd);
                        self.attached.push((tracepoint, programs));
                        proof {
                            lemma_progs_at_push(old_att, (tracepoint, programs), tracepoint);
                            let new_att = self.attached@;
                            assert(programs@ =~= seq![prog_fd]);
                            assert forall|x: Tracepoint| x != tracepoint implies progs_at(new_att, x) == progs_at(old_att, x) by {
                                lemma_progs_at_push(old_att, (tracepoint, programs), x);
                            }
                            assert forall|i: int| 0 <= i < new_att.len() implies progs_at(new_att, dual(#[trigger] new_att[i].0)) is Some by {
                                if i < old_att.len() {
                                    assert(new_att[i] == old_att[i]);
                                    assert(progs_at(old_att, dual(old_att[i].0)) is Some);
                                    lemma_progs_at_push(old_att, (tracepoint, programs), dual(new_att[i].0));
                                }
                            }
                        }
                    },
                    _ => {
                        let args = KRetProbeArgs { has_entry_handler: true, limit: None, user_data: addr };
                        if self.probes.register_kretprobe(addr, args).is_err() {
                            return Err(SysError::EINVAL);
                        }
                        proof {
                            let rets = self.probes.rets@;
                            assert(rets[rets.len() - 1].addr == addr);
                            assert(has_ret(rets, addr));
                        }
                        let dual_tp: Tracepoint;
                        if tp_type == TracepointType::KRetProbeEntry {
                            dual_tp = Tracepoint::new(TracepointType::KRetProbeExit, addr);
                        } else {
                            dual_tp = Tracepoint::new(TracepointType::KRetProbeEntry, addr);
                        }
                        proof {
                            assert(dual_tp == dual(tracepoint));
                            assert(dual(dual_tp) == tracepoint);
                            if progs_at(old_att, dual_tp) is Some {
                                let i = choose|i: int| 0 <= i < old_att.len() && #[trigger] old_att[i].0 == dual_tp;
                                assert(progs_at(old_att, dual(old_att[i].0)) is Some);
                            }
                        }
                        let mut programs: Vec<u32> = Vec::new();
                        programs.push(prog_fd);
                        self.attached.push((tracepoint, programs));
                        let ghost mid_att = self.attached@;
                        proof {
                            lemma_progs_at_push(old_att, (tracepoint, programs), dual_tp);
                        }
                        let empty: Vec<u32> = Vec::new();
                        self.attached.push((dual_tp, empty));
                        proof {
                            let new_att = self.attached@;
                            assert(programs@ =~= seq![prog_fd]);
                            lemma_progs_at_push(mid_att, (dual_tp, empty), tracepoint);
                            lemma_progs_at_push(mid_att, (dual_tp, empty), dual_tp);
                            lemma_progs_at_push(old_att, (tracepoint, programs), tracepoint);
                            assert forall|x: Tracepoint| x != tracepoint && x != dual_tp implies progs_at(new_att, x) == progs_at(old_att, x) by {
                                lemma_progs_at_push(old_att, (tracepoint, programs), x);
                                lemma_progs_at_push(mid_att, (dual_tp, empty), x);
                            }
                            assert forall|i: int| 0 <= i < new_att.len() implies progs_at(new_att, dual(#[trigger] new_att[i].0)) is Some by {
                                if i < old_att.len() {
                                    assert(new_att[i] == old_att[i]);
                                    assert(progs_at(old_att, dual(old_att[i].0)) is Some);
                                    lemma_progs_at_push(old_att, (tracepoint, programs), dual(new_att[i].0));
                                    lemma_progs_at_push(mid_att, (dual_tp, empty), dual(new_att[i].0));
                                }
                            }
                        }
                    },
                }
                Ok(0)
            },
        }
    }

    /// Resolves a kernel symbol to its address.
    pub fn resolve_symbol(&self, symbol: &[u8]) -> (r: Option<usize>)
        ensures
            r == symbol_lookup(self.symbols@, symbol@),
    {
        let mut i: usize = 0;
        while i < self.symbols.len()
            invariant
                i <= self.symbols@.len(),
                forall|j: int| 0 <= j < i ==> self.symbols@[j].0@ != symbol@,
            decreases self.symbols@.len() - i,
        {
            if bytes_eq(&self.symbols[i].0, symbol) {
                proof {
                    lemma_first_symbol(self.symbols@, symbol@, i as int);
                }
                return Some(self.symbols[i].1);
            }
            i = i + 1;
        }
        None
    }

    fn find_tracepoint(&self, tp: Tracepoint) -> (r: Option<usize>)
        requires
            self.wf(),
        ensures
            r matches Some(k) ==> k < self.attached@.len() && self.attached@[k as int].0 == tp
                && progs_at(self.attached@, tp) == Some(self.attached@[k as int].1@),
            r is None ==> progs_at(self.attached@, tp) is None,
    {
        let mut k: usize = 0;
        while k < self.attached.len()
            invariant
                k <= self.attached@.len(),
                self.wf(),
                forall|j: int| 0 <= j < k ==> self.attached@[j].0 != tp,
            decreases self.attached@.len() - k,
        {
            if self.attached[k].0 == tp {
                proof {
                    let i = choose|i: int| 0 <= i < self.attached@.len() && #[trigger] self.attached@[i].0 == tp;
                    assert(i == k);
                }
                return Some(k);
            }
            k = k + 1;
        }
        None
    }

    /// The programs attached at `tp`, in the order they run.
    pub fn run_attached_programs(&self, tp: &Tracepoint) -> (r: Vec<u32>)
        requires
            self.wf(),
        ensures
            match progs_at(self.attached@, *tp) {
                Some(l) => r@ == l,
                None => r@.len() == 0,
            },
    {
        match self.find_tracepoint(*tp) {
            Some(k) => self.attached[k].1.clone(),
            None => Vec::new(),
        }
    }

    /// Programs to run on a hit of the kprobe at `probed_addr`.
    pub fn kprobe_handler(&self, probed_addr: usize) -> (r: Vec<u32>)
        requires
            self.wf(),
        ensures
            match progs_at(self.attached@, Tracepoint { tp_type: TracepointType::KProbe, token: probed_addr }) {
                Some(l) => r@ == l,
                None => r@.len() == 0,
            },
    {
        let tracepoint = Tracepoint::new(TracepointType::KProbe, probed_addr);
        self.run_attached_programs(&tracepoint)
    }

    /// Programs to run when the function at `probed_addr` is entered.
    pub fn kretprobe_entry_handler(&self, probed_addr: usize) -> (r: Vec<u32>)
        requires
            self.wf(),
        ensures
            match progs_at(self.attached@, Tracepoint { tp_type: TracepointType::KRetProbeEntry, token: probed_addr }) {
                Some(l) => r@ == l,
                None => r@.len() == 0,
            },
    {
        let tracepoint = Tracepoint::new(TracepointType::KRetProbeEntry, probed_addr);
        self.run_attached_programs(&tracepoint)
    }

    /// Programs to run when the function at `probed_addr` returns.
    pub fn kretprobe_exit_handler(&self, probed_addr: usize) -> (r: Vec<u32>)
        requires
            self.wf(),
        ensures
            match progs_at(self.attached@, Tracepoint { tp_type: TracepointType::KRetProbeExit, token: probed_addr }) {
                Some(l) => r@ == l,
                None => r@.len() == 0,
            },
    {
        let tracepoint = Tracepoint::new(TracepointType::KRetProbeExit, probed_addr);
        self.run_attached_programs(&tracepoint)
    }
}

} // verus!
