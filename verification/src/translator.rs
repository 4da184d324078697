//! Translation of the stacks of one sample into rendered frames.

use crate::elf::{lookup_symbol, sole_cover, translated, ElfMetadata, ElfView, FileId, Lookup};
use crate::error::TranslateError;
use crate::kallsyms::{
    all_lines_valid, first_invalid, is_floor_key, lines_from, table_of, KernelSymbols,
};
use crate::perf_record::{frames_or_none, frames_view, record_of, FrameView, PerfRecord, PerfStackFrame};
use crate::process::{located, MapView, ProcessMetadata};
use crate::sample::{idle, StackInfo};
use crate::symbolizer::{entry_of, Symbolizer};
use crate::text::{join_under, resolve_under};
use vstd::prelude::*;
use vstd::string::*;

verus! {

/// What inspecting a file of a process found: the path under which the file
/// is mapped, and the identity of the file.
#[derive(Clone, Debug, PartialEq, Eq)]
pub struct DsoFile {
    pub path: String,
    pub id: FileId,
}

/// A file of a process, by the path under which it is mapped, with its
/// metadata where that is at hand.
#[derive(Clone, Debug)]
pub struct LoadedDso {
    pub path: String,
    pub elf: Option<ElfMetadata>,
}

/// A list of files as pairs of path and metadata.
pub open spec fn loaded_view(dsos: Seq<LoadedDso>) -> Seq<(Seq<char>, Option<ElfView>)> {
    Seq::new(
        dsos.len(),
        |i: int|
            (
                dsos[i].path@,
                match dsos[i].elf {
                    Some(e) => Some(e@),
                    None => None,
                },
            ),
    )
}

/// Whether all the metadata in the list is well-formed.
pub open spec fn loaded_wf(dsos: Seq<LoadedDso>) -> bool {
    forall|i: int| 0 <= i < dsos.len() ==> ((#[trigger] dsos[i]).elf matches Some(e) ==> e.wf())
}

/// The metadata that the list holds for `path`: that of the first entry with
/// this path.
pub open spec fn find_dso(dsos: Seq<(Seq<char>, Option<ElfView>)>, path: Seq<char>) -> Option<
    ElfView,
>
    decreases dsos.len(),
{
    if dsos.len() == 0 {
        None
    } else if dsos[0].0 == path {
        dsos[0].1
    } else {
        find_dso(dsos.skip(1), path)
    }
}

/// The name of the kernel function that holds `ip`: that of the greatest
/// address of the table that does not exceed `ip`, marked as a kernel symbol;
/// `unknown` where there is none.
pub open spec fn kernel_name(table: Map<u64, Seq<char>>, ip: u64) -> Seq<char> {
    if exists|a: u64| is_floor_key(table, ip, a) {
        table[choose|a: u64| is_floor_key(table, ip, a)] + "_[k]"@
    } else {
        "unknown"@
    }
}

/// The frame of a kernel address; without a table every name is `unknown`.
pub open spec fn kernel_frame(table: Option<Map<u64, Seq<char>>>, path: Seq<char>, ip: u64) -> FrameView {
    FrameView {
        ip,
        sym: match table {
            Some(t) => kernel_name(t, ip),
            None => "unknown"@,
        },
        elf: path,
        offset: ip,
    }
}

/// The name of the function that holds offset `off` of a file: the symbol's
/// name marked as a user symbol; `unknown` where the metadata is missing, the
/// lookup fails or the symbol has no name.
pub open spec fn user_name(elf: Option<ElfView>, off: u64) -> Seq<char> {
    match elf {
        None => "unknown"@,
        Some(e) => match lookup_symbol(e, off) {
            Lookup::Found(s) => match s.name {
                Some(n) => n + "_[u]"@,
                None => "unknown"@,
            },
            _ => "unknown"@,
        },
    }
}

/// The frame of a user address: in no file where no mapping backed by a file
/// holds it, else in the file and at the offset that the mapping gives.
pub open spec fn user_frame(
    maps: Seq<MapView>,
    dsos: Seq<(Seq<char>, Option<ElfView>)>,
    ip: u64,
) -> FrameView {
    match located(maps, ip) {
        Err(_) => FrameView { ip, sym: "unknown"@, elf: "anonymous"@, offset: ip },
        Ok((dso, off)) => FrameView {
            ip,
            sym: user_name(find_dso(dsos, dso), off),
            elf: dso,
            offset: off,
        },
    }
}

/// The frames of a user stack, one for each address and in the same order.
pub open spec fn user_frames(
    maps: Seq<MapView>,
    dsos: Seq<(Seq<char>, Option<ElfView>)>,
    ips: Seq<u64>,
) -> Seq<FrameView> {
    Seq::new(ips.len(), |i: int| user_frame(maps, dsos, ips[i]))
}

/// The frames of a kernel stack, one for each address and in the same order.
pub open spec fn kernel_frames(
    table: Option<Map<u64, Seq<char>>>,
    path: Seq<char>,
    ips: Seq<u64>,
) -> Seq<FrameView> {
    Seq::new(ips.len(), |i: int| kernel_frame(table, path, ips[i]))
}

/// The mappings to search: those of the process, none where it is gone.
pub open spec fn maps_of(proc: Option<&ProcessMetadata>) -> Seq<MapView> {
    match proc {
        Some(p) => p@.maps,
        None => Seq::empty(),
    }
}

/// The addresses of a stack that was captured and read; none otherwise.
pub open spec fn trace_or_none(id: Option<i32>, trace: Option<&Vec<u64>>) -> Seq<u64> {
    match (id, trace) {
        (Some(_), Some(t)) => t@,
        _ => Seq::empty(),
    }
}

/// Whether `dsos` is what drawing `files` from a store gives, where the store
/// held `before` when the drawing began and `after` when it ended: the same
/// paths in the same order; metadata only as the store held it under the
/// file's identity; and metadata for every file that the store still holds at
/// the end.
pub open spec fn drawn_from(
    dsos: Seq<(Seq<char>, Option<ElfView>)>,
    files: Seq<DsoFile>,
    before: Map<FileId, ElfView>,
    after: Map<FileId, ElfView>,
) -> bool {
    &&& dsos.len() == files.len()
    &&& forall|i: int|
        0 <= i < files.len() ==> (#[trigger] dsos[i]).0 == files[i].path@ && (dsos[i].1 matches Some(
            e,
        ) ==> entry_of(before, files[i].id) == Some(e)) && (after.dom().contains(files[i].id)
            ==> dsos[i].1 == Some(before[files[i].id]))
}

/// Finds the metadata that the list holds for `path`.
pub fn lookup_dso<'a>(dsos: &'a Vec<LoadedDso>, path: &String) -> (res: Option<&'a ElfMetadata>)
    ensures
        match res {
            Some(e) => find_dso(loaded_view(dsos@), path@) == Some(e@) && exists|i: int|
                0 <= i < dsos@.len() && (#[trigger] dsos@[i]).elf == Some(*e),
            None => find_dso(loaded_view(dsos@), path@).is_none(),
        },
{
    let ghost all = loaded_view(dsos@);
    assert(all.skip(0) =~= all);
    let mut i: usize = 0;
    while i < dsos.len()
        invariant
            i <= dsos@.len(),
            all == loaded_view(dsos@),
            find_dso(all, path@) == find_dso(all.skip(i as int), path@),
        decreases dsos@.len() - i,
    {
        let d = &dsos[i];
        assert(all.skip(i as int)[0] == all[i as int]);
        if d.path == *path {
            return match &d.elf {
                Some(e) => Some(e),
                None => None,
            };
        }
        assert(all.skip(i as int).skip(1) =~= all.skip(i + 1));
        i += 1;
    }
    None
}

/// The file that an address lies in, where a mapping backed by a file holds
/// it.
pub open spec fn file_of(maps: Seq<MapView>, ip: u64) -> Option<Seq<char>> {
    match located(maps, ip) {
        Ok((p, _)) => Some(p),
        Err(_) => None,
    }
}

/// Whether some address of the trace lies in the file `p`.
pub open spec fn hit_by(maps: Seq<MapView>, ips: Seq<u64>, p: Seq<char>) -> bool {
    exists|i: int| 0 <= i < ips.len() && file_of(maps, #[trigger] ips[i]) == Some(p)
}

/// Whether the list names the file `p`.
pub open spec fn listed(paths: Seq<String>, p: Seq<char>) -> bool {
    exists|k: int| 0 <= k < paths.len() && (#[trigger] paths[k])@ == p
}

/// Whether the list names no file twice.
pub open spec fn distinct_paths(paths: Seq<String>) -> bool {
    forall|j: int, k: int|
        0 <= j < k < paths.len() ==> (#[trigger] paths[j])@ != (#[trigger] paths[k])@
}

fn holds_path(paths: &Vec<String>, path: &String) -> (res: bool)
    ensures
        res == listed(paths@, path@),
{
    let mut k: usize = 0;
    while k < paths.len()
        invariant
            k <= paths@.len(),
            forall|j: int| 0 <= j < k ==> (#[trigger] paths@[j])@ != path@,
        decreases paths@.len() - k,
    {
        if paths[k] == *path {
            return true;
        }
        k += 1;
    }
    false
}

proof fn lemma_hit_by_step(maps: Seq<MapView>, ips: Seq<u64>, i: int, p: Seq<char>)
    requires
        0 <= i < ips.len(),
    ensures
        hit_by(maps, ips.take(i + 1), p) == (hit_by(maps, ips.take(i), p) || file_of(maps, ips[i])
            == Some(p)),
{
    let shorter = ips.take(i);
    let longer = ips.take(i + 1);
    if hit_by(maps, longer, p) {
        let a = choose|a: int| 0 <= a < longer.len() && file_of(maps, #[trigger] longer[a]) == Some(p);
        if a < i {
            assert(shorter[a] == longer[a]);
        }
    }
    if hit_by(maps, shorter, p) {
        let a = choose|a: int|
            0 <= a < shorter.len() && file_of(maps, #[trigger] shorter[a]) == Some(p);
        assert(longer[a] == shorter[a]);
    }
    if file_of(maps, ips[i]) == Some(p) {
        assert(longer[i] == ips[i]);
    }
}

proof fn lemma_listed_push(paths: Seq<String>, path: String, p: Seq<char>)
    ensures
        listed(paths.push(path), p) == (listed(paths, p) || path@ == p),
{
    let longer = paths.push(path);
    if listed(longer, p) {
        let k = choose|k: int| 0 <= k < longer.len() && (#[trigger] longer[k])@ == p;
        if k < paths.len() {
            assert(paths[k] == longer[k]);
        }
    }
    if listed(paths, p) {
        let k = choose|k: int| 0 <= k < paths.len() && (#[trigger] paths[k])@ == p;
        assert(longer[k] == paths[k]);
    }
    if path@ == p {
        assert(longer[paths.len() as int] == path);
    }
}

/// The views of a list of paths.
pub open spec fn paths_view(paths: Seq<String>) -> Seq<Seq<char>> {
    Seq::new(paths.len(), |i: int| paths[i]@)
}

/// The files that the addresses of a trace lie in, each once, in the order in
/// which the trace first meets them.
pub open spec fn trace_files(maps: Seq<MapView>, ips: Seq<u64>) -> Seq<Seq<char>>
    decreases ips.len(),
{
    if ips.len() == 0 {
        Seq::empty()
    } else {
        let head = trace_files(maps, ips.drop_last());
        match file_of(maps, ips.last()) {
            Some(p) => if head.contains(p) {
                head
            } else {
                head.push(p)
            },
            None => head,
        }
    }
}

proof fn lemma_listed_is_contained(paths: Seq<String>, p: Seq<char>)
    ensures
        listed(paths, p) == paths_view(paths).contains(p),
{
    let views = paths_view(paths);
    if listed(paths, p) {
        let k = choose|k: int| 0 <= k < paths.len() && (#[trigger] paths[k])@ == p;
        assert(views[k] == p);
    }
    if views.contains(p) {
        let k = choose|k: int| 0 <= k < views.len() && views[k] == p;
        assert(paths[k]@ == p);
    }
}

/// The files that the addresses of a trace lie in, each once, in the order in
/// which the trace first meets them. These are the files to inspect and load
/// before the trace is translated, so that each is looked at once however
/// many of the addresses it holds.
pub fn trace_dsos(proc: &ProcessMetadata, ips: &Vec<u64>) -> (res: Vec<String>)
    ensures
        paths_view(res@) == trace_files(proc@.maps, ips@),
        forall|p: Seq<char>| hit_by(proc@.maps, ips@, p) == listed(res@, p),
        distinct_paths(res@),
{
    let mut out: Vec<String> = Vec::new();
    let mut i: usize = 0;
    assert(paths_view(out@) =~= trace_files(proc@.maps, ips@.take(0)));
    while i < ips.len()
        invariant
            i <= ips@.len(),
            paths_view(out@) == trace_files(proc@.maps, ips@.take(i as int)),
            forall|p: Seq<char>| hit_by(proc@.maps, ips@.take(i as int), p) == listed(out@, p),
            distinct_paths(out@),
        decreases ips@.len() - i,
    {
        let ghost prev = out@;
        proof {
            assert(ips@.take(i + 1).drop_last() =~= ips@.take(i as int));
            assert(ips@.take(i + 1).last() == ips@[i as int]);
            if let Some(p) = file_of(proc@.maps, ips@[i as int]) {
                lemma_listed_is_contained(prev, p);
            }
        }
        let place = proc.map_addr(ips[i]);
        let mut fresh: Option<String> = None;
        match place {
            Ok((path, _)) => {
                if !holds_path(&out, &path) {
                    fresh = Some(path);
                }
            },
            Err(_) => {},
        }
        match fresh {
            Some(path) => {
                proof {
                    assert forall|j: int, k: int| 0 <= j < k < prev.push(path).len() implies (
                    #[trigger] prev.push(path)[j])@ != (#[trigger] prev.push(path)[k])@ by {
                        if k < prev.len() {
                            assert(prev[j]@ != prev[k]@);
                        } else {
                            assert(prev[j]@ != path@);
                        }
                    }
                    assert forall|p: Seq<char>| hit_by(proc@.maps, ips@.take(i + 1), p) == listed(
                        prev.push(path),
                        p,
                    ) by {
                        lemma_hit_by_step(proc@.maps, ips@, i as int, p);
                        lemma_listed_push(prev, path, p);
                    }
                    assert(paths_view(prev.push(path)) =~= paths_view(prev).push(path@));
                }
                out.push(path);
            },
            None => {
                proof {
                    assert forall|p: Seq<char>| hit_by(proc@.maps, ips@.take(i + 1), p) == listed(
                        prev,
                        p,
                    ) by {
                        lemma_hit_by_step(proc@.maps, ips@, i as int, p);
                    }
                }
            },
        }
        i += 1;
    }
    assert(ips@.take(ips@.len() as int) =~= ips@);
    out
}

/// Translates the stacks of samples. It holds the root directory in force, the
/// kernel's symbol table once that is loaded, the symbolizer with its store,
/// and whether samples of the idle thread are dropped.
pub struct Translator {
    rootfs: String,
    ksyms: Option<KernelSymbols>,
    symbolizer: Symbolizer,
    skip_idle: bool,
    ksyms_failed: bool,
}

impl Translator {
    /// The root directory in force.
    pub closed spec fn rootfs(&self) -> Seq<char> {
        self.rootfs@
    }

    /// The kernel's symbol table, once loaded.
    pub closed spec fn table(&self) -> Option<Map<u64, Seq<char>>> {
        match self.ksyms {
            Some(t) => Some(t@),
            None => None,
        }
    }

    /// What the store holds.
    pub closed spec fn entries(&self) -> Map<FileId, ElfView> {
        self.symbolizer.entries()
    }

    /// Whether loading the kernel's symbol table has failed. After a failure
    /// it is not tried again, and kernel frames are unknown.
    pub closed spec fn ksyms_failed(&self) -> bool {
        self.ksyms_failed
    }

    /// Whether samples of the idle thread are dropped.
    pub closed spec fn skips_idle(&self) -> bool {
        self.skip_idle
    }

    /// The invariant of the type: that of its parts.
    pub closed spec fn wf(&self) -> bool {
        self.symbolizer.wf() && (self.ksyms matches Some(t) ==> t.wf())
    }

    /// Where the kernel's symbol table is read from.
    pub open spec fn kallsyms(&self) -> Seq<char> {
        resolve_under(self.rootfs(), "/proc/kallsyms"@)
    }

    /// A translator for the files under `rootfs`, with no kernel symbols
    /// loaded, an empty store, and the idle thread dropped.
    pub fn new(rootfs: String) -> (res: Translator)
        ensures
            res.wf(),
            res.rootfs() == rootfs@,
            res.table().is_none(),
            res.entries() == Map::<FileId, ElfView>::empty(),
            res.skips_idle(),
            !res.ksyms_failed(),
    {
        Translator {
            rootfs,
            ksyms: None,
            symbolizer: Symbolizer::new(),
            skip_idle: true,
            ksyms_failed: false,
        }
    }

    /// Says whether samples of the idle thread are dropped.
    pub fn set_skip_idle(&mut self, skip: bool)
        ensures
            final(self).skips_idle() == skip,
            final(self).ksyms_failed() == old(self).ksyms_failed(),
            final(self).rootfs() == old(self).rootfs(),
            final(self).table() == old(self).table(),
            final(self).entries() == old(self).entries(),
            final(self).wf() == old(self).wf(),
    {
        self.skip_idle = skip;
    }

    /// Whether samples of the idle thread are dropped.
    pub fn skip_idle(&self) -> (res: bool)
        ensures
            res == self.skips_idle(),
    {
        self.skip_idle
    }

    /// The path of the kernel's symbol export under the root directory.
    pub fn kallsyms_path(&self) -> (res: String)
        ensures
            res@ == self.kallsyms(),
    {
        let rel = String::from_str("/proc/kallsyms");
        join_under(&self.rootfs, &rel)
    }

    /// Whether the kernel's symbol export is to be read now: the table is not
    /// loaded, and loading it has not failed before.
    pub fn needs_ksyms(&self) -> (res: bool)
        ensures
            res == (self.table().is_none() && !self.ksyms_failed()),
    {
        self.ksyms.is_none() && !self.ksyms_failed
    }

    /// Takes what reading the kernel's symbol export gave: its text, or
    /// nothing where it could not be read. Where the table is loaded already,
    /// or loading has failed before, nothing happens. Otherwise the table
    /// loads wholly or not at all: text in which every line is well-formed
    /// gives the table; a missing text or a malformed line fails the load,
    /// once and for good, and leaves no table.
    pub fn load_ksyms(&mut self, content: Option<&[u8]>) -> (res: Result<(), TranslateError>)
        requires
            old(self).wf(),
        ensures
            final(self).wf(),
            final(self).rootfs() == old(self).rootfs(),
            final(self).entries() == old(self).entries(),
            final(self).skips_idle() == old(self).skips_idle(),
            if old(self).table().is_some() || old(self).ksyms_failed() {
                res.is_ok() && final(self).table() == old(self).table()
                    && final(self).ksyms_failed() == old(self).ksyms_failed()
            } else {
                match content {
                    None => res == Err::<(), TranslateError>(TranslateError::KernelSymbolLoad)
                        && final(self).table().is_none() && final(self).ksyms_failed(),
                    Some(text) => match res {
                        Ok(_) => all_lines_valid(lines_from(text@, 0)) && final(self).table()
                            == Some(table_of(lines_from(text@, 0))) && !final(self).ksyms_failed(),
                        Err(e) => final(self).table().is_none() && final(self).ksyms_failed()
                            && exists|k: usize|
                            e == TranslateError::InvalidKernelSymbol(k) && first_invalid(
                                lines_from(text@, 0),
                                k as int,
                            ),
                    },
                }
            },
    {
        if self.ksyms.is_some() || self.ksyms_failed {
            return Ok(());
        }
        let text = match content {
            Some(text) => text,
            None => {
                self.ksyms_failed = true;
                return Err(TranslateError::KernelSymbolLoad);
            },
        };
        match KernelSymbols::parse(text) {
            Ok(table) => {
                self.ksyms = Some(table);
                Ok(())
            },
            Err(e) => {
                self.ksyms_failed = true;
                Err(e)
            },
        }
    }

    /// The frame of one kernel address: its name is that of the symbol at the
    /// greatest address not above it, marked `_[k]`, or `unknown`; its file is
    /// the kernel's symbol export. Fails exactly where no table is loaded.
    pub fn translate_ksyms(&self, ip: u64) -> (res: Result<PerfStackFrame, TranslateError>)
        requires
            self.wf(),
        ensures
            match self.table() {
                None => res == Err::<PerfStackFrame, TranslateError>(
                    TranslateError::KernelSymbolLoad,
                ),
                Some(t) => res matches Ok(f) && f@ == kernel_frame(Some(t), self.kallsyms(), ip),
            },
    {
        let elf_path = self.kallsyms_path();
        match &self.ksyms {
            None => Err(TranslateError::KernelSymbolLoad),
            Some(ksyms) => {
                let sym = match ksyms.floor(ip) {
                    Some(entry) => {
                        proof {
                            let t = ksyms@;
                            let c = choose|a: u64| is_floor_key(t, ip, a);
                            assert(is_floor_key(t, ip, entry.addr));
                            assert(c == entry.addr);
                        }
                        let mut name = entry.name.clone();
                        name.append("_[k]");
                        name
                    },
                    None => String::from_str("unknown"),
                };
                Ok(PerfStackFrame::new(ip, sym, elf_path, ip))
            },
        }
    }

    /// The frames of a kernel stack, one for each address and in the same
    /// order. An address that does not resolve, or any address while no table
    /// is loaded, gets the name `unknown`; the trace as a whole never fails.
    pub fn translate_ktrace(&self, ktrace: &Vec<u64>) -> (res: Vec<PerfStackFrame>)
        requires
            self.wf(),
        ensures
            frames_view(res@) == kernel_frames(self.table(), self.kallsyms(), ktrace@),
    {
        let mut frames: Vec<PerfStackFrame> = Vec::new();
        let mut i: usize = 0;
        while i < ktrace.len()
            invariant
                self.wf(),
                i <= ktrace@.len(),
                frames@.len() == i,
                forall|k: int|
                    0 <= k < i ==> (#[trigger] frames@[k])@ == kernel_frame(
                        self.table(),
                        self.kallsyms(),
                        ktrace@[k],
                    ),
            decreases ktrace@.len() - i,
        {
            let ip = ktrace[i];
            let frame = match self.translate_ksyms(ip) {
                Ok(f) => f,
                Err(_) => PerfStackFrame::new(
                    ip,
                    String::from_str("unknown"),
                    self.kallsyms_path(),
                    ip,
                ),
            };
            frames.push(frame);
            i += 1;
        }
        assert(frames_view(frames@) =~= kernel_frames(self.table(), self.kallsyms(), ktrace@));
        frames
    }

    /// The frame of one user address of a process, given the files whose
    /// metadata is at hand.
    pub fn translate_uaddr(proc: Option<&ProcessMetadata>, ip: u64, dsos: &Vec<LoadedDso>) -> (res:
        PerfStackFrame)
        requires
            loaded_wf(dsos@),
        ensures
            res@ == user_frame(maps_of(proc), loaded_view(dsos@), ip),
    {
        let place = match proc {
            Some(p) => p.map_addr(ip),
            None => Err(TranslateError::NotFound),
        };
        match place {
            Err(_) => PerfStackFrame::new(
                ip,
                String::from_str("unknown"),
                String::from_str("anonymous"),
                ip,
            ),
            Ok((dso_path, offset)) => {
                let sym = match lookup_dso(dsos, &dso_path) {
                    None => String::from_str("unknown"),
                    Some(elf) => match elf.find_symbol(offset) {
                        Ok(symbol) => match symbol.name {
                            Some(n) => {
                                let mut name = n;
                                name.append("_[u]");
                                name
                            },
                            None => String::from_str("unknown"),
                        },
                        Err(_) => String::from_str("unknown"),
                    },
                };
                PerfStackFrame::new(ip, sym, dso_path, offset)
            },
        }
    }

    /// The frames of a user stack, one for each address and in the same
    /// order, given the files whose metadata is at hand. A frame that cannot
    /// be resolved keeps what is known of it and gets the name `unknown`.
    pub fn translate_usyms(proc: Option<&ProcessMetadata>, ips: &Vec<u64>, dsos: &Vec<LoadedDso>) -> (res:
        Vec<PerfStackFrame>)
        requires
            loaded_wf(dsos@),
        ensures
            frames_view(res@) == user_frames(maps_of(proc), loaded_view(dsos@), ips@),
    {
        let mut frames: Vec<PerfStackFrame> = Vec::new();
        let mut i: usize = 0;
        while i < ips.len()
            invariant
                loaded_wf(dsos@),
                i <= ips@.len(),
                frames@.len() == i,
                forall|k: int|
                    0 <= k < i ==> (#[trigger] frames@[k])@ == user_frame(
                        maps_of(proc),
                        loaded_view(dsos@),
                        ips@[k],
                    ),
            decreases ips@.len() - i,
        {
            frames.push(Translator::translate_uaddr(proc, ips[i], dsos));
            i += 1;
        }
        assert(frames_view(frames@) =~= user_frames(maps_of(proc), loaded_view(dsos@), ips@));
        frames
    }

    /// Whether the metadata of the file is at hand.
    pub fn is_loaded(&self, id: FileId) -> (res: bool)
        ensures
            res == self.entries().dom().contains(id),
    {
        self.symbolizer.is_loaded(id)
    }

    /// Where a file of a process lies: the path by which the memory map
    /// names it, placed under the root of the process, and that under the
    /// root in force.
    pub open spec fn location(&self, proc_root: Seq<char>, dso: Seq<char>) -> Seq<char> {
        resolve_under(self.rootfs(), resolve_under(proc_root, dso))
    }

    /// Where the file `dso` of a process with root `proc_root` is read from.
    pub fn dso_location(&self, proc_root: &String, dso: &String) -> (res: String)
        ensures
            res@ == self.location(proc_root@, dso@),
    {
        let under_process = join_under(proc_root, dso);
        Symbolizer::dso_path(&self.rootfs, &under_process)
    }

    /// Parses a file of a process from its bytes and debug information and
    /// keeps its metadata, unless it is at hand already. `proc_root` is the
    /// directory through which the process's files are reached, `dso` the
    /// path by which the memory map names the file. A file that parses is at
    /// hand afterwards; a failure leaves nothing behind.
    pub fn load_dso(
        &mut self,
        proc_root: &String,
        dso: &String,
        id: FileId,
        bytes: &[u8],
        debug: &Vec<(u64, String)>,
    ) -> (res: Result<FileId, TranslateError>)
        requires
            old(self).wf(),
        ensures
            final(self).wf(),
            final(self).rootfs() == old(self).rootfs(),
            final(self).table() == old(self).table(),
            final(self).skips_idle() == old(self).skips_idle(),
            final(self).ksyms_failed() == old(self).ksyms_failed(),
            if old(self).entries().dom().contains(id) {
                res == Ok::<FileId, TranslateError>(id) && final(self).entries() == old(
                    self
                ).entries()
            } else {
                match crate::elf::parsed_elf(bytes@) {
                    None => (res matches Err(
                        TranslateError::Symbolize(crate::error::SymbolizerError::ElfParse(p)),
                    ) && p@ == old(self).location(proc_root@, dso@)) && final(self).entries() == old(
                        self
                    ).entries(),
                    Some(image) => res == Ok::<FileId, TranslateError>(id) && exists|elf: ElfView|
                        #[trigger] elf.built_from(
                            old(self).location(proc_root@, dso@),
                            id,
                            image,
                            crate::elf::debug_view(debug@),
                        ) && crate::symbol_store::stored(
                            old(self).entries(),
                            final(self).entries(),
                            id,
                            elf,
                        ),
                }
            },
    {
        let under_process = join_under(proc_root, dso);
        let root = self.rootfs.clone();
        let ghost place = old(self).location(proc_root@, dso@);
        assert(resolve_under(root@, under_process@) == place);
        let loaded = self.symbolizer.load(&root, &under_process, id, bytes, debug);
        proof {
            if !old(self).entries().dom().contains(id) {
                if let Some(image) = crate::elf::parsed_elf(bytes@) {
                    let elf = choose|elf: ElfView| #[trigger]
                        elf.built_from(place, id, image, crate::elf::debug_view(debug@))
                            && crate::symbol_store::stored(
                            old(self).entries(),
                            self.entries(),
                            id,
                            elf,
                        );
                    assert(elf.built_from(place, id, image, crate::elf::debug_view(debug@)));
                }
            }
        }
        match loaded {
            Ok(r) => Ok(r),
            Err(e) => Err(TranslateError::from(e)),
        }
    }

    /// Draws from the store the metadata of the files that inspection found,
    /// each once; `rootfs` is the directory through which the process's files
    /// are reached. A file that the store holds to the end of the drawing
    /// comes with its metadata, one that it never held comes without.
    pub fn load_dsos(&mut self, rootfs: &String, files: &Vec<DsoFile>) -> (res: Vec<LoadedDso>)
        requires
            old(self).wf(),
        ensures
            final(self).wf(),
            final(self).rootfs() == old(self).rootfs(),
            final(self).table() == old(self).table(),
            final(self).skips_idle() == old(self).skips_idle(),
            final(self).ksyms_failed() == old(self).ksyms_failed(),
            final(self).entries().submap_of(old(self).entries()),
            loaded_wf(res@),
            drawn_from(loaded_view(res@), files@, old(self).entries(), final(self).entries()),
    {
        let mut out: Vec<LoadedDso> = Vec::new();
        let mut i: usize = 0;
        while i < files.len()
            invariant
                self.wf(),
                self.rootfs() == old(self).rootfs(),
                self.table() == old(self).table(),
                self.skips_idle() == old(self).skips_idle(),
                self.ksyms_failed() == old(self).ksyms_failed(),
                self.entries().submap_of(old(self).entries()),
                i <= files@.len(),
                out@.len() == i,
                loaded_wf(out@),
                forall|k: int|
                    0 <= k < i ==> (#[trigger] loaded_view(out@)[k]).0 == files@[k].path@ && (
                    loaded_view(out@)[k].1 matches Some(e) ==> entry_of(
                        old(self).entries(),
                        files@[k].id,
                    ) == Some(e)) && (self.entries().dom().contains(files@[k].id) ==> loaded_view(
                        out@,
                    )[k].1 == Some(old(self).entries()[files@[k].id])),
            decreases files@.len() - i,
        {
            let file = &files[i];
            let ghost before = self.entries();
            let ghost prev = out@;
            let under_process = join_under(rootfs, &file.path);
            let root = self.rootfs.clone();
            let elf = match self.symbolizer.fetch(&root, &under_process, file.id) {
                Ok(e) => Some(e),
                Err(_) => None,
            };
            proof {
                vstd::map_lib::lemma_submap_of_trans(
                    self.entries(),
                    before,
                    old(self).entries(),
                );
                if elf.is_some() {
                    assert(before.dom().contains(file.id));
                    assert(old(self).entries().dom().contains(file.id));
                }
            }
            out.push(LoadedDso { path: file.path.clone(), elf });
            proof {
                assert forall|k: int| 0 <= k < i + 1 implies (#[trigger] loaded_view(out@)[k]).0
                    == files@[k].path@ && (loaded_view(out@)[k].1 matches Some(e) ==> entry_of(
                    old(self).entries(),
                    files@[k].id,
                ) == Some(e)) && (self.entries().dom().contains(files@[k].id) ==> loaded_view(
                    out@,
                )[k].1 == Some(old(self).entries()[files@[k].id])) by {
                    if self.entries().dom().contains(files@[k].id) {
                        assert(before.dom().contains(files@[k].id));
                        assert(old(self).entries().dom().contains(files@[k].id));
                    }
                    if k < i {
                        assert(out@[k] == prev[k]);
                        assert(loaded_view(out@)[k] == loaded_view(prev)[k]);
                    }
                }
                assert forall|k: int| 0 <= k < out@.len() implies ((#[trigger] out@[k]).elf matches Some(
                    e,
                ) ==> e.wf()) by {
                    if k < i {
                        assert(out@[k] == prev[k]);
                    }
                }
            }
            i += 1;
        }
        out
    }

    /// The frames of a user stack, with the metadata drawn from the store for
    /// the files that inspection found. What comes back is the translation
    /// for some state of the store that the call passed through.
    pub fn translate_utrace(
        &mut self,
        proc: Option<&ProcessMetadata>,
        utrace: &Vec<u64>,
        files: &Vec<DsoFile>,
    ) -> (res: Vec<PerfStackFrame>)
        requires
            old(self).wf(),
        ensures
            final(self).wf(),
            final(self).rootfs() == old(self).rootfs(),
            final(self).table() == old(self).table(),
            final(self).skips_idle() == old(self).skips_idle(),
            final(self).ksyms_failed() == old(self).ksyms_failed(),
            final(self).entries().submap_of(old(self).entries()),
            exists|dsos: Seq<(Seq<char>, Option<ElfView>)>| #[trigger]
                drawn_from(dsos, files@, old(self).entries(), final(self).entries()) && frames_view(
                    res@,
                ) == user_frames(
                    maps_of(proc),
                    dsos,
                    utrace@,
                ),
    {
        let dsos = match proc {
            Some(p) => self.load_dsos(p.rootfs(), files),
            None => {
                let root = String::from_str("/");
                self.load_dsos(&root, files)
            },
        };
        let frames = Translator::translate_usyms(proc, utrace, &dsos);
        assert(drawn_from(loaded_view(dsos@), files@, old(self).entries(), self.entries()));
        frames
    }

    /// The record of `count` occurrences of a sample, from the traces that
    /// were read for its stack handles. Nothing is emitted for a sample of
    /// the idle thread while those are dropped, nor for a count of zero.
    /// Kernel frames come first, then user frames; a stack that is absent or
    /// was not read contributes none.
    pub fn translate_sample(
        &self,
        stack: &StackInfo,
        count: u64,
        ktrace: Option<&Vec<u64>>,
        utrace: Option<&Vec<u64>>,
        proc: Option<&ProcessMetadata>,
        dsos: &Vec<LoadedDso>,
    ) -> (res: Option<PerfRecord>)
        requires
            self.wf(),
            loaded_wf(dsos@),
        ensures
            res.is_none() <==> (self.skips_idle() && idle(*stack)) || count == 0,
            res matches Some(r) ==> r@ == record_of(
                *stack,
                count,
                kernel_frames(
                    self.table(),
                    self.kallsyms(),
                    trace_or_none(stack.kernel_stack_id, ktrace),
                ),
                user_frames(
                    maps_of(proc),
                    loaded_view(dsos@),
                    trace_or_none(stack.user_stack_id, utrace),
                ),
            ),
    {
        if count == 0 || (self.skip_idle && stack.is_idle()) {
            return None;
        }
        let kframes = match (stack.kernel_stack_id, ktrace) {
            (Some(_), Some(t)) => Some(self.translate_ktrace(t)),
            _ => None,
        };
        let uframes = match (stack.user_stack_id, utrace) {
            (Some(_), Some(t)) => Some(Translator::translate_usyms(proc, t, dsos)),
            _ => None,
        };
        proof {
            assert(frames_or_none(kframes) =~= kernel_frames(
                self.table(),
                self.kallsyms(),
                trace_or_none(stack.kernel_stack_id, ktrace),
            ));
            assert(frames_or_none(uframes) =~= user_frames(
                maps_of(proc),
                loaded_view(dsos@),
                trace_or_none(stack.user_stack_id, utrace),
            ));
        }
        Some(PerfRecord::counted(stack, count, kframes, uframes))
    }
}

/// A user frame with a name other than `unknown` lies in a file whose
/// metadata was at hand, at an offset that exactly one loadable segment of
/// that file holds.
pub proof fn lemma_named_frame_in_one_segment(
    maps: Seq<MapView>,
    dsos: Seq<(Seq<char>, Option<ElfView>)>,
    ip: u64,
)
    ensures
        user_frame(maps, dsos, ip).sym == "unknown"@ || (find_dso(
            dsos,
            user_frame(maps, dsos, ip).elf,
        ) matches Some(e) && exists|i: int|
            sole_cover(e.pt_loads, user_frame(maps, dsos, ip).offset, i)),
{
    let frame = user_frame(maps, dsos, ip);
    if frame.sym != "unknown"@ {
        match located(maps, ip) {
            Err(_) => {},
            Ok((dso, off)) => {
                assert(frame.elf == dso && frame.offset == off);
                assert(frame.sym == user_name(find_dso(dsos, dso), off));
                match find_dso(dsos, dso) {
                    None => {},
                    Some(e) => {
                        match lookup_symbol(e, off) {
                            Lookup::Found(_) => {
                                assert(translated(e.pt_loads, off).is_some());
                                crate::elf::lemma_translated_in_one_segment(e.pt_loads, off);
                            },
                            _ => {},
                        }
                    },
                }
            },
        }
    }
}

/// The number of frames of a record is the length of the kernel trace plus
/// that of the user trace, a stack that is absent counting as empty.
pub proof fn lemma_frame_count(
    stack: StackInfo,
    count: u64,
    table: Option<Map<u64, Seq<char>>>,
    path: Seq<char>,
    maps: Seq<MapView>,
    dsos: Seq<(Seq<char>, Option<ElfView>)>,
    ktrace: Seq<u64>,
    utrace: Seq<u64>,
)
    ensures
        record_of(
            stack,
            count,
            kernel_frames(table, path, ktrace),
            user_frames(maps, dsos, utrace),
        ).frames.len() == ktrace.len() + utrace.len(),
{
}

} // verus!
