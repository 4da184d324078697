//! The executable mappings of one process, and the way from a virtual address
//! to a file and an offset in it.

use crate::error::TranslateError;
use crate::text::{dec_text, join_under, push_dec, resolve_under};
use vstd::prelude::*;
use vstd::string::*;

verus! {

/// What a mapping is backed by.
#[derive(Clone, Debug, PartialEq, Eq)]
pub enum MMapPath {
    /// A file, by its path as the process sees it.
    Path(String),
    /// Nothing: an anonymous mapping.
    Anonymous,
    /// A special region such as the heap, a stack or the vdso, by its label.
    Special(String),
}

/// One line of a process's memory map.
#[derive(Clone, Debug, PartialEq, Eq)]
pub struct MemoryMap {
    /// Start of the virtual range `[start, end)`.
    pub start: u64,
    /// End of the virtual range, exclusive.
    pub end: u64,
    pub readable: bool,
    pub writable: bool,
    pub executable: bool,
    /// Where in the file the mapping starts.
    pub offset: u64,
    pub pathname: MMapPath,
}

/// The mathematical value of a [`MemoryMap`]; `file` is the path of the
/// backing file, where there is one.
pub struct MapView {
    pub start: u64,
    pub end: u64,
    pub readable: bool,
    pub writable: bool,
    pub executable: bool,
    pub offset: u64,
    pub file: Option<Seq<char>>,
}

impl View for MemoryMap {
    type V = MapView;

    open spec fn view(&self) -> MapView {
        MapView {
            start: self.start,
            end: self.end,
            readable: self.readable,
            writable: self.writable,
            executable: self.executable,
            offset: self.offset,
            file: match self.pathname {
                MMapPath::Path(p) => Some(p@),
                _ => None,
            },
        }
    }
}

/// The values of a list of mappings.
pub open spec fn maps_view(maps: Seq<MemoryMap>) -> Seq<MapView> {
    Seq::new(maps.len(), |i: int| maps[i]@)
}

/// Code that cannot change: readable, executable and not writable.
pub open spec fn is_code(m: MapView) -> bool {
    m.readable && m.executable && !m.writable
}

/// The mappings of `maps` that are code, in their order.
pub open spec fn code_maps(maps: Seq<MapView>) -> Seq<MapView>
    decreases maps.len(),
{
    if maps.len() == 0 {
        Seq::empty()
    } else if is_code(maps.last()) {
        code_maps(maps.drop_last()).push(maps.last())
    } else {
        code_maps(maps.drop_last())
    }
}

/// Whether the mapping's range holds the address.
pub open spec fn holds(m: MapView, addr: u64) -> bool {
    m.start <= addr < m.end
}

/// The first mapping whose range holds the address.
pub open spec fn find_holding(maps: Seq<MapView>, addr: u64) -> Option<MapView>
    decreases maps.len(),
{
    if maps.len() == 0 {
        None
    } else if holds(maps[0], addr) {
        Some(maps[0])
    } else {
        find_holding(maps.skip(1), addr)
    }
}

/// Whether two ranges share no address.
pub open spec fn apart(a: MapView, b: MapView) -> bool {
    a.end <= b.start || b.end <= a.start
}

/// No two ranges share an address.
pub open spec fn disjoint(maps: Seq<MapView>) -> bool {
    forall|i: int, j: int| 0 <= i < j < maps.len() ==> apart(#[trigger] maps[i], #[trigger] maps[j])
}

/// Every range starts before it ends.
pub open spec fn proper(maps: Seq<MapView>) -> bool {
    forall|i: int| 0 <= i < maps.len() ==> (#[trigger] maps[i]).start < maps[i].end
}

/// What is asked of the ranges of a memory map: each starts before it ends,
/// and no two share an address.
pub open spec fn valid_ranges(maps: Seq<MapView>) -> bool {
    proper(maps) && disjoint(maps)
}

/// The marker that the kernel appends to the path of a file that was removed
/// while mapped.
pub open spec fn deleted_marker() -> Seq<char> {
    seq![' ', '(', 'd', 'e', 'l', 'e', 't', 'e', 'd', ')']
}

/// The path without the marker of a removed file at its end.
pub open spec fn without_deleted_marker(p: Seq<char>) -> Seq<char> {
    if p.len() >= 10 && p.skip(p.len() - 10) == deleted_marker() {
        p.take(p.len() - 10)
    } else {
        p
    }
}

/// Where the address lies, in the words of the memory map: the path of the
/// backing file as it is mapped, marker stripped, and the offset in the file;
/// or why there is no such place.
pub open spec fn located(maps: Seq<MapView>, addr: u64) -> Result<(Seq<char>, u64), TranslateError> {
    match find_holding(maps, addr) {
        None => Err(TranslateError::NotFound),
        Some(m) => match m.file {
            None => Err(TranslateError::NoBackingFile),
            Some(p) => if m.offset + (addr - m.start) > u64::MAX {
                Err(TranslateError::Internal)
            } else {
                Ok((without_deleted_marker(p), (m.offset + (addr - m.start)) as u64))
            },
        },
    }
}

/// Where the address lies, with the file reached through `root`: as
/// [`located`], the path placed under `root`.
pub open spec fn resolved(root: Seq<char>, maps: Seq<MapView>, addr: u64) -> Result<
    (Seq<char>, u64),
    TranslateError,
> {
    match located(maps, addr) {
        Ok((p, o)) => Ok((resolve_under(root, p), o)),
        Err(e) => Err(e),
    }
}

/// The directory through which the files of process `pid` are reached.
pub open spec fn process_root(pid: u32) -> Seq<char> {
    "/proc/"@ + dec_text(pid as nat) + "/root"@
}

/// Removes the marker of a removed file from the end of a path.
pub fn strip_deleted(path: &String) -> (res: String)
    ensures
        res@ == without_deleted_marker(path@),
{
    let marker: [char; 10] = [' ', '(', 'd', 'e', 'l', 'e', 't', 'e', 'd', ')'];
    let s = path.as_str();
    let n = s.unicode_len();
    if n < 10 {
        return path.clone();
    }
    let start = n - 10;
    let mut i: usize = 0;
    while i < 10
        invariant
            i <= 10,
            s@ == path@,
            n == s@.len(),
            start == n - 10,
            marker@ == deleted_marker(),
            forall|k: int| 0 <= k < i ==> s@[start + k] == deleted_marker()[k],
        decreases 10 - i,
    {
        if s.get_char(start + i) != marker[i] {
            assert(s@.skip(s@.len() - 10)[i as int] != deleted_marker()[i as int]);
            return path.clone();
        }
        i += 1;
    }
    assert(s@.skip(s@.len() - 10) =~= deleted_marker());
    let head = s.substring_char(0, start);
    assert(head@ =~= s@.take(s@.len() - 10));
    String::from_str(head)
}

/// The memory map of one process, reduced to its code.
#[derive(Clone, Debug)]
pub struct ProcessMetadata {
    pid: u32,
    rootfs: String,
    cmdline: Vec<String>,
    maps: Vec<MemoryMap>,
}

/// The mathematical value of a [`ProcessMetadata`].
pub struct ProcessView {
    pub pid: u32,
    /// The directory through which the process's files are reached.
    pub rootfs: Seq<char>,
    pub cmdline: Seq<String>,
    /// The mappings that are kept.
    pub maps: Seq<MapView>,
}

impl View for ProcessMetadata {
    type V = ProcessView;

    closed spec fn view(&self) -> ProcessView {
        ProcessView {
            pid: self.pid,
            rootfs: self.rootfs@,
            cmdline: self.cmdline@,
            maps: maps_view(self.maps@),
        }
    }
}

impl ProcessMetadata {
    /// The invariant of the type: only code is kept, every range starts
    /// before it ends, no two ranges share an address, and the root is that
    /// of the process.
    pub open spec fn wf(&self) -> bool {
        &&& forall|i: int| 0 <= i < self@.maps.len() ==> is_code(#[trigger] self@.maps[i])
        &&& valid_ranges(self@.maps)
        &&& self@.rootfs == process_root(self@.pid)
    }

    pub fn pid(&self) -> (res: u32)
        ensures
            res == self@.pid,
    {
        self.pid
    }

    /// The directory through which the process's files are reached.
    pub fn rootfs(&self) -> (res: &String)
        ensures
            res@ == self@.rootfs,
    {
        &self.rootfs
    }

    pub fn cmdline(&self) -> (res: &Vec<String>)
        ensures
            res@ == self@.cmdline,
    {
        &self.cmdline
    }

    /// How many mappings are kept.
    pub fn map_count(&self) -> (res: usize)
        ensures
            res == self@.maps.len(),
    {
        self.maps.len()
    }

    /// Describes process `pid` from what was read of it: its command line and
    /// its memory map, or `None` where the process could not be read. Keeps
    /// the mappings that are readable, executable and not writable, in their
    /// order. A map in which one of these has an empty range, or two of them
    /// share an address, is refused.
    pub fn new(pid: u32, cmdline: Vec<String>, maps: Option<Vec<MemoryMap>>) -> (res: Result<
        ProcessMetadata,
        TranslateError,
    >)
        ensures
            match maps {
                None => res == Err::<ProcessMetadata, TranslateError>(TranslateError::ProcessGone),
                Some(all) => if valid_ranges(code_maps(maps_view(all@))) {
                    res matches Ok(p) && p.wf() && p@.pid == pid && p@.cmdline == cmdline@
                        && p@.rootfs == process_root(pid) && p@.maps == code_maps(
                        maps_view(all@),
                    )
                } else {
                    res matches Err(TranslateError::InvalidInput(what)) && what@ == "memory map"@
                },
            },
    {
        let all = match maps {
            Some(all) => all,
            None => {
                return Err(TranslateError::ProcessGone);
            },
        };
        let mut rootfs = String::from_str("/proc/");
        push_dec(&mut rootfs, pid as u64);
        rootfs.append("/root");
        let mut kept: Vec<MemoryMap> = Vec::new();
        let ghost views = maps_view(all@);
        let mut i: usize = 0;
        while i < all.len()
            invariant
                i <= all@.len(),
                views == maps_view(all@),
                maps_view(kept@) == code_maps(views.take(i as int)),
                forall|k: int| 0 <= k < kept@.len() ==> is_code(#[trigger] maps_view(kept@)[k]),
            decreases all@.len() - i,
        {
            let m = &all[i];
            assert(views.take(i + 1).drop_last() =~= views.take(i as int));
            assert(views.take(i + 1).last() == m@);
            if m.readable && m.executable && !m.writable {
                let ghost before = maps_view(kept@);
                kept.push(m.clone_map());
                assert(maps_view(kept@) =~= before.push(m@));
            }
            i += 1;
        }
        assert(views.take(all@.len() as int) =~= views);
        if !ranges_valid(&kept) {
            return Err(TranslateError::InvalidInput(String::from_str("memory map")));
        }
        Ok(ProcessMetadata { pid, rootfs, cmdline, maps: kept })
    }

    /// The first kept mapping whose range holds `addr`; `NotFound` exactly
    /// where none does.
    pub fn find_mapper(&self, addr: u64) -> (res: Result<&MemoryMap, TranslateError>)
        ensures
            match find_holding(self@.maps, addr) {
                Some(m) => res matches Ok(r) && r@ == m && holds(m, addr),
                None => res == Err::<&MemoryMap, TranslateError>(TranslateError::NotFound),
            },
    {
        let ghost all = self@.maps;
        assert(all.skip(0) =~= all);
        let mut i: usize = 0;
        while i < self.maps.len()
            invariant
                i <= self.maps@.len(),
                all == self@.maps,
                find_holding(all, addr) == find_holding(all.skip(i as int), addr),
            decreases self.maps@.len() - i,
        {
            let m = &self.maps[i];
            assert(all.skip(i as int)[0] == m@);
            if m.start <= addr && addr < m.end {
                return Ok(m);
            }
            assert(all.skip(i as int).skip(1) =~= all.skip(i + 1));
            i += 1;
        }
        Err(TranslateError::NotFound)
    }

    /// The path of the file that backs the mapping of `addr`, or `unknown`
    /// where the mapping is not backed by a file.
    pub fn find_dso_path(&self, addr: u64) -> (res: Result<String, TranslateError>)
        ensures
            match find_holding(self@.maps, addr) {
                Some(m) => res matches Ok(p) && p@ == (match m.file {
                    Some(f) => f,
                    None => "unknown"@,
                }),
                None => res == Err::<String, TranslateError>(TranslateError::NotFound),
            },
    {
        match self.find_mapper(addr) {
            Ok(m) => match &m.pathname {
                MMapPath::Path(p) => Ok(p.clone()),
                _ => Ok(String::from_str("unknown")),
            },
            Err(e) => Err(e),
        }
    }

    /// Translates a virtual address of the process to the file that backs it,
    /// under the path by which the memory map names it, and the offset in
    /// that file: the mapping's file offset plus the distance from the
    /// mapping's start.
    pub fn map_addr(&self, v_addr: u64) -> (res: Result<(String, u64), TranslateError>)
        ensures
            match located(self@.maps, v_addr) {
                Ok((p, o)) => res matches Ok((rp, ro)) && rp@ == p && ro == o,
                Err(e) => res == Err::<(String, u64), TranslateError>(e),
            },
    {
        match self.find_mapper(v_addr) {
            Err(e) => Err(e),
            Ok(mapper) => match &mapper.pathname {
                MMapPath::Path(p) => {
                    let delta = v_addr - mapper.start;
                    if delta > u64::MAX - mapper.offset {
                        Err(TranslateError::Internal)
                    } else {
                        Ok((strip_deleted(p), mapper.offset + delta))
                    }
                },
                _ => Err(TranslateError::NoBackingFile),
            },
        }
    }

    /// Translates a virtual address of the process to the file that backs it
    /// and the offset in that file. The path is that of the memory map,
    /// without the marker of a removed file, placed under the root through
    /// which the process's files are reached.
    pub fn abs_addr(&self, v_addr: u64) -> (res: Result<(String, u64), TranslateError>)
        ensures
            match resolved(self@.rootfs, self@.maps, v_addr) {
                Ok((p, o)) => res matches Ok((rp, ro)) && rp@ == p && ro == o,
                Err(e) => res == Err::<(String, u64), TranslateError>(e),
            },
    {
        match self.map_addr(v_addr) {
            Ok((path, offset)) => Ok((join_under(&self.rootfs, &path), offset)),
            Err(e) => Err(e),
        }
    }
}

/// Whether every range starts before it ends and no two share an address.
fn ranges_valid(maps: &Vec<MemoryMap>) -> (res: bool)
    ensures
        res == valid_ranges(maps_view(maps@)),
{
    let ghost views = maps_view(maps@);
    let mut j: usize = 0;
    while j < maps.len()
        invariant
            j <= maps@.len(),
            views == maps_view(maps@),
            forall|b: int| 0 <= b < j ==> (#[trigger] views[b]).start < views[b].end,
            forall|a: int, b: int| 0 <= a < b < j ==> apart(#[trigger] views[a], #[trigger] views[b]),
        decreases maps@.len() - j,
    {
        let m = &maps[j];
        assert(views[j as int] == m@);
        if m.start >= m.end {
            return false;
        }
        let mut i: usize = 0;
        while i < j
            invariant
                i <= j < maps@.len(),
                views == maps_view(maps@),
                views[j as int] == m@,
                forall|a: int| 0 <= a < i ==> apart(#[trigger] views[a], views[j as int]),
            decreases j - i,
        {
            let n = &maps[i];
            assert(views[i as int] == n@);
            if !(n.end <= m.start || m.end <= n.start) {
                assert(!apart(views[i as int], views[j as int]));
                return false;
            }
            i += 1;
        }
        j += 1;
    }
    true
}

impl MMapPath {
    /// A copy of this value.
    pub fn clone_path(&self) -> (res: MMapPath)
        ensures
            res == *self,
    {
        match self {
            MMapPath::Path(p) => MMapPath::Path(p.clone()),
            MMapPath::Anonymous => MMapPath::Anonymous,
            MMapPath::Special(l) => MMapPath::Special(l.clone()),
        }
    }
}

impl MemoryMap {
    /// A copy of this mapping.
    pub fn clone_map(&self) -> (res: MemoryMap)
        ensures
            res == *self,
    {
        MemoryMap {
            start: self.start,
            end: self.end,
            readable: self.readable,
            writable: self.writable,
            executable: self.executable,
            offset: self.offset,
            pathname: self.pathname.clone_path(),
        }
    }
}

/// Where ranges are disjoint, the mapping that holds an address is the only
/// one that does, and it is the one that search finds.
pub proof fn lemma_unique_mapping(maps: Seq<MapView>, addr: u64, i: int)
    requires
        disjoint(maps),
        0 <= i < maps.len(),
        holds(maps[i], addr),
    ensures
        find_holding(maps, addr) == Some(maps[i]),
        forall|j: int| 0 <= j < maps.len() && j != i ==> !holds(#[trigger] maps[j], addr),
    decreases maps.len(),
{
    assert forall|j: int| 0 <= j < maps.len() && j != i implies !holds(#[trigger] maps[j], addr) by {
        if j < i {
            assert(apart(maps[j], maps[i]));
        } else {
            assert(apart(maps[i], maps[j]));
        }
    }
    if i > 0 {
        let rest = maps.skip(1);
        assert forall|a: int, b: int| 0 <= a < b < rest.len() implies apart(
            #[trigger] rest[a],
            #[trigger] rest[b],
        ) by {
            assert(rest[a] == maps[a + 1] && rest[b] == maps[b + 1]);
            assert(apart(maps[a + 1], maps[b + 1]));
        }
        assert(rest[i - 1] == maps[i]);
        lemma_unique_mapping(rest, addr, i - 1);
        assert(!holds(maps[0], addr));
    }
}

} // verus!
