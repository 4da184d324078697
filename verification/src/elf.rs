//! Metadata of one ELF file: its loadable segments and its function symbols.

use crate::error::SymbolizerError;
use crate::symbol::{floor_of, strictly_sorted, Symbol, SymbolSet, SymbolView};
use symbolic::demangle::Demangle;
use vstd::prelude::*;
use vstd::string::*;

verus! {

/// Program header type of a loadable segment.
pub const PT_LOAD: u32 = 1;

/// Symbol type of a function, as held in the low four bits of `st_info`.
pub const STT_FUNC: u8 = 2;

/// The identity of a file: device and inode. Two paths to one file share it; a
/// file replaced under the same path gets a new one.
#[derive(Clone, Copy, Debug, PartialEq, Eq, Hash, Structural)]
pub struct FileId {
    pub dev: u64,
    pub inode: u64,
}

/// The fields of a program header that translation reads.
#[derive(Clone, Copy, Debug, PartialEq, Eq, Structural)]
pub struct ProgramHeader {
    pub p_type: u32,
    pub p_offset: u64,
    pub p_vaddr: u64,
    pub p_memsz: u64,
}

/// One entry of a symbol table, with its name already looked up in the string
/// table that belongs to that symbol table.
#[derive(Clone, Debug, PartialEq, Eq)]
pub struct RawSymbol {
    pub info: u8,
    pub value: u64,
    pub name: Option<String>,
}

/// The mathematical value of a [`RawSymbol`].
pub struct RawSymbolView {
    pub info: u8,
    pub value: u64,
    pub name: Option<Seq<char>>,
}

impl View for RawSymbol {
    type V = RawSymbolView;

    open spec fn view(&self) -> RawSymbolView {
        RawSymbolView {
            info: self.info,
            value: self.value,
            name: match self.name {
                Some(n) => Some(n@),
                None => None,
            },
        }
    }
}

/// What symbolization reads of a parsed ELF file: every program header in file
/// order, and the entries of the static and of the dynamic symbol table.
#[derive(Clone, Debug, PartialEq, Eq)]
pub struct ElfImage {
    pub headers: Vec<ProgramHeader>,
    pub symbols: Vec<RawSymbol>,
    pub dynamic_symbols: Vec<RawSymbol>,
}

/// The mathematical value of an [`ElfImage`].
pub struct ElfImageView {
    pub headers: Seq<ProgramHeader>,
    pub symbols: Seq<RawSymbolView>,
    pub dynamic_symbols: Seq<RawSymbolView>,
}

impl View for ElfImage {
    type V = ElfImageView;

    open spec fn view(&self) -> ElfImageView {
        ElfImageView {
            headers: self.headers@,
            symbols: Seq::new(self.symbols@.len(), |i: int| self.symbols@[i]@),
            dynamic_symbols: Seq::new(
                self.dynamic_symbols@.len(),
                |i: int| self.dynamic_symbols@[i]@,
            ),
        }
    }
}

/// What `goblin::elf::Elf::parse` makes of a file's bytes, reduced to what an
/// [`ElfImage`] holds; `None` where it reports an error.
pub uninterp spec fn parsed_elf(bytes: Seq<u8>) -> Option<ElfImageView>;

/// What `symbolic`'s `try_demangle` makes of a name with the name-only options.
pub uninterp spec fn demangled(name: Seq<char>) -> Seq<char>;

/// Parses an ELF file.
///
/// Trusted: calls `goblin::elf::Elf::parse` and copies out of its result the
/// program headers, and the entries of `syms` and `dynsyms` with the names
/// that `strtab` and `dynstrtab` hold for them (`Strtab::get_at`). The
/// contract only names what comes back; nothing is claimed of its content.
#[verifier::external_body]
fn parse_elf(bytes: &[u8]) -> (res: Option<ElfImage>)
    ensures
        match res {
            Some(image) => parsed_elf(bytes@) == Some(image@),
            None => parsed_elf(bytes@).is_none(),
        },
{
    let elf = goblin::elf::Elf::parse(bytes).ok()?;
    Some(ElfImage {
        headers: elf.program_headers.iter().map(|h| ProgramHeader {
            p_type: h.p_type, p_offset: h.p_offset, p_vaddr: h.p_vaddr, p_memsz: h.p_memsz,
        }).collect(),
        symbols: elf.syms.iter().map(|s| RawSymbol {
            info: s.st_info, value: s.st_value, name: elf.strtab.get_at(s.st_name).map(String::from),
        }).collect(),
        dynamic_symbols: elf.dynsyms.iter().map(|s| RawSymbol {
            info: s.st_info, value: s.st_value, name: elf.dynstrtab.get_at(s.st_name).map(String::from),
        }).collect(),
    })
}

/// The longest name, in characters, that is handed to the demangler. Its
/// parsers descend once for every few characters of some names, so the
/// length bounds the depth.
pub const MAX_MANGLED_LEN: usize = 2048;

/// Demangles a C++ or Rust name to the bare function name; a name that does
/// not demangle comes back as it is.
///
/// Trusted: calls `symbolic::demangle::Demangle::try_demangle` on
/// `symbolic::common::Name::from(name)` with `DemangleOptions::name_only()`.
/// The contract only names what comes back. The bound on the length keeps
/// out the names on which the demangler's recursion would not end within
/// the stack.
#[verifier::external_body]
fn demangle(name: &str) -> (res: String)
    requires
        name@.len() <= MAX_MANGLED_LEN,
    ensures
        res@ == demangled(name@),
{
    let options = symbolic::demangle::DemangleOptions::name_only();
    symbolic::common::Name::from(name).try_demangle(options).into_owned()
}

/// The name under which a symbol is kept: demangled, unless it is longer
/// than the demangler is given, in which case it stays as it is.
pub open spec fn display_name(name: Seq<char>) -> Seq<char> {
    if name.len() <= MAX_MANGLED_LEN {
        demangled(name)
    } else {
        name
    }
}

/// The name under which a symbol with the raw name `name` is kept.
pub fn shown_name(name: &String) -> (res: String)
    ensures
        res@ == display_name(name@),
{
    if name.as_str().unicode_len() <= MAX_MANGLED_LEN {
        demangle(name.as_str())
    } else {
        name.clone()
    }
}

/// Whether a symbol table entry with this `st_info` describes a function.
pub open spec fn is_function(info: u8) -> bool {
    info & 0xf == STT_FUNC
}

/// The symbol that a symbol table entry contributes: its value as the address
/// and its name as it is kept.
pub open spec fn cooked(raw: RawSymbolView) -> SymbolView {
    SymbolView {
        addr: raw.value,
        name: match raw.name {
            Some(n) => Some(display_name(n)),
            None => None,
        },
    }
}

/// The symbols that the function entries of a symbol table contribute.
pub open spec fn function_symbols(table: Seq<RawSymbolView>) -> Set<SymbolView> {
    Set::new(
        |s: SymbolView|
            exists|i: int|
                0 <= i < table.len() && is_function((#[trigger] table[i]).info) && s == cooked(
                    table[i],
                ),
    )
}

/// The symbol that an entry of debug information contributes.
pub open spec fn debug_symbol(entry: (u64, Seq<char>)) -> SymbolView {
    SymbolView { addr: entry.0, name: Some(display_name(entry.1)) }
}

/// The symbols that debug information contributes.
pub open spec fn debug_symbols(debug: Seq<(u64, Seq<char>)>) -> Set<SymbolView> {
    Set::new(
        |s: SymbolView| exists|i: int| 0 <= i < debug.len() && s == debug_symbol(#[trigger] debug[i]),
    )
}

/// The view of a list of debug entries.
pub open spec fn debug_view(debug: Seq<(u64, String)>) -> Seq<(u64, Seq<char>)> {
    Seq::new(debug.len(), |i: int| (debug[i].0, debug[i].1@))
}

/// The loadable segments among `headers`, in the order of the file.
pub open spec fn load_segments(headers: Seq<ProgramHeader>) -> Seq<ProgramHeader>
    decreases headers.len(),
{
    if headers.len() == 0 {
        Seq::empty()
    } else if headers.last().p_type == PT_LOAD {
        load_segments(headers.drop_last()).push(headers.last())
    } else {
        load_segments(headers.drop_last())
    }
}

/// Whether the segment holds the file offset: `p_offset <= off < p_offset + p_memsz`.
pub open spec fn covers(h: ProgramHeader, off: u64) -> bool {
    h.p_offset <= off && off - h.p_offset < h.p_memsz
}

/// Whether segment `i` is the one and only segment that holds the offset.
pub open spec fn sole_cover(segs: Seq<ProgramHeader>, off: u64, i: int) -> bool {
    &&& 0 <= i < segs.len()
    &&& covers(segs[i], off)
    &&& forall|j: int| 0 <= j < segs.len() && covers(#[trigger] segs[j], off) ==> j == i
}

/// The virtual offset that the segment gives the file offset.
pub open spec fn virt_of(h: ProgramHeader, off: u64) -> int {
    off - h.p_offset + h.p_vaddr
}

/// Translation of a file offset: through the one segment that holds it, if
/// there is exactly one and the result fits in 64 bits.
pub open spec fn translated(segs: Seq<ProgramHeader>, off: u64) -> Option<u64> {
    if exists|i: int| sole_cover(segs, off, i) {
        let i = choose|i: int| sole_cover(segs, off, i);
        if virt_of(segs[i], off) <= u64::MAX {
            Some(virt_of(segs[i], off) as u64)
        } else {
            None
        }
    } else {
        None
    }
}

/// Metadata of one file: where it is, which file it is, its loadable segments
/// in file order, and its function symbols.
#[derive(Clone, Debug)]
pub struct ElfMetadata {
    path: String,
    id: FileId,
    pt_loads: Vec<ProgramHeader>,
    debug_info: SymbolSet,
}

/// The mathematical value of an [`ElfMetadata`].
pub struct ElfView {
    pub path: Seq<char>,
    pub id: FileId,
    pub pt_loads: Seq<ProgramHeader>,
    pub symbols: Seq<SymbolView>,
}

impl ElfView {
    /// The invariant of metadata: the symbols are in strictly ascending order.
    pub open spec fn wf(self) -> bool {
        strictly_sorted(self.symbols)
    }

    /// What metadata built from these parts holds.
    pub open spec fn built_from(
        self,
        path: Seq<char>,
        id: FileId,
        image: ElfImageView,
        debug: Seq<(u64, Seq<char>)>,
    ) -> bool {
        &&& self.wf()
        &&& self.path == path
        &&& self.id == id
        &&& self.pt_loads == load_segments(image.headers)
        &&& self.symbols.to_set() == debug_symbols(debug).union(
            function_symbols(image.symbols),
        ).union(function_symbols(image.dynamic_symbols))
    }
}

impl View for ElfMetadata {
    type V = ElfView;

    closed spec fn view(&self) -> ElfView {
        ElfView {
            path: self.path@,
            id: self.id,
            pt_loads: self.pt_loads@,
            symbols: self.debug_info@,
        }
    }
}

/// What a lookup of `off` in `elf` gives: the symbol, or which step failed and
/// at which offset.
pub enum Lookup {
    Found(SymbolView),
    NoSymbol(u64),
    NoSegment,
}

/// Symbol lookup by file offset: translate, then take the floor.
pub open spec fn lookup_symbol(elf: ElfView, off: u64) -> Lookup {
    match translated(elf.pt_loads, off) {
        None => Lookup::NoSegment,
        Some(v) => match floor_of(elf.symbols, v) {
            None => Lookup::NoSymbol(v),
            Some(s) => Lookup::Found(s),
        },
    }
}

/// Adds to `set` the symbols that the function entries of `table` contribute.
fn add_function_symbols(set: &mut SymbolSet, table: &Vec<RawSymbol>)
    requires
        old(set).wf(),
    ensures
        final(set).wf(),
        final(set)@.to_set() == old(set)@.to_set().union(
            function_symbols(Seq::new(table@.len(), |i: int| table@[i]@)),
        ),
{
    let ghost views = Seq::new(table@.len(), |i: int| table@[i]@);
    let mut i: usize = 0;
    while i < table.len()
        invariant
            i <= table@.len(),
            set.wf(),
            views == Seq::new(table@.len(), |i: int| table@[i]@),
            set@.to_set() == old(set)@.to_set().union(function_symbols(views.take(i as int))),
        decreases table@.len() - i,
    {
        let raw = &table[i];
        let ghost prev = set@.to_set();
        assert(views[i as int] == raw@);
        if raw.info & 0xf == STT_FUNC {
            let name = match &raw.name {
                Some(n) => Some(shown_name(n)),
                None => None,
            };
            let sym = Symbol { addr: raw.value, name };
            assert(sym@ == cooked(raw@));
            set.insert(sym);
        }
        proof {
            let a = function_symbols(views.take(i as int));
            let b = function_symbols(views.take(i + 1));
            assert forall|s: SymbolView| b.contains(s) == (a.contains(s) || (is_function(raw@.info)
                && s == cooked(raw@))) by {
                if b.contains(s) {
                    let k = choose|k: int|
                        0 <= k < i + 1 && is_function((#[trigger] views.take(i + 1)[k]).info) && s
                            == cooked(views.take(i + 1)[k]);
                    if k < i {
                        assert(views.take(i as int)[k] == views.take(i + 1)[k]);
                    }
                }
                if a.contains(s) {
                    let k = choose|k: int|
                        0 <= k < i && is_function((#[trigger] views.take(i as int)[k]).info) && s
                            == cooked(views.take(i as int)[k]);
                    assert(views.take(i + 1)[k] == views.take(i as int)[k]);
                }
                if is_function(raw@.info) && s == cooked(raw@) {
                    assert(views.take(i + 1)[i as int] == raw@);
                }
            }
            assert(set@.to_set() =~= old(set)@.to_set().union(b));
        }
        i += 1;
    }
    assert(views.take(table@.len() as int) =~= views);
}

/// Adds to `set` the symbols that `debug` contributes.
fn add_debug_symbols(set: &mut SymbolSet, debug: &Vec<(u64, String)>)
    requires
        old(set).wf(),
    ensures
        final(set).wf(),
        final(set)@.to_set() == old(set)@.to_set().union(debug_symbols(debug_view(debug@))),
{
    let ghost views = debug_view(debug@);
    let mut i: usize = 0;
    while i < debug.len()
        invariant
            i <= debug@.len(),
            set.wf(),
            views == debug_view(debug@),
            set@.to_set() == old(set)@.to_set().union(debug_symbols(views.take(i as int))),
        decreases debug@.len() - i,
    {
        let entry = &debug[i];
        assert(views[i as int] == (entry.0, entry.1@));
        let sym = Symbol { addr: entry.0, name: Some(shown_name(&entry.1)) };
        assert(sym@ == debug_symbol(views[i as int]));
        set.insert(sym);
        proof {
            let a = debug_symbols(views.take(i as int));
            let b = debug_symbols(views.take(i + 1));
            assert forall|s: SymbolView| b.contains(s) == (a.contains(s) || s == debug_symbol(
                views[i as int],
            )) by {
                if b.contains(s) {
                    let k = choose|k: int|
                        0 <= k < i + 1 && s == debug_symbol(#[trigger] views.take(i + 1)[k]);
                    if k < i {
                        assert(views.take(i as int)[k] == views.take(i + 1)[k]);
                    }
                }
                if a.contains(s) {
                    let k = choose|k: int|
                        0 <= k < i && s == debug_symbol(#[trigger] views.take(i as int)[k]);
                    assert(views.take(i + 1)[k] == views.take(i as int)[k]);
                }
                if s == debug_symbol(views[i as int]) {
                    assert(views.take(i + 1)[i as int] == views[i as int]);
                }
            }
            assert(set@.to_set() =~= old(set)@.to_set().union(b));
        }
        i += 1;
    }
    assert(views.take(debug@.len() as int) =~= views);
}

impl ElfMetadata {
    /// The invariant of the type; every constructor establishes it.
    pub open spec fn wf(&self) -> bool {
        self@.wf()
    }

    /// Collects what symbolization needs from a parsed file and from its debug
    /// information: the merged set of function symbols, names demangled, and
    /// the loadable segments in file order.
    pub fn load_sym_from_elf(image: &ElfImage, debug: &Vec<(u64, String)>) -> (res: (
        SymbolSet,
        Vec<ProgramHeader>,
    ))
        ensures
            res.0.wf(),
            res.0@.to_set() == debug_symbols(debug_view(debug@)).union(
                function_symbols(image@.symbols),
            ).union(function_symbols(image@.dynamic_symbols)),
            res.1@ == load_segments(image@.headers),
    {
        let mut pt_loads: Vec<ProgramHeader> = Vec::new();
        let mut i: usize = 0;
        while i < image.headers.len()
            invariant
                i <= image.headers@.len(),
                pt_loads@ == load_segments(image.headers@.take(i as int)),
            decreases image.headers@.len() - i,
        {
            let h = image.headers[i];
            assert(image.headers@.take(i + 1).drop_last() =~= image.headers@.take(i as int));
            if h.p_type == PT_LOAD {
                pt_loads.push(h);
            }
            i += 1;
        }
        assert(image.headers@.take(image.headers@.len() as int) =~= image.headers@);
        let mut set = SymbolSet::new();
        add_debug_symbols(&mut set, debug);
        add_function_symbols(&mut set, &image.symbols);
        add_function_symbols(&mut set, &image.dynamic_symbols);
        assert(set@.to_set() =~= debug_symbols(debug_view(debug@)).union(
            function_symbols(image@.symbols),
        ).union(function_symbols(image@.dynamic_symbols)));
        (set, pt_loads)
    }

    /// Builds the metadata of the file at `path` with identity `id` from its
    /// parsed image and its debug information.
    pub fn from_image(path: String, id: FileId, image: &ElfImage, debug: &Vec<(u64, String)>) -> (res:
        ElfMetadata)
        ensures
            res@.built_from(path@, id, image@, debug_view(debug@)),
    {
        let (debug_info, pt_loads) = ElfMetadata::load_sym_from_elf(image, debug);
        ElfMetadata { path, id, pt_loads, debug_info }
    }

    /// Builds the metadata of the file at `path` with identity `id` from the
    /// file's bytes and its debug information (address and mangled name of
    /// each function). Fails exactly when the bytes do not parse.
    pub fn new(path: String, id: FileId, bytes: &[u8], debug: &Vec<(u64, String)>) -> (res: Result<
        ElfMetadata,
        SymbolizerError,
    >)
        ensures
            match res {
                Ok(elf) => parsed_elf(bytes@).is_some() && elf@.built_from(
                    path@,
                    id,
                    parsed_elf(bytes@).unwrap(),
                    debug_view(debug@),
                ),
                Err(e) => parsed_elf(bytes@).is_none() && e == SymbolizerError::ElfParse(path),
            },
    {
        match parse_elf(bytes) {
            Some(image) => Ok(ElfMetadata::from_image(path, id, &image, debug)),
            None => Err(SymbolizerError::ElfParse(path)),
        }
    }

    /// The path the metadata was loaded from.
    pub fn path(&self) -> (res: &String)
        ensures
            res@ == self@.path,
    {
        &self.path
    }

    /// The identity of the file.
    pub fn id(&self) -> (res: FileId)
        ensures
            res == self@.id,
    {
        self.id
    }

    /// The loadable segments, in file order.
    pub fn pt_loads(&self) -> (res: &Vec<ProgramHeader>)
        ensures
            res@ == self@.pt_loads,
    {
        &self.pt_loads
    }

    /// The function symbols, in ascending order.
    pub fn symbols(&self) -> (res: &SymbolSet)
        ensures
            res@ == self@.symbols,
    {
        &self.debug_info
    }

    /// Translates a file offset to the file's own virtual offset, through the
    /// one loadable segment that holds it.
    pub fn translate(&self, file_offset: u64) -> (res: Option<u64>)
        ensures
            res == translated(self@.pt_loads, file_offset),
    {
        let segs = &self.pt_loads;
        let mut hit: Option<usize> = None;
        let mut i: usize = 0;
        while i < segs.len()
            invariant
                i <= segs@.len(),
                segs@ == self@.pt_loads,
                match hit {
                    None => forall|j: int| 0 <= j < i ==> !covers(#[trigger] segs@[j], file_offset),
                    Some(k) => k < i && covers(segs@[k as int], file_offset) && forall|j: int|
                        0 <= j < i && covers(#[trigger] segs@[j], file_offset) ==> j == k,
                },
            decreases segs@.len() - i,
        {
            let h = segs[i];
            if h.p_offset <= file_offset && file_offset - h.p_offset < h.p_memsz {
                match hit {
                    Some(k) => {
                        proof {
                            assert(covers(segs@[i as int], file_offset));
                            assert(covers(segs@[k as int], file_offset));
                            assert forall|m: int| !sole_cover(segs@, file_offset, m) by {
                                if sole_cover(segs@, file_offset, m) {
                                    assert(k as int == m);
                                    assert(i as int == m);
                                }
                            }
                        }
                        return None;
                    },
                    None => {
                        hit = Some(i);
                    },
                }
            }
            i += 1;
        }
        match hit {
            None => None,
            Some(k) => {
                assert(sole_cover(segs@, file_offset, k as int));
                let ghost c = choose|m: int| sole_cover(segs@, file_offset, m);
                assert(c == k);
                let h = segs[k];
                let delta = file_offset - h.p_offset;
                if delta <= u64::MAX - h.p_vaddr {
                    Some(delta + h.p_vaddr)
                } else {
                    None
                }
            },
        }
    }

    /// Finds the function that holds the file offset: translates the offset,
    /// then takes the floor in the symbol set.
    pub fn find_symbol(&self, offset: u64) -> (res: Result<Symbol, SymbolizerError>)
        requires
            self.wf(),
        ensures
            match lookup_symbol(self@, offset) {
                Lookup::Found(s) => res matches Ok(r) && r@ == s,
                Lookup::NoSymbol(v) => res matches Err(SymbolizerError::SymbolNotFound(p, o)) && p@
                    == self@.path && o == v,
                Lookup::NoSegment => res matches Err(
                    SymbolizerError::OffsetOutsideLoadableSegments(p, o),
                ) && p@ == self@.path && o == offset,
            },
    {
        match self.translate(offset) {
            Some(relative_offset) => match self.debug_info.floor(relative_offset) {
                Some(sym) => Ok(sym.duplicate()),
                None => Err(SymbolizerError::SymbolNotFound(self.path.clone(), relative_offset)),
            },
            None => Err(SymbolizerError::OffsetOutsideLoadableSegments(self.path.clone(), offset)),
        }
    }
}

/// Metadata built twice from the same file is the same: the same identity,
/// the same segments and the same symbols in the same order.
pub proof fn lemma_same_file_same_metadata(
    a: ElfView,
    b: ElfView,
    path: Seq<char>,
    id: FileId,
    image: ElfImageView,
    debug: Seq<(u64, Seq<char>)>,
)
    requires
        a.built_from(path, id, image, debug),
        b.built_from(path, id, image, debug),
    ensures
        a == b,
{
    crate::symbol::lemma_sorted_same_set(a.symbols, b.symbols);
}

/// A segment of size zero holds no file offset.
pub proof fn lemma_empty_segment_covers_nothing(h: ProgramHeader, off: u64)
    requires
        h.p_memsz == 0,
    ensures
        !covers(h, off),
{
}

/// A translation that succeeds went through exactly one segment: the offset
/// lies in one loadable segment and in no other.
pub proof fn lemma_translated_in_one_segment(segs: Seq<ProgramHeader>, off: u64)
    requires
        translated(segs, off).is_some(),
    ensures
        exists|i: int| sole_cover(segs, off, i) && translated(segs, off) == Some(
            virt_of(segs[i], off) as u64,
        ),
{
}

/// Floor lookup at the address of a symbol of the set finds a symbol at that
/// very address: the last in order of those that share it, which is the
/// symbol itself where no other shares its address.
pub proof fn lemma_floor_at_symbol_address(s: Seq<SymbolView>, i: int)
    requires
        strictly_sorted(s),
        0 <= i < s.len(),
    ensures
        floor_of(s, s[i].addr) matches Some(t) && t.addr == s[i].addr && (t == s[i]
            || crate::symbol::symbol_less(s[i], t)),
        (forall|j: int| 0 <= j < s.len() && j != i ==> (#[trigger] s[j]).addr != s[i].addr)
            ==> floor_of(s, s[i].addr) == Some(s[i]),
    decreases s.len(),
{
    let addr = s[i].addr;
    if s.last().addr <= addr {
        if i < s.len() - 1 {
            assert(crate::symbol::symbol_less(s[i], s[s.len() - 1]));
        }
    } else {
        lemma_floor_at_symbol_address(s.drop_last(), i);
        assert forall|j: int| 0 <= j < s.drop_last().len() implies s.drop_last()[j] == s[j] by {}
    }
}

/// Floor lookup below the smallest address of the set finds nothing.
pub proof fn lemma_floor_below_all(s: Seq<SymbolView>, addr: u64)
    requires
        forall|i: int| 0 <= i < s.len() ==> (#[trigger] s[i]).addr > addr,
    ensures
        floor_of(s, addr).is_none(),
    decreases s.len(),
{
    if s.len() > 0 {
        lemma_floor_below_all(s.drop_last(), addr);
    }
}

/// What floor lookup finds is the greatest address of the set that does not
/// exceed the query, and where several symbols share that address, one with a
/// name if any of them has one.
pub proof fn lemma_floor_is_greatest(s: Seq<SymbolView>, addr: u64)
    requires
        strictly_sorted(s),
    ensures
        match floor_of(s, addr) {
            Some(t) => s.contains(t) && t.addr <= addr && forall|j: int|
                0 <= j < s.len() && (#[trigger] s[j]).addr <= addr ==> s[j].addr <= t.addr && (
                s[j].addr == t.addr && s[j].name.is_some() ==> t.name.is_some()),
            None => forall|j: int| 0 <= j < s.len() ==> (#[trigger] s[j]).addr > addr,
        },
    decreases s.len(),
{
    if s.len() > 0 {
        if s.last().addr <= addr {
            assert(s[s.len() - 1] == s.last());
            assert forall|j: int| 0 <= j < s.len() && (#[trigger] s[j]).addr <= addr implies s[j].addr
                <= s.last().addr && (s[j].addr == s.last().addr && s[j].name.is_some()
                ==> s.last().name.is_some()) by {
                if j < s.len() - 1 {
                    assert(crate::symbol::symbol_less(s[j], s[s.len() - 1]));
                }
            }
        } else {
            lemma_floor_is_greatest(s.drop_last(), addr);
            match floor_of(s.drop_last(), addr) {
                Some(t) => {
                    let k = choose|k: int| 0 <= k < s.drop_last().len() && s.drop_last()[k] == t;
                    assert(s[k] == t);
                    assert forall|j: int| 0 <= j < s.len() && (#[trigger] s[j]).addr
                        <= addr implies s[j].addr <= t.addr && (s[j].addr == t.addr
                        && s[j].name.is_some() ==> t.name.is_some()) by {
                        assert(s.drop_last()[j] == s[j]);
                    }
                },
                None => {
                    assert forall|j: int| 0 <= j < s.len() implies (#[trigger] s[j]).addr > addr by {
                        if j < s.len() - 1 {
                            assert(s.drop_last()[j] == s[j]);
                        }
                    }
                },
            }
        }
    }
}

} // verus!
