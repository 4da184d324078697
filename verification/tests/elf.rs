use doctor::elf::{
    shown_name, ElfImage, ElfMetadata, FileId, ProgramHeader, RawSymbol, MAX_MANGLED_LEN, PT_LOAD,
    STT_FUNC,
};
use doctor::error::SymbolizerError;
use doctor::symbol::Symbol;

fn load(p_offset: u64, p_vaddr: u64, p_memsz: u64) -> ProgramHeader {
    ProgramHeader { p_type: PT_LOAD, p_offset, p_vaddr, p_memsz }
}

fn func(value: u64, name: &str) -> RawSymbol {
    RawSymbol { info: 0x12, value, name: Some(name.to_string()) }
}

fn sym(addr: u64, name: &str) -> Symbol {
    Symbol { addr, name: Some(name.to_string()) }
}

fn id() -> FileId {
    FileId { dev: 8, inode: 1234 }
}

fn meta(headers: Vec<ProgramHeader>, symbols: Vec<RawSymbol>) -> ElfMetadata {
    let image = ElfImage { headers, symbols, dynamic_symbols: Vec::new() };
    ElfMetadata::from_image("/bin/a".to_string(), id(), &image, &Vec::new())
}

fn put16(out: &mut Vec<u8>, v: u16) {
    out.extend_from_slice(&v.to_le_bytes());
}

fn put32(out: &mut Vec<u8>, v: u32) {
    out.extend_from_slice(&v.to_le_bytes());
}

fn put64(out: &mut Vec<u8>, v: u64) {
    out.extend_from_slice(&v.to_le_bytes());
}

fn put_phdr(out: &mut Vec<u8>, p_type: u32, offset: u64, vaddr: u64, filesz: u64, memsz: u64) {
    put32(out, p_type);
    put32(out, 5);
    put64(out, offset);
    put64(out, vaddr);
    put64(out, vaddr);
    put64(out, filesz);
    put64(out, memsz);
    put64(out, 0x1000);
}

fn put_sym(out: &mut Vec<u8>, name: u32, info: u8, value: u64) {
    put32(out, name);
    out.push(info);
    out.push(0);
    put16(out, 1);
    put64(out, value);
    put64(out, 16);
}

fn put_shdr(out: &mut Vec<u8>, sh_type: u32, offset: u64, size: u64, link: u32, entsize: u64) {
    put32(out, 0);
    put32(out, sh_type);
    put64(out, 0);
    put64(out, 0);
    put64(out, offset);
    put64(out, size);
    put32(out, link);
    put32(out, 0);
    put64(out, 1);
    put64(out, entsize);
}

/// A small 64-bit little-endian ELF file: three program headers (two
/// loadable, one note), a static symbol table with two functions and one
/// object, and a dynamic symbol table with one function.
fn tiny_elf() -> Vec<u8> {
    let base: u64 = 0x400000;
    let strtab: &[u8] = b"\0main\0_ZN3foo3barEv\0table\0";
    let dynstr: &[u8] = b"\0dyn_func\0";
    let phoff: u64 = 64;
    let phnum: u64 = 4;
    let strtab_off = phoff + 56 * phnum;
    let dynstr_off = strtab_off + strtab.len() as u64;
    let symtab_off = (dynstr_off + dynstr.len() as u64 + 7) / 8 * 8;
    let dynsym_off = symtab_off + 24 * 4;
    let hash_off = dynsym_off + 24 * 2;
    let dynamic_off = hash_off + 16;
    let dynamic_len: u64 = 16 * 6;
    let shoff = dynamic_off + dynamic_len;
    let total = shoff + 64 * 3;

    let mut out: Vec<u8> = Vec::new();
    out.extend_from_slice(&[0x7f, b'E', b'L', b'F', 2, 1, 1, 0, 0, 0, 0, 0, 0, 0, 0, 0]);
    put16(&mut out, 2);
    put16(&mut out, 62);
    put32(&mut out, 1);
    put64(&mut out, base + 0x100);
    put64(&mut out, phoff);
    put64(&mut out, shoff);
    put32(&mut out, 0);
    put16(&mut out, 64);
    put16(&mut out, 56);
    put16(&mut out, phnum as u16);
    put16(&mut out, 64);
    put16(&mut out, 3);
    put16(&mut out, 0);

    put_phdr(&mut out, 1, 0, base, total, 0x10000);
    put_phdr(&mut out, 4, strtab_off, base + strtab_off, 4, 4);
    put_phdr(&mut out, 1, 0x20000, base + 0x30000, 0, 0x800);
    put_phdr(&mut out, 2, dynamic_off, base + dynamic_off, dynamic_len, dynamic_len);

    out.extend_from_slice(strtab);
    out.extend_from_slice(dynstr);
    while (out.len() as u64) < symtab_off {
        out.push(0);
    }
    put_sym(&mut out, 0, 0, 0);
    put_sym(&mut out, 1, 0x12, base + 0x100);
    put_sym(&mut out, 6, 0x12, base + 0x1f0);
    put_sym(&mut out, 20, 0x11, base + 0x3000);

    put_sym(&mut out, 0, 0, 0);
    put_sym(&mut out, 1, 0x12, base + 0x400);

    put32(&mut out, 1);
    put32(&mut out, 2);
    put32(&mut out, 0);
    put32(&mut out, 0);

    put64(&mut out, 4);
    put64(&mut out, base + hash_off);
    put64(&mut out, 5);
    put64(&mut out, base + dynstr_off);
    put64(&mut out, 6);
    put64(&mut out, base + dynsym_off);
    put64(&mut out, 10);
    put64(&mut out, dynstr.len() as u64);
    put64(&mut out, 11);
    put64(&mut out, 24);
    put64(&mut out, 0);
    put64(&mut out, 0);

    put_shdr(&mut out, 0, 0, 0, 0, 0);
    put_shdr(&mut out, 2, symtab_off, 24 * 4, 2, 24);
    put_shdr(&mut out, 3, strtab_off, strtab.len() as u64, 0, 0);
    assert_eq!(out.len() as u64, total);
    out
}

#[test]
fn constants_are_those_of_the_format() {
    assert_eq!(PT_LOAD, 1);
    assert_eq!(STT_FUNC, 2);
}

#[test]
fn translate_goes_through_the_segment_that_holds_the_offset() {
    let m = meta(vec![load(0, 0x400000, 0x10000), load(0x20000, 0x700000, 0x1000)], Vec::new());
    assert_eq!(m.translate(0), Some(0x400000));
    assert_eq!(m.translate(0x120), Some(0x400120));
    assert_eq!(m.translate(0xffff), Some(0x40ffff));
    assert_eq!(m.translate(0x10000), None);
    assert_eq!(m.translate(0x20000), Some(0x700000));
    assert_eq!(m.translate(0x20fff), Some(0x700fff));
    assert_eq!(m.translate(0x21000), None);
}

#[test]
fn segment_of_size_zero_holds_nothing() {
    let m = meta(vec![load(0x1000, 0x400000, 0)], Vec::new());
    assert_eq!(m.translate(0x1000), None);
    assert_eq!(m.translate(0), None);
    assert_eq!(m.translate(u64::MAX), None);
    let with_other = meta(vec![load(0x1000, 0x400000, 0), load(0x1000, 0x500000, 0x10)], Vec::new());
    assert_eq!(with_other.translate(0x1000), Some(0x500000));
}

#[test]
fn offset_in_two_segments_is_not_translated() {
    let m = meta(vec![load(0, 0x400000, 0x2000), load(0x1000, 0x600000, 0x2000)], Vec::new());
    assert_eq!(m.translate(0x800), Some(0x400800));
    assert_eq!(m.translate(0x1800), None);
    assert_eq!(m.translate(0x2800), Some(0x601800));
    assert_eq!(
        m.find_symbol(0x1800),
        Err(SymbolizerError::OffsetOutsideLoadableSegments("/bin/a".to_string(), 0x1800))
    );
}

#[test]
fn translation_that_leaves_sixty_four_bits_is_refused() {
    let m = meta(vec![load(0, u64::MAX - 0x10, 0x100)], Vec::new());
    assert_eq!(m.translate(0x10), Some(u64::MAX));
    assert_eq!(m.translate(0x11), None);
    let wide = meta(vec![load(0x10, 0, u64::MAX)], Vec::new());
    assert_eq!(wide.translate(u64::MAX), Some(u64::MAX - 0x10));
    assert_eq!(wide.translate(0xf), None);
}

#[test]
fn only_loadable_segments_are_kept_in_file_order() {
    let note = ProgramHeader { p_type: 4, p_offset: 0, p_vaddr: 0, p_memsz: 0x100 };
    let m = meta(vec![load(0x2000, 0x2000, 0x10), note, load(0, 0, 0x10)], Vec::new());
    assert_eq!(m.pt_loads(), &vec![load(0x2000, 0x2000, 0x10), load(0, 0, 0x10)]);
    assert_eq!(m.translate(0x50), None);
}

#[test]
fn find_symbol_takes_the_floor() {
    let m = meta(
        vec![load(0, 0x400000, 0x10000)],
        vec![func(0x4001f0, "work"), func(0x400100, "main")],
    );
    assert_eq!(m.find_symbol(0x100), Ok(sym(0x400100, "main")));
    assert_eq!(m.find_symbol(0x120), Ok(sym(0x400100, "main")));
    assert_eq!(m.find_symbol(0x1ef), Ok(sym(0x400100, "main")));
    assert_eq!(m.find_symbol(0x1f0), Ok(sym(0x4001f0, "work")));
    assert_eq!(m.find_symbol(0x200), Ok(sym(0x4001f0, "work")));
    assert_eq!(m.find_symbol(0xffff), Ok(sym(0x4001f0, "work")));
}

#[test]
fn find_symbol_below_smallest_address_is_not_found() {
    let m = meta(vec![load(0, 0x400000, 0x10000)], vec![func(0x400100, "main")]);
    assert_eq!(
        m.find_symbol(0xff),
        Err(SymbolizerError::SymbolNotFound("/bin/a".to_string(), 0x4000ff))
    );
    let empty = meta(vec![load(0, 0x400000, 0x10000)], Vec::new());
    assert_eq!(
        empty.find_symbol(0x100),
        Err(SymbolizerError::SymbolNotFound("/bin/a".to_string(), 0x400100))
    );
}

#[test]
fn find_symbol_outside_segments_fails() {
    let m = meta(vec![load(0x1000, 0x400000, 0x1000)], vec![func(0x400100, "main")]);
    assert_eq!(
        m.find_symbol(0x2000),
        Err(SymbolizerError::OffsetOutsideLoadableSegments("/bin/a".to_string(), 0x2000))
    );
    let none = meta(Vec::new(), vec![func(0, "main")]);
    assert_eq!(
        none.find_symbol(0),
        Err(SymbolizerError::OffsetOutsideLoadableSegments("/bin/a".to_string(), 0))
    );
}

#[test]
fn symbols_at_one_address_prefer_a_name() {
    let m = meta(
        vec![load(0, 0, 0x1000)],
        vec![
            func(0x10, "b"),
            RawSymbol { info: 0x12, value: 0x10, name: None },
            func(0x10, "a"),
        ],
    );
    assert_eq!(m.symbols().len(), 3);
    assert_eq!(m.find_symbol(0x10), Ok(sym(0x10, "b")));
    assert_eq!(m.symbols().get(0), &Symbol { addr: 0x10, name: None });
    let unnamed = meta(vec![load(0, 0, 0x1000)], vec![RawSymbol { info: 2, value: 0x10, name: None }]);
    assert_eq!(unnamed.find_symbol(0x18), Ok(Symbol { addr: 0x10, name: None }));
}

#[test]
fn only_functions_are_kept_and_duplicates_merge() {
    let image = ElfImage {
        headers: vec![load(0, 0, 0x1000)],
        symbols: vec![
            func(0x10, "f"),
            RawSymbol { info: 0x11, value: 0x20, name: Some("object".to_string()) },
            RawSymbol { info: 0x10, value: 0x30, name: Some("notype".to_string()) },
            RawSymbol { info: 0x22, value: 0x40, name: Some("weak".to_string()) },
        ],
        dynamic_symbols: vec![func(0x10, "f"), func(0x50, "g")],
    };
    let debug = vec![(0x10, "f".to_string()), (0x60, "h".to_string())];
    let m = ElfMetadata::from_image("/lib/x.so".to_string(), id(), &image, &debug);
    let set = m.symbols();
    assert_eq!(set.len(), 4);
    assert_eq!(set.get(0), &sym(0x10, "f"));
    assert_eq!(set.get(1), &sym(0x40, "weak"));
    assert_eq!(set.get(2), &sym(0x50, "g"));
    assert_eq!(set.get(3), &sym(0x60, "h"));
    assert_eq!(m.path(), "/lib/x.so");
    assert_eq!(m.id(), id());
}

#[test]
fn names_are_demangled() {
    let m = meta(
        vec![load(0, 0, 0x1000)],
        vec![
            func(0x10, "_ZN3foo3barEv"),
            func(0x20, "_ZN4core3fmt5write17h0123456789abcdefE"),
            func(0x30, "plain_c_name"),
        ],
    );
    assert_eq!(m.find_symbol(0x10), Ok(sym(0x10, "foo::bar")));
    assert_eq!(m.find_symbol(0x20), Ok(sym(0x20, "core::fmt::write")));
    assert_eq!(m.find_symbol(0x30), Ok(sym(0x30, "plain_c_name")));
    let debug = vec![(0x40u64, "_ZN3foo3bazEi".to_string())];
    let image = ElfImage { headers: vec![load(0, 0, 0x1000)], symbols: Vec::new(), dynamic_symbols: Vec::new() };
    let with_debug = ElfMetadata::from_image("/bin/a".to_string(), id(), &image, &debug);
    assert_eq!(with_debug.find_symbol(0x40), Ok(sym(0x40, "foo::baz")));
}

#[test]
fn new_parses_the_bytes_of_a_file() {
    let bytes = tiny_elf();
    let m = ElfMetadata::new("/bin/tiny".to_string(), id(), &bytes, &Vec::new()).unwrap();
    assert_eq!(m.pt_loads().len(), 2);
    assert_eq!(m.pt_loads()[0].p_vaddr, 0x400000);
    assert_eq!(m.pt_loads()[0].p_offset, 0);
    assert_eq!(m.pt_loads()[0].p_memsz, 0x10000);
    assert_eq!(m.pt_loads()[1], load(0x20000, 0x430000, 0x800));
    assert_eq!(m.symbols().len(), 3);
    assert_eq!(m.find_symbol(0x120), Ok(sym(0x400100, "main")));
    assert_eq!(m.find_symbol(0x200), Ok(sym(0x4001f0, "foo::bar")));
    assert_eq!(m.find_symbol(0x400), Ok(sym(0x400400, "dyn_func")));
    assert_eq!(m.find_symbol(0x3000), Ok(sym(0x400400, "dyn_func")));
    assert_eq!(
        m.find_symbol(0x10000),
        Err(SymbolizerError::OffsetOutsideLoadableSegments("/bin/tiny".to_string(), 0x10000))
    );
}

#[test]
fn new_refuses_what_is_no_elf() {
    assert_eq!(
        ElfMetadata::new("/etc/passwd".to_string(), id(), b"root:x:0:0", &Vec::new()).err(),
        Some(SymbolizerError::ElfParse("/etc/passwd".to_string()))
    );
    assert_eq!(
        ElfMetadata::new("/empty".to_string(), id(), b"", &Vec::new()).err(),
        Some(SymbolizerError::ElfParse("/empty".to_string()))
    );
}

#[test]
fn loading_twice_gives_the_same_metadata() {
    let bytes = tiny_elf();
    let debug = vec![(0x400800u64, "extra".to_string())];
    let a = ElfMetadata::new("/bin/tiny".to_string(), id(), &bytes, &debug).unwrap();
    let b = ElfMetadata::new("/bin/tiny".to_string(), id(), &bytes, &debug).unwrap();
    assert_eq!(a.id(), b.id());
    assert_eq!(a.pt_loads(), b.pt_loads());
    assert_eq!(a.symbols().len(), b.symbols().len());
    for i in 0..a.symbols().len() {
        assert_eq!(a.symbols().get(i), b.symbols().get(i));
    }
}

#[test]
fn name_longer_than_the_bound_is_kept_as_it_is() {
    assert_eq!(MAX_MANGLED_LEN, 2048);
    assert_eq!(shown_name(&"_ZN3foo3barEv".to_string()), "foo::bar");
    let deep = "?$".repeat(50_000);
    assert_eq!(shown_name(&deep), deep);
    let padded = format!("_ZN3foo3barEv{}", " ".repeat(MAX_MANGLED_LEN));
    assert_eq!(shown_name(&padded), padded);
    let at_bound = "x".repeat(MAX_MANGLED_LEN);
    assert_eq!(shown_name(&at_bound), at_bound);
    let m = meta(
        vec![load(0, 0, 0x1000)],
        vec![RawSymbol { info: 0x12, value: 0x10, name: Some(deep.clone()) }],
    );
    assert_eq!(m.find_symbol(0x10), Ok(Symbol { addr: 0x10, name: Some(deep) }));
}

#[test]
fn nested_name_within_the_bound_is_handed_to_the_demangler() {
    let nested = "?$".repeat(MAX_MANGLED_LEN / 2);
    let shown = shown_name(&nested);
    assert_eq!(shown, shown_name(&nested));
}
