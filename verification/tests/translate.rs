use doctor::elf::{ElfImage, ElfMetadata, FileId, ProgramHeader, RawSymbol, PT_LOAD};
use doctor::error::TranslateError;
use doctor::perf_record::PerfStackFrame;
use doctor::process::{MMapPath, MemoryMap, ProcessMetadata};
use doctor::sample::StackInfo;
use doctor::translator::{lookup_dso, trace_dsos, DsoFile, LoadedDso, Translator};
use doctor::utils::deconstruct_stack;

fn cmd(name: &str) -> [u8; 16] {
    let mut out = [0u8; 16];
    for (i, b) in name.bytes().enumerate() {
        out[i] = b;
    }
    out
}

fn sample(tgid: u32, pid: u32, name: &str, kernel: Option<i32>, user: Option<i32>) -> StackInfo {
    StackInfo { tgid, pid, user_stack_id: user, kernel_stack_id: kernel, cmd: cmd(name), cpu: 0 }
}

fn frame(ip: u64, sym: &str, elf: &str, offset: u64) -> PerfStackFrame {
    PerfStackFrame::new(ip, sym.to_string(), elf.to_string(), offset)
}

fn code(start: u64, end: u64, offset: u64, path: &str) -> MemoryMap {
    MemoryMap {
        start,
        end,
        readable: true,
        writable: false,
        executable: true,
        offset,
        pathname: MMapPath::Path(path.to_string()),
    }
}

fn bin_a() -> ElfMetadata {
    let image = ElfImage {
        headers: vec![ProgramHeader { p_type: PT_LOAD, p_offset: 0, p_vaddr: 0x400000, p_memsz: 0x10000 }],
        symbols: vec![
            RawSymbol { info: 0x12, value: 0x400100, name: Some("main".to_string()) },
            RawSymbol { info: 0x12, value: 0x4001f0, name: Some("work".to_string()) },
        ],
        dynamic_symbols: Vec::new(),
    };
    ElfMetadata::from_image("/proc/1/root/bin/a".to_string(), FileId { dev: 8, inode: 11 }, &image, &Vec::new())
}

fn proc_a() -> ProcessMetadata {
    ProcessMetadata::new(1, Vec::new(), Some(vec![code(0x400000, 0x500000, 0, "/bin/a")])).unwrap()
}

fn loaded_a() -> Vec<LoadedDso> {
    vec![LoadedDso { path: "/bin/a".to_string(), elf: Some(bin_a()) }]
}

fn kernel_translator() -> Translator {
    let mut t = Translator::new("/".to_string());
    t.load_ksyms(Some(&b"1000 T do_one\n"[..])).unwrap();
    t
}

#[test]
fn kernel_only_stack() {
    let t = kernel_translator();
    let s = sample(1, 1, "init", Some(0), None);
    let r = t.translate_sample(&s, 1, Some(&vec![0x1001]), None, None, &Vec::new()).unwrap();
    assert_eq!(r.frames, vec![frame(0x1001, "do_one_[k]", "/proc/kallsyms", 0x1001)]);
    assert_eq!(r.count, 1);
    assert_eq!(doctor::formater::format(&r), "1 0 init\n    0x1001 do_one_[k](/proc/kallsyms)\n");
}

#[test]
fn user_only_stack_single_dso() {
    let frames = Translator::translate_usyms(Some(&proc_a()), &vec![0x400120], &loaded_a());
    assert_eq!(frames, vec![frame(0x400120, "main_[u]", "/bin/a", 0x120)]);
    let mut out = String::new();
    frames[0].write_to(&mut out);
    assert_eq!(out, "    0x400120 main_[u](/bin/a)\n");
}

#[test]
fn mixed_stack_keeps_kernel_then_user_in_trace_order() {
    let t = kernel_translator();
    let s = sample(1, 1, "a", Some(0), Some(1));
    let proc = proc_a();
    let r = deconstruct_stack(
        &s,
        Some(&vec![0x1001]),
        Some(&vec![0x400120, 0x400200]),
        Some(&proc),
        &loaded_a(),
        &t,
    );
    let names: Vec<&str> = r.frames.iter().map(|f| f.sym.as_str()).collect();
    assert_eq!(names, vec!["do_one_[k]", "main_[u]", "work_[u]"]);
    assert_eq!(r.frames.len(), 3);
}

#[test]
fn anonymous_region() {
    let frames = Translator::translate_usyms(Some(&proc_a()), &vec![0xdead0000], &loaded_a());
    assert_eq!(frames, vec![frame(0xdead0000, "unknown", "anonymous", 0xdead0000)]);
    let mut out = String::new();
    frames[0].write_to(&mut out);
    assert_eq!(out, "    0xdead0000 unknown(anonymous)\n");
}

#[test]
fn deleted_file_is_loaded_from_under_the_process_root() {
    let proc =
        ProcessMetadata::new(42, Vec::new(), Some(vec![code(0x1000, 0x2000, 0, "/tmp/x (deleted)")])).unwrap();
    let (dso, offset) = proc.abs_addr(0x1010).unwrap();
    assert_eq!(dso, "/proc/42/root/tmp/x");
    assert_eq!(offset, 0x10);
    assert_eq!(proc.rootfs(), "/proc/42/root");
    let t = Translator::new("/".to_string());
    assert_eq!(t.dso_location(proc.rootfs(), &"/tmp/x".to_string()), "/proc/42/root/tmp/x");
    let host = Translator::new("/host".to_string());
    assert_eq!(host.dso_location(proc.rootfs(), &"/tmp/x".to_string()), "/host/proc/42/root/tmp/x");
    assert_eq!(
        Translator::translate_uaddr(Some(&proc), 0x1010, &Vec::new()),
        frame(0x1010, "unknown", "/tmp/x", 0x10)
    );
    assert_eq!(trace_dsos(&proc, &vec![0x1010, 0x1020]), vec!["/tmp/x".to_string()]);
}

#[test]
fn frame_count_is_sum_of_trace_lengths() {
    let t = kernel_translator();
    let proc = proc_a();
    let k = vec![0x1001, 0x5, 0x2000];
    let u = vec![0x400120, 0xdead0000, 0x400200, 0x400100];
    let both = deconstruct_stack(
        &sample(1, 1, "a", Some(0), Some(1)),
        Some(&k),
        Some(&u),
        Some(&proc),
        &loaded_a(),
        &t,
    );
    assert_eq!(both.frames.len(), 7);
    let no_user = deconstruct_stack(
        &sample(1, 1, "a", Some(0), None),
        Some(&k),
        Some(&u),
        Some(&proc),
        &loaded_a(),
        &t,
    );
    assert_eq!(no_user.frames.len(), 3);
    let unread = deconstruct_stack(&sample(1, 1, "a", Some(0), Some(1)), None, Some(&u), Some(&proc), &loaded_a(), &t);
    assert_eq!(unread.frames.len(), 4);
    let none = deconstruct_stack(&sample(1, 1, "a", None, None), Some(&k), Some(&u), Some(&proc), &loaded_a(), &t);
    assert_eq!(none.frames.len(), 0);
}

#[test]
fn unresolved_kernel_frame_is_unknown_and_the_rest_go_on() {
    let t = kernel_translator();
    assert_eq!(
        t.translate_ktrace(&vec![0x5, 0x1000, 0xffff]),
        vec![
            frame(0x5, "unknown", "/proc/kallsyms", 0x5),
            frame(0x1000, "do_one_[k]", "/proc/kallsyms", 0x1000),
            frame(0xffff, "do_one_[k]", "/proc/kallsyms", 0xffff),
        ]
    );
}

#[test]
fn kernel_frames_without_table_are_unknown() {
    let t = Translator::new("/".to_string());
    assert!(t.needs_ksyms());
    assert_eq!(t.translate_ksyms(0x1001), Err(TranslateError::KernelSymbolLoad));
    assert_eq!(
        t.translate_ktrace(&vec![0x1001, 0x1002]),
        vec![
            frame(0x1001, "unknown", "/proc/kallsyms", 0x1001),
            frame(0x1002, "unknown", "/proc/kallsyms", 0x1002),
        ]
    );
}

#[test]
fn kernel_table_loads_wholly_or_not_at_all() {
    let mut t = Translator::new("/".to_string());
    assert!(t.needs_ksyms());
    assert_eq!(
        t.load_ksyms(Some(&b"1000 T do_one\nbroken\n2000 T other\n"[..])),
        Err(TranslateError::InvalidKernelSymbol(1))
    );
    assert_eq!(t.translate_ksyms(0x1001), Err(TranslateError::KernelSymbolLoad));
    assert_eq!(t.translate_ktrace(&vec![0x1001]), vec![frame(0x1001, "unknown", "/proc/kallsyms", 0x1001)]);
}

#[test]
fn kernel_table_load_fails_once_and_is_not_tried_again() {
    let mut t = Translator::new("/".to_string());
    assert_eq!(t.load_ksyms(Some(&b"broken"[..])), Err(TranslateError::InvalidKernelSymbol(0)));
    assert!(!t.needs_ksyms());
    assert_eq!(t.load_ksyms(Some(&b"1000 T do_one\n"[..])), Ok(()));
    assert!(!t.needs_ksyms());
    assert_eq!(t.translate_ksyms(0x1001), Err(TranslateError::KernelSymbolLoad));
    assert_eq!(t.translate_ktrace(&vec![0x1001]), vec![frame(0x1001, "unknown", "/proc/kallsyms", 0x1001)]);
}

#[test]
fn kernel_symbols_that_cannot_be_read_fail_the_load() {
    let mut t = Translator::new("/".to_string());
    assert!(t.needs_ksyms());
    assert_eq!(t.load_ksyms(None), Err(TranslateError::KernelSymbolLoad));
    assert!(!t.needs_ksyms());
    assert_eq!(t.load_ksyms(None), Ok(()));
    assert_eq!(t.translate_ktrace(&vec![7]), vec![frame(7, "unknown", "/proc/kallsyms", 7)]);
}

#[test]
fn kernel_table_is_loaded_once() {
    let mut t = Translator::new("/".to_string());
    assert_eq!(t.load_ksyms(Some(&b"1000 T do_one\n"[..])), Ok(()));
    assert!(!t.needs_ksyms());
    assert_eq!(t.load_ksyms(Some(&b"1000 T replaced\n"[..])), Ok(()));
    assert_eq!(t.load_ksyms(Some(&b"broken"[..])), Ok(()));
    assert_eq!(t.load_ksyms(None), Ok(()));
    assert_eq!(t.translate_ksyms(0x1001), Ok(frame(0x1001, "do_one_[k]", "/proc/kallsyms", 0x1001)));
}

#[test]
fn kallsyms_path_is_under_the_root() {
    assert_eq!(Translator::new("/".to_string()).kallsyms_path(), "/proc/kallsyms");
    assert_eq!(Translator::new("/host".to_string()).kallsyms_path(), "/host/proc/kallsyms");
    let mut t = Translator::new("/host/".to_string());
    t.load_ksyms(Some(&b"10 T f"[..])).unwrap();
    assert_eq!(t.translate_ksyms(0x10), Ok(frame(0x10, "f_[k]", "/host/proc/kallsyms", 0x10)));
}

#[test]
fn idle_samples_are_not_emitted_while_skipped() {
    let mut t = kernel_translator();
    let idle = sample(0, 0, "swapper/2", Some(0), None);
    assert!(t.skip_idle());
    assert!(t.translate_sample(&idle, 5, Some(&vec![0x1001]), None, None, &Vec::new()).is_none());
    t.set_skip_idle(false);
    assert!(!t.skip_idle());
    let r = t.translate_sample(&idle, 5, Some(&vec![0x1001]), None, None, &Vec::new()).unwrap();
    assert_eq!(r.count, 5);
    assert_eq!(doctor::formater::format(&r), "0 0 swapper/2\n    0x1001 do_one_[k](/proc/kallsyms)\n");
}

#[test]
fn record_with_count_zero_is_not_emitted() {
    let t = kernel_translator();
    let s = sample(1, 1, "a", Some(0), None);
    assert!(t.translate_sample(&s, 0, Some(&vec![0x1001]), None, None, &Vec::new()).is_none());
    assert_eq!(t.translate_sample(&s, 3, Some(&vec![0x1001]), None, None, &Vec::new()).unwrap().count, 3);
}

#[test]
fn failed_lookup_keeps_file_and_offset() {
    let proc = ProcessMetadata::new(
        1,
        Vec::new(),
        Some(vec![code(0x400000, 0x500000, 0, "/bin/a"), code(0x700000, 0x800000, 0x1000, "/lib/b.so")]),
    )
    .unwrap();
    let dsos = vec![
        LoadedDso { path: "/bin/a".to_string(), elf: Some(bin_a()) },
        LoadedDso { path: "/lib/b.so".to_string(), elf: None },
    ];
    assert_eq!(
        Translator::translate_usyms(Some(&proc), &vec![0x400050, 0x420000, 0x700010, 0x400100], &dsos),
        vec![
            frame(0x400050, "unknown", "/bin/a", 0x50),
            frame(0x420000, "unknown", "/bin/a", 0x20000),
            frame(0x700010, "unknown", "/lib/b.so", 0x1010),
            frame(0x400100, "main_[u]", "/bin/a", 0x100),
        ]
    );
    assert_eq!(
        Translator::translate_usyms(Some(&proc), &vec![0x400120], &Vec::new()),
        vec![frame(0x400120, "unknown", "/bin/a", 0x120)]
    );
}

#[test]
fn process_that_is_gone_gives_anonymous_frames() {
    assert_eq!(
        Translator::translate_usyms(None, &vec![0x400120, 0x1], &loaded_a()),
        vec![frame(0x400120, "unknown", "anonymous", 0x400120), frame(0x1, "unknown", "anonymous", 0x1)]
    );
    assert_eq!(Translator::translate_uaddr(None, 7, &Vec::new()), frame(7, "unknown", "anonymous", 7));
}

#[test]
fn symbol_without_name_is_unknown() {
    let image = ElfImage {
        headers: vec![ProgramHeader { p_type: PT_LOAD, p_offset: 0, p_vaddr: 0x400000, p_memsz: 0x10000 }],
        symbols: vec![RawSymbol { info: 0x12, value: 0x400100, name: None }],
        dynamic_symbols: Vec::new(),
    };
    let elf = ElfMetadata::from_image("/bin/a".to_string(), FileId { dev: 1, inode: 1 }, &image, &Vec::new());
    let dsos = vec![LoadedDso { path: "/bin/a".to_string(), elf: Some(elf) }];
    assert_eq!(
        Translator::translate_usyms(Some(&proc_a()), &vec![0x400120], &dsos),
        vec![frame(0x400120, "unknown", "/bin/a", 0x120)]
    );
}

#[test]
fn trace_dsos_lists_each_file_once_in_order_of_first_use() {
    let proc = ProcessMetadata::new(
        1,
        Vec::new(),
        Some(vec![
            code(0x400000, 0x500000, 0, "/bin/a"),
            code(0x700000, 0x800000, 0, "/lib/b.so"),
            code(0x900000, 0xa00000, 0, "/lib/c.so (deleted)"),
        ]),
    )
    .unwrap();
    assert_eq!(
        trace_dsos(&proc, &vec![0x700001, 0x400001, 0xdead0000, 0x700002, 0x900000, 0x400002]),
        vec!["/lib/b.so".to_string(), "/bin/a".to_string(), "/lib/c.so".to_string()]
    );
    assert_eq!(trace_dsos(&proc, &Vec::new()), Vec::<String>::new());
}

#[test]
fn lookup_dso_takes_the_first_entry_with_the_path() {
    let dsos = vec![
        LoadedDso { path: "/lib/b.so".to_string(), elf: None },
        LoadedDso { path: "/bin/a".to_string(), elf: Some(bin_a()) },
        LoadedDso { path: "/lib/b.so".to_string(), elf: Some(bin_a()) },
    ];
    assert!(lookup_dso(&dsos, &"/lib/b.so".to_string()).is_none());
    assert_eq!(lookup_dso(&dsos, &"/bin/a".to_string()).unwrap().id(), FileId { dev: 8, inode: 11 });
    assert!(lookup_dso(&dsos, &"/bin/z".to_string()).is_none());
}

#[test]
fn store_feeds_translation_through_identities() {
    let mut t = kernel_translator();
    let proc = proc_a();
    let id = FileId { dev: 8, inode: 11 };
    let files = vec![DsoFile { path: "/bin/a".to_string(), id }];
    assert!(!t.is_loaded(id));
    assert_eq!(
        t.translate_utrace(Some(&proc), &vec![0x400120], &files),
        vec![frame(0x400120, "unknown", "/bin/a", 0x120)]
    );
    assert_eq!(
        t.load_dso(proc.rootfs(), &"/bin/a".to_string(), id, b"no elf", &Vec::new()),
        Err(TranslateError::Symbolize(doctor::error::SymbolizerError::ElfParse("/proc/1/root/bin/a".to_string())))
    );
    assert!(!t.is_loaded(id));
    let loaded = t.load_dsos(proc.rootfs(), &files);
    assert_eq!(loaded.len(), 1);
    assert_eq!(loaded[0].path, "/bin/a");
    assert!(loaded[0].elf.is_none());
}

#[test]
fn same_input_gives_same_output() {
    let t = kernel_translator();
    let proc = proc_a();
    let run = || {
        let s = StackInfo::decode(&sample(3, 4, "srv", Some(1), Some(2)).encode()).unwrap();
        let r = t
            .translate_sample(&s, 2, Some(&vec![0x1001]), Some(&vec![0x400120, 0x9]), Some(&proc), &loaded_a())
            .unwrap();
        doctor::formater::format(&r).into_bytes()
    };
    assert_eq!(run(), run());
    assert_eq!(
        String::from_utf8(run()).unwrap(),
        "3 0 srv\n    0x1001 do_one_[k](/proc/kallsyms)\n    0x400120 main_[u](/bin/a)\n    0x9 unknown(anonymous)\n"
    );
}
