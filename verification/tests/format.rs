use doctor::dso::Dso;
use doctor::error::{SymbolizerError, TranslateError};
use doctor::options::{Attach, ProfileOptions, DEFAULT_DURATION, DEFAULT_FREQUENCY};
use doctor::perf_record::{PerfRecord, PerfStackFrame};
use doctor::sample::StackInfo;
use doctor::text::{push_dec, push_hex, text_of};

fn cmd(name: &str) -> [u8; 16] {
    let mut out = [0u8; 16];
    for (i, b) in name.bytes().enumerate() {
        out[i] = b;
    }
    out
}

fn frame(ip: u64, sym: &str, elf: &str, offset: u64) -> PerfStackFrame {
    PerfStackFrame::new(ip, sym.to_string(), elf.to_string(), offset)
}

fn init() -> StackInfo {
    StackInfo { tgid: 1, pid: 1, user_stack_id: None, kernel_stack_id: Some(0), cmd: cmd("init"), cpu: 0 }
}

#[test]
fn record_text_is_header_and_indented_frames() {
    let r = PerfRecord::from(&init(), Some(vec![frame(0x1001, "do_one_[k]", "/proc/kallsyms", 0x1001)]), None);
    assert_eq!(doctor::formater::format(&r), "1 0 init\n    0x1001 do_one_[k](/proc/kallsyms)\n");
    assert_eq!(r.to_string(), doctor::formater::format(&r));
    assert_eq!(r.count, 1);
}

#[test]
fn record_without_frames_is_only_the_header() {
    let r = PerfRecord::from(&init(), None, None);
    assert_eq!(doctor::formater::format(&r), "1 0 init\n");
    assert_eq!(r.frames.len(), 0);
}

#[test]
fn header_shows_thread_group_and_cpu() {
    let s = StackInfo { tgid: 4294967295, pid: 7, user_stack_id: None, kernel_stack_id: None, cmd: cmd("a b"), cpu: 63 };
    let r = PerfRecord::counted(&s, 9, None, None);
    assert_eq!(doctor::formater::format(&r), "4294967295 63 a b\n");
    assert_eq!(r.count, 9);
    assert_eq!(r.pid, 7);
    assert_eq!(r.tgid, 4294967295);
    assert_eq!(r.cpu, 63);
    assert_eq!(r.cmdline, "a b");
}

#[test]
fn kernel_frames_come_before_user_frames() {
    let k = vec![frame(1, "k1", "/k", 1), frame(2, "k2", "/k", 2)];
    let u = vec![frame(3, "u1", "/u", 30)];
    let r = PerfRecord::from(&init(), Some(k.clone()), Some(u.clone()));
    assert_eq!(r.frames, vec![k[0].clone(), k[1].clone(), u[0].clone()]);
    let only_user = PerfRecord::from(&init(), None, Some(u.clone()));
    assert_eq!(only_user.frames, u);
    assert_eq!(
        doctor::formater::format(&r),
        "1 0 init\n    0x1 k1(/k)\n    0x2 k2(/k)\n    0x3 u1(/u)\n"
    );
}

#[test]
fn addresses_are_lower_case_hex_without_padding() {
    let mut out = String::new();
    frame(0, "s", "e", 0).write_to(&mut out);
    frame(0xdead0000, "unknown", "anonymous", 0xdead0000).write_to(&mut out);
    frame(u64::MAX, "", "", 0).write_to(&mut out);
    assert_eq!(
        out,
        "    0x0 s(e)\n    0xdead0000 unknown(anonymous)\n    0xffffffffffffffff ()\n"
    );
}

#[test]
fn numbers_render_in_both_bases() {
    let mut out = "n=".to_string();
    push_dec(&mut out, 0);
    out.push(' ');
    push_dec(&mut out, 10);
    out.push(' ');
    push_dec(&mut out, u64::MAX);
    out.push(' ');
    push_hex(&mut out, 0);
    out.push(' ');
    push_hex(&mut out, 0x10);
    out.push(' ');
    push_hex(&mut out, 0xabcdef);
    assert_eq!(out, "n=0 10 18446744073709551615 0 10 abcdef");
}

#[test]
fn identical_records_give_identical_text() {
    let make = || {
        let s = StackInfo::decode(&init().encode()).unwrap();
        PerfRecord::counted(&s, 3, Some(vec![frame(0x1001, "do_one_[k]", "/proc/kallsyms", 0x1001)]), None)
    };
    assert_eq!(doctor::formater::format(&make()).into_bytes(), doctor::formater::format(&make()).into_bytes());
}

#[test]
fn dso_names_what_was_found() {
    let dso = Dso::new("/bin/a".to_string());
    assert_eq!(dso.path(), "/bin/a");
    assert_eq!(dso.translate_single(Some("main".to_string())), "main");
    assert_eq!(dso.translate_single(None), "unknown");
    assert_eq!(
        dso.translate(vec![Some("a".to_string()), None, Some("".to_string())]),
        vec!["a".to_string(), "unknown".to_string(), "".to_string()]
    );
    assert_eq!(dso.translate(Vec::new()), Vec::<String>::new());
}

#[test]
fn default_options_sample_every_cpu() {
    let o = ProfileOptions::new();
    assert_eq!(DEFAULT_DURATION, 5);
    assert_eq!(DEFAULT_FREQUENCY, 99);
    assert_eq!(o.duration, 5);
    assert_eq!(o.frequency, 99);
    assert!(o.skip_idle);
    assert_eq!(o.pid, None);
    assert_eq!(o.cpu, None);
    assert_eq!(o.attach(), Ok(Attach::AllCpus(99)));
}

#[test]
fn attach_follows_the_one_option_that_is_given() {
    let mut o = ProfileOptions::new();
    o.frequency = 1000;
    o.cpu = Some(3);
    assert_eq!(o.attach(), Ok(Attach::Cpu(3, 1000)));
    o.cpu = None;
    o.pid = Some(42);
    assert_eq!(o.attach(), Ok(Attach::Process(42, 1000)));
    o.pid = None;
    o.tracepoint = Some("sched:sched_switch".to_string());
    assert_eq!(o.attach(), Ok(Attach::TracePoint("sched".to_string(), "sched_switch".to_string())));
    o.tracepoint = None;
    o.uprobe = Some("malloc".to_string());
    assert_eq!(o.attach(), Ok(Attach::UProbe("malloc".to_string())));
    o.uprobe = None;
    o.kprobe = Some("do_sys_open".to_string());
    assert_eq!(o.attach(), Ok(Attach::KProbe("do_sys_open".to_string())));
}

#[test]
fn attach_refuses_options_that_exclude_each_other() {
    let refused = Err(TranslateError::InvalidInput("mutually exclusive options".to_string()));
    let mut o = ProfileOptions::new();
    o.kprobe = Some("do_sys_open".to_string());
    o.uprobe = Some("malloc".to_string());
    assert_eq!(o.attach(), refused);
    o.uprobe = None;
    o.tracepoint = Some("sched:sched_switch".to_string());
    assert_eq!(o.attach(), refused);
    o.kprobe = None;
    o.pid = Some(1);
    assert_eq!(o.attach(), refused);
    o.tracepoint = None;
    o.cpu = Some(0);
    assert_eq!(o.attach(), refused);
    o.pid = None;
    o.uprobe = Some("malloc".to_string());
    assert_eq!(o.attach(), refused);
    o.tracepoint = Some("nocolon".to_string());
    o.kprobe = Some("f".to_string());
    o.pid = Some(1);
    assert_eq!(o.attach(), refused);
}

#[test]
fn tracepoint_is_category_and_name() {
    let mut o = ProfileOptions::new();
    o.tracepoint = Some("a:b:c".to_string());
    assert_eq!(o.attach(), Ok(Attach::TracePoint("a".to_string(), "b".to_string())));
    o.tracepoint = Some(":".to_string());
    assert_eq!(o.attach(), Ok(Attach::TracePoint("".to_string(), "".to_string())));
    o.tracepoint = Some("sched:".to_string());
    assert_eq!(o.attach(), Ok(Attach::TracePoint("sched".to_string(), "".to_string())));
    o.tracepoint = Some("nocolon".to_string());
    assert_eq!(o.attach(), Err(TranslateError::InvalidInput("nocolon".to_string())));
    o.tracepoint = Some("".to_string());
    assert_eq!(o.attach(), Err(TranslateError::InvalidInput("".to_string())));
}

#[test]
fn lookup_failure_wraps_into_translation_failure() {
    let e = SymbolizerError::SymbolNotFound("/bin/a".to_string(), 7);
    assert_eq!(TranslateError::from(e.clone()), TranslateError::Symbolize(e));
}

#[test]
fn text_of_decodes_utf8_and_replaces_the_rest() {
    assert_eq!(text_of(b""), "");
    assert_eq!(text_of(b"do_one"), "do_one");
    assert_eq!(text_of("caf\u{e9} \u{4e2d}".as_bytes()), "caf\u{e9} \u{4e2d}");
    assert_eq!(text_of(b"a\xffb"), "a\u{fffd}b");
    assert_eq!(text_of(b"\xc3"), "\u{fffd}");
}
