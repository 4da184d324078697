use doctor::sample::{StackInfo, CMD_SIZE, STACK_INFO_SIZE};

fn cmd(name: &str) -> [u8; 16] {
    let mut out = [0u8; 16];
    for (i, b) in name.bytes().enumerate() {
        out[i] = b;
    }
    out
}

fn sample(tgid: u32, pid: u32, user: Option<i32>, kernel: Option<i32>, name: &str, cpu: u32) -> StackInfo {
    StackInfo { tgid, pid, user_stack_id: user, kernel_stack_id: kernel, cmd: cmd(name), cpu }
}

#[test]
fn record_is_forty_four_bytes() {
    assert_eq!(STACK_INFO_SIZE, 44);
    assert_eq!(CMD_SIZE, 16);
    assert_eq!(sample(1, 2, None, None, "x", 3).encode().len(), 44);
}

#[test]
fn encode_lays_fields_out_little_endian() {
    let s = sample(0x01020304, 7, Some(5), None, "init", 0x0a0b0c0d);
    let b = s.encode();
    assert_eq!(&b[0..4], &[0x04, 0x03, 0x02, 0x01]);
    assert_eq!(&b[4..8], &[7, 0, 0, 0]);
    assert_eq!(&b[8..16], &[5, 0, 0, 0, 1, 0, 0, 0]);
    assert_eq!(&b[16..24], &[0xff; 8]);
    assert_eq!(&b[24..28], b"init");
    assert_eq!(&b[28..40], &[0u8; 12]);
    assert_eq!(&b[40..44], &[0x0d, 0x0c, 0x0b, 0x0a]);
}

#[test]
fn decode_of_encode_is_identity() {
    let cases = vec![
        sample(1, 1, None, Some(3), "init", 0),
        sample(u32::MAX, 0, Some(i32::MAX), Some(i32::MIN), "swapper/0", 63),
        sample(42, 43, Some(-1), None, "0123456789abcdef", 7),
        sample(0, 0, None, None, "", 0),
        sample(9, 9, Some(0), Some(0), "a", u32::MAX),
    ];
    for s in cases {
        assert_eq!(StackInfo::decode(&s.encode()), Some(s));
    }
}

#[test]
fn negative_stack_id_is_twos_complement() {
    let b = sample(0, 0, Some(-2), None, "", 0).encode();
    assert_eq!(&b[8..16], &[0xfe, 0xff, 0xff, 0xff, 1, 0, 0, 0]);
}

#[test]
fn decode_refuses_wrong_length() {
    assert_eq!(StackInfo::decode(&[0u8; 43]), None);
    assert_eq!(StackInfo::decode(&[0u8; 45]), None);
    assert_eq!(StackInfo::decode(&[]), None);
    assert!(StackInfo::decode(&[0u8; 44]).is_some());
}

#[test]
fn stack_id_with_other_tag_reads_as_absent() {
    let mut b = sample(1, 2, Some(9), Some(8), "sh", 0).encode();
    b[12] = 0;
    b[20] = 2;
    let s = StackInfo::decode(&b).unwrap();
    assert_eq!(s.user_stack_id, None);
    assert_eq!(s.kernel_stack_id, None);
    assert_eq!(s.tgid, 1);
    assert_eq!(s.pid, 2);
}

#[test]
fn idle_is_pid_zero_and_swapper() {
    assert!(sample(0, 0, None, None, "swapper/3", 3).is_idle());
    assert!(sample(5, 0, None, None, "swapper", 0).is_idle());
    assert!(!sample(0, 1, None, None, "swapper/3", 3).is_idle());
    assert!(!sample(0, 0, None, None, "swappe", 3).is_idle());
    assert!(!sample(0, 0, None, None, "init", 3).is_idle());
}

#[test]
fn cmdline_drops_trailing_nul_bytes() {
    assert_eq!(sample(1, 1, None, None, "init", 0).cmdline(), "init");
    assert_eq!(sample(1, 1, None, None, "", 0).cmdline(), "");
    assert_eq!(sample(1, 1, None, None, "0123456789abcdef", 0).cmdline(), "0123456789abcdef");
    let mut s = sample(1, 1, None, None, "a", 0);
    s.cmd[2] = b'b';
    assert_eq!(s.cmdline(), "a\0b");
}

#[test]
fn cmdline_replaces_invalid_utf8() {
    let mut s = sample(1, 1, None, None, "ab", 0);
    s.cmd[1] = 0xff;
    assert_eq!(s.cmdline(), "a\u{fffd}");
}

#[test]
fn same_compares_every_field() {
    let a = sample(1, 2, Some(3), Some(4), "sh", 5);
    assert!(a.same(&a));
    assert!(!a.same(&sample(9, 2, Some(3), Some(4), "sh", 5)));
    assert!(!a.same(&sample(1, 9, Some(3), Some(4), "sh", 5)));
    assert!(!a.same(&sample(1, 2, None, Some(4), "sh", 5)));
    assert!(!a.same(&sample(1, 2, Some(3), Some(9), "sh", 5)));
    assert!(!a.same(&sample(1, 2, Some(3), Some(4), "sx", 5)));
    assert!(!a.same(&sample(1, 2, Some(3), Some(4), "sh", 9)));
}
