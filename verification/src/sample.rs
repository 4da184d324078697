//! The wire record that the probe produces for each stack sample.

use crate::text::{decode_lossy, lossy_text};
use vstd::prelude::*;
use vstd::slice::slice_subrange;

verus! {

/// Length of a wire record in bytes.
pub const STACK_INFO_SIZE: usize = 44;

/// Length of the command name field.
pub const CMD_SIZE: usize = 16;

/// One stack sample as the probe reports it. Equality covers every field: two
/// equal samples are the same fingerprint.
#[derive(Copy, Clone, Eq, PartialEq, Hash, Debug)]
pub struct StackInfo {
    /// Thread group id.
    pub tgid: u32,
    /// Thread id.
    pub pid: u32,
    /// Handle of the user stack, absent where none was captured.
    pub user_stack_id: Option<i32>,
    /// Handle of the kernel stack, absent where none was captured.
    pub kernel_stack_id: Option<i32>,
    /// Command name, padded with NUL bytes.
    pub cmd: [u8; 16],
    pub cpu: u32,
}

/// Four bytes, least significant first.
pub open spec fn le32(v: u32) -> Seq<u8> {
    seq![
        (v % 256) as u8,
        (v / 256 % 256) as u8,
        (v / 65536 % 256) as u8,
        (v / 16777216) as u8,
    ]
}

/// The number that four bytes hold, least significant first.
pub open spec fn from_le32(b: Seq<u8>) -> u32
    recommends
        b.len() == 4,
{
    (b[0] + 256 * b[1] + 65536 * b[2] + 16777216 * b[3]) as u32
}

/// The two's complement pattern of a signed number.
pub open spec fn as_unsigned(v: i32) -> u32 {
    if v >= 0 {
        v as u32
    } else {
        (v + 4294967296) as u32
    }
}

/// The signed number with the given two's complement pattern.
pub open spec fn as_signed(v: u32) -> i32 {
    if v < 2147483648 {
        v as i32
    } else {
        (v - 4294967296) as i32
    }
}

/// The eight bytes of an optional stack handle: the value and then the tag 1
/// where it is present, all ones where it is absent.
pub open spec fn stack_id_bytes(id: Option<i32>) -> Seq<u8> {
    match id {
        Some(v) => le32(as_unsigned(v)) + le32(1),
        None => Seq::new(8, |i: int| 0xffu8),
    }
}

/// The optional stack handle that eight bytes hold: present exactly where the
/// tag is 1.
pub open spec fn stack_id_of(b: Seq<u8>) -> Option<i32>
    recommends
        b.len() == 8,
{
    if from_le32(b.subrange(4, 8)) == 1 {
        Some(as_signed(from_le32(b.subrange(0, 4))))
    } else {
        None
    }
}

/// The wire form of a sample.
pub open spec fn encoded(s: StackInfo) -> Seq<u8> {
    le32(s.tgid) + le32(s.pid) + stack_id_bytes(s.user_stack_id) + stack_id_bytes(
        s.kernel_stack_id,
    ) + s.cmd@ + le32(s.cpu)
}

/// The sample that a wire record holds, where the length is right.
pub open spec fn decoded(b: Seq<u8>) -> Option<StackInfo> {
    if b.len() != STACK_INFO_SIZE {
        None
    } else {
        Some(
            StackInfo {
                tgid: from_le32(b.subrange(0, 4)),
                pid: from_le32(b.subrange(4, 8)),
                user_stack_id: stack_id_of(b.subrange(8, 16)),
                kernel_stack_id: stack_id_of(b.subrange(16, 24)),
                cmd: array_of(b.subrange(24, 40)),
                cpu: from_le32(b.subrange(40, 44)),
            },
        )
    }
}

/// The command name field with these sixteen bytes.
pub open spec fn array_of(b: Seq<u8>) -> [u8; 16]
    recommends
        b.len() == 16,
{
    choose|a: [u8; 16]| a@ == b
}

/// The bytes before the trailing NUL bytes.
pub open spec fn trimmed(cmd: Seq<u8>) -> Seq<u8>
    decreases cmd.len(),
{
    if cmd.len() > 0 && cmd.last() == 0 {
        trimmed(cmd.drop_last())
    } else {
        cmd
    }
}

/// The bytes of `"swapper"`, the name that the kernel's idle threads carry.
pub open spec fn idle_prefix() -> Seq<u8> {
    seq![0x73u8, 0x77u8, 0x61u8, 0x70u8, 0x70u8, 0x65u8, 0x72u8]
}

/// Whether a sample comes from the kernel's idle thread: thread id 0 and a
/// command that begins with `swapper`.
pub open spec fn idle(s: StackInfo) -> bool {
    s.pid == 0 && s.cmd@.subrange(0, 7) == idle_prefix()
}

proof fn lemma_le32_round_trip(v: u32)
    ensures
        le32(v).len() == 4,
        from_le32(le32(v)) == v,
{
}

proof fn lemma_signed_round_trip(v: i32)
    ensures
        as_signed(as_unsigned(v)) == v,
{
}

fn push_le32(out: &mut Vec<u8>, v: u32)
    ensures
        final(out)@ == old(out)@ + le32(v),
{
    out.push((v % 256) as u8);
    out.push((v / 256 % 256) as u8);
    out.push((v / 65536 % 256) as u8);
    out.push((v / 16777216) as u8);
    assert(out@ =~= old(out)@ + le32(v));
}

fn read_le32(b: &[u8], at: usize) -> (v: u32)
    requires
        at + 4 <= b@.len(),
    ensures
        v == from_le32(b@.subrange(at as int, at + 4)),
{
    let b0: u32 = b[at] as u32;
    let b1: u32 = b[at + 1] as u32;
    let b2: u32 = b[at + 2] as u32;
    let b3: u32 = b[at + 3] as u32;
    b0 + 256 * b1 + 65536 * b2 + 16777216 * b3
}

fn push_stack_id(out: &mut Vec<u8>, id: Option<i32>)
    ensures
        final(out)@ == old(out)@ + stack_id_bytes(id),
{
    match id {
        Some(v) => {
            let pattern: u32 = if v >= 0 {
                v as u32
            } else {
                (v as i64 + 4294967296i64) as u32
            };
            push_le32(out, pattern);
            push_le32(out, 1);
            assert(out@ =~= old(out)@ + stack_id_bytes(id));
        },
        None => {
            let mut i: usize = 0;
            while i < 8
                invariant
                    i <= 8,
                    out@ == old(out)@ + Seq::new(i as nat, |k: int| 0xffu8),
                decreases 8 - i,
            {
                out.push(0xff);
                assert(out@ =~= old(out)@ + Seq::new((i + 1) as nat, |k: int| 0xffu8));
                i += 1;
            }
        },
    }
}

fn read_stack_id(b: &[u8], at: usize) -> (id: Option<i32>)
    requires
        at + 8 <= b@.len(),
    ensures
        id == stack_id_of(b@.subrange(at as int, at + 8)),
{
    let ghost field = b@.subrange(at as int, at + 8);
    assert(field.subrange(0, 4) =~= b@.subrange(at as int, at + 4));
    assert(field.subrange(4, 8) =~= b@.subrange(at + 4, at + 8));
    let len = b.len();
    assert(at + 8 <= len);
    let tag = read_le32(b, at + 4);
    if tag == 1 {
        let pattern = read_le32(b, at);
        if pattern < 2147483648 {
            Some(pattern as i32)
        } else {
            Some((pattern as i64 - 4294967296i64) as i32)
        }
    } else {
        None
    }
}

impl StackInfo {
    /// Writes the sample in its wire form.
    pub fn encode(&self) -> (out: Vec<u8>)
        ensures
            out@ == encoded(*self),
            out@.len() == STACK_INFO_SIZE,
    {
        let mut out: Vec<u8> = Vec::new();
        push_le32(&mut out, self.tgid);
        push_le32(&mut out, self.pid);
        push_stack_id(&mut out, self.user_stack_id);
        push_stack_id(&mut out, self.kernel_stack_id);
        let ghost head = out@;
        let mut i: usize = 0;
        while i < 16
            invariant
                i <= 16,
                out@ == head + self.cmd@.subrange(0, i as int),
            decreases 16 - i,
        {
            out.push(self.cmd[i]);
            assert(out@ =~= head + self.cmd@.subrange(0, i + 1));
            i += 1;
        }
        assert(self.cmd@.subrange(0, 16) =~= self.cmd@);
        push_le32(&mut out, self.cpu);
        out
    }

    /// Reads a sample from its wire form; `None` exactly where the length is
    /// not that of a record. A stack handle whose tag is not 1 reads as
    /// absent.
    pub fn decode(bytes: &[u8]) -> (res: Option<StackInfo>)
        ensures
            res == decoded(bytes@),
    {
        if bytes.len() != STACK_INFO_SIZE {
            return None;
        }
        let mut cmd: [u8; 16] = [0u8; 16];
        let mut i: usize = 0;
        while i < 16
            invariant
                i <= 16,
                bytes@.len() == STACK_INFO_SIZE,
                forall|k: int| 0 <= k < i ==> cmd@[k] == bytes@[24 + k],
            decreases 16 - i,
        {
            cmd[i] = bytes[24 + i];
            i += 1;
        }
        proof {
            assert(cmd@ =~= bytes@.subrange(24, 40));
            let other = array_of(bytes@.subrange(24, 40));
            assert(other@ == bytes@.subrange(24, 40));
            vstd::array::axiom_array_ext_equal(cmd, other);
        }
        Some(
            StackInfo {
                tgid: read_le32(bytes, 0),
                pid: read_le32(bytes, 4),
                user_stack_id: read_stack_id(bytes, 8),
                kernel_stack_id: read_stack_id(bytes, 16),
                cmd,
                cpu: read_le32(bytes, 40),
            },
        )
    }

    /// Whether the sample comes from the kernel's idle thread.
    pub fn is_idle(&self) -> (res: bool)
        ensures
            res == idle(*self),
    {
        let idle_name: [u8; 7] = [0x73, 0x77, 0x61, 0x70, 0x70, 0x65, 0x72];
        if self.pid != 0 {
            return false;
        }
        let mut i: usize = 0;
        while i < 7
            invariant
                i <= 7,
                idle_name@ == idle_prefix(),
                forall|k: int| 0 <= k < i ==> self.cmd@[k] == idle_prefix()[k],
            decreases 7 - i,
        {
            if self.cmd[i] != idle_name[i] {
                assert(self.cmd@.subrange(0, 7)[i as int] != idle_prefix()[i as int]);
                return false;
            }
            i += 1;
        }
        assert(self.cmd@.subrange(0, 7) =~= idle_prefix());
        true
    }

    /// Whether two samples are the same fingerprint.
    pub fn same(&self, other: &StackInfo) -> (res: bool)
        ensures
            res == (*self == *other),
    {
        if self.tgid != other.tgid || self.pid != other.pid || self.cpu != other.cpu {
            return false;
        }
        if self.user_stack_id != other.user_stack_id || self.kernel_stack_id
            != other.kernel_stack_id {
            return false;
        }
        let mut i: usize = 0;
        while i < 16
            invariant
                i <= 16,
                forall|k: int| 0 <= k < i ==> self.cmd@[k] == other.cmd@[k],
            decreases 16 - i,
        {
            if self.cmd[i] != other.cmd[i] {
                return false;
            }
            i += 1;
        }
        proof {
            assert(self.cmd@ =~= other.cmd@);
            vstd::array::axiom_array_ext_equal(self.cmd, other.cmd);
        }
        true
    }

    /// The command name as text: the bytes before the trailing NUL bytes,
    /// decoded as UTF-8 with replacement of what does not decode.
    pub fn cmdline(&self) -> (res: String)
        ensures
            res@ == lossy_text(trimmed(self.cmd@)),
    {
        let mut end: usize = 16;
        assert(self.cmd@.subrange(0, 16) =~= self.cmd@);
        while end > 0 && self.cmd[end - 1] == 0
            invariant
                end <= 16,
                trimmed(self.cmd@) == trimmed(self.cmd@.subrange(0, end as int)),
            decreases end,
        {
            assert(self.cmd@.subrange(0, end as int).drop_last() =~= self.cmd@.subrange(
                0,
                end - 1,
            ));
            end -= 1;
        }
        decode_lossy(slice_subrange(self.cmd.as_slice(), 0, end))
    }
}

/// Decoding the wire form of a sample gives the sample back, with every
/// field, absent stack handles included.
pub proof fn lemma_decode_encode(s: StackInfo)
    ensures
        decoded(encoded(s)) == Some(s),
{
    let b = encoded(s);
    lemma_le32_round_trip(s.tgid);
    lemma_le32_round_trip(s.pid);
    lemma_le32_round_trip(s.cpu);
    lemma_stack_id_round_trip(s.user_stack_id);
    lemma_stack_id_round_trip(s.kernel_stack_id);
    assert(b.subrange(0, 4) =~= le32(s.tgid));
    assert(b.subrange(4, 8) =~= le32(s.pid));
    assert(b.subrange(8, 16) =~= stack_id_bytes(s.user_stack_id));
    assert(b.subrange(16, 24) =~= stack_id_bytes(s.kernel_stack_id));
    assert(b.subrange(24, 40) =~= s.cmd@);
    assert(b.subrange(40, 44) =~= le32(s.cpu));
    vstd::array::axiom_array_ext_equal(array_of(s.cmd@), s.cmd);
}

proof fn lemma_stack_id_round_trip(id: Option<i32>)
    ensures
        stack_id_bytes(id).len() == 8,
        stack_id_of(stack_id_bytes(id)) == id,
{
    let b = stack_id_bytes(id);
    match id {
        Some(v) => {
            lemma_le32_round_trip(as_unsigned(v));
            lemma_le32_round_trip(1);
            lemma_signed_round_trip(v);
            assert(b.subrange(0, 4) =~= le32(as_unsigned(v)));
            assert(b.subrange(4, 8) =~= le32(1));
        },
        None => {
            assert(b.subrange(4, 8)[0] == 0xff);
        },
    }
}

} // verus!
