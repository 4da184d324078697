//! Aggregated, symbolized stacks and their text form.

use crate::sample::{trimmed, StackInfo};
use crate::text::{dec_text, hex_text, lossy_text, push_char, push_dec, push_hex};
use vstd::prelude::*;
use vstd::string::*;

verus! {

/// One rendered frame of a stack.
#[derive(Clone, Debug, PartialEq, Eq)]
pub struct PerfStackFrame {
    /// The instruction pointer that was sampled.
    pub ip: u64,
    /// The name of the function, with its kind suffix, or `unknown`.
    pub sym: String,
    /// The file that the address belongs to.
    pub elf: String,
    /// The offset of the address in that file.
    pub offset: u64,
}

/// The mathematical value of a [`PerfStackFrame`].
pub struct FrameView {
    pub ip: u64,
    pub sym: Seq<char>,
    pub elf: Seq<char>,
    pub offset: u64,
}

impl View for PerfStackFrame {
    type V = FrameView;

    open spec fn view(&self) -> FrameView {
        FrameView { ip: self.ip, sym: self.sym@, elf: self.elf@, offset: self.offset }
    }
}

/// The values of a list of frames.
pub open spec fn frames_view(frames: Seq<PerfStackFrame>) -> Seq<FrameView> {
    Seq::new(frames.len(), |i: int| frames[i]@)
}

/// One stack with the sample it was taken for and the number of times it
/// occurred. Kernel frames come first, then user frames, each kind in the
/// order of its trace.
#[derive(Clone, Debug, PartialEq, Eq)]
pub struct PerfRecord {
    pub pid: u32,
    pub tgid: u32,
    pub cpu: u32,
    pub cmdline: String,
    pub count: u64,
    pub frames: Vec<PerfStackFrame>,
}

/// The mathematical value of a [`PerfRecord`].
pub struct RecordView {
    pub pid: u32,
    pub tgid: u32,
    pub cpu: u32,
    pub cmdline: Seq<char>,
    pub count: u64,
    pub frames: Seq<FrameView>,
}

impl View for PerfRecord {
    type V = RecordView;

    open spec fn view(&self) -> RecordView {
        RecordView {
            pid: self.pid,
            tgid: self.tgid,
            cpu: self.cpu,
            cmdline: self.cmdline@,
            count: self.count,
            frames: frames_view(self.frames@),
        }
    }
}

/// The frames of an optional list: none where it is absent.
pub open spec fn frames_or_none(frames: Option<Vec<PerfStackFrame>>) -> Seq<FrameView> {
    match frames {
        Some(v) => frames_view(v@),
        None => Seq::empty(),
    }
}

/// The record for `stack` seen `count` times with these frames.
pub open spec fn record_of(
    stack: StackInfo,
    count: u64,
    kernel: Seq<FrameView>,
    user: Seq<FrameView>,
) -> RecordView {
    RecordView {
        pid: stack.pid,
        tgid: stack.tgid,
        cpu: stack.cpu,
        cmdline: lossy_text(trimmed(stack.cmd@)),
        count,
        frames: kernel + user,
    }
}

/// The line of one frame: four spaces, the address in hexadecimal, the symbol,
/// and the file in parentheses.
pub open spec fn frame_text(f: FrameView) -> Seq<char> {
    seq![' ', ' ', ' ', ' ', '0', 'x'] + hex_text(f.ip as nat) + seq![' '] + f.sym + seq!['(']
        + f.elf + seq![')', '\n']
}

/// The lines of a list of frames, one after the other.
pub open spec fn frames_text(frames: Seq<FrameView>) -> Seq<char>
    decreases frames.len(),
{
    if frames.len() == 0 {
        Seq::empty()
    } else {
        frames_text(frames.drop_last()) + frame_text(frames.last())
    }
}

/// The header line: thread group id, CPU and command.
pub open spec fn header_text(r: RecordView) -> Seq<char> {
    dec_text(r.tgid as nat) + seq![' '] + dec_text(r.cpu as nat) + seq![' '] + r.cmdline + seq![
        '\n',
    ]
}

/// The text of a record: the header line, then one line for each frame.
pub open spec fn record_text(r: RecordView) -> Seq<char> {
    header_text(r) + frames_text(r.frames)
}

impl PerfStackFrame {
    pub fn new(ip: u64, sym: String, elf: String, offset: u64) -> (res: PerfStackFrame)
        ensures
            res@ == (FrameView { ip, sym: sym@, elf: elf@, offset }),
    {
        PerfStackFrame { ip, sym, elf, offset }
    }

    /// Appends the frame's line to `out`.
    pub fn write_to(&self, out: &mut String)
        ensures
            final(out)@ == old(out)@ + frame_text(self@),
    {
        let mut i: usize = 0;
        while i < 4
            invariant
                i <= 4,
                out@ == old(out)@ + Seq::new(i as nat, |k: int| ' '),
            decreases 4 - i,
        {
            push_char(out, ' ');
            assert(out@ =~= old(out)@ + Seq::new((i + 1) as nat, |k: int| ' '));
            i += 1;
        }
        push_char(out, '0');
        push_char(out, 'x');
        push_hex(out, self.ip);
        push_char(out, ' ');
        out.append(self.sym.as_str());
        push_char(out, '(');
        out.append(self.elf.as_str());
        push_char(out, ')');
        push_char(out, '\n');
        assert(out@ =~= old(out)@ + frame_text(self@));
    }
}

impl PerfRecord {
    /// The record of one occurrence of `stack` with the given frames; a kind
    /// of stack that is absent contributes no frame.
    pub fn from(
        stack: &StackInfo,
        kframe: Option<Vec<PerfStackFrame>>,
        uframe: Option<Vec<PerfStackFrame>>,
    ) -> (res: PerfRecord)
        ensures
            res@ == record_of(*stack, 1, frames_or_none(kframe), frames_or_none(uframe)),
    {
        PerfRecord::counted(stack, 1, kframe, uframe)
    }

    /// The record of `count` occurrences of `stack` with the given frames.
    pub fn counted(
        stack: &StackInfo,
        count: u64,
        kframe: Option<Vec<PerfStackFrame>>,
        uframe: Option<Vec<PerfStackFrame>>,
    ) -> (res: PerfRecord)
        ensures
            res@ == record_of(*stack, count, frames_or_none(kframe), frames_or_none(uframe)),
    {
        let frames = match (kframe, uframe) {
            (Some(kernel_stacks), None) => kernel_stacks,
            (None, Some(user_stacks)) => user_stacks,
            (Some(kernel_stacks), Some(user_stacks)) => {
                let mut all = kernel_stacks;
                let mut rest = user_stacks;
                all.append(&mut rest);
                all
            },
            (None, None) => Vec::new(),
        };
        let res = PerfRecord {
            pid: stack.pid,
            tgid: stack.tgid,
            cpu: stack.cpu,
            cmdline: stack.cmdline(),
            count,
            frames,
        };
        assert(res@.frames =~= frames_or_none(kframe) + frames_or_none(uframe));
        res
    }

    /// The text of the record, as it is printed.
    pub fn to_string(&self) -> (out: String)
        ensures
            out@ == record_text(self@),
    {
        let mut out = String::new();
        push_dec(&mut out, self.tgid as u64);
        push_char(&mut out, ' ');
        push_dec(&mut out, self.cpu as u64);
        push_char(&mut out, ' ');
        out.append(self.cmdline.as_str());
        push_char(&mut out, '\n');
        assert(out@ =~= header_text(self@));
        let mut i: usize = 0;
        while i < self.frames.len()
            invariant
                i <= self.frames@.len(),
                out@ == header_text(self@) + frames_text(self@.frames.take(i as int)),
            decreases self.frames@.len() - i,
        {
            self.frames[i].write_to(&mut out);
            proof {
                let next = self@.frames.take(i + 1);
                assert(next.drop_last() =~= self@.frames.take(i as int));
                assert(next.last() == self.frames@[i as int]@);
                assert(out@ =~= header_text(self@) + frames_text(next));
            }
            i += 1;
        }
        assert(self@.frames.take(self.frames@.len() as int) =~= self@.frames);
        out
    }
}

} // verus!
