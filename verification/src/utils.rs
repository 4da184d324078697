//! From a sample and the traces read for it to the record that is printed.

use crate::perf_record::{record_of, record_text, FrameView, PerfRecord};
use crate::process::ProcessMetadata;
use crate::sample::{encoded, lemma_decode_encode, StackInfo};
use crate::translator::{
    kernel_frames, loaded_view, loaded_wf, maps_of, trace_or_none, user_frames, LoadedDso,
    Translator,
};
use vstd::prelude::*;

verus! {

/// Builds the record of one occurrence of a sample from the traces that were
/// read for its stack handles: the kernel frames, then the user frames. A
/// stack that is absent, or whose trace was not read, contributes no frame,
/// so the record has as many frames as the traces at hand have addresses.
pub fn deconstruct_stack(
    stack: &StackInfo,
    ktrace: Option<&Vec<u64>>,
    utrace: Option<&Vec<u64>>,
    proc: Option<&ProcessMetadata>,
    dsos: &Vec<LoadedDso>,
    translator: &Translator,
) -> (res: PerfRecord)
    requires
        translator.wf(),
        loaded_wf(dsos@),
    ensures
        res@ == record_of(
            *stack,
            1,
            kernel_frames(
                translator.table(),
                translator.kallsyms(),
                trace_or_none(stack.kernel_stack_id, ktrace),
            ),
            user_frames(
                maps_of(proc),
                loaded_view(dsos@),
                trace_or_none(stack.user_stack_id, utrace),
            ),
        ),
        res@.frames.len() == trace_or_none(stack.kernel_stack_id, ktrace).len() + trace_or_none(
            stack.user_stack_id,
            utrace,
        ).len(),
{
    let mut kframes = None;
    let mut uframes = None;
    if let Some(_id) = stack.kernel_stack_id {
        if let Some(trace) = ktrace {
            kframes = Some(translator.translate_ktrace(trace));
        }
    }
    if let Some(_id) = stack.user_stack_id {
        if let Some(trace) = utrace {
            uframes = Some(Translator::translate_usyms(proc, trace, dsos));
        }
    }
    proof {
        assert(crate::perf_record::frames_or_none(kframes) =~= kernel_frames(
            translator.table(),
            translator.kallsyms(),
            trace_or_none(stack.kernel_stack_id, ktrace),
        ));
        assert(crate::perf_record::frames_or_none(uframes) =~= user_frames(
            maps_of(proc),
            loaded_view(dsos@),
            trace_or_none(stack.user_stack_id, utrace),
        ));
    }
    PerfRecord::from(stack, kframes, uframes)
}

/// Translation and rendering are functions of the wire record: two samples
/// with the same wire form are the same sample, and with the same count and
/// frames they are printed as the same text.
pub proof fn lemma_same_wire_same_text(
    a: StackInfo,
    b: StackInfo,
    count: u64,
    kernel: Seq<FrameView>,
    user: Seq<FrameView>,
)
    requires
        encoded(a) == encoded(b),
    ensures
        a == b,
        record_text(record_of(a, count, kernel, user)) == record_text(
            record_of(b, count, kernel, user),
        ),
{
    lemma_decode_encode(a);
    lemma_decode_encode(b);
}

} // verus!
