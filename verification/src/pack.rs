//! Capability packs: the analysis units that turn normalized input into
//! evidence, and the bookkeeping of their results.
use vstd::prelude::*;
use crate::model::{
    AnalysisDepth, DraftView, EvidenceDraft, Transformation, TransformationView, copy_string,
    draft_views, transformation_views,
};
use crate::text::{self, append_str, chars_of, string_of};
use crate::normalize::NormalizedInput;

verus! {

/// The identity of a capability pack and how deep its analysis goes.
#[derive(Debug, Clone, PartialEq, Eq)]
pub struct PackDescriptor {
    pub id: &'static str,
    pub depth: AnalysisDepth,
}

/// What a pack reports.
#[derive(Debug, Clone, PartialEq, Eq)]
pub struct PackOutput {
    pub evidence: Vec<EvidenceDraft>,
    pub transformations: Vec<Transformation>,
}

impl Default for PackOutput {
    fn default() -> (r: PackOutput)
        ensures
            r.evidence@.len() == 0,
            r.transformations@.len() == 0,
    {
        PackOutput { evidence: Vec::new(), transformations: Vec::new() }
    }
}

/// Why a pack could not analyze its input.
#[derive(Debug)]
pub enum PackError {
    Analysis(String),
}

/// The message of a pack error: `analysis failed: {reason}`.
pub open spec fn pack_error_message(e: PackError) -> Seq<char> {
    match e {
        PackError::Analysis(reason) => "analysis failed: "@ + reason@,
    }
}

impl PackError {
    /// The message of the error, as it is displayed.
    pub fn message(&self) -> (r: String)
        ensures
            r@ == pack_error_message(*self),
    {
        match self {
            PackError::Analysis(reason) => {
                let mut m = chars_of("analysis failed: ");
                append_str(&mut m, reason.as_str());
                string_of(&m)
            },
        }
    }
}

/// A pack that failed, and why.
#[derive(Debug, Clone, PartialEq, Eq)]
pub struct PackFailure {
    pub capability_id: String,
    pub message: String,
}

/// What running the registered packs produced.
#[derive(Debug, Clone, PartialEq, Eq)]
pub struct RegistryOutput {
    pub outputs: Vec<(PackDescriptor, PackOutput)>,
    pub failures: Vec<PackFailure>,
}

/// How one pack's analysis ended.
pub enum PackRun {
    Completed(Result<PackOutput, PackError>),
    Panicked,
}

/// What one successful pack contributes: its depth, evidence and transformations.
pub struct OutputView {
    pub id: Seq<char>,
    pub depth: AnalysisDepth,
    pub evidence: Seq<DraftView>,
    pub transformations: Seq<TransformationView>,
}

pub open spec fn output_view(o: (PackDescriptor, PackOutput)) -> OutputView {
    OutputView {
        id: o.0.id@,
        depth: o.0.depth,
        evidence: draft_views(o.1.evidence@),
        transformations: transformation_views(o.1.transformations@),
    }
}

pub open spec fn output_views(s: Seq<(PackDescriptor, PackOutput)>) -> Seq<OutputView> {
    Seq::new(s.len(), |i: int| output_view(s[i]))
}

/// A failure as `(capability id, message)`.
pub open spec fn failure_views(s: Seq<PackFailure>) -> Seq<(Seq<char>, Seq<char>)> {
    Seq::new(s.len(), |i: int| (s[i].capability_id@, s[i].message@))
}

/// The failure recorded for a pack run that did not succeed.
pub open spec fn failure_of(id: Seq<char>, run: PackRun) -> (Seq<char>, Seq<char>) {
    match run {
        PackRun::Completed(Err(e)) => (id, pack_error_message(e)),
        _ => (id, "capability panicked"@),
    }
}

impl Default for RegistryOutput {
    fn default() -> (r: RegistryOutput)
        ensures
            r.outputs@.len() == 0,
            r.failures@.len() == 0,
    {
        RegistryOutput { outputs: Vec::new(), failures: Vec::new() }
    }
}

impl RegistryOutput {
    /// Records how a pack's analysis ended: its output when it succeeded, a
    /// failure with its identifier otherwise. Earlier records are kept, so
    /// one pack's failure never loses another pack's output.
    pub fn record(&mut self, descriptor: PackDescriptor, run: PackRun)
        ensures
            run matches PackRun::Completed(Ok(o)) ==> {
                &&& output_views(final(self).outputs@) == output_views(old(self).outputs@).push(
                    output_view((descriptor, o)),
                )
                &&& failure_views(final(self).failures@) == failure_views(old(self).failures@)
            },
            !(run matches PackRun::Completed(Ok(_))) ==> {
                &&& output_views(final(self).outputs@) == output_views(old(self).outputs@)
                &&& failure_views(final(self).failures@) == failure_views(old(self).failures@).push(
                    failure_of(descriptor.id@, run),
                )
            },
    {
        let ghost outs = output_views(self.outputs@);
        let ghost fails = failure_views(self.failures@);
        match run {
            PackRun::Completed(Ok(output)) => {
                self.outputs.push((descriptor, output));
                assert(output_views(self.outputs@) =~= outs.push(output_view(self.outputs@.last())));
            },
            PackRun::Completed(Err(error)) => {
                let message = error.message();
                self.failures.push(PackFailure { capability_id: descriptor.id.to_owned(), message });
                assert(failure_views(self.failures@) =~= fails.push(failure_of(descriptor.id@, PackRun::Completed(Err(error)))));
            },
            PackRun::Panicked => {
                self.failures.push(
                    PackFailure {
                        capability_id: descriptor.id.to_owned(),
                        message: "capability panicked".to_owned(),
                    },
                );
                assert(failure_views(self.failures@) =~= fails.push(failure_of(descriptor.id@, PackRun::Panicked)));
            },
        }
    }
}

/// An analysis unit. Implementors decide whether they apply to an input and
/// what evidence they find in it.
pub trait CapabilityPack {
    /// Whether the pack applies to an input.
    spec fn detects(&self, input: NormalizedInput) -> bool;

    /// The pack's identity.
    spec fn spec_descriptor(&self) -> PackDescriptor;

    fn descriptor(&self) -> (r: PackDescriptor)
        ensures
            r == self.spec_descriptor(),
    ;

    /// How strongly the pack applies to the input; zero when it does not.
    fn detect(&self, input: &NormalizedInput) -> (r: u8)
        ensures
            (r != 0) == self.detects(*input),
    ;

    fn analyze(&self, input: &NormalizedInput) -> Result<PackOutput, PackError>;
}

/// The registered capability packs, run in registration order.
pub struct CapabilityRegistry {
    packs: Vec<Box<dyn CapabilityPack>>,
}

impl CapabilityRegistry {
    /// The number of registered packs.
    pub closed spec fn pack_count(&self) -> nat {
        self.packs@.len()
    }

    /// The registered packs, in registration order.
    pub closed spec fn registered(&self) -> Seq<Box<dyn CapabilityPack>> {
        self.packs@
    }

    pub fn new() -> (r: CapabilityRegistry)
        ensures
            r.pack_count() == 0,
    {
        CapabilityRegistry { packs: Vec::new() }
    }

    /// Adds a pack after those already registered. What the new last pack
    /// detects and its descriptor are those of `pack`; that is not stated
    /// here, as nothing relates a value to the trait object it is boxed into.
    pub fn register<P: CapabilityPack + 'static>(&mut self, pack: P)
        ensures
            final(self).pack_count() == old(self).pack_count() + 1,
            final(self).registered().drop_last() == old(self).registered(),
    {
        let boxed: Box<dyn CapabilityPack> = Box::new(pack);
        let ghost before = self.packs@;
        let ghost b = boxed;
        self.packs.push(boxed);
        proof {
            vstd::seq::axiom_seq_push_len(before, b);
            assert(self.packs@ == before.push(b));
            assert forall|i: int| 0 <= i < before.len() implies #[trigger] before.push(b)[i] == before[i] by {
                vstd::seq::axiom_seq_push_index_different(before, b, i);
            }
            assert(before.push(b).drop_last() =~= before);
        }
    }

    /// The registered packs, in registration order.
    pub fn packs(&self) -> (r: &Vec<Box<dyn CapabilityPack>>)
        ensures
            r@ == self.registered(),
            r@.len() == self.pack_count(),
    {
        &self.packs
    }
}

impl Default for CapabilityRegistry {
    fn default() -> (r: CapabilityRegistry)
        ensures
            r.pack_count() == 0,
    {
        CapabilityRegistry::new()
    }
}

/// The outputs and failures recorded for a sequence of pack runs, in order.
pub open spec fn replay(trace: Seq<(usize, PackDescriptor, PackRun)>) -> (Seq<OutputView>, Seq<(Seq<char>, Seq<char>)>)
    decreases trace.len(),
{
    if trace.len() == 0 {
        (Seq::empty(), Seq::empty())
    } else {
        let (outs, fails) = replay(trace.drop_last());
        let (_, d, run) = trace.last();
        match run {
            PackRun::Completed(Ok(o)) => (outs.push(output_view((d, o))), fails),
            _ => (outs, fails.push(failure_of(d.id@, run))),
        }
    }
}

/// `trace` runs packs at increasing positions below `n`, each run being one
/// that `guard` may report for its position.
pub open spec fn is_run_trace<G: Fn(usize) -> PackRun>(trace: Seq<(usize, PackDescriptor, PackRun)>, n: nat, guard: G) -> bool {
    &&& forall|i: int| 0 <= i < trace.len() ==> (#[trigger] trace[i]).0 < n
    &&& forall|i: int, j: int| 0 <= i < j < trace.len() ==> (#[trigger] trace[i]).0 < (#[trigger] trace[j]).0
    &&& forall|i: int| 0 <= i < trace.len() ==> call_ensures(guard, ((#[trigger] trace[i]).0,), trace[i].2)
}

/// `trace` runs, among the first `n` of `packs`, exactly those that detect
/// `input`, each under its own descriptor.
pub open spec fn runs_detecting(
    trace: Seq<(usize, PackDescriptor, PackRun)>,
    packs: Seq<Box<dyn CapabilityPack>>,
    n: int,
    input: NormalizedInput,
) -> bool {
    &&& forall|k: int| 0 <= k < n ==> (#[trigger] packs[k].detects(input) <==> exists|i: int|
        0 <= i < trace.len() && (#[trigger] trace[i]).0 == k)
    &&& forall|i: int| 0 <= i < trace.len() ==> (#[trigger] trace[i]).1 == packs[trace[i].0 as int].spec_descriptor()
}

impl CapabilityRegistry {
    /// Runs the packs that detect the input, in registration order. `guard`
    /// runs the analysis of the pack at the given position and reports how
    /// it ended; each run is recorded in that order, so a pack that fails or
    /// panics never loses another pack's output.
    pub fn run_with<G: Fn(usize) -> PackRun>(&self, input: &NormalizedInput, guard: G) -> (r: RegistryOutput)
        requires
            forall|k: usize| #[trigger] call_requires(guard, (k,)),
        ensures
            exists|trace: Seq<(usize, PackDescriptor, PackRun)>| {
                &&& #[trigger] is_run_trace(trace, self.pack_count(), guard)
                &&& runs_detecting(trace, self.registered(), self.pack_count() as int, *input)
                &&& output_views(r.outputs@) == replay(trace).0
                &&& failure_views(r.failures@) == replay(trace).1
            },
    {
        let mut result = RegistryOutput::default();
        let ghost mut trace: Seq<(usize, PackDescriptor, PackRun)> = Seq::empty();
        assert(output_views(result.outputs@) =~= replay(trace).0);
        assert(failure_views(result.failures@) =~= replay(trace).1);
        let mut k: usize = 0;
        while k < self.packs.len()
            invariant
                k <= self.packs@.len(),
                forall|k: usize| #[trigger] call_requires(guard, (k,)),
                forall|i: int| 0 <= i < trace.len() ==> (#[trigger] trace[i]).0 < k,
                is_run_trace(trace, self.pack_count(), guard),
                runs_detecting(trace, self.registered(), k as int, *input),
                output_views(result.outputs@) == replay(trace).0,
                failure_views(result.failures@) == replay(trace).1,
            decreases self.packs@.len() - k,
        {
            if self.packs[k].detect(input) != 0 {
                let descriptor = self.packs[k].descriptor();
                let run = guard(k);
                let ghost entry = (k, descriptor, run);
                let ghost before = trace;
                result.record(descriptor, run);
                proof {
                    trace = trace.push(entry);
                    assert(trace.drop_last() =~= before);
                    assert forall|i: int, j: int| 0 <= i < j < trace.len() implies (#[trigger] trace[i]).0 < (#[trigger] trace[j]).0 by {
                        if j < before.len() {
                            assert(trace[i] == before[i]);
                            assert(trace[j] == before[j]);
                        } else {
                            assert(trace[i] == before[i]);
                        }
                    }
                    assert forall|i: int| 0 <= i < trace.len() implies call_ensures(guard, ((#[trigger] trace[i]).0,), trace[i].2) by {
                        if i < before.len() {
                            assert(trace[i] == before[i]);
                        }
                    }
                    assert forall|i: int| 0 <= i < trace.len() implies (#[trigger] trace[i]).1 == self.registered()[trace[i].0 as int].spec_descriptor() by {
                        if i < before.len() {
                            assert(trace[i] == before[i]);
                        }
                    }
                    assert forall|m: int| 0 <= m < k + 1 implies (#[trigger] self.registered()[m].detects(*input) <==> exists|i: int|
                        0 <= i < trace.len() && (#[trigger] trace[i]).0 == m) by {
                        if m < k {
                            if self.registered()[m].detects(*input) {
                                let i = choose|i: int| 0 <= i < before.len() && (#[trigger] before[i]).0 == m;
                                assert(trace[i] == before[i]);
                            } else {
                                assert forall|i: int| 0 <= i < trace.len() implies (#[trigger] trace[i]).0 != m by {
                                    if i < before.len() {
                                        assert(trace[i] == before[i]);
                                    }
                                }
                            }
                        } else {
                            assert(trace[before.len() as int].0 == k);
                        }
                    }
                }
            } else {
                proof {
                    assert forall|m: int| 0 <= m < k + 1 implies (#[trigger] self.registered()[m].detects(*input) <==> exists|i: int|
                        0 <= i < trace.len() && (#[trigger] trace[i]).0 == m) by {
                        if m == k {
                            assert forall|i: int| 0 <= i < trace.len() implies (#[trigger] trace[i]).0 != m by {}
                        }
                    }
                }
            }
            k = k + 1;
        }
        result
    }
}

/// Registering a pack changes a run only at its end: the runs of the packs
/// registered before are those of a run without it, and the new pack, when
/// it detects the input, runs last, under its own descriptor.
pub proof fn lemma_run_after_register(
    before: Seq<Box<dyn CapabilityPack>>,
    after: Seq<Box<dyn CapabilityPack>>,
    trace: Seq<(usize, PackDescriptor, PackRun)>,
    input: NormalizedInput,
)
    requires
        after.len() == before.len() + 1,
        after.drop_last() == before,
        forall|i: int| 0 <= i < trace.len() ==> (#[trigger] trace[i]).0 < after.len(),
        forall|i: int, j: int| 0 <= i < j < trace.len() ==> (#[trigger] trace[i]).0 < (#[trigger] trace[j]).0,
        runs_detecting(trace, after, after.len() as int, input),
    ensures
        after.last().detects(input) ==> {
            &&& trace.len() > 0
            &&& trace.last().0 == before.len()
            &&& trace.last().1 == after.last().spec_descriptor()
            &&& runs_detecting(trace.drop_last(), before, before.len() as int, input)
        },
        !after.last().detects(input) ==> runs_detecting(trace, before, before.len() as int, input),
{
    let n = before.len() as int;
    assert forall|k: int| 0 <= k < n implies #[trigger] before[k] == after[k] by {
        assert(after.drop_last()[k] == after[k]);
    }
    assert(after[n] == after.last());
    if after.last().detects(input) {
        assert(after[n].detects(input));
        let w = choose|i: int| 0 <= i < trace.len() && (#[trigger] trace[i]).0 == n;
        assert(w == trace.len() - 1) by {
            if w < trace.len() - 1 {
                assert(trace[w].0 < trace[trace.len() - 1].0);
            }
        }
        let t = trace.drop_last();
        assert forall|k: int| 0 <= k < n implies (#[trigger] before[k].detects(input) <==> exists|i: int|
            0 <= i < t.len() && (#[trigger] t[i]).0 == k) by {
            assert(before[k] == after[k]);
            if after[k].detects(input) {
                let i = choose|i: int| 0 <= i < trace.len() && (#[trigger] trace[i]).0 == k;
                assert(i < t.len());
                assert(t[i] == trace[i]);
            } else {
                assert forall|i: int| 0 <= i < t.len() implies (#[trigger] t[i]).0 != k by {
                    assert(t[i] == trace[i]);
                }
            }
        }
        assert forall|i: int| 0 <= i < t.len() implies (#[trigger] t[i]).1 == before[t[i].0 as int].spec_descriptor() by {
            assert(t[i] == trace[i]);
            assert(trace[i].0 < trace[trace.len() - 1].0);
            assert(before[t[i].0 as int] == after[t[i].0 as int]);
        }
    } else {
        assert(!after[n].detects(input));
        assert forall|i: int| 0 <= i < trace.len() implies (#[trigger] trace[i]).0 < n by {
            if trace[i].0 == n {
                assert(after[n].detects(input));
            }
        }
        assert forall|k: int| 0 <= k < n implies (#[trigger] before[k].detects(input) <==> exists|i: int|
            0 <= i < trace.len() && (#[trigger] trace[i]).0 == k) by {
            assert(before[k] == after[k]);
            assert(after[k].detects(input) <==> exists|i: int| 0 <= i < trace.len() && (#[trigger] trace[i]).0 == k);
        }
        assert forall|i: int| 0 <= i < trace.len() implies (#[trigger] trace[i]).1 == before[trace[i].0 as int].spec_descriptor() by {
            assert(before[trace[i].0 as int] == after[trace[i].0 as int]);
        }
    }
}

} // verus!
