use devtriage::model::AnalysisDepth;
use devtriage::normalize::NormalizedInput;
use devtriage::pack::{
    CapabilityPack, CapabilityRegistry, PackDescriptor, PackError, PackOutput, PackRun,
};

struct GoodPack;
struct PanicPack;
struct QuietPack;

impl CapabilityPack for GoodPack {
    fn detects(&self, _: NormalizedInput) -> bool {
        true
    }
    fn spec_descriptor(&self) -> PackDescriptor {
        self.descriptor()
    }
    fn descriptor(&self) -> PackDescriptor {
        PackDescriptor { id: "good", depth: AnalysisDepth::Structured }
    }
    fn detect(&self, _: &NormalizedInput) -> u8 {
        100
    }
    fn analyze(&self, _: &NormalizedInput) -> Result<PackOutput, PackError> {
        Ok(PackOutput::default())
    }
}

impl CapabilityPack for PanicPack {
    fn detects(&self, _: NormalizedInput) -> bool {
        true
    }
    fn spec_descriptor(&self) -> PackDescriptor {
        self.descriptor()
    }
    fn descriptor(&self) -> PackDescriptor {
        PackDescriptor { id: "panic", depth: AnalysisDepth::Deep }
    }
    fn detect(&self, _: &NormalizedInput) -> u8 {
        100
    }
    fn analyze(&self, _: &NormalizedInput) -> Result<PackOutput, PackError> {
        panic!("broken pack")
    }
}

impl CapabilityPack for QuietPack {
    fn detects(&self, _: NormalizedInput) -> bool {
        false
    }
    fn spec_descriptor(&self) -> PackDescriptor {
        self.descriptor()
    }
    fn descriptor(&self) -> PackDescriptor {
        PackDescriptor { id: "quiet", depth: AnalysisDepth::Deep }
    }
    fn detect(&self, _: &NormalizedInput) -> u8 {
        0
    }
    fn analyze(&self, _: &NormalizedInput) -> Result<PackOutput, PackError> {
        Err(PackError::Analysis("never asked".into()))
    }
}

/// Runs a pack's analysis, reporting the packs whose analysis panics as the
/// program's unwinding guard would, without running them here.
fn guarded(registry: &CapabilityRegistry, input: &NormalizedInput, index: usize) -> PackRun {
    let pack = &registry.packs()[index];
    if pack.descriptor().id == "panic" {
        PackRun::Panicked
    } else {
        PackRun::Completed(pack.analyze(input))
    }
}

#[test]
fn keeps_successful_output_when_another_pack_panics() {
    let mut registry = CapabilityRegistry::default();
    registry.register(GoodPack);
    registry.register(PanicPack);
    let input = NormalizedInput { text: "error".into(), transformations: vec![] };
    let output = registry.run_with(&input, |index| guarded(&registry, &input, index));
    assert_eq!(output.outputs.len(), 1);
    assert_eq!(output.failures[0].capability_id, "panic");
}

#[test]
fn packs_that_do_not_detect_the_input_are_not_run() {
    let mut registry = CapabilityRegistry::new();
    registry.register(QuietPack);
    registry.register(GoodPack);
    assert_eq!(registry.packs().len(), 2);
    let input = NormalizedInput { text: "error".into(), transformations: vec![] };
    let output = registry.run_with(&input, |index| guarded(&registry, &input, index));
    assert_eq!(output.outputs.len(), 1);
    assert_eq!(output.outputs[0].0.id, "good");
    assert!(output.failures.is_empty());
}
