use devtriage::domain::RecentProject;
use devtriage::model::{AnalysisDepth, EvidenceKind, Sensitivity, SCHEMA_VERSION};
use devtriage::pack::{PackDescriptor, PackError, PackOutput, PackRun, RegistryOutput};
use devtriage::version;

#[test]
fn schema_and_orders_are_stable() {
    assert_eq!(SCHEMA_VERSION, 1);
    assert!(EvidenceKind::Error < EvidenceKind::StackFrame);
    assert!(AnalysisDepth::Generic < AnalysisDepth::Deep);
    assert!(Sensitivity::Public < Sensitivity::Secret);
}

#[test]
fn version_is_the_package_version() {
    assert_eq!(version(), "0.1.0");
}

#[test]
fn recent_project_keeps_path_and_time() {
    let record = RecentProject::new("/work/app", 42);
    assert_eq!(record.path, "/work/app");
    assert_eq!(record.confirmed_at, 42);
}

#[test]
fn registry_output_keeps_successes_when_another_pack_fails() {
    let mut output = RegistryOutput::default();
    output.record(
        PackDescriptor { id: "good", depth: AnalysisDepth::Structured },
        PackRun::Completed(Ok(PackOutput::default())),
    );
    output.record(PackDescriptor { id: "panic", depth: AnalysisDepth::Deep }, PackRun::Panicked);
    output.record(
        PackDescriptor { id: "bad", depth: AnalysisDepth::Deep },
        PackRun::Completed(Err(PackError::Analysis("no parse".into()))),
    );
    assert_eq!(output.outputs.len(), 1);
    assert_eq!(output.outputs[0].0.id, "good");
    assert_eq!(output.failures.len(), 2);
    assert_eq!(output.failures[0].capability_id, "panic");
    assert_eq!(output.failures[0].message, "capability panicked");
    assert_eq!(output.failures[1].capability_id, "bad");
    assert_eq!(output.failures[1].message, "analysis failed: no parse");
}
