use ghost_hunter::xtask::{
    BuildState, BuildStep, Outcome, PROBE_BINARY, PROBE_DIRECTORY, PROBE_OBJECT,
};

fn build_steps() -> [BuildStep; 5] {
    [
        BuildStep::CheckLinker,
        BuildStep::BuildProbe,
        BuildStep::CreateDirectory,
        BuildStep::CopyProbe,
        BuildStep::BuildAnalyzer,
    ]
}

#[test]
fn pipeline_runs_its_steps_in_order() {
    let mut state = BuildState::start();
    for step in build_steps() {
        assert_eq!(state, BuildState::Running { step });
        state = BuildState::advance(step, Outcome::Succeeded);
    }
    assert_eq!(state, BuildState::Finished);
}

#[test]
fn failed_step_ends_the_pipeline() {
    for step in build_steps() {
        for outcome in [Outcome::NotCarriedOut, Outcome::Unsuccessful] {
            assert_eq!(
                BuildState::advance(step, outcome),
                BuildState::Failed { step, outcome }
            );
        }
    }
}

#[test]
fn steps_run_their_commands() {
    assert_eq!(BuildStep::CheckLinker.command(), vec!["which", "bpf-linker"]);
    assert_eq!(
        BuildStep::BuildProbe.command(),
        vec![
            "cargo",
            "build",
            "-p",
            "gh-probe",
            "--target",
            "bpf-unknown-none",
            "-Z",
            "build-std=core",
            "--release",
        ]
    );
    assert_eq!(
        BuildStep::BuildAnalyzer.command(),
        vec!["cargo", "build", "-p", "gh-analyzer", "--release"]
    );
    assert!(BuildStep::CreateDirectory.command().is_empty());
    assert!(BuildStep::CopyProbe.command().is_empty());
}

#[test]
fn probe_is_copied_to_where_the_analyzer_expects_it() {
    assert_eq!(PROBE_BINARY, "target/bpf-unknown-none/release/gh_probe");
    assert_eq!(PROBE_OBJECT, format!("{}/gh-probe.o", PROBE_DIRECTORY));
}

#[test]
fn failures_are_diagnosed() {
    let detail = "No such file";
    for (step, outcome, lines) in [
        (
            BuildStep::CheckLinker,
            Outcome::NotCarriedOut,
            vec![
                "[xtask] error: failed to invoke `which`: No such file",
                "[xtask] hint:  ensure `which` is available on PATH",
            ],
        ),
        (
            BuildStep::CheckLinker,
            Outcome::Unsuccessful,
            vec![
                "[xtask] error: `bpf-linker` not found on PATH",
                "[xtask] hint:  install it with:",
                "[xtask]          cargo install bpf-linker",
            ],
        ),
        (
            BuildStep::BuildProbe,
            Outcome::NotCarriedOut,
            vec!["[xtask] error: failed to spawn `cargo build` for gh-probe: No such file"],
        ),
        (
            BuildStep::BuildProbe,
            Outcome::Unsuccessful,
            vec![
                "[xtask] error: `cargo build -p gh-probe --target bpf-unknown-none` failed",
                "[xtask] hint:  check gh-probe source for BPF compatibility errors",
            ],
        ),
        (
            BuildStep::CreateDirectory,
            Outcome::NotCarriedOut,
            vec!["[xtask] error: failed to create directory `target/bpf`: No such file"],
        ),
        (
            BuildStep::CopyProbe,
            Outcome::NotCarriedOut,
            vec![
                "[xtask] error: failed to copy `target/bpf-unknown-none/release/gh_probe` \
                 → `target/bpf/gh-probe.o`: No such file",
                "[xtask] hint:  ensure step 2 (gh-probe build) completed successfully",
            ],
        ),
        (
            BuildStep::BuildAnalyzer,
            Outcome::NotCarriedOut,
            vec!["[xtask] error: failed to spawn `cargo build` for gh-analyzer: No such file"],
        ),
        (
            BuildStep::BuildAnalyzer,
            Outcome::Unsuccessful,
            vec![
                "[xtask] error: `cargo build -p gh-analyzer --release` failed",
                "[xtask] hint:  check gh-analyzer source and dependencies",
            ],
        ),
        (BuildStep::BuildProbe, Outcome::Succeeded, Vec::new()),
    ] {
        assert_eq!(step.diagnosis(outcome, detail), lines);
    }
}
