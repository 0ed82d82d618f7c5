//! The build pipeline: its steps in their order, what each step runs, and what
//! is reported where one fails.

use vstd::prelude::*;
use vstd::string::*;

verus! {

/// Where the compiler leaves the probe.
pub const PROBE_BINARY: &'static str = "target/bpf-unknown-none/release/gh_probe";

/// The directory that the probe object is copied to.
pub const PROBE_DIRECTORY: &'static str = "target/bpf";

/// The probe object that the analyzer embeds.
pub const PROBE_OBJECT: &'static str = "target/bpf/gh-probe.o";

/// A step of the pipeline.
#[derive(Clone, Copy, Debug, PartialEq, Eq, Structural)]
pub enum BuildStep {
    CheckLinker,
    BuildProbe,
    CreateDirectory,
    CopyProbe,
    BuildAnalyzer,
}

/// How a step went.
#[derive(Clone, Copy, Debug, PartialEq, Eq, Structural)]
pub enum Outcome {
    Succeeded,
    /// The operation itself could not be carried out.
    NotCarriedOut,
    /// The command ran and reported a failure.
    Unsuccessful,
}

/// Where the pipeline stands.
#[derive(Clone, Copy, Debug, PartialEq, Eq, Structural)]
pub enum BuildState {
    Running { step: BuildStep },
    Finished,
    Failed { step: BuildStep, outcome: Outcome },
}

impl BuildStep {
    /// The position of a step in the pipeline.
    pub open spec fn position(self) -> int {
        match self {
            BuildStep::CheckLinker => 0,
            BuildStep::BuildProbe => 1,
            BuildStep::CreateDirectory => 2,
            BuildStep::CopyProbe => 3,
            BuildStep::BuildAnalyzer => 4,
        }
    }

    /// The command line of a step; empty for the steps that touch files.
    pub open spec fn words(self) -> Seq<Seq<char>> {
        match self {
            BuildStep::CheckLinker => seq!["which"@, "bpf-linker"@],
            BuildStep::BuildProbe => seq![
                "cargo"@,
                "build"@,
                "-p"@,
                "gh-probe"@,
                "--target"@,
                "bpf-unknown-none"@,
                "-Z"@,
                "build-std=core"@,
                "--release"@,
            ],
            BuildStep::BuildAnalyzer => seq!["cargo"@, "build"@, "-p"@, "gh-analyzer"@, "--release"@],
            _ => Seq::empty(),
        }
    }

    /// What is reported where a step fails; `detail` is the system's own words.
    pub open spec fn report(self, outcome: Outcome, detail: Seq<char>) -> Seq<Seq<char>> {
        match (self, outcome) {
            (_, Outcome::Succeeded) => Seq::empty(),
            (BuildStep::CheckLinker, Outcome::NotCarriedOut) => seq![
                "[xtask] error: failed to invoke `which`: "@ + detail,
                "[xtask] hint:  ensure `which` is available on PATH"@,
            ],
            (BuildStep::CheckLinker, Outcome::Unsuccessful) => seq![
                "[xtask] error: `bpf-linker` not found on PATH"@,
                "[xtask] hint:  install it with:"@,
                "[xtask]          cargo install bpf-linker"@,
            ],
            (BuildStep::BuildProbe, Outcome::NotCarriedOut) => seq![
                "[xtask] error: failed to spawn `cargo build` for gh-probe: "@ + detail,
            ],
            (BuildStep::BuildProbe, Outcome::Unsuccessful) => seq![
                "[xtask] error: `cargo build -p gh-probe --target bpf-unknown-none` failed"@,
                "[xtask] hint:  check gh-probe source for BPF compatibility errors"@,
            ],
            (BuildStep::CreateDirectory, _) => seq![
                "[xtask] error: failed to create directory `target/bpf`: "@ + detail,
            ],
            (BuildStep::CopyProbe, _) => seq![
                "[xtask] error: failed to copy `target/bpf-unknown-none/release/gh_probe` → `target/bpf/gh-probe.o`: "@
                    + detail,
                "[xtask] hint:  ensure step 2 (gh-probe build) completed successfully"@,
            ],
            (BuildStep::BuildAnalyzer, Outcome::NotCarriedOut) => seq![
                "[xtask] error: failed to spawn `cargo build` for gh-analyzer: "@ + detail,
            ],
            (BuildStep::BuildAnalyzer, Outcome::Unsuccessful) => seq![
                "[xtask] error: `cargo build -p gh-analyzer --release` failed"@,
                "[xtask] hint:  check gh-analyzer source and dependencies"@,
            ],
        }
    }
}

/// The characters of each string.
pub open spec fn texts(strings: Seq<String>) -> Seq<Seq<char>> {
    strings.map_values(|s: String| s@)
}

/// The characters of each word.
pub open spec fn word_texts(words: Seq<&'static str>) -> Seq<Seq<char>> {
    words.map_values(|s: &'static str| s@)
}

fn joined(start: &str, end: &str) -> (r: String)
    ensures
        r@ == start@ + end@,
{
    let mut line: String = start.to_owned();
    line.append(end);
    line
}

impl BuildStep {
    /// The command line of a step; empty for the steps that touch files.
    pub fn command(self) -> (r: Vec<&'static str>)
        ensures
            word_texts(r@) == self.words(),
    {
        let r: Vec<&'static str> = match self {
            BuildStep::CheckLinker => vec!["which", "bpf-linker"],
            BuildStep::BuildProbe => vec![
                "cargo",
                "build",
                "-p",
                "gh-probe",
                "--target",
                "bpf-unknown-none",
                "-Z",
                "build-std=core",
                "--release",
            ],
            BuildStep::BuildAnalyzer => vec!["cargo", "build", "-p", "gh-analyzer", "--release"],
            BuildStep::CreateDirectory => Vec::new(),
            BuildStep::CopyProbe => Vec::new(),
        };
        proof {
            assert(word_texts(r@) =~= self.words());
        }
        r
    }

    /// The lines that are reported where a step fails.
    pub fn diagnosis(self, outcome: Outcome, detail: &str) -> (r: Vec<String>)
        ensures
            texts(r@) == self.report(outcome, detail@),
    {
        let mut r: Vec<String> = Vec::new();
        match (self, outcome) {
            (_, Outcome::Succeeded) => {},
            (BuildStep::CheckLinker, Outcome::NotCarriedOut) => {
                r.push(joined("[xtask] error: failed to invoke `which`: ", detail));
                r.push("[xtask] hint:  ensure `which` is available on PATH".to_owned());
            },
            (BuildStep::CheckLinker, Outcome::Unsuccessful) => {
                r.push("[xtask] error: `bpf-linker` not found on PATH".to_owned());
                r.push("[xtask] hint:  install it with:".to_owned());
                r.push("[xtask]          cargo install bpf-linker".to_owned());
            },
            (BuildStep::BuildProbe, Outcome::NotCarriedOut) => {
                r.push(
                    joined("[xtask] error: failed to spawn `cargo build` for gh-probe: ", detail),
                );
            },
            (BuildStep::BuildProbe, Outcome::Unsuccessful) => {
                r.push(
                    "[xtask] error: `cargo build -p gh-probe --target bpf-unknown-none` failed".to_owned(),
                );
                r.push(
                    "[xtask] hint:  check gh-probe source for BPF compatibility errors".to_owned(),
                );
            },
            (BuildStep::CreateDirectory, _) => {
                r.push(joined("[xtask] error: failed to create directory `target/bpf`: ", detail));
            },
            (BuildStep::CopyProbe, _) => {
                r.push(
                    joined(
                        "[xtask] error: failed to copy `target/bpf-unknown-none/release/gh_probe` → `target/bpf/gh-probe.o`: ",
                        detail,
                    ),
                );
                r.push(
                    "[xtask] hint:  ensure step 2 (gh-probe build) completed successfully".to_owned(),
                );
            },
            (BuildStep::BuildAnalyzer, Outcome::NotCarriedOut) => {
                r.push(
                    joined(
                        "[xtask] error: failed to spawn `cargo build` for gh-analyzer: ",
                        detail,
                    ),
                );
            },
            (BuildStep::BuildAnalyzer, Outcome::Unsuccessful) => {
                r.push("[xtask] error: `cargo build -p gh-analyzer --release` failed".to_owned());
                r.push("[xtask] hint:  check gh-analyzer source and dependencies".to_owned());
            },
        }
        proof {
            assert(texts(r@) =~= self.report(outcome, detail@));
        }
        r
    }
}

impl BuildState {
    /// The state after a step: a success leads to the next step, a failure
    /// ends the pipeline.
    pub open spec fn after(step: BuildStep, outcome: Outcome) -> BuildState {
        if outcome != Outcome::Succeeded {
            BuildState::Failed { step, outcome }
        } else {
            match step {
                BuildStep::CheckLinker => BuildState::Running { step: BuildStep::BuildProbe },
                BuildStep::BuildProbe => BuildState::Running { step: BuildStep::CreateDirectory },
                BuildStep::CreateDirectory => BuildState::Running { step: BuildStep::CopyProbe },
                BuildStep::CopyProbe => BuildState::Running { step: BuildStep::BuildAnalyzer },
                BuildStep::BuildAnalyzer => BuildState::Finished,
            }
        }
    }

    /// The pipeline before its first step.
    pub fn start() -> (state: BuildState)
        ensures
            state == (BuildState::Running { step: BuildStep::CheckLinker }),
    {
        BuildState::Running { step: BuildStep::CheckLinker }
    }

    /// The state after a step.
    pub fn advance(step: BuildStep, outcome: Outcome) -> (state: BuildState)
        ensures
            state == Self::after(step, outcome),
    {
        if outcome != Outcome::Succeeded {
            return BuildState::Failed { step, outcome };
        }
        match step {
            BuildStep::CheckLinker => BuildState::Running { step: BuildStep::BuildProbe },
            BuildStep::BuildProbe => BuildState::Running { step: BuildStep::CreateDirectory },
            BuildStep::CreateDirectory => BuildState::Running { step: BuildStep::CopyProbe },
            BuildStep::CopyProbe => BuildState::Running { step: BuildStep::BuildAnalyzer },
            BuildStep::BuildAnalyzer => BuildState::Finished,
        }
    }
}

/// The state of the pipeline once its first steps had the given outcomes.
pub open spec fn pipeline(outcomes: Seq<Outcome>) -> BuildState
    decreases outcomes.len(),
{
    if outcomes.len() == 0 {
        BuildState::Running { step: BuildStep::CheckLinker }
    } else {
        match pipeline(outcomes.drop_last()) {
            BuildState::Running { step } => BuildState::after(step, outcomes.last()),
            ended => ended,
        }
    }
}

/// Law: a step runs only where every step before it succeeded; the pipeline
/// finishes only where all five did, and otherwise stops at the first failure.
pub proof fn law_strict_sequence(outcomes: Seq<Outcome>)
    ensures
        match pipeline(outcomes) {
            BuildState::Running { step } => {
                &&& step.position() == outcomes.len()
                &&& forall|i: int| 0 <= i < outcomes.len() ==> outcomes[i] == Outcome::Succeeded
            },
            BuildState::Finished => {
                &&& outcomes.len() >= 5
                &&& forall|i: int| 0 <= i < 5 ==> outcomes[i] == Outcome::Succeeded
            },
            BuildState::Failed { step, outcome } => {
                &&& step.position() < outcomes.len()
                &&& outcomes[step.position()] == outcome
                &&& outcome != Outcome::Succeeded
                &&& forall|i: int|
                    0 <= i < step.position() ==> outcomes[i] == Outcome::Succeeded
            },
        },
    decreases outcomes.len(),
{
    if outcomes.len() > 0 {
        let shorter = outcomes.drop_last();
        law_strict_sequence(shorter);
        assert forall|i: int| 0 <= i < shorter.len() implies outcomes[i] == shorter[i] by {}
    }
}

/// Law: a step that failed is reported, a step that succeeded is not. Where an
/// operation could not be carried out, the first line of the report ends in the
/// system's own words, and nothing else of the report depends on them.
pub proof fn law_reports_carry_the_detail(step: BuildStep, outcome: Outcome, detail: Seq<char>)
    ensures
        step.report(outcome, detail).len() == 0 <==> outcome == Outcome::Succeeded,
        step.report(outcome, detail).len() == step.report(outcome, Seq::empty()).len(),
        forall|i: int|
            1 <= i < step.report(outcome, detail).len() ==> #[trigger] step.report(outcome, detail)[i]
                == step.report(outcome, Seq::empty())[i],
        outcome == Outcome::NotCarriedOut ==> step.report(outcome, detail)[0] == step.report(
            outcome,
            Seq::empty(),
        )[0] + detail,
{
    let plain = step.report(outcome, Seq::empty());
    let full = step.report(outcome, detail);
    if outcome == Outcome::NotCarriedOut {
        assert(full[0] =~= plain[0] + detail);
    }
}

/// Law: a step leads to the next one exactly where it succeeded, and the last
/// one to the end; any other outcome ends the pipeline at that step.
pub proof fn law_build_steps(step: BuildStep, outcome: Outcome)
    ensures
        outcome != Outcome::Succeeded ==> BuildState::after(step, outcome) == (BuildState::Failed {
            step,
            outcome,
        }),
        BuildState::after(BuildStep::BuildAnalyzer, Outcome::Succeeded) == BuildState::Finished,
        outcome == Outcome::Succeeded && step !is BuildAnalyzer ==> {
            let next = BuildState::after(step, outcome);
            &&& next is Running
            &&& next->Running_step.position() == step.position() + 1
        },
{
}

} // verus!
