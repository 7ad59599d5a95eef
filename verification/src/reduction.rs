//! The decisions of the completeness and soundness checks of a reduction between relations:
//! which check comes next after each outcome, and the verdict. Generating instances, running
//! the prover and the verifier and keeping the transcript are the caller's work.
use vstd::prelude::*;

verus! {

/// The checks of the completeness test, in order.
#[derive(Clone, Copy, Debug, PartialEq, Eq, Structural)]
pub enum CompletenessStage {
    /// The generated input instance is checked against its witness.
    CheckInput,
    /// The prover runs on the input.
    Prove,
    /// The prover's output witness is checked against its output instance.
    CheckOutput,
    /// The verifier runs on the transcript.
    Verify,
    /// The prover's and the verifier's outputs are compared.
    Compare,
}

/// What a check of the completeness test found.
#[derive(Clone, Copy, Debug, PartialEq, Eq, Structural)]
pub enum CompletenessEvent {
    InputChecked { satisfied: bool },
    Proved { ok: bool },
    OutputChecked { satisfied: bool },
    Verified { ok: bool },
    Compared { same_index: bool, same_instance: bool },
}

/// Why a reduction failed the completeness test.
#[derive(Clone, Copy, Debug, PartialEq, Eq, Structural)]
pub enum CompletenessFailure {
    /// The generated input instance is not satisfied.
    InputNotSatisfied,
    /// The prover failed.
    ProverFailed,
    /// The prover's output witness does not satisfy its output instance.
    OutputNotSatisfied,
    /// The verifier rejected the proof.
    VerifierFailed,
    /// The prover and the verifier output different indices.
    IndexMismatch,
    /// The prover and the verifier output different instances.
    InstanceMismatch,
}

/// What follows a check.
#[derive(Clone, Copy, Debug, PartialEq, Eq, Structural)]
pub enum CompletenessStep {
    Next(CompletenessStage),
    Complete,
    Fail(CompletenessFailure),
}

/// The event is the outcome of the stage.
pub open spec fn completeness_event_of(stage: CompletenessStage, event: CompletenessEvent) -> bool {
    match stage {
        CompletenessStage::CheckInput => event is InputChecked,
        CompletenessStage::Prove => event is Proved,
        CompletenessStage::CheckOutput => event is OutputChecked,
        CompletenessStage::Verify => event is Verified,
        CompletenessStage::Compare => event is Compared,
    }
}

/// The completeness test stops at the first check that fails, and passes when the prover's
/// and the verifier's outputs agree.
pub fn completeness_step(stage: CompletenessStage, event: CompletenessEvent) -> (step:
    CompletenessStep)
    requires
        completeness_event_of(stage, event),
    ensures
        step == match event {
            CompletenessEvent::InputChecked { satisfied } => if satisfied {
                CompletenessStep::Next(CompletenessStage::Prove)
            } else {
                CompletenessStep::Fail(CompletenessFailure::InputNotSatisfied)
            },
            CompletenessEvent::Proved { ok } => if ok {
                CompletenessStep::Next(CompletenessStage::CheckOutput)
            } else {
                CompletenessStep::Fail(CompletenessFailure::ProverFailed)
            },
            CompletenessEvent::OutputChecked { satisfied } => if satisfied {
                CompletenessStep::Next(CompletenessStage::Verify)
            } else {
                CompletenessStep::Fail(CompletenessFailure::OutputNotSatisfied)
            },
            CompletenessEvent::Verified { ok } => if ok {
                CompletenessStep::Next(CompletenessStage::Compare)
            } else {
                CompletenessStep::Fail(CompletenessFailure::VerifierFailed)
            },
            CompletenessEvent::Compared { same_index, same_instance } => if !same_index {
                CompletenessStep::Fail(CompletenessFailure::IndexMismatch)
            } else if !same_instance {
                CompletenessStep::Fail(CompletenessFailure::InstanceMismatch)
            } else {
                CompletenessStep::Complete
            },
        },
{
    match event {
        CompletenessEvent::InputChecked { satisfied } => {
            if satisfied {
                CompletenessStep::Next(CompletenessStage::Prove)
            } else {
                CompletenessStep::Fail(CompletenessFailure::InputNotSatisfied)
            }
        },
        CompletenessEvent::Proved { ok } => {
            if ok {
                CompletenessStep::Next(CompletenessStage::CheckOutput)
            } else {
                CompletenessStep::Fail(CompletenessFailure::ProverFailed)
            }
        },
        CompletenessEvent::OutputChecked { satisfied } => {
            if satisfied {
                CompletenessStep::Next(CompletenessStage::Verify)
            } else {
                CompletenessStep::Fail(CompletenessFailure::OutputNotSatisfied)
            }
        },
        CompletenessEvent::Verified { ok } => {
            if ok {
                CompletenessStep::Next(CompletenessStage::Compare)
            } else {
                CompletenessStep::Fail(CompletenessFailure::VerifierFailed)
            }
        },
        CompletenessEvent::Compared { same_index, same_instance } => {
            if !same_index {
                CompletenessStep::Fail(CompletenessFailure::IndexMismatch)
            } else if !same_instance {
                CompletenessStep::Fail(CompletenessFailure::InstanceMismatch)
            } else {
                CompletenessStep::Complete
            }
        },
    }
}

/// The checks of the soundness test, in order.
#[derive(Clone, Copy, Debug, PartialEq, Eq, Structural)]
pub enum SoundnessStage {
    /// The generated input is checked to be unsatisfied.
    CheckInput,
    /// The honest prover runs on an unsatisfied input.
    Prove,
    /// The verifier runs on the transcript.
    Verify,
    /// The prover's output witness is checked against the verifier's output instance.
    CheckOutput,
}

/// What a check of the soundness test found.
#[derive(Clone, Copy, Debug, PartialEq, Eq, Structural)]
pub enum SoundnessEvent {
    InputChecked { satisfied: bool },
    Proved { ok: bool },
    Verified { accepted: bool },
    OutputChecked { satisfied: bool },
}

/// What follows a check of the soundness test.
#[derive(Clone, Copy, Debug, PartialEq, Eq, Structural)]
pub enum SoundnessStep {
    Next(SoundnessStage),
    /// The generated input is satisfied, so the test is aborted.
    InputSatisfied,
    /// The reduction behaved soundly on this input.
    Sound,
    /// The honest prover failed, so the test says nothing.
    ProverFailed,
    /// The verifier accepted and the output witness satisfies the output instance.
    NotSound,
}

/// The event is the outcome of the stage.
pub open spec fn soundness_event_of(stage: SoundnessStage, event: SoundnessEvent) -> bool {
    match stage {
        SoundnessStage::CheckInput => event is InputChecked,
        SoundnessStage::Prove => event is Proved,
        SoundnessStage::Verify => event is Verified,
        SoundnessStage::CheckOutput => event is OutputChecked,
    }
}

/// The soundness test on an unsatisfied input passes when the verifier rejects, or accepts an
/// output statement that the output witness does not satisfy.
pub fn soundness_step(stage: SoundnessStage, event: SoundnessEvent) -> (step: SoundnessStep)
    requires
        soundness_event_of(stage, event),
    ensures
        step == match event {
            SoundnessEvent::InputChecked { satisfied } => if satisfied {
                SoundnessStep::InputSatisfied
            } else {
                SoundnessStep::Next(SoundnessStage::Prove)
            },
            SoundnessEvent::Proved { ok } => if ok {
                SoundnessStep::Next(SoundnessStage::Verify)
            } else {
                SoundnessStep::ProverFailed
            },
            SoundnessEvent::Verified { accepted } => if accepted {
                SoundnessStep::Next(SoundnessStage::CheckOutput)
            } else {
                SoundnessStep::Sound
            },
            SoundnessEvent::OutputChecked { satisfied } => if satisfied {
                SoundnessStep::NotSound
            } else {
                SoundnessStep::Sound
            },
        },
{
    match event {
        SoundnessEvent::InputChecked { satisfied } => {
            if satisfied {
                SoundnessStep::InputSatisfied
            } else {
                SoundnessStep::Next(SoundnessStage::Prove)
            }
        },
        SoundnessEvent::Proved { ok } => {
            if ok {
                SoundnessStep::Next(SoundnessStage::Verify)
            } else {
                SoundnessStep::ProverFailed
            }
        },
        SoundnessEvent::Verified { accepted } => {
            if accepted {
                SoundnessStep::Next(SoundnessStage::CheckOutput)
            } else {
                SoundnessStep::Sound
            }
        },
        SoundnessEvent::OutputChecked { satisfied } => {
            if satisfied {
                SoundnessStep::NotSound
            } else {
                SoundnessStep::Sound
            }
        },
    }
}

} // verus!
