//! The order a denoising run goes in: which phase follows which, step after step.
use vstd::prelude::*;
use vstd::string::StringExecFns;

use super::run;
use crate::error;
use crate::error::{Error, Result};

verus! {

/// What a run is doing. The number is the step, except after a step, where it is how many are complete.
#[derive(Clone, Copy, Debug, PartialEq, Eq, Structural)]
pub enum Phase {
    /// The modulation tables, and the rows of the sequence.
    Opening(usize),
    /// Every block, straight through.
    Blocks(usize),
    /// The first block alone, measured against the step before. What is asked is whether the rest may be
    /// skipped.
    FirstBlock(usize),
    /// The other blocks, or what they changed last time.
    Rest { step: usize, skip: bool },
    /// The final layer, and the latents' advance.
    Closing(usize),
    /// Waiting for the device, so that what is reported is complete.
    Wait(usize),
    /// The caller's progress callback. What is asked is whether to stop.
    Progress(usize),
    /// Reading the latents back.
    Finished,
}

/// A run's choices, all made before its first step.
pub struct Walk {
    pub steps: usize,
    /// whether the first-block cache decides how much of a step runs
    pub cached: bool,
    /// whether the latents stay on the device, where a step is only queued
    pub resident: bool,
    /// whether a caller is told of progress
    pub watched: bool,
}

impl Walk {
    /// What a run does once so many steps are complete.
    pub open spec fn from_step(&self, done: int) -> Phase {
        if done < self.steps {
            Phase::Opening(done as usize)
        } else {
            Phase::Finished
        }
    }

    /// What follows a phase, given the answer to what the phase asks; nothing where the run is stopped.
    pub open spec fn follows(&self, phase: Phase, answer: bool) -> Option<Phase> {
        match phase {
            Phase::Opening(step) => Some(
                if self.cached {
                    Phase::FirstBlock(step)
                } else {
                    Phase::Blocks(step)
                },
            ),
            Phase::FirstBlock(step) => Some(Phase::Rest { step, skip: answer }),
            Phase::Blocks(step) => Some(Phase::Closing(step)),
            Phase::Rest { step, .. } => Some(Phase::Closing(step)),
            Phase::Closing(step) => Some(
                if !self.watched {
                    self.from_step(step + 1)
                } else if self.resident {
                    Phase::Wait((step + 1) as usize)
                } else {
                    Phase::Progress((step + 1) as usize)
                },
            ),
            Phase::Wait(done) => Some(Phase::Progress(done)),
            Phase::Progress(done) => if answer {
                None
            } else {
                Some(self.from_step(done as int))
            },
            Phase::Finished => Some(Phase::Finished),
        }
    }

    /// Whether a phase is one of this run's.
    pub open spec fn reaches(&self, phase: Phase) -> bool {
        match phase {
            Phase::Opening(step) | Phase::Closing(step) => step < self.steps,
            Phase::Blocks(step) => step < self.steps && !self.cached,
            Phase::FirstBlock(step) => step < self.steps && self.cached,
            Phase::Rest { step, .. } => step < self.steps && self.cached,
            Phase::Wait(done) => 0 < done <= self.steps && self.watched && self.resident,
            Phase::Progress(done) => 0 < done <= self.steps && self.watched,
            Phase::Finished => true,
        }
    }

    /// A run over two schedules, which must be of one length.
    pub fn new(video: usize, audio: usize, cached: bool, resident: bool, watched: bool) -> (result:
        Result<Self>)
        ensures
            if video != audio {
                result matches Err(e) && e matches Error::Other(words) && words@
                    == "the two schedules differ in length"@
            } else {
                result == Ok::<Self, Error>(Walk { steps: video, cached, resident, watched })
            },
    {
        if video != audio {
            return error::other(String::from_str("the two schedules differ in length"));
        }
        Ok(Walk { steps: video, cached, resident, watched })
    }

    /// The first phase.
    pub fn begin(&self) -> (phase: Phase)
        ensures
            phase == self.from_step(0),
            self.reaches(phase),
    {
        if 0 < self.steps {
            Phase::Opening(0)
        } else {
            Phase::Finished
        }
    }

    /// The phase after this one.
    pub fn next(&self, phase: Phase, answer: bool) -> (result: Result<Phase>)
        requires
            self.reaches(phase),
        ensures
            match self.follows(phase, answer) {
                Some(next) => result == Ok::<Phase, Error>(next) && self.reaches(next),
                None => result == Err::<Phase, Error>(Error::Cancelled),
            },
    {
        let done: usize = match phase {
            Phase::Opening(step) => {
                return Ok(
                    if self.cached {
                        Phase::FirstBlock(step)
                    } else {
                        Phase::Blocks(step)
                    },
                );
            },
            Phase::FirstBlock(step) => return Ok(Phase::Rest { step, skip: answer }),
            Phase::Blocks(step) => return Ok(Phase::Closing(step)),
            Phase::Rest { step, .. } => return Ok(Phase::Closing(step)),
            Phase::Closing(step) => {
                if self.watched {
                    return Ok(
                        if self.resident {
                            Phase::Wait(step + 1)
                        } else {
                            Phase::Progress(step + 1)
                        },
                    );
                }
                step + 1
            },
            Phase::Wait(done) => return Ok(Phase::Progress(done)),
            Phase::Progress(done) => {
                match run::after_step(answer) {
                    Err(e) => return Err(e),
                    Ok(_) => {},
                }
                done
            },
            Phase::Finished => return Ok(Phase::Finished),
        };
        Ok(
            if done < self.steps {
                Phase::Opening(done)
            } else {
                Phase::Finished
            },
        )
    }

    /// Whether these are phases of one run, from the first on, each what an answer made of the one before.
    pub open spec fn path(&self, phases: Seq<Phase>, answers: Seq<bool>) -> bool {
        &&& phases.len() == answers.len() + 1
        &&& phases[0] == self.from_step(0)
        &&& forall|i: int|
            0 <= i < answers.len() ==> #[trigger] self.follows(phases[i], answers[i]) == Some(
                phases[i + 1],
            )
    }

    /// How many steps a run has opened by the time it is in a phase.
    pub open spec fn opened(&self, phase: Phase) -> int {
        match phase {
            Phase::Opening(step) => step + 1,
            Phase::Blocks(step) => step + 1,
            Phase::FirstBlock(step) => step + 1,
            Phase::Rest { step, .. } => step + 1,
            Phase::Closing(step) => step + 1,
            Phase::Wait(done) => done as int,
            Phase::Progress(done) => done as int,
            Phase::Finished => self.steps as int,
        }
    }

    /// How many steps a run has closed by the time it is in a phase, that phase itself included.
    pub open spec fn closed(&self, phase: Phase) -> int {
        match phase {
            Phase::Opening(step) => step as int,
            Phase::Blocks(step) => step as int,
            Phase::FirstBlock(step) => step as int,
            Phase::Rest { step, .. } => step as int,
            Phase::Closing(step) => step + 1,
            Phase::Wait(done) => done as int,
            Phase::Progress(done) => done as int,
            Phase::Finished => self.steps as int,
        }
    }
}

/// The steps that were opened, in the order they were.
pub open spec fn openings(phases: Seq<Phase>) -> Seq<usize>
    decreases phases.len(),
{
    if phases.len() == 0 {
        Seq::empty()
    } else {
        match phases.last() {
            Phase::Opening(step) => openings(phases.drop_last()).push(step),
            _ => openings(phases.drop_last()),
        }
    }
}

/// The steps that were closed, in the order they were.
pub open spec fn closings(phases: Seq<Phase>) -> Seq<usize>
    decreases phases.len(),
{
    if phases.len() == 0 {
        Seq::empty()
    } else {
        match phases.last() {
            Phase::Closing(step) => closings(phases.drop_last()).push(step),
            _ => closings(phases.drop_last()),
        }
    }
}

/// The steps from the first up to `n`.
pub open spec fn steps_to(n: int) -> Seq<usize> {
    Seq::new(n as nat, |i: int| i as usize)
}

/// Every phase a run is ever in is one of its own, and by then the steps before it, and no others, have
/// been opened and closed, each once and in order.
pub proof fn law_a_run_takes_its_steps_in_order(walk: Walk, phases: Seq<Phase>, answers: Seq<bool>)
    requires
        walk.path(phases, answers),
    ensures
        walk.reaches(phases.last()),
        openings(phases) == steps_to(walk.opened(phases.last())),
        closings(phases) == steps_to(walk.closed(phases.last())),
    decreases answers.len(),
{
    let last = phases.last();
    let before = phases.drop_last();
    if answers.len() == 0 {
        assert(before =~= Seq::empty());
        assert(openings(before) =~= Seq::empty() && closings(before) =~= Seq::empty());
        assert(openings(phases) =~= steps_to(walk.opened(last)));
        assert(closings(phases) =~= steps_to(walk.closed(last)));
    } else {
        let asked = answers.drop_last();
        assert forall|i: int| 0 <= i < asked.len() implies #[trigger] walk.follows(
            before[i],
            asked[i],
        ) == Some(before[i + 1]) by {
            assert(walk.follows(phases[i], answers[i]) == Some(phases[i + 1]));
        }
        law_a_run_takes_its_steps_in_order(walk, before, asked);
        let k = answers.len() - 1;
        assert(walk.follows(phases[k], answers[k]) == Some(phases[k + 1]));
        assert(before.last() == phases[k] && last == phases[k + 1]);
        assert(openings(phases) =~= steps_to(walk.opened(last)));
        assert(closings(phases) =~= steps_to(walk.closed(last)));
    }
}

/// A run that finishes has opened and closed every step, each once and in order.
pub proof fn law_a_finished_run_took_every_step_once(
    walk: Walk,
    phases: Seq<Phase>,
    answers: Seq<bool>,
)
    requires
        walk.path(phases, answers),
        phases.last() is Finished,
    ensures
        openings(phases) == steps_to(walk.steps as int),
        closings(phases) == steps_to(walk.steps as int),
{
    law_a_run_takes_its_steps_in_order(walk, phases, answers);
}

/// How many phases a run can still go through.
pub open spec fn remaining(walk: Walk, phase: Phase) -> int {
    match phase {
        Phase::Opening(step) => 6 * (walk.steps - step) + 1,
        Phase::Blocks(step) => 6 * (walk.steps - step),
        Phase::FirstBlock(step) => 6 * (walk.steps - step),
        Phase::Rest { step, .. } => 6 * (walk.steps - step) - 1,
        Phase::Closing(step) => 6 * (walk.steps - step) - 2,
        Phase::Wait(done) => 6 * (walk.steps - done) + 3,
        Phase::Progress(done) => 6 * (walk.steps - done) + 2,
        Phase::Finished => 0,
    }
}

/// A run ends: every phase brings it nearer to the end, whatever is answered.
pub proof fn law_a_run_ends(walk: Walk, phase: Phase, answer: bool)
    requires
        walk.reaches(phase),
        !(phase is Finished),
    ensures
        walk.follows(phase, answer) matches Some(next) ==> 0 <= remaining(walk, next) < remaining(
            walk,
            phase,
        ),
{
}

/// A run stops only where its caller asks it to, and then nothing follows.
pub proof fn law_only_a_caller_stops_a_run(walk: Walk, phase: Phase, answer: bool)
    ensures
        walk.follows(phase, answer) is None <==> phase is Progress && answer,
{
}

} // verus!
