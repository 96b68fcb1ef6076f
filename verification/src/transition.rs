//! The requests to the pipelines that bring the player into another state.
use crate::action::{BackendPlaybackState, Pipeline, PipelineState};
use vstd::prelude::*;

verus! {

/// A pipeline has refused a state that the player needed it in.
#[derive(Clone, Copy, Debug, PartialEq, Eq, Structural)]
pub struct StateChangeError;

/// One request to one pipeline.
#[derive(Clone, Copy, Debug, PartialEq, Eq, Structural)]
pub struct StateRequest {
    pub pipeline: Pipeline,
    pub target: PipelineState,
    /// Whether the change as a whole fails if the pipeline refuses.
    pub required: bool,
}

/// The requests that bring the player into `state` while `active` is the active
/// pipeline, in order.
pub open spec fn state_requests(active: Pipeline, state: BackendPlaybackState) -> Seq<StateRequest> {
    match state {
        BackendPlaybackState::Paused => seq![
            StateRequest { pipeline: active, target: PipelineState::Paused, required: true },
            StateRequest { pipeline: active.other(), target: PipelineState::Paused, required: false },
        ],
        BackendPlaybackState::Stopped => seq![
            StateRequest { pipeline: Pipeline::Primary, target: PipelineState::Null, required: true },
            StateRequest { pipeline: Pipeline::Secondary, target: PipelineState::Null, required: true },
        ],
        BackendPlaybackState::Loading => seq![
            StateRequest { pipeline: active, target: PipelineState::Ready, required: true },
        ],
        BackendPlaybackState::Playing => seq![
            StateRequest { pipeline: active, target: PipelineState::Playing, required: true },
        ],
    }
}

/// How far a change of state has come.
pub struct Progress {
    pub requests: Seq<StateRequest>,
    pub answered: int,
    pub failed: bool,
}

impl Progress {
    /// Before the first request.
    pub open spec fn start(requests: Seq<StateRequest>) -> Progress {
        Progress { requests, answered: 0, failed: false }
    }

    /// The request to make next: none once a required one was refused, or after the last.
    pub open spec fn pending(self) -> Option<StateRequest> {
        if self.failed || self.answered >= self.requests.len() {
            None
        } else {
            Some(self.requests[self.answered])
        }
    }

    /// After the answer to the pending request.
    pub open spec fn recorded(self, succeeded: bool) -> Progress {
        Progress {
            answered: self.answered + 1,
            failed: !succeeded && self.requests[self.answered].required,
            ..self
        }
    }

    /// After the pipelines have answered every request that is made, where `answers[i]` is
    /// what they would answer to request `i`.
    pub open spec fn finished(self, answers: Seq<bool>) -> Progress
        decreases self.requests.len() - self.answered,
    {
        if self.pending() is None {
            self
        } else {
            self.recorded(answers[self.answered]).finished(answers)
        }
    }

    /// What the change has come to once nothing is pending.
    pub open spec fn outcome(self) -> Result<(), StateChangeError> {
        if self.failed {
            Err(StateChangeError)
        } else {
            Ok(())
        }
    }
}

/// A change of the player's state under way: the program makes each `next_request` and
/// hands the answer to `record`, until `result` is there.
pub struct StateChange {
    requests: Vec<StateRequest>,
    answered: usize,
    failed: bool,
}

impl View for StateChange {
    type V = Progress;

    closed spec fn view(&self) -> Progress {
        Progress { requests: self.requests@, answered: self.answered as int, failed: self.failed }
    }
}

impl StateChange {
    /// The requests that have been answered are among those to be made.
    #[verifier::type_invariant]
    spec fn well_formed(self) -> bool {
        self.answered <= self.requests@.len()
    }

    /// Starts the change to `state` while `active` is the active pipeline.
    pub fn new(active: Pipeline, state: BackendPlaybackState) -> (r: StateChange)
        ensures
            r@ == Progress::start(state_requests(active, state)),
    {
        let requests: Vec<StateRequest> = match state {
            BackendPlaybackState::Paused => vec![
                StateRequest { pipeline: active, target: PipelineState::Paused, required: true },
                StateRequest {
                    pipeline: active.other(),
                    target: PipelineState::Paused,
                    required: false,
                },
            ],
            BackendPlaybackState::Stopped => vec![
                StateRequest {
                    pipeline: Pipeline::Primary,
                    target: PipelineState::Null,
                    required: true,
                },
                StateRequest {
                    pipeline: Pipeline::Secondary,
                    target: PipelineState::Null,
                    required: true,
                },
            ],
            BackendPlaybackState::Loading => vec![
                StateRequest { pipeline: active, target: PipelineState::Ready, required: true },
            ],
            BackendPlaybackState::Playing => vec![
                StateRequest { pipeline: active, target: PipelineState::Playing, required: true },
            ],
        };
        assert(requests@ =~= state_requests(active, state));
        StateChange { requests, answered: 0, failed: false }
    }

    /// The request to make next, if there is one.
    pub fn next_request(&self) -> (r: Option<StateRequest>)
        ensures
            r == self@.pending(),
    {
        if self.failed || self.answered >= self.requests.len() {
            None
        } else {
            Some(self.requests[self.answered])
        }
    }

    /// Takes the answer to the pending request.
    pub fn record(&mut self, succeeded: bool)
        requires
            old(self)@.pending() is Some,
        ensures
            final(self)@ == old(self)@.recorded(succeeded),
    {
        let total: usize = self.requests.len();
        assert(self.answered < total);
        self.failed = !succeeded && self.requests[self.answered].required;
        self.answered = self.answered + 1;
    }

    /// The result of the change, once no request is pending.
    pub fn result(&self) -> (r: Option<Result<(), StateChangeError>>)
        ensures
            r == (if self@.pending() is Some {
                None
            } else {
                Some(self@.outcome())
            }),
    {
        if self.failed {
            Some(Err(StateChangeError))
        } else if self.answered < self.requests.len() {
            None
        } else {
            Some(Ok(()))
        }
    }
}

proof fn lemma_finished(p: Progress, answers: Seq<bool>)
    requires
        0 <= p.answered <= p.requests.len(),
        answers.len() >= p.requests.len(),
        !p.failed,
    ensures
        ({
            let end = p.finished(answers);
            &&& end.pending() is None
            &&& end.requests == p.requests
            &&& p.answered <= end.answered <= p.requests.len()
            &&& end.failed <==> exists|i: int|
                p.answered <= i < p.requests.len() && #[trigger] p.requests[i].required
                    && !answers[i]
            &&& forall|i: int|
                p.answered <= i < end.answered - 1 && #[trigger] p.requests[i].required
                    ==> answers[i]
            &&& !end.failed ==> end.answered == p.requests.len()
        }),
    decreases p.requests.len() - p.answered,
{
    if p.answered < p.requests.len() {
        let next = p.recorded(answers[p.answered]);
        assert(p.finished(answers) == next.finished(answers));
        if next.failed {
            assert(next.finished(answers) == next);
            assert(p.requests[p.answered].required && !answers[p.answered]);
        } else {
            lemma_finished(next, answers);
        }
    }
}

/// Whatever the pipelines answer, a change of state succeeds exactly if no required
/// request would be refused, and no request is made after a required one was refused.
pub proof fn law_state_change(requests: Seq<StateRequest>, answers: Seq<bool>)
    requires
        answers.len() >= requests.len(),
    ensures
        ({
            let end = Progress::start(requests).finished(answers);
            &&& end.pending() is None
            &&& end.outcome() is Ok <==> forall|i: int|
                0 <= i < requests.len() && #[trigger] requests[i].required ==> answers[i]
            &&& end.outcome() is Ok ==> end.answered == requests.len()
            &&& 0 <= end.answered <= requests.len()
            &&& forall|i: int|
                0 <= i < end.answered - 1 && #[trigger] requests[i].required ==> answers[i]
        }),
{
    lemma_finished(Progress::start(requests), answers);
}

} // verus!
