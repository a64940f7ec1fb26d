//! The course of one light path.
//!
//! A path is traced by turns.  The tracer is told what to do next, does it,
//! and answers with what it found; from the answer the next thing to do
//! follows.  Nothing here touches radiance: the answers carry the outcome of
//! every comparison that the course depends on.

use vstd::prelude::*;

verus! {

/// Bounces after which a path may be ended by chance.
pub const ROULETTE_AFTER: usize = 3;

/// What the tracer does next.
#[derive(Copy, Clone, Debug, PartialEq, Eq, Structural)]
pub enum Action {
    /// Cast the current ray into the scene and look for the surface it
    /// interacts with.
    Cast,
    /// Add the surface's own light and the direct light of every lamp; if
    /// `indirect`, also pick the next ray and weigh the path by the surface.
    Shade { indirect: bool },
    /// Play Russian roulette on the path's weight.
    Gamble,
    /// Add the background seen through the path, then return.
    Background,
    /// Return what the path has gathered.
    Return,
}

/// What the tracer found.
#[derive(Copy, Clone, Debug, PartialEq, Eq, Structural)]
pub enum Answer {
    /// Whether the ray met a surface that was taken as opaque.
    Surface { found: bool },
    /// Whether the path's weight has become negligible.
    Shaded { faint: bool },
    /// Whether the roulette ended the path.
    Gambled { stopped: bool },
}

/// Where a path stands.
#[derive(Copy, Clone, Debug, PartialEq, Eq, Structural)]
pub struct Path {
    /// Indirect bounces allowed after the first surface.
    pub bounces: usize,
    /// Surfaces met so far.
    pub bounce: usize,
    /// What the tracer has been told to do.
    pub pending: Action,
}

impl Path {
    /// The path is within its allowance, and shading is told to continue
    /// exactly while bounces are left.
    pub open spec fn wf(self) -> bool {
        &&& self.bounce <= self.bounces
        &&& self.pending matches Action::Shade { indirect } ==> indirect == (self.bounce
            < self.bounces)
    }

    /// Whether `answer` is an answer to what is pending.
    pub open spec fn expects(self, answer: Answer) -> bool {
        match (self.pending, answer) {
            (Action::Cast, Answer::Surface { .. }) => true,
            (Action::Shade { .. }, Answer::Shaded { .. }) => true,
            (Action::Gamble, Answer::Gambled { .. }) => true,
            _ => false,
        }
    }

    /// The path after one more surface: the next cast while bounces are
    /// left, else the end.
    pub open spec fn onward(self) -> Path {
        if self.bounce < self.bounces {
            Path { bounce: (self.bounce + 1) as usize, pending: Action::Cast, ..self }
        } else {
            Path { pending: Action::Return, ..self }
        }
    }

    /// The path after `answer`.  An answer to something that is not pending
    /// changes nothing.
    pub open spec fn next(self, answer: Answer) -> Path {
        match (self.pending, answer) {
            (Action::Cast, Answer::Surface { found }) => if found {
                Path { pending: Action::Shade { indirect: self.bounce < self.bounces }, ..self }
            } else {
                Path { pending: Action::Background, ..self }
            },
            (Action::Shade { .. }, Answer::Shaded { faint }) => if faint {
                Path { pending: Action::Return, ..self }
            } else if self.bounce > ROULETTE_AFTER {
                Path { pending: Action::Gamble, ..self }
            } else {
                self.onward()
            },
            (Action::Gamble, Answer::Gambled { stopped }) => if stopped {
                Path { pending: Action::Return, ..self }
            } else {
                self.onward()
            },
            _ => self,
        }
    }

    /// A fresh path, about to cast its camera ray.
    pub fn start(bounces: usize) -> (path: Path)
        ensures
            path == (Path { bounces, bounce: 0, pending: Action::Cast }),
            path.wf(),
    {
        Path { bounces, bounce: 0, pending: Action::Cast }
    }

    /// Whether the path has come to its end.
    pub fn is_over(&self) -> (over: bool)
        ensures
            over == (self.pending is Background || self.pending is Return),
    {
        match self.pending {
            Action::Background => true,
            Action::Return => true,
            _ => false,
        }
    }

    /// Takes the tracer's answer and tells what to do next.
    pub fn advance(&mut self, answer: Answer) -> (action: Action)
        requires
            old(self).wf(),
        ensures
            *final(self) == old(self).next(answer),
            action == final(self).pending,
            final(self).wf(),
    {
        match (self.pending, answer) {
            (Action::Cast, Answer::Surface { found }) => {
                if found {
                    self.pending = Action::Shade { indirect: self.bounce < self.bounces };
                } else {
                    self.pending = Action::Background;
                }
            },
            (Action::Shade { .. }, Answer::Shaded { faint }) => {
                if faint {
                    self.pending = Action::Return;
                } else if self.bounce > ROULETTE_AFTER {
                    self.pending = Action::Gamble;
                } else {
                    self.go_on();
                }
            },
            (Action::Gamble, Answer::Gambled { stopped }) => {
                if stopped {
                    self.pending = Action::Return;
                } else {
                    self.go_on();
                }
            },
            _ => {},
        }
        self.pending
    }

    fn go_on(&mut self)
        requires
            old(self).bounce <= old(self).bounces,
        ensures
            *final(self) == old(self).onward(),
    {
        if self.bounce < self.bounces {
            self.bounce = self.bounce + 1;
            self.pending = Action::Cast;
        } else {
            self.pending = Action::Return;
        }
    }
}

/// The path after a run of answers.
pub open spec fn after(path: Path, answers: Seq<Answer>) -> Path
    decreases answers.len(),
{
    if answers.len() == 0 {
        path
    } else {
        after(path.next(answers[0]), answers.drop_first())
    }
}

/// Whether `answer` makes the path cast a further ray.
pub open spec fn casts_again(path: Path, answer: Answer) -> bool {
    path.expects(answer) && path.next(answer).pending is Cast
}

/// How many further rays a path casts through a run of answers.
pub open spec fn casts(path: Path, answers: Seq<Answer>) -> nat
    decreases answers.len(),
{
    if answers.len() == 0 {
        0
    } else {
        let now: nat = if casts_again(path, answers[0]) {
            1
        } else {
            0
        };
        now + casts(path.next(answers[0]), answers.drop_first())
    }
}

/// A path stays within its allowance, whatever the tracer answers.
pub proof fn lemma_path_stays_valid(path: Path, answers: Seq<Answer>)
    requires
        path.wf(),
    ensures
        after(path, answers).wf(),
        after(path, answers).bounces == path.bounces,
    decreases answers.len(),
{
    if answers.len() > 0 {
        lemma_path_stays_valid(path.next(answers[0]), answers.drop_first());
    }
}

/// From where it stands, a path casts at most one further ray for each bounce
/// it has left.
pub proof fn lemma_casts_left(path: Path, answers: Seq<Answer>)
    requires
        path.wf(),
    ensures
        casts(path, answers) <= path.bounces - path.bounce,
    decreases answers.len(),
{
    if answers.len() > 0 {
        let then = path.next(answers[0]);
        assert(then.wf());
        lemma_casts_left(then, answers.drop_first());
    }
}

/// A path of `bounces` bounces meets at most `bounces + 1` surfaces: after
/// its camera ray it casts at most `bounces` further rays.
pub proof fn lemma_bounce_limit(bounces: usize, answers: Seq<Answer>)
    ensures
        1 + casts(Path { bounces, bounce: 0, pending: Action::Cast }, answers) <= bounces + 1,
{
    lemma_casts_left(Path { bounces, bounce: 0, pending: Action::Cast }, answers);
}

/// A path that has ended stays ended and casts no more rays.
pub proof fn lemma_over_is_final(path: Path, answers: Seq<Answer>)
    requires
        path.pending is Background || path.pending is Return,
    ensures
        after(path, answers) == path,
        casts(path, answers) == 0,
    decreases answers.len(),
{
    if answers.len() > 0 {
        lemma_over_is_final(path.next(answers[0]), answers.drop_first());
    }
}

} // verus!
