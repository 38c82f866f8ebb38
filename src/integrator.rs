//! The bounce budget of the recursive light-transport estimator.
//!
//! A camera ray is traced against the world; where it strikes a surface the
//! material either absorbs it or scatters a new ray, which is traced in turn
//! with one bounce less to spend. The colour of the path is the product of
//! the attenuations met on the way, times the colour of how the path ended:
//! black when the budget ran out or a surface absorbed the ray, the sky
//! gradient when a ray left the scene.
//!
//! [`Path`] carries those decisions for one camera sample, one traced ray at a
//! time, and is proved to decide exactly as the recursive estimator
//! [`outcome`] does.
use vstd::prelude::*;

verus! {

/// What tracing one ray against the world reported.
#[derive(Clone, Copy, Debug, PartialEq, Eq, Structural)]
pub enum Event {
    /// The ray left the scene without striking anything.
    Missed,
    /// The ray struck a surface whose material absorbed it.
    Absorbed,
    /// The ray struck a surface and its material sent out a new ray.
    Scattered,
}

/// The colour that closes a path, before the attenuations are applied.
#[derive(Clone, Copy, Debug, PartialEq, Eq, Structural)]
pub enum Terminal {
    /// No light: the bounce budget is spent or a surface absorbed the ray.
    Black,
    /// The background gradient, taken along the last traced ray's direction.
    Sky,
}

/// What the caller does next with the current ray.
#[derive(Clone, Copy, Debug, PartialEq, Eq, Structural)]
pub enum Action {
    /// Trace the current ray against the world and report the result.
    Trace,
    /// The path is over; its colour is the product of the attenuations
    /// gathered so far times the terminal colour.
    Finish(Terminal),
}

/// Recursive estimator with a budget of `depth` bounces, fed by `reports`,
/// the successive results of tracing. The result is the terminal colour and
/// the number of attenuations multiplied into it, or `None` where the reports
/// end before the path does.
pub open spec fn outcome(depth: int, reports: Seq<Event>) -> Option<(Terminal, nat)>
    decreases reports.len(),
{
    if depth <= 0 {
        Some((Terminal::Black, 0))
    } else if reports.len() == 0 {
        None
    } else {
        match reports[0] {
            Event::Missed => Some((Terminal::Sky, 0)),
            Event::Absorbed => Some((Terminal::Black, 0)),
            Event::Scattered => after_bounces(outcome(depth - 1, reports.drop_first()), 1),
        }
    }
}

/// An outcome seen from `n` bounces earlier on the same path.
pub open spec fn after_bounces(o: Option<(Terminal, nat)>, n: nat) -> Option<(Terminal, nat)> {
    match o {
        Some((t, b)) => Some((t, b + n)),
        None => None,
    }
}

/// The decisions of the estimator for one camera sample.
pub struct Path {
    /// The bounce budget the path started with.
    pub max_depth: i32,
    /// Bounces left to spend.
    pub remaining: i32,
    /// Attenuations gathered so far: one per scattering.
    pub bounces: u32,
    /// How the path ended, once it has.
    pub finished: Option<Terminal>,
    /// Every report received so far.
    pub reports: Ghost<Seq<Event>>,
}

impl Path {
    /// While the path runs every report was a scattering and each one spent a
    /// bounce; once it is over, the recursive estimator agrees with it.
    pub open spec fn wf(&self) -> bool {
        match self.finished {
            None => {
                &&& self.remaining > 0
                &&& self.remaining == self.max_depth - self.bounces
                &&& self.reports@.len() == self.bounces
                &&& forall|i: int|
                    0 <= i < self.reports@.len() ==> #[trigger] self.reports@[i] == Event::Scattered
            },
            Some(t) => outcome(self.max_depth as int, self.reports@) == Some((t, self.bounces as nat)),
        }
    }

    /// The action that the path asks for in this state.
    pub open spec fn action_spec(&self) -> Action {
        match self.finished {
            None => Action::Trace,
            Some(t) => Action::Finish(t),
        }
    }

    /// Starts a path with a budget of `max_depth` bounces. A budget of zero or
    /// less ends the path at once in black.
    pub fn new(max_depth: i32) -> (p: Path)
        ensures
            p.wf(),
            p.max_depth == max_depth,
            p.remaining == max_depth,
            p.bounces == 0,
            p.reports@ == Seq::<Event>::empty(),
            p.finished == (if max_depth <= 0 {
                Some(Terminal::Black)
            } else {
                None::<Terminal>
            }),
    {
        let finished = if max_depth <= 0 {
            Some(Terminal::Black)
        } else {
            None
        };
        Path {
            max_depth,
            remaining: max_depth,
            bounces: 0,
            finished,
            reports: Ghost(Seq::empty()),
        }
    }

    /// What the caller does next.
    pub fn action(&self) -> (a: Action)
        ensures
            a == self.action_spec(),
    {
        match self.finished {
            None => Action::Trace,
            Some(t) => Action::Finish(t),
        }
    }

    /// Takes the report of the ray just traced and says what comes next.
    /// A miss ends the path in the sky colour, an absorption in black; a
    /// scattering gathers one attenuation and spends one bounce, and ends the
    /// path in black when no bounce is left.
    pub fn advance(&mut self, e: Event) -> (a: Action)
        requires
            old(self).wf(),
            old(self).finished is None,
        ensures
            final(self).wf(),
            a == final(self).action_spec(),
            final(self).max_depth == old(self).max_depth,
            final(self).reports@ == old(self).reports@.push(e),
            final(self).finished == (match e {
                Event::Missed => Some(Terminal::Sky),
                Event::Absorbed => Some(Terminal::Black),
                Event::Scattered => if old(self).remaining > 1 {
                    None::<Terminal>
                } else {
                    Some(Terminal::Black)
                },
            }),
            final(self).bounces == (if e == Event::Scattered {
                old(self).bounces + 1
            } else {
                old(self).bounces as int
            }),
            final(self).remaining == (if e == Event::Scattered {
                old(self).remaining - 1
            } else {
                old(self).remaining as int
            }),
    {
        let ghost before = self.reports@;
        proof {
            lemma_outcome_after_scatters(self.max_depth as int, before, seq![e]);
            assert(before + seq![e] =~= before.push(e));
            assert(seq![e].drop_first() =~= Seq::<Event>::empty());
            assert(seq![e][0] == e);
            let d = self.remaining as int;
            assert(outcome(d - 1, Seq::<Event>::empty()) == if d - 1 <= 0 {
                Some((Terminal::Black, 0nat))
            } else {
                None
            });
        }
        self.reports = Ghost(before.push(e));
        match e {
            Event::Missed => {
                self.finished = Some(Terminal::Sky);
            },
            Event::Absorbed => {
                self.finished = Some(Terminal::Black);
            },
            Event::Scattered => {
                self.bounces = self.bounces + 1;
                self.remaining = self.remaining - 1;
                if self.remaining <= 0 {
                    self.finished = Some(Terminal::Black);
                } else {
                    proof {
                        assert forall|i: int| 0 <= i < self.reports@.len() implies #[trigger] self.reports@[i]
                            == Event::Scattered by {
                            if i < before.len() {
                                assert(self.reports@[i] == before[i]);
                            }
                        }
                    }
                }
            },
        }
        self.action()
    }
}

/// Bounces taken before the rest of the reports shift the outcome by their
/// number and spend as much of the budget.
proof fn lemma_outcome_after_scatters(depth: int, s: Seq<Event>, r: Seq<Event>)
    requires
        depth > s.len(),
        forall|i: int| 0 <= i < s.len() ==> #[trigger] s[i] == Event::Scattered,
    ensures
        outcome(depth, s + r) == after_bounces(outcome(depth - s.len(), r), s.len()),
    decreases s.len(),
{
    if s.len() == 0 {
        assert(s + r =~= r);
        match outcome(depth, r) {
            Some((t, b)) => {},
            None => {},
        }
    } else {
        let rest = s.drop_first();
        assert forall|i: int| 0 <= i < rest.len() implies #[trigger] rest[i] == Event::Scattered by {
            assert(rest[i] == s[i + 1]);
        }
        lemma_outcome_after_scatters(depth - 1, rest, r);
        assert((s + r).drop_first() =~= rest + r);
        assert((s + r)[0] == s[0]);
    }
}

/// The bounces of a finished path never exceed its budget: every attenuation
/// gathered spent one bounce.
pub proof fn lemma_bounces_within_budget(depth: int, reports: Seq<Event>)
    requires
        outcome(depth, reports) is Some,
    ensures
        outcome(depth, reports).unwrap().1 <= if depth <= 0 {
            0
        } else {
            depth
        },
    decreases reports.len(),
{
    if depth > 0 && reports.len() > 0 && reports[0] == Event::Scattered {
        lemma_bounces_within_budget(depth - 1, reports.drop_first());
    }
}

} // verus!
