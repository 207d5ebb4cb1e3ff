//! The link walk as a state machine: the caller performs each requested
//! filesystem query and hands the answer back.
use vstd::prelude::*;

use crate::path::{absolute, absolute_of, joined, join, normal_form, normalize, parent, parent_dir};

verus! {

/// Link reads allowed when the caller names no bound of its own.
pub const DEFAULT_MAX_HOPS: u64 = 50;

/// Why a walk failed.
#[derive(Clone, Copy, Debug, PartialEq, Eq, Structural)]
pub enum ResolveError {
    /// A link could not be read: not a link, missing, or not permitted.
    Io,
    /// More link reads were needed than the bound allows (a cycle, or a
    /// chain too long to tell from one).
    HopLimitExceeded,
}

/// What the walk waits for next.
#[derive(Clone, Copy, Debug, PartialEq, Eq, Structural)]
pub enum Phase {
    /// The target stored in a link.
    AwaitLink,
    /// Whether a path names a link.
    AwaitCheck,
    /// Nothing: the walk is over.
    Finished,
}

/// What the caller is asked to do next.
#[derive(Debug)]
pub enum Step {
    /// Read the target stored in the link at this path.
    ReadLink(Vec<u8>),
    /// Tell whether this path names a link.
    CheckSymlink(Vec<u8>),
    /// The walk is over, with this result.
    Done(Result<Vec<u8>, ResolveError>),
}

pub enum StepView {
    ReadLink(Seq<u8>),
    CheckSymlink(Seq<u8>),
    Done(Result<Seq<u8>, ResolveError>),
}

pub open spec fn result_view(r: Result<Vec<u8>, ResolveError>) -> Result<Seq<u8>, ResolveError> {
    match r {
        Ok(p) => Ok(p@),
        Err(e) => Err(e),
    }
}

impl View for Step {
    type V = StepView;

    open spec fn view(&self) -> StepView {
        match self {
            Step::ReadLink(p) => StepView::ReadLink(p@),
            Step::CheckSymlink(p) => StepView::CheckSymlink(p@),
            Step::Done(r) => StepView::Done(result_view(*r)),
        }
    }
}

/// A path whose link chain is to be followed.
pub struct ReadLink {
    input_path: Vec<u8>,
}

impl View for ReadLink {
    type V = Seq<u8>;

    closed spec fn view(&self) -> Seq<u8> {
        self.input_path@
    }
}

/// The state of one walk.
pub struct Resolver {
    anchor: Vec<u8>,
    current: Vec<u8>,
    hops: u64,
    max_hops: u64,
    phase: Phase,
}

pub struct ResolverView {
    /// The directory against which a relative target is read.
    pub anchor: Seq<u8>,
    /// The path to read (awaiting a link) or to check (awaiting a check).
    pub current: Seq<u8>,
    /// Link reads done so far.
    pub hops: nat,
    pub max_hops: nat,
    pub phase: Phase,
}

impl View for Resolver {
    type V = ResolverView;

    closed spec fn view(&self) -> ResolverView {
        ResolverView {
            anchor: self.anchor@,
            current: self.current@,
            hops: self.hops as nat,
            max_hops: self.max_hops as nat,
            phase: self.phase,
        }
    }
}

/// The hop count never passes the bound.
pub open spec fn view_wf(v: ResolverView) -> bool {
    v.hops <= v.max_hops
}

pub open spec fn finished(v: ResolverView) -> ResolverView {
    ResolverView { phase: Phase::Finished, ..v }
}

/// The state and request at the start of a walk from `input`.
pub open spec fn start_step(input: Seq<u8>, cwd: Seq<u8>, max_hops: nat) -> (ResolverView, StepView) {
    let v = ResolverView {
        anchor: parent_dir(absolute_of(cwd, input)),
        current: input,
        hops: 0,
        max_hops,
        phase: Phase::AwaitLink,
    };
    if input.len() == 0 {
        (finished(v), StepView::Done(Err(ResolveError::Io)))
    } else {
        (v, StepView::ReadLink(input))
    }
}

/// The state and request after the link at `v.current` was read
/// (`None`: the read failed).
pub open spec fn read_step(v: ResolverView, target: Option<Seq<u8>>) -> (ResolverView, StepView) {
    match target {
        None => (finished(v), StepView::Done(Err(ResolveError::Io))),
        Some(t) => if v.hops >= v.max_hops {
            (finished(v), StepView::Done(Err(ResolveError::HopLimitExceeded)))
        } else {
            let cur = normal_form(joined(v.anchor, t));
            (
                ResolverView { current: cur, hops: v.hops + 1, phase: Phase::AwaitCheck, ..v },
                StepView::CheckSymlink(cur),
            )
        },
    }
}

/// The state and request once it is known whether `v.current` is a link.
pub open spec fn check_step(v: ResolverView, is_link: bool) -> (ResolverView, StepView) {
    if !is_link {
        (finished(v), StepView::Done(Ok(normal_form(v.current))))
    } else {
        (
            ResolverView { anchor: parent_dir(v.current), phase: Phase::AwaitLink, ..v },
            StepView::ReadLink(v.current),
        )
    }
}

/// Bounds the number of steps left in a walk.
pub open spec fn steps_left(v: ResolverView) -> nat {
    match v.phase {
        Phase::AwaitLink => (2 * (v.max_hops - v.hops) + 2) as nat,
        Phase::AwaitCheck => (2 * (v.max_hops - v.hops) + 3) as nat,
        Phase::Finished => 0,
    }
}

impl ReadLink {
    /// A walk request for `path`.
    pub fn from(path: &Vec<u8>) -> (r: Self)
        ensures
            r@ == path@,
    {
        ReadLink { input_path: path.clone() }
    }

    /// A walk request for `path`; `self` is left as it was.
    pub fn new(&mut self, path: &Vec<u8>) -> (r: Self)
        ensures
            r@ == path@,
            final(self)@ == old(self)@,
    {
        ReadLink { input_path: path.clone() }
    }

    /// The path whose chain is followed.
    pub fn input_path(&self) -> (r: &Vec<u8>)
        ensures
            r@ == self@,
    {
        &self.input_path
    }

    /// Starts a walk, with `cwd` the working directory and at most
    /// `max_hops` link reads. The first request always reads the input
    /// itself; an empty input fails at once.
    pub fn start(&self, cwd: &Vec<u8>, max_hops: u64) -> (r: (Resolver, Step))
        ensures
            (r.0@, r.1@) == start_step(self@, cwd@, max_hops as nat),
            view_wf(r.0@),
    {
        let base = absolute(cwd, &self.input_path);
        let anchor = parent(&base);
        let phase = if self.input_path.len() == 0 {
            Phase::Finished
        } else {
            Phase::AwaitLink
        };
        let res = Resolver { anchor, current: self.input_path.clone(), hops: 0, max_hops, phase };
        if self.input_path.len() == 0 {
            (res, Step::Done(Err(ResolveError::Io)))
        } else {
            (res, Step::ReadLink(self.input_path.clone()))
        }
    }
}

impl Resolver {
    pub fn phase(&self) -> (r: Phase)
        ensures
            r == self@.phase,
    {
        self.phase
    }

    pub fn hops(&self) -> (r: u64)
        ensures
            r == self@.hops,
    {
        self.hops
    }

    pub fn max_hops(&self) -> (r: u64)
        ensures
            r == self@.max_hops,
    {
        self.max_hops
    }

    /// Takes the target read from the link at the requested path, or `None`
    /// where the read failed.
    pub fn on_link_read(&mut self, target: Option<Vec<u8>>) -> (r: Step)
        requires
            old(self)@.phase == Phase::AwaitLink,
            view_wf(old(self)@),
        ensures
            (final(self)@, r@) == read_step(old(self)@, match target {
                Some(t) => Some(t@),
                None => None,
            }),
            view_wf(final(self)@),
            steps_left(final(self)@) < steps_left(old(self)@),
    {
        match target {
            None => {
                self.phase = Phase::Finished;
                Step::Done(Err(ResolveError::Io))
            },
            Some(t) => {
                if self.hops >= self.max_hops {
                    self.phase = Phase::Finished;
                    Step::Done(Err(ResolveError::HopLimitExceeded))
                } else {
                    let cur = normalize(&join(&self.anchor, &t));
                    self.current = cur.clone();
                    self.hops = self.hops + 1;
                    self.phase = Phase::AwaitCheck;
                    Step::CheckSymlink(cur)
                }
            },
        }
    }

    /// Takes whether the requested path names a link.
    pub fn on_symlink_checked(&mut self, is_link: bool) -> (r: Step)
        requires
            old(self)@.phase == Phase::AwaitCheck,
            view_wf(old(self)@),
        ensures
            (final(self)@, r@) == check_step(old(self)@, is_link),
            view_wf(final(self)@),
            steps_left(final(self)@) < steps_left(old(self)@),
    {
        if !is_link {
            self.phase = Phase::Finished;
            Step::Done(Ok(normalize(&self.current)))
        } else {
            self.anchor = parent(&self.current);
            self.phase = Phase::AwaitLink;
            Step::ReadLink(self.current.clone())
        }
    }
}

} // verus!
