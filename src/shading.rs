use vstd::prelude::*;

verus! {

/// The bounce depth at which a light path is cut off and contributes black.
pub const MAX_DEPTH: usize = 50;

/// What tracing one ray against the world gave.
#[derive(Clone, Copy, PartialEq, Eq, Structural, Debug)]
pub enum Event {
    /// The ray hit nothing: it sees the background.
    Missed,
    /// The ray hit an object whose material absorbed it.
    Absorbed,
    /// The ray hit an object whose material sent out a new ray.
    Scattered,
}

/// Where a light path stands in the shading loop.
#[derive(Clone, Copy, PartialEq, Eq, Structural, Debug)]
pub enum PathState {
    /// A ray at this bounce depth is still to be traced.
    Tracing { depth: usize },
    /// The depth limit was reached: the path contributes black.
    CutOff,
    /// A material absorbed the ray: the path contributes black.
    Absorbed,
    /// The ray left the scene: the path contributes the background seen
    /// along it, times the attenuation gathered on the way.
    Escaped,
}

/// The state of a path whose next ray is at `depth`.
pub open spec fn start_spec(depth: nat) -> PathState {
    if depth >= MAX_DEPTH {
        PathState::CutOff
    } else {
        PathState::Tracing { depth: depth as usize }
    }
}

/// The state after tracing the current ray gave `e`; a finished path stays
/// as it is.
pub open spec fn step_spec(s: PathState, e: Event) -> PathState {
    match s {
        PathState::Tracing { depth } => match e {
            Event::Missed => PathState::Escaped,
            Event::Absorbed => PathState::Absorbed,
            Event::Scattered => start_spec((depth + 1) as nat),
        },
        _ => s,
    }
}

/// The state after the events `es`, one per traced ray, in order.
pub open spec fn run_spec(s: PathState, es: Seq<Event>) -> PathState
    decreases es.len(),
{
    if es.len() == 0 {
        s
    } else {
        run_spec(step_spec(s, es[0]), es.drop_first())
    }
}

impl PathState {
    /// A path whose first ray is at `depth`: at the depth limit or beyond
    /// it is cut off before anything is traced.
    pub fn start(depth: usize) -> (r: PathState)
        ensures
            r == start_spec(depth as nat),
    {
        if depth >= MAX_DEPTH {
            PathState::CutOff
        } else {
            PathState::Tracing { depth }
        }
    }

    /// The path after tracing its current ray gave `e`.
    pub fn advance(self, e: Event) -> (r: PathState)
        ensures
            r == step_spec(self, e),
    {
        match self {
            PathState::Tracing { depth } => match e {
                Event::Missed => PathState::Escaped,
                Event::Absorbed => PathState::Absorbed,
                Event::Scattered => {
                    if depth >= MAX_DEPTH - 1 {
                        PathState::CutOff
                    } else {
                        PathState::Tracing { depth: depth + 1 }
                    }
                },
            },
            _ => self,
        }
    }

    /// Whether the path is over and contributes black.
    pub fn is_black(&self) -> (r: bool)
        ensures
            r == (*self is CutOff || *self is Absorbed),
    {
        match self {
            PathState::CutOff | PathState::Absorbed => true,
            _ => false,
        }
    }
}

/// A finished path stays finished, whatever comes after.
pub proof fn lemma_finished_stays(s: PathState, es: Seq<Event>)
    requires
        !(s is Tracing),
    ensures
        run_spec(s, es) == s,
    decreases es.len(),
{
    if es.len() > 0 {
        lemma_finished_stays(s, es.drop_first());
    }
}

/// A path started at the depth limit or beyond is black, whatever the
/// world would have answered.
pub proof fn lemma_cut_off_at_max_depth(depth: nat, es: Seq<Event>)
    requires
        depth >= MAX_DEPTH,
    ensures
        run_spec(start_spec(depth), es) == PathState::CutOff,
{
    lemma_finished_stays(PathState::CutOff, es);
}

/// A path started at `depth` is over after at most `MAX_DEPTH - depth`
/// traced rays, whatever each of them gave.
pub proof fn lemma_path_ends(depth: nat, es: Seq<Event>)
    requires
        es.len() >= MAX_DEPTH - depth,
    ensures
        !(run_spec(start_spec(depth), es) is Tracing),
    decreases es.len(),
{
    let s = start_spec(depth);
    if !(s is Tracing) {
        lemma_finished_stays(s, es);
    } else {
        let next = step_spec(s, es[0]);
        if next is Tracing {
            assert(next == start_spec(depth + 1));
            lemma_path_ends(depth + 1, es.drop_first());
        } else {
            lemma_finished_stays(next, es.drop_first());
        }
    }
}

} // verus!
