//! The path-following agent: an explicit state machine that plans lazily,
//! walks its path step by step, and holds still when no path exists.

use crate::geometry::{
    dist_sq, distance_squared, lemma_ceil_sqrt_bounds, lemma_dist_sq_nonnegative, Point3,
};
use crate::mesh::{MeshModel, Navmesh, PathError};
use crate::motion::{
    advance, advanced, budget, left_over, lemma_advanced_bounded, lemma_advanced_closer, reach,
    step_for, step_length,
};
use crate::path::{lemma_path_answers, lemma_path_ends};
use vstd::prelude::*;

verus! {

/// Why an agent could not be updated.
#[derive(Clone, Copy, Debug, PartialEq, Eq, Structural)]
pub enum AgentError {
    /// Planning the path failed; the agent is stuck.
    Planning(PathError),
}

/// What an agent is doing.
#[derive(Debug)]
pub enum AgentState {
    /// No path; at rest.
    Idle,
    /// Walking towards waypoint `cursor` of `path`.
    Following { path: Vec<Point3>, cursor: usize },
    /// The last plan failed with `cause`, `waited` milliseconds ago.
    Stuck { cause: PathError, waited: u32 },
}

/// The mathematical content of an agent's state.
pub enum Progress {
    Idle,
    Following { path: Seq<Point3>, cursor: int },
    Stuck { cause: PathError, waited: int },
}

impl View for AgentState {
    type V = Progress;

    open spec fn view(&self) -> Progress {
        match self {
            AgentState::Idle => Progress::Idle,
            AgentState::Following { path, cursor } => Progress::Following {
                path: path@,
                cursor: *cursor as int,
            },
            AgentState::Stuck { cause, waited } => Progress::Stuck {
                cause: *cause,
                waited: *waited as int,
            },
        }
    }
}

/// The mathematical content of an agent.
pub struct AgentModel {
    pub position: Point3,
    pub target: Point3,
    /// The target that the last plan was made for.
    pub planned_target: Point3,
    /// Grid units per second.
    pub speed: u32,
    /// The target has moved too far from the planned target: plan again.
    pub stale: bool,
    pub progress: Progress,
    /// How far the target may move from the planned target before the path is stale.
    pub replan_threshold: u32,
    /// How near a waypoint counts as reached.
    pub arrival_tolerance: u32,
    /// Milliseconds a stuck agent waits before it plans again on its own.
    pub retry_interval: u32,
    /// Thousandths of a grid unit that the steps so far have left over.
    pub carry: u32,
}

impl AgentModel {
    /// The cursor of a following agent points into its path; what is left
    /// over is less than a grid unit, and nothing while the agent is at rest.
    pub open spec fn wf(self) -> bool {
        match self.progress {
            Progress::Idle => self.carry == 0,
            Progress::Following { path, cursor } => 0 <= cursor < path.len() && self.carry < 1000,
            Progress::Stuck { cause, waited } => 0 <= waited <= u32::MAX && self.carry == 0,
        }
    }

    /// The length of the step that one tick of `dt` milliseconds allows:
    /// the whole grid units in what the agent has left over and what the
    /// tick adds at the agent's speed.
    pub open spec fn step(self, dt: u32) -> int {
        step_length(self.carry, self.speed, dt)
    }

    /// `p` is within the arrival tolerance of `wp`.
    pub open spec fn arrived(self, p: Point3, wp: Point3) -> bool {
        dist_sq(p, wp) <= self.arrival_tolerance * self.arrival_tolerance
    }

    /// The agent after its target has been set to `t`.
    pub open spec fn retarget(self, t: Point3) -> AgentModel {
        AgentModel {
            target: t,
            stale: self.stale || dist_sq(t, self.planned_target) > self.replan_threshold
                * self.replan_threshold,
            ..self
        }
    }

    /// The next tick has to plan: the path is stale or absent, or a stuck
    /// agent has waited long enough.
    pub open spec fn needs_plan(self, dt: u32) -> bool {
        self.stale || match self.progress {
            Progress::Idle => true,
            Progress::Following { path, cursor } => false,
            Progress::Stuck { cause, waited } => waited + dt >= self.retry_interval,
        }
    }

    /// The agent after it has taken the answer to its path query.
    pub open spec fn planned(self, answer: Result<Seq<Point3>, PathError>) -> AgentModel {
        match answer {
            Ok(path) => AgentModel {
                progress: Progress::Following { path, cursor: 1 },
                stale: false,
                planned_target: self.target,
                ..self
            },
            Err(cause) => AgentModel {
                progress: Progress::Stuck { cause, waited: 0 },
                stale: false,
                planned_target: self.target,
                carry: 0,
                ..self
            },
        }
    }

    /// The agent after a tick of `dt` milliseconds that does not plan: a
    /// following agent steps towards its waypoint and moves on to the next
    /// one, or comes to rest, once it is near enough; a stuck agent waits.
    /// What the step leaves over of a grid unit is kept for the next tick,
    /// unless the agent comes to rest.
    pub open spec fn follow(self, dt: u32) -> AgentModel {
        match self.progress {
            Progress::Idle => self,
            Progress::Stuck { cause, waited } => AgentModel {
                progress: Progress::Stuck { cause, waited: waited + dt },
                ..self
            },
            Progress::Following { path, cursor } => {
                let wp = path[cursor];
                let p = advanced(self.position, wp, self.step(dt));
                let rest = left_over(self.carry, self.speed, dt) as u32;
                if !self.arrived(p, wp) {
                    AgentModel { position: p, carry: rest, ..self }
                } else if cursor + 1 < path.len() {
                    AgentModel {
                        position: p,
                        progress: Progress::Following { path, cursor: cursor + 1 },
                        carry: rest,
                        ..self
                    }
                } else {
                    AgentModel { position: p, progress: Progress::Idle, carry: 0, ..self }
                }
            },
        }
    }

    /// The agent after a tick of `dt` milliseconds, given the answer to the
    /// path query that the tick makes if it has to plan.
    pub open spec fn tick(self, dt: u32, answer: Result<Seq<Point3>, PathError>) -> AgentModel {
        if self.needs_plan(dt) {
            match answer {
                Ok(path) => self.planned(answer).follow(dt),
                Err(cause) => self.planned(answer),
            }
        } else {
            self.follow(dt)
        }
    }

    /// What a tick that does not plan reports: the failure of the last plan
    /// while the agent is stuck.
    pub open spec fn held(self) -> Result<(), AgentError> {
        match self.progress {
            Progress::Stuck { cause, waited } => Err(AgentError::Planning(cause)),
            _ => Ok(()),
        }
    }

    /// What a tick reports: the failure of its plan, or of the last plan
    /// while the agent is stuck.
    pub open spec fn outcome(self, dt: u32, answer: Result<Seq<Point3>, PathError>) -> Result<(), AgentError> {
        if self.needs_plan(dt) {
            match answer {
                Ok(path) => Ok(()),
                Err(cause) => Err(AgentError::Planning(cause)),
            }
        } else {
            self.held()
        }
    }

    /// The agent after `ticks` ticks on the mesh `m`, each of which plans
    /// where it has to.
    pub open spec fn ticks_on(self, m: MeshModel, dt: u32, ticks: nat) -> AgentModel
        decreases ticks,
    {
        if ticks == 0 {
            self
        } else {
            self.tick(dt, m.path(self.position, self.target)).ticks_on(m, dt, (ticks - 1) as nat)
        }
    }

    /// `q` is a point at which the agent may stand when it plans next: the
    /// end of the path that it follows, within the arrival tolerance, or
    /// where it stands now if it has to plan before it moves.
    pub open spec fn plans_from(self, q: Point3) -> bool {
        match self.progress {
            Progress::Following { path, cursor } => if self.stale {
                q == self.position
            } else {
                self.arrived(q, path.last())
            },
            _ => q == self.position,
        }
    }

    /// The agent after `ticks` ticks that do not plan.
    pub open spec fn run(self, dt: u32, ticks: nat) -> AgentModel
        decreases ticks,
    {
        if ticks == 0 {
            self
        } else {
            self.follow(dt).run(dt, (ticks - 1) as nat)
        }
    }
}

/// A tick that does not plan moves the agent by no more than the step, and
/// the step and what is left over after it are covered by what was left
/// over before and what the tick adds.
pub proof fn lemma_follow_bounded(a: AgentModel, dt: u32)
    requires
        a.wf(),
    ensures
        a.follow(dt).wf() || a.progress is Stuck,
        dist_sq(a.follow(dt).position, a.position) <= a.step(dt) * a.step(dt),
        1000 * a.step(dt) + a.follow(dt).carry <= budget(a.carry, a.speed, dt),
{
    assert(a.speed as int * dt as int >= 0) by (nonlinear_arith)
        requires
            a.speed >= 0,
            dt >= 0,
    ;
    lemma_dist_sq_nonnegative(a.position, a.position);
    assert(a.step(dt) * a.step(dt) >= 0) by (nonlinear_arith);
    match a.progress {
        Progress::Following { path, cursor } => {
            lemma_advanced_bounded(a.position, path[cursor], a.step(dt));
        },
        _ => {},
    }
}

/// However a tick goes, the agent moves by no more than the step: a new plan
/// starts where the agent stands.
pub proof fn lemma_tick_bounded(m: MeshModel, a: AgentModel, dt: u32)
    requires
        m.valid(),
        a.wf(),
    ensures
        dist_sq(a.tick(dt, m.path(a.position, a.target)).position, a.position) <= a.step(dt)
            * a.step(dt),
        1000 * a.step(dt) + a.tick(dt, m.path(a.position, a.target)).carry <= budget(
            a.carry,
            a.speed,
            dt,
        ),
{
    assert(a.speed as int * dt as int >= 0) by (nonlinear_arith)
        requires
            a.speed >= 0,
            dt >= 0,
    ;
    let answer = m.path(a.position, a.target);
    lemma_dist_sq_nonnegative(a.position, a.position);
    assert(a.step(dt) * a.step(dt) >= 0) by (nonlinear_arith);
    if a.needs_plan(dt) {
        match answer {
            Ok(path) => {
                lemma_path_answers(m, a.position, a.target);
                lemma_path_ends(m, a.position, a.target, path);
                lemma_follow_bounded(a.planned(answer), dt);
            },
            Err(e) => {},
        }
    } else {
        lemma_follow_bounded(a, dt);
    }
}

/// An agent that follows a path at any speed above zero, in ticks of any
/// length above zero, comes to rest within the arrival tolerance of the
/// path's last waypoint after finitely many ticks; on every tick before it
/// follows the same path, plans nothing and reports no failure.
pub proof fn lemma_agent_arrives(a: AgentModel, dt: u32) -> (ticks: nat)
    requires
        a.wf(),
        a.progress is Following,
        !a.stale,
        a.speed > 0,
        dt > 0,
    ensures
        ticks >= 1,
        a.run(dt, ticks).progress is Idle,
        a.arrived(a.run(dt, ticks).position, a.progress->path.last()),
        a.run(dt, ticks) == (AgentModel {
            position: a.run(dt, ticks).position,
            progress: Progress::Idle,
            carry: 0,
            ..a
        }),
        forall|k: nat|
            k < ticks ==> (#[trigger] a.run(dt, k)).progress is Following && !a.run(dt, k).needs_plan(
                dt,
            ) && a.run(dt, k).held() is Ok,
    decreases a.progress->path.len() - a.progress->cursor,
        dist_sq(a.position, a.progress->path[a.progress->cursor]),
        1000 - a.carry,
{
    let path = a.progress->path;
    let cursor = a.progress->cursor;
    let wp = path[cursor];
    let next = a.follow(dt);
    lemma_dist_sq_nonnegative(a.position, wp);
    lemma_dist_sq_nonnegative(wp, wp);
    assert(a.run(dt, 0) == a);
    if next.progress is Idle {
        assert(a.run(dt, 1) == next.run(dt, 0));
        assert forall|k: nat| k < 1 implies (#[trigger] a.run(dt, k)).progress is Following
            && !a.run(dt, k).needs_plan(dt) && a.run(dt, k).held() is Ok by {
            assert(k == 0);
        }
        1
    } else {
        assert(a.speed as int * dt as int >= 1) by (nonlinear_arith)
            requires
                a.speed >= 1,
                dt >= 1,
        ;
        lemma_ceil_sqrt_bounds(dist_sq(a.position, wp) as nat);
        if !a.arrived(next.position, wp) {
            if a.position == wp {
                vstd::arithmetic::mul::lemma_mul_nonnegative(
                    a.arrival_tolerance as int,
                    a.arrival_tolerance as int,
                );
                assert(reach(a.position, wp) == 0);
            }
            if a.step(dt) >= 1 {
                lemma_advanced_closer(a.position, wp, a.step(dt));
            } else {
                assert(next.position == a.position);
                assert(next.carry == budget(a.carry, a.speed, dt));
            }
        }
        let rest = lemma_agent_arrives(next, dt);
        let ticks = rest + 1;
        assert(a.run(dt, ticks) == next.run(dt, rest));
        assert forall|k: nat| k < ticks implies (#[trigger] a.run(dt, k)).progress is Following
            && !a.run(dt, k).needs_plan(dt) && a.run(dt, k).held() is Ok by {
            if k > 0 {
                assert(a.run(dt, k) == next.run(dt, (k - 1) as nat));
            }
        }
        ticks
    }
}

/// An agent that plans on a mesh which has a path to its target, and then
/// ticks on with a step of at least one grid unit, comes to rest within the
/// arrival tolerance of the target after finitely many ticks; none of the
/// ticks in between plans again.
pub proof fn lemma_agent_reaches_target(m: MeshModel, a: AgentModel, dt: u32) -> (ticks: nat)
    requires
        m.valid(),
        a.wf(),
        a.needs_plan(dt),
        m.path(a.position, a.target) is Ok,
        a.speed > 0,
        dt > 0,
    ensures
        a.tick(dt, m.path(a.position, a.target)).run(dt, ticks).progress is Idle,
        a.arrived(a.tick(dt, m.path(a.position, a.target)).run(dt, ticks).position, a.target),
        forall|k: nat|
            k < ticks ==> (#[trigger] a.tick(dt, m.path(a.position, a.target)).run(
                dt,
                k,
            )).progress is Following && !a.tick(dt, m.path(a.position, a.target)).run(
                dt,
                k,
            ).needs_plan(dt) && a.tick(dt, m.path(a.position, a.target)).run(dt, k).held() is Ok,
        a.outcome(dt, m.path(a.position, a.target)) is Ok,
        a.tick(dt, m.path(a.position, a.target)).ticks_on(m, dt, ticks) == a.tick(
            dt,
            m.path(a.position, a.target),
        ).run(dt, ticks),
{
    let answer = m.path(a.position, a.target);
    let path = answer->Ok_0;
    lemma_path_answers(m, a.position, a.target);
    lemma_path_ends(m, a.position, a.target, path);
    let first = a.tick(dt, answer);
    assert(first == a.planned(answer).follow(dt));
    assert(first.run(dt, 0) == first);
    assert(first.ticks_on(m, dt, 0) == first);
    if first.progress is Idle {
        0
    } else {
        let ticks = lemma_agent_arrives(first, dt);
        lemma_run_is_ticks(m, first, dt, ticks);
        ticks
    }
}

/// While no tick has to plan, the ticks on a mesh are the ticks that do not
/// plan.
pub proof fn lemma_run_is_ticks(m: MeshModel, a: AgentModel, dt: u32, ticks: nat)
    requires
        forall|k: nat| k < ticks ==> !(#[trigger] a.run(dt, k)).needs_plan(dt),
    ensures
        a.ticks_on(m, dt, ticks) == a.run(dt, ticks),
    decreases ticks,
{
    if ticks > 0 {
        assert(a.run(dt, 0) == a);
        let next = a.follow(dt);
        assert forall|k: nat| k < ticks - 1 implies !(#[trigger] next.run(dt, k)).needs_plan(dt) by {
            assert(a.run(dt, k + 1) == next.run(dt, k));
        }
        lemma_run_is_ticks(m, next, dt, (ticks - 1) as nat);
    }
}

/// Ticks add up.
pub proof fn lemma_ticks_add(m: MeshModel, a: AgentModel, dt: u32, first: nat, then: nat)
    ensures
        a.ticks_on(m, dt, first + then) == a.ticks_on(m, dt, first).ticks_on(m, dt, then),
    decreases first,
{
    if first > 0 {
        let next = a.tick(dt, m.path(a.position, a.target));
        lemma_ticks_add(m, next, dt, (first - 1) as nat, then);
        assert(a.ticks_on(m, dt, first + then) == next.ticks_on(m, dt, (first + then - 1) as nat));
    }
}

/// A stuck agent waits where it is until a tick has to plan again.
pub proof fn lemma_stuck_waits(m: MeshModel, a: AgentModel, dt: u32) -> (ticks: nat)
    requires
        a.wf(),
        a.progress is Stuck,
        dt > 0,
    ensures
        a.ticks_on(m, dt, ticks).needs_plan(dt),
        a.ticks_on(m, dt, ticks) == (AgentModel {
            progress: a.ticks_on(m, dt, ticks).progress,
            ..a
        }),
        a.ticks_on(m, dt, ticks).progress is Stuck,
        a.ticks_on(m, dt, ticks).wf(),
    decreases a.retry_interval - a.progress->waited,
{
    if a.needs_plan(dt) {
        0
    } else {
        let next = a.tick(dt, m.path(a.position, a.target));
        let rest = lemma_stuck_waits(m, next, dt);
        (rest + 1) as nat
    }
}

/// An agent at any speed above zero, ticked at any length above zero on a
/// mesh that has a path to the target from wherever the agent plans next,
/// comes to rest within the arrival tolerance of its target after finitely
/// many ticks, whatever it is doing now.
pub proof fn lemma_agent_comes_to_rest(m: MeshModel, a: AgentModel, dt: u32) -> (ticks: nat)
    requires
        m.valid(),
        a.wf(),
        a.speed > 0,
        dt > 0,
        forall|q: Point3| #[trigger] a.plans_from(q) ==> m.path(q, a.target) is Ok,
    ensures
        a.ticks_on(m, dt, ticks).progress is Idle,
        a.arrived(a.ticks_on(m, dt, ticks).position, a.target),
{
    let before: nat = if a.needs_plan(dt) {
        0
    } else if a.progress is Stuck {
        lemma_stuck_waits(m, a, dt)
    } else {
        let walked = lemma_agent_arrives(a, dt);
        lemma_run_is_ticks(m, a, dt, walked);
        walked
    };
    let b = a.ticks_on(m, dt, before);
    assert(a.ticks_on(m, dt, 0) == a);
    assert(a.plans_from(b.position));
    let after = lemma_agent_reaches_target(m, b, dt);
    lemma_ticks_add(m, a, dt, before, after + 1);
    assert(b.ticks_on(m, dt, after + 1) == b.tick(dt, m.path(b.position, b.target)).ticks_on(
        m,
        dt,
        after,
    ));
    (before + after + 1) as nat
}

/// A stuck agent on a mesh that has no path from where it stands to its
/// target stays stuck where it is, whatever the tick.
pub proof fn lemma_stuck_holds(m: MeshModel, a: AgentModel, dt: u32)
    requires
        a.progress is Stuck,
        m.path(a.position, a.target) is Err,
    ensures
        a.tick(dt, m.path(a.position, a.target)).progress is Stuck,
        a.tick(dt, m.path(a.position, a.target)).position == a.position,
        a.tick(dt, m.path(a.position, a.target)).target == a.target,
        a.outcome(dt, m.path(a.position, a.target)) is Err,
{
}

/// An agent that walks the paths of a navigation mesh towards a target.
#[derive(Debug)]
pub struct NavmeshAgent {
    position: Point3,
    target: Point3,
    planned_target: Point3,
    speed: u32,
    stale: bool,
    state: AgentState,
    replan_threshold: u32,
    arrival_tolerance: u32,
    retry_interval: u32,
    carry: u32,
}

impl View for NavmeshAgent {
    type V = AgentModel;

    closed spec fn view(&self) -> AgentModel {
        AgentModel {
            position: self.position,
            target: self.target,
            planned_target: self.planned_target,
            speed: self.speed,
            stale: self.stale,
            progress: self.state@,
            replan_threshold: self.replan_threshold,
            arrival_tolerance: self.arrival_tolerance,
            retry_interval: self.retry_interval,
            carry: self.carry,
        }
    }
}

fn within(p: Point3, q: Point3, limit: u32) -> (b: bool)
    ensures
        b == (dist_sq(p, q) <= limit * limit),
{
    assert(limit * limit <= 0xffff_ffff * 0xffff_ffff) by (nonlinear_arith)
        requires
            0 <= limit <= 0xffff_ffff,
    ;
    let bound: u128 = limit as u128 * limit as u128;
    distance_squared(p, q) <= bound
}

impl NavmeshAgent {
    #[verifier::type_invariant]
    spec fn inv(&self) -> bool {
        self@.wf()
    }

    /// An idle agent at `position`, with that position as its target, a
    /// re-plan threshold and an arrival tolerance of zero, and a retry
    /// interval of one second.
    pub fn new(position: Point3, speed: u32) -> (agent: NavmeshAgent)
        ensures
            agent@ == (AgentModel {
                position,
                target: position,
                planned_target: position,
                speed,
                stale: false,
                progress: Progress::Idle,
                replan_threshold: 0,
                arrival_tolerance: 0,
                retry_interval: 1000,
                carry: 0,
            }),
    {
        NavmeshAgent {
            position,
            target: position,
            planned_target: position,
            speed,
            stale: false,
            state: AgentState::Idle,
            replan_threshold: 0,
            arrival_tolerance: 0,
            retry_interval: 1000,
            carry: 0,
        }
    }

    /// Where the agent stands.
    pub fn position(&self) -> (p: Point3)
        ensures
            p == self@.position,
    {
        self.position
    }

    /// Where the agent is headed.
    pub fn target(&self) -> (p: Point3)
        ensures
            p == self@.target,
    {
        self.target
    }

    pub fn speed(&self) -> (s: u32)
        ensures
            s == self@.speed,
    {
        self.speed
    }

    /// What the agent is doing.
    pub fn state(&self) -> (state: &AgentState)
        ensures
            state@ == self@.progress,
    {
        &self.state
    }

    pub fn is_idle(&self) -> (b: bool)
        ensures
            b == (self@.progress is Idle),
    {
        match &self.state {
            AgentState::Idle => true,
            _ => false,
        }
    }

    pub fn is_following(&self) -> (b: bool)
        ensures
            b == (self@.progress is Following),
    {
        match &self.state {
            AgentState::Following { .. } => true,
            _ => false,
        }
    }

    pub fn is_stuck(&self) -> (b: bool)
        ensures
            b == (self@.progress is Stuck),
    {
        match &self.state {
            AgentState::Stuck { .. } => true,
            _ => false,
        }
    }

    /// Records a new target. The path becomes stale when the target has
    /// moved farther than the re-plan threshold from the target that the
    /// last plan was made for; planning itself waits for the next update.
    pub fn set_target(&mut self, target: Point3)
        ensures
            final(self)@ == old(self)@.retarget(target),
    {
        proof {
            use_type_invariant(&*self);
        }
        let moved: bool = !within(target, self.planned_target, self.replan_threshold);
        self.target = target;
        if moved {
            self.stale = true;
        }
    }

    /// Sets the speed, in grid units per second.
    pub fn set_speed(&mut self, speed: u32)
        ensures
            final(self)@ == (AgentModel { speed, ..old(self)@ }),
    {
        proof {
            use_type_invariant(&*self);
        }
        self.speed = speed;
    }

    pub fn set_replan_threshold(&mut self, threshold: u32)
        ensures
            final(self)@ == (AgentModel { replan_threshold: threshold, ..old(self)@ }),
    {
        proof {
            use_type_invariant(&*self);
        }
        self.replan_threshold = threshold;
    }

    pub fn set_arrival_tolerance(&mut self, tolerance: u32)
        ensures
            final(self)@ == (AgentModel { arrival_tolerance: tolerance, ..old(self)@ }),
    {
        proof {
            use_type_invariant(&*self);
        }
        self.arrival_tolerance = tolerance;
    }

    pub fn set_retry_interval(&mut self, interval: u32)
        ensures
            final(self)@ == (AgentModel { retry_interval: interval, ..old(self)@ }),
    {
        proof {
            use_type_invariant(&*self);
        }
        self.retry_interval = interval;
    }

    /// Advances the agent by one tick of `dt` milliseconds. A tick that has to
    /// plan queries the mesh for a path from where the agent stands to its
    /// target; on failure the agent becomes stuck and keeps its position. A
    /// following agent then takes one step of whole grid units; the
    /// thousandths of a grid unit that the step leaves over are kept for the
    /// next tick, so that a slow agent moves every few ticks. The agent never
    /// moves farther than what it has left over and what the tick adds at
    /// its speed, and not at all on a tick that fails.
    pub fn update(&mut self, dt: u32, navmesh: &mut Navmesh) -> (r: Result<(), AgentError>)
        ensures
            *final(navmesh) == *old(navmesh),
            final(self)@ == old(self)@.tick(
                dt,
                old(navmesh)@.path(old(self)@.position, old(self)@.target),
            ),
            r == old(self)@.outcome(dt, old(navmesh)@.path(old(self)@.position, old(self)@.target)),
            dist_sq(final(self)@.position, old(self)@.position) <= old(self)@.step(dt) * old(
                self,
            )@.step(dt),
            1000 * old(self)@.step(dt) + final(self)@.carry <= budget(
                old(self)@.carry,
                old(self)@.speed,
                dt,
            ),
            r is Err ==> final(self)@.position == old(self)@.position && final(self)@.progress is Stuck,
            final(self)@.wf(),
    {
        proof {
            use_type_invariant(&*self);
            lemma_dist_sq_nonnegative(self.position, self.position);
            assert(self@.step(dt) * self@.step(dt) >= 0) by (nonlinear_arith);
        }
        let ghost before = self@;
        let (step, rest): (u64, u32) = step_for(self.carry, self.speed, dt);
        self.carry = 0;
        let mut state: AgentState = AgentState::Idle;
        core::mem::swap(&mut self.state, &mut state);
        let plan_needed: bool = self.stale || match &state {
            AgentState::Idle => true,
            AgentState::Following { .. } => false,
            AgentState::Stuck { cause, waited } => *waited as u64 + dt as u64
                >= self.retry_interval as u64,
        };
        let ghost answer = navmesh@.path(self.position, self.target);
        if plan_needed {
            match navmesh.find_path(self.position, self.target) {
                Err(cause) => {
                    self.state = AgentState::Stuck { cause, waited: 0 };
                    self.stale = false;
                    self.planned_target = self.target;
                    proof {
                        assert(self@ == before.tick(dt, answer));
                    }
                    return Err(AgentError::Planning(cause));
                },
                Ok(path) => {
                    state = AgentState::Following { path, cursor: 1 };
                    self.stale = false;
                    self.planned_target = self.target;
                },
            }
        }
        let ghost ready = AgentModel { progress: state@, carry: before.carry, ..self@ };
        proof {
            assert(plan_needed ==> ready == before.planned(answer));
            assert(!plan_needed ==> ready == before);
            lemma_follow_bounded(ready, dt);
        }
        match state {
            AgentState::Idle => Ok(()),
            AgentState::Stuck { cause, waited } => {
                let longer: u64 = waited as u64 + dt as u64;
                self.state = AgentState::Stuck { cause, waited: longer as u32 };
                Err(AgentError::Planning(cause))
            },
            AgentState::Following { path, cursor } => {
                let count: usize = path.len();
                let wp: Point3 = path[cursor];
                let p: Point3 = advance(self.position, wp, step);
                self.position = p;
                if within(p, wp, self.arrival_tolerance) {
                    if cursor + 1 < count {
                        self.state = AgentState::Following { path, cursor: cursor + 1 };
                        self.carry = rest;
                    } else {
                        self.state = AgentState::Idle;
                    }
                } else {
                    self.state = AgentState::Following { path, cursor };
                    self.carry = rest;
                }
                proof {
                    assert(self@ == ready.follow(dt));
                }
                Ok(())
            },
        }
    }
}

} // verus!
