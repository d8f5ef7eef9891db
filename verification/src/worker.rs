//! The worker: a mobile unit with a position, a speed and an optional
//! active path, its per-tick motion controller, and the collision resolver
//! that nudges colliding workers apart and slides them along walls.

use vstd::prelude::*;
use crate::astar::{astar, lemma_id_coords};
use crate::conf::{DT_MAX, MAX_DIM, POS_BOUND, SPEED_MAX, SQUARE_SIZE};
use crate::geometry::{boxes_touch, CollisionRect, GridCell, WorldPos};
use crate::map::{world_to_cell, TileMap};
use crate::math::{abs_val, dist_sq, dist_sq64, isqrt, lemma_scale_round_bounds, nudge_x, nudge_y, away_nudge, scale_round, scale_round64, sqrt_floor, lemma_sqrt_floor_bounds, lemma_sqrt_floor_unique, lemma_sqrt_floor_monotone, lemma_component_le_sqrt, lemma_scale_round_within};
use crate::server::Color;

verus! {

/// The push speed, in world units per second, at which colliding workers
/// are nudged apart; deliberately slower than normal movement.
pub const PUSH_SPEED: i64 = 50;

/// The largest velocity magnitude one motion step can produce.
pub const STEP_BOUND: i64 = 0x100_0000;

/// The largest velocity magnitude the collision resolver can produce.
pub const VEL_BOUND: i64 = 0x4000_0000;

/// The bound on rectangle coordinates inside the wall scan.
pub const RECT_LIMIT: i64 = 0x8000_0000;

/// The facing of a worker, one of four buckets consumed by the renderer.
#[derive(Clone, Copy, PartialEq, Eq, Structural, Debug, Hash)]
pub enum WalkDirection {
    Up,
    Down,
    Left,
    Right,
}

/// The mathematical state of a worker: what the contracts speak of.
pub ghost struct WorkerModel {
    pub id: u16,
    pub max_hp: u16,
    pub hp: u16,
    pub rect: CollisionRect,
    pub path: Option<Seq<WorldPos>>,
    pub speed: int,
    pub direction: WalkDirection,
    pub hspd: int,
    pub vspd: int,
    pub moving_away_from: Option<u16>,
    pub color: Color,
}

impl WorkerModel {
    /// The footprint is one tile, the position and speed are within the
    /// machine bounds, and so is every waypoint of the active path.
    pub open spec fn wf(self) -> bool {
        &&& self.rect.width == SQUARE_SIZE
        &&& self.rect.height == SQUARE_SIZE
        &&& -POS_BOUND <= self.rect.x <= POS_BOUND
        &&& -POS_BOUND <= self.rect.y <= POS_BOUND
        &&& 0 <= self.speed <= SPEED_MAX
        &&& match self.path {
            Some(p) => forall|i: int|
                0 <= i < p.len() ==> -POS_BOUND <= (#[trigger] p[i]).x <= POS_BOUND && -POS_BOUND
                    <= p[i].y <= POS_BOUND,
            None => true,
        }
    }
}

/// A worker that can be controlled by the player and can build structures.
#[derive(Debug)]
pub struct Worker {
    pub id: u16,
    pub max_hp: u16,
    pub hp: u16,
    pub rect: CollisionRect,
    pub path: Option<Vec<WorldPos>>,
    pub speed: i64,
    pub direction: WalkDirection,
    pub hspd: i64,
    pub vspd: i64,
    pub moving_away_from: Option<u16>,
    pub color: Color,
}

impl View for Worker {
    type V = WorkerModel;

    open spec fn view(&self) -> WorkerModel {
        WorkerModel {
            id: self.id,
            max_hp: self.max_hp,
            hp: self.hp,
            rect: self.rect,
            path: match self.path {
                Some(p) => Some(p@),
                None => None,
            },
            speed: self.speed as int,
            direction: self.direction,
            hspd: self.hspd as int,
            vspd: self.vspd as int,
            moving_away_from: self.moving_away_from,
            color: self.color,
        }
    }
}

impl PartialEq for Worker {
    /// Workers are identified by their id.
    fn eq(&self, other: &Self) -> (r: bool) {
        self.id == other.id
    }
}

impl vstd::std_specs::cmp::PartialEqSpecImpl for Worker {
    open spec fn obeys_eq_spec() -> bool {
        true
    }

    open spec fn eq_spec(&self, other: &Self) -> bool {
        self.id == other.id
    }
}

/// The movement step a worker of the given speed takes in one tick.
pub open spec fn step_len(speed: int, dt_ms: int) -> int {
    speed * dt_ms / 1000
}

/// One tick of the motion controller on the model: with an active,
/// non-empty path the worker aims at the front waypoint; while farther away
/// than one step it sets its velocity to the rounded projection of one step
/// along the direction to the waypoint, else its velocity snaps it exactly
/// onto the waypoint, which is consumed; an empty path is dropped.
pub open spec fn step_path_model(w: WorkerModel, dt_ms: int) -> WorkerModel {
    match w.path {
        None => w,
        Some(p) => {
            if p.len() == 0 {
                WorkerModel { path: None, ..w }
            } else {
                let t = p[0];
                let step = step_len(w.speed, dt_ms);
                let d2 = dist_sq(w.rect.x as int, w.rect.y as int, t.x as int, t.y as int);
                if d2 > step * step {
                    let s = sqrt_floor(d2 as nat) as int;
                    WorkerModel {
                        hspd: scale_round(t.x - w.rect.x, step, s),
                        vspd: scale_round(t.y - w.rect.y, step, s),
                        ..w
                    }
                } else {
                    WorkerModel {
                        hspd: t.x - w.rect.x,
                        vspd: t.y - w.rect.y,
                        path: Some(p.drop_first()),
                        ..w
                    }
                }
            }
        },
    }
}

/// The facing bucket for a velocity, given the previous facing: cardinal
/// directions map directly, and a diagonal keeps the previous facing when
/// it is one of its two adjacent cardinals, else falls to the other, to
/// avoid flicker when moving near-diagonally.
pub open spec fn resolve_heading_spec(dx: int, dy: int, previous: WalkDirection) -> WalkDirection {
    if dx > 0 && dy == 0 {
        WalkDirection::Right
    } else if dx == 0 && dy < 0 {
        WalkDirection::Up
    } else if dx < 0 && dy == 0 {
        WalkDirection::Left
    } else if dx == 0 && dy > 0 {
        WalkDirection::Down
    } else if dx > 0 && dy < 0 {
        if previous == WalkDirection::Up {
            WalkDirection::Up
        } else {
            WalkDirection::Right
        }
    } else if dx < 0 && dy < 0 {
        if previous == WalkDirection::Up {
            WalkDirection::Up
        } else {
            WalkDirection::Left
        }
    } else if dx < 0 && dy > 0 {
        if previous == WalkDirection::Down {
            WalkDirection::Down
        } else {
            WalkDirection::Left
        }
    } else if dx > 0 && dy > 0 {
        if previous == WalkDirection::Down {
            WalkDirection::Down
        } else {
            WalkDirection::Right
        }
    } else {
        previous
    }
}

/// The facing update on the model.
pub open spec fn heading_model(w: WorkerModel) -> WorkerModel {
    WorkerModel { direction: resolve_heading_spec(w.hspd, w.vspd, w.direction), ..w }
}

/// The facing bucket for a velocity, given the previous facing.
pub fn resolve_heading(dx: i64, dy: i64, previous: WalkDirection) -> (r: WalkDirection)
    ensures
        r == resolve_heading_spec(dx as int, dy as int, previous),
{
    if dx > 0 && dy == 0 {
        WalkDirection::Right
    } else if dx == 0 && dy < 0 {
        WalkDirection::Up
    } else if dx < 0 && dy == 0 {
        WalkDirection::Left
    } else if dx == 0 && dy > 0 {
        WalkDirection::Down
    } else if dx > 0 && dy < 0 {
        if matches!(previous, WalkDirection::Up) {
            WalkDirection::Up
        } else {
            WalkDirection::Right
        }
    } else if dx < 0 && dy < 0 {
        if matches!(previous, WalkDirection::Up) {
            WalkDirection::Up
        } else {
            WalkDirection::Left
        }
    } else if dx < 0 && dy > 0 {
        if matches!(previous, WalkDirection::Down) {
            WalkDirection::Down
        } else {
            WalkDirection::Left
        }
    } else if dx > 0 && dy > 0 {
        if matches!(previous, WalkDirection::Down) {
            WalkDirection::Down
        } else {
            WalkDirection::Right
        }
    } else {
        previous
    }
}

impl Worker {
    /// A new worker of the given colour and id, at the default spawn
    /// position, with full health, the default speed and no path.
    pub fn new(color: Color, id: u16) -> (r: Worker)
        ensures
            r@ == (WorkerModel {
                id,
                max_hp: 10,
                hp: 10,
                rect: CollisionRect { x: 100, y: 100, width: SQUARE_SIZE, height: SQUARE_SIZE },
                path: None::<Seq<WorldPos>>,
                speed: 200,
                direction: WalkDirection::Up,
                hspd: 0,
                vspd: 0,
                moving_away_from: None::<u16>,
                color,
            }),
            r@.wf(),
    {
        Worker {
            id,
            max_hp: 10,
            hp: 10,
            rect: CollisionRect { x: 100, y: 100, width: SQUARE_SIZE, height: SQUARE_SIZE },
            path: None,
            speed: 200,
            direction: WalkDirection::Up,
            hspd: 0,
            vspd: 0,
            moving_away_from: None,
            color,
        }
    }

    /// An exact copy of the worker.
    pub fn duplicate(&self) -> (r: Worker)
        ensures
            r@ == self@,
    {
        let path: Option<Vec<WorldPos>> = match &self.path {
            Some(p) => {
                let q = p.clone();
                proof {
                    assert forall|i: int| 0 <= i < p@.len() implies p@[i] == q@[i] by {
                        assert(vstd::pervasive::cloned::<WorldPos>(p@[i], q@[i]));
                    };
                    assert(p@ =~= q@);
                }
                Some(q)
            },
            None => None,
        };
        Worker {
            id: self.id,
            max_hp: self.max_hp,
            hp: self.hp,
            rect: self.rect,
            path,
            speed: self.speed,
            direction: self.direction,
            hspd: self.hspd,
            vspd: self.vspd,
            moving_away_from: self.moving_away_from,
            color: self.color,
        }
    }

    /// Sets the direction of the worker based on the current velocity.
    pub fn update_direction(&mut self)
        ensures
            final(self)@ == heading_model(old(self)@),
    {
        self.direction = resolve_heading(self.hspd, self.vspd, self.direction);
    }

    /// Moves the worker along the current path: computes this tick's
    /// desired velocity toward the front waypoint, consuming it on arrival.
    pub fn update_path(&mut self, dt_ms: i64)
        requires
            old(self)@.wf(),
            0 <= dt_ms <= DT_MAX,
        ensures
            final(self)@ == step_path_model(old(self)@, dt_ms as int),
            final(self)@.wf(),
            -STEP_BOUND <= final(self)@.hspd <= STEP_BOUND || final(self)@.hspd == old(self)@.hspd,
            -STEP_BOUND <= final(self)@.vspd <= STEP_BOUND || final(self)@.vspd == old(self)@.vspd,
    {
        let tl = self.rect.top_left();
        proof {
            assert(0 <= self.speed * dt_ms <= SPEED_MAX * DT_MAX && self.speed * dt_ms / 1000
                <= 0x100_0000 && self.speed * dt_ms / 1000 >= 0) by (nonlinear_arith)
                requires
                    0 <= self.speed as int <= SPEED_MAX,
                    0 <= dt_ms as int <= DT_MAX,
                    SPEED_MAX == 0x10_0000,
                    DT_MAX == 10_000,
            ;
        }
        let step: i64 = self.speed * dt_ms / 1000;
        let mut clear = false;
        let mut act = false;
        let mut pop = false;
        let mut hs: i64 = 0;
        let mut vs: i64 = 0;
        match &self.path {
            None => {},
            Some(p) => {
                if p.len() == 0 {
                    clear = true;
                } else {
                    let target = p[0];
                    proof {
                        assert(-POS_BOUND <= target.x <= POS_BOUND && -POS_BOUND <= target.y
                            <= POS_BOUND);
                        assert(step * step >= 0 && step * step <= 0x7FFF_FFFF_FFFF_FFFF && step
                            * step < (step + 1) * (step + 1)) by (nonlinear_arith)
                            requires
                                0 <= step as int <= 0x100_0000,
                        ;
                    }
                    let d2 = dist_sq64(&tl, &target);
                    if d2 > (step * step) as u64 {
                        let s = isqrt(d2);
                        proof {
                            lemma_sqrt_floor_unique((step * step) as nat, step as nat);
                            lemma_sqrt_floor_monotone((step * step) as nat, d2 as nat);
                            assert(step <= s);
                            if s == 0 {
                                assert(d2 < (s + 1) * (s + 1));
                                assert(d2 < 1) by (nonlinear_arith)
                                    requires
                                        s == 0u64,
                                        d2 < (s + 1) * (s + 1),
                                ;
                                assert(false);
                            }
                            lemma_component_le_sqrt(target.x - tl.x, target.y - tl.y);
                            lemma_component_le_sqrt(target.y - tl.y, target.x - tl.x);
                            assert((target.x - tl.x) * (target.x - tl.x) + (target.y - tl.y) * (
                            target.y - tl.y) == (target.y - tl.y) * (target.y - tl.y) + (target.x
                                - tl.x) * (target.x - tl.x));
                            lemma_scale_round_within(target.x - tl.x, step as int, s as int);
                            lemma_scale_round_within(target.y - tl.y, step as int, s as int);
                        }
                        hs = scale_round64(target.x - tl.x, step, s as i64);
                        vs = scale_round64(target.y - tl.y, step, s as i64);
                        act = true;
                    } else {
                        proof {
                            assert(d2 <= step * step);
                            lemma_sqrt_floor_unique((step * step) as nat, step as nat);
                            lemma_sqrt_floor_monotone(d2 as nat, (step * step) as nat);
                            lemma_component_le_sqrt(target.x - tl.x, target.y - tl.y);
                            lemma_component_le_sqrt(target.y - tl.y, target.x - tl.x);
                            assert((target.x - tl.x) * (target.x - tl.x) + (target.y - tl.y) * (
                            target.y - tl.y) == (target.y - tl.y) * (target.y - tl.y) + (target.x
                                - tl.x) * (target.x - tl.x));
                            assert(-step <= target.x - tl.x <= step && -step <= target.y - tl.y
                                <= step);
                        }
                        hs = target.x - tl.x;
                        vs = target.y - tl.y;
                        act = true;
                        pop = true;
                    }
                }
            },
        }
        if clear {
            self.path = None;
            return ;
        }
        if act {
            self.hspd = hs;
            self.vspd = vs;
            if pop {
                match &mut self.path {
                    Some(p) => {
                        let ghost pre = p@;
                        p.remove(0);
                        proof {
                            assert(p@ =~= pre.drop_first());
                        }
                    },
                    None => {},
                }
            }
        }
    }
}


/// The model views of a worker roster.
pub open spec fn views(ws: Seq<Worker>) -> Seq<WorkerModel> {
    ws.map_values(|w: Worker| w@)
}

/// The tentative x coordinate of a worker: its position plus this tick's
/// desired velocity.
pub open spec fn tent_x(w: WorkerModel) -> int {
    w.rect.x + w.hspd
}

/// The tentative y coordinate of a worker.
pub open spec fn tent_y(w: WorkerModel) -> int {
    w.rect.y + w.vspd
}

/// Another worker is considered for collision when it is a different
/// worker and is not itself yielding to this one (preventing two workers
/// from perpetually yielding to each other).
pub open spec fn considered(me: WorkerModel, o: WorkerModel) -> bool {
    o.id != me.id && o.moving_away_from != Some(me.id)
}

/// The tentative footprint of this worker overlaps the other worker's
/// current footprint.
pub open spec fn collides_with(me: WorkerModel, o: WorkerModel) -> bool {
    considered(me, o) && boxes_touch(
        tent_x(me),
        tent_y(me),
        me.rect.width as int,
        me.rect.height as int,
        o.rect.x as int,
        o.rect.y as int,
        o.rect.width as int,
        o.rect.height as int,
    )
}

/// The index of the first other worker this one collides with, scanning
/// from index `i`, or `-1` when there is none.
pub open spec fn first_collider(me: WorkerModel, others: Seq<WorkerModel>, i: int) -> int
    decreases others.len() - i,
{
    if i < 0 || i >= others.len() {
        -1
    } else if collides_with(me, others[i]) {
        i
    } else {
        first_collider(me, others, i + 1)
    }
}

/// Skipping a non-colliding prefix does not change the first collider.
proof fn lemma_first_collider_skip(me: WorkerModel, others: Seq<WorkerModel>, j: int)
    requires
        0 <= j <= others.len(),
        forall|k: int| 0 <= k < j ==> !collides_with(me, #[trigger] others[k]),
    ensures
        first_collider(me, others, 0) == first_collider(me, others, j),
    decreases j,
{
    if j > 0 {
        lemma_first_collider_skip(me, others, j - 1);
        assert(!collides_with(me, others[j - 1]));
        assert(first_collider(me, others, j - 1) == first_collider(me, others, j));
    }
}

/// The clamped horizontal velocity after scanning the first `k` cells in
/// row-major order: each non-walkable cell whose tile rectangle touches
/// the horizontal-only tentative footprint overwrites the velocity with
/// the gap to its near edge, the side chosen by where the wall's centre
/// lies.
pub open spec fn wall_clamp_h(
    m: TileMap,
    hx: int,
    hy: int,
    hw: int,
    hh: int,
    acc: int,
    k: int,
) -> int
    decreases m.width as int * m.height as int - k,
{
    let w = m.width as int;
    let n = w * m.height as int;
    let ws = SQUARE_SIZE as int;
    if k < 0 || k >= n {
        acc
    } else {
        let x = k % w;
        let y = k / w;
        let acc2 = if !m.walkable(x, y) && boxes_touch(hx, hy, hw, hh, x * ws, y * ws, ws, ws) {
            if x * ws + ws / 2 > hx + hw / 2 {
                x * ws - (hx + hw)
            } else {
                (x * ws + ws) - hx
            }
        } else {
            acc
        };
        wall_clamp_h(m, hx, hy, hw, hh, acc2, k + 1)
    }
}

/// The clamped vertical velocity after scanning the first `k` cells.
pub open spec fn wall_clamp_v(
    m: TileMap,
    vx: int,
    vy: int,
    vw: int,
    vh: int,
    acc: int,
    k: int,
) -> int
    decreases m.width as int * m.height as int - k,
{
    let w = m.width as int;
    let n = w * m.height as int;
    let ws = SQUARE_SIZE as int;
    if k < 0 || k >= n {
        acc
    } else {
        let x = k % w;
        let y = k / w;
        let acc2 = if !m.walkable(x, y) && boxes_touch(vx, vy, vw, vh, x * ws, y * ws, ws, ws) {
            if y * ws + ws / 2 > vy + vh / 2 {
                y * ws - (vy + vh)
            } else {
                (y * ws + ws) - vy
            }
        } else {
            acc
        };
        wall_clamp_v(m, vx, vy, vw, vh, acc2, k + 1)
    }
}

/// One tick of the collision resolver on the model: against the first
/// considered worker whose current footprint the tentative footprint
/// touches, this worker yields, is nudged one push step directly away from
/// it, and then has each velocity axis independently clamped against every
/// wall cell; with no collision nothing changes.
pub open spec fn resolve_model(
    me: WorkerModel,
    others: Seq<WorkerModel>,
    m: TileMap,
    dt_ms: int,
) -> WorkerModel {
    let j = first_collider(me, others, 0);
    if j == -1 {
        me
    } else {
        let o = others[j];
        let push = PUSH_SPEED as int * dt_ms / 1000;
        let nx = nudge_x(tent_x(me), tent_y(me), o.rect.x as int, o.rect.y as int, push);
        let ny = nudge_y(tent_x(me), tent_y(me), o.rect.x as int, o.rect.y as int, push);
        let h1 = me.hspd + nx;
        let v1 = me.vspd + ny;
        let hs = wall_clamp_h(
            m,
            me.rect.x + h1,
            me.rect.y as int,
            me.rect.width as int,
            me.rect.height as int,
            h1,
            0,
        );
        let vs = wall_clamp_v(
            m,
            me.rect.x as int,
            me.rect.y + v1,
            me.rect.width as int,
            me.rect.height as int,
            v1,
            0,
        );
        WorkerModel { hspd: hs, vspd: vs, moving_away_from: Some(o.id), ..me }
    }
}

/// A coordinate clamped to the world bound.
pub open spec fn clamp_pos(v: int) -> int {
    if v < -POS_BOUND {
        -POS_BOUND as int
    } else if v > POS_BOUND {
        POS_BOUND as int
    } else {
        v
    }
}

/// Committing a tick on the model: the resolved velocity is applied to the
/// position once, clamped to the world bound.
pub open spec fn commit_model(w: WorkerModel) -> WorkerModel {
    WorkerModel {
        rect: CollisionRect {
            x: clamp_pos(w.rect.x + w.hspd) as i64,
            y: clamp_pos(w.rect.y + w.vspd) as i64,
            ..w.rect
        },
        ..w
    }
}

/// The start of a tick on the model: velocities and the yielding relation
/// are cleared before recomputation.
pub open spec fn reset_model(w: WorkerModel) -> WorkerModel {
    WorkerModel { hspd: 0, vspd: 0, moving_away_from: None, ..w }
}

/// One whole tick of a worker on the model: reset, path following, facing,
/// collision resolution against the roster, and the position commit.
pub open spec fn tick_model(
    w: WorkerModel,
    others: Seq<WorkerModel>,
    m: TileMap,
    dt_ms: int,
) -> WorkerModel {
    commit_model(
        resolve_model(heading_model(step_path_model(reset_model(w), dt_ms)), others, m, dt_ms),
    )
}

/// Ticking the roster in order from index `i`: each worker is updated
/// against the roster state left by the workers before it.
pub open spec fn tick_roster(ws: Seq<WorkerModel>, m: TileMap, dt_ms: int, i: int) -> Seq<
    WorkerModel,
>
    decreases ws.len() - i,
{
    if i < 0 || i >= ws.len() {
        ws
    } else {
        let w2 = tick_model(ws[i], ws, m, dt_ms);
        tick_roster(ws.update(i, w2), m, dt_ms, i + 1)
    }
}

impl Worker {
    /// Makes sure the worker does not collide with other workers or walls;
    /// if it does, it yields to the first collider, is slowly nudged out of
    /// the way, and slides along any wall it is pressed into.
    pub fn update_collision(&mut self, others: &Vec<Worker>, map: &TileMap, dt_ms: i64)
        requires
            old(self)@.wf(),
            map.wf(),
            0 <= dt_ms <= DT_MAX,
            -STEP_BOUND <= old(self)@.hspd <= STEP_BOUND,
            -STEP_BOUND <= old(self)@.vspd <= STEP_BOUND,
            forall|i: int| 0 <= i < others@.len() ==> (#[trigger] others@[i])@.wf(),
        ensures
            final(self)@ == resolve_model(old(self)@, views(others@), *map, dt_ms as int),
            final(self)@.wf(),
            -VEL_BOUND <= final(self)@.hspd <= VEL_BOUND,
            -VEL_BOUND <= final(self)@.vspd <= VEL_BOUND,
    {
        proof {
            assert(0 <= PUSH_SPEED * dt_ms / 1000 <= 500) by (nonlinear_arith)
                requires
                    0 <= dt_ms as int <= DT_MAX,
                    DT_MAX == 10_000,
                    PUSH_SPEED == 50,
            ;
        }
        let push: i64 = PUSH_SPEED * dt_ms / 1000;
        let tent = CollisionRect {
            x: self.rect.x + self.hspd,
            y: self.rect.y + self.vspd,
            width: self.rect.width,
            height: self.rect.height,
        };
        let mut i: usize = 0;
        while i < others.len()
            invariant
                self == old(self),
                self@.wf(),
                map.wf(),
                0 <= dt_ms <= DT_MAX,
                0 <= push <= 500,
                push == PUSH_SPEED * dt_ms / 1000,
                -STEP_BOUND <= self@.hspd <= STEP_BOUND,
                -STEP_BOUND <= self@.vspd <= STEP_BOUND,
                forall|k: int| 0 <= k < others@.len() ==> (#[trigger] others@[k])@.wf(),
                tent == (CollisionRect {
                    x: (self.rect.x + self.hspd) as i64,
                    y: (self.rect.y + self.vspd) as i64,
                    width: self.rect.width,
                    height: self.rect.height,
                }),
                0 <= i <= others@.len(),
                forall|k: int| 0 <= k < i ==> !collides_with(self@, views(others@)[k]),
            decreases others@.len() - i,
        {
            let o = &others[i];
            proof {
                assert(views(others@)[i as int] == others@[i as int]@);
            }
            let yielding_to_me: bool = match o.moving_away_from {
                Some(x) => x == self.id,
                None => false,
            };
            if o.id != self.id && !yielding_to_me {
                if tent.touches_rect(&o.rect) {
                    proof {
                        assert(collides_with(self@, views(others@)[i as int]));
                        lemma_first_collider_skip(self@, views(others@), i as int);
                        assert(first_collider(self@, views(others@), 0) == i as int);
                    }
                    let (nx, ny) = away_nudge(&tent.top_left(), &o.rect.top_left(), push);
                    let h1: i64 = self.hspd + nx;
                    let v1: i64 = self.vspd + ny;
                    let h_rect = CollisionRect {
                        x: self.rect.x + h1,
                        y: self.rect.y,
                        width: self.rect.width,
                        height: self.rect.height,
                    };
                    let v_rect = CollisionRect {
                        x: self.rect.x,
                        y: self.rect.y + v1,
                        width: self.rect.width,
                        height: self.rect.height,
                    };
                    let w: usize = map.width;
                    let h: usize = map.height;
                    proof {
                        assert(w as int * (h as int) <= 0x4000_0000) by (nonlinear_arith)
                            requires
                                0 <= w as int <= MAX_DIM,
                                0 <= h as int <= MAX_DIM,
                                MAX_DIM == 0x8000,
                        ;
                    }
                    let n: usize = w * h;
                    let mut hs: i64 = h1;
                    let mut vs: i64 = v1;
                    let ghost hx = self.rect.x + h1;
                    let ghost hy = self.rect.y as int;
                    let ghost vx = self.rect.x as int;
                    let ghost vy = self.rect.y + v1;
                    let ghost rw = self.rect.width as int;
                    let ghost rh = self.rect.height as int;
                    let mut k: usize = 0;
                    while k < n
                        invariant
                            map.wf(),
                            w == map.width,
                            h == map.height,
                            n == w * h,
                            0 <= k <= n,
                            h_rect.x == hx && h_rect.y == hy && h_rect.width == rw
                                && h_rect.height == rh,
                            v_rect.x == vx && v_rect.y == vy && v_rect.width == rw
                                && v_rect.height == rh,
                            -RECT_LIMIT <= hx <= RECT_LIMIT,
                            -RECT_LIMIT <= hy <= RECT_LIMIT,
                            -RECT_LIMIT <= vx <= RECT_LIMIT,
                            -RECT_LIMIT <= vy <= RECT_LIMIT,
                            0 <= rw <= 64,
                            0 <= rh <= 64,
                            -VEL_BOUND <= hs <= VEL_BOUND,
                            -VEL_BOUND <= vs <= VEL_BOUND,
                            wall_clamp_h(*map, hx, hy, rw, rh, h1 as int, 0) == wall_clamp_h(
                                *map,
                                hx,
                                hy,
                                rw,
                                rh,
                                hs as int,
                                k as int,
                            ),
                            wall_clamp_v(*map, vx, vy, rw, rh, v1 as int, 0) == wall_clamp_v(
                                *map,
                                vx,
                                vy,
                                rw,
                                rh,
                                vs as int,
                                k as int,
                            ),
                        decreases n - k,
                    {
                        proof {
                            lemma_id_coords(k as int, w as int, h as int);
                        }
                        let x: u32 = (k % w) as u32;
                        let y: u32 = (k / w) as u32;
                        let cell = GridCell { x, y };
                        if !map.is_walkable(&cell) {
                            let wall_rect = TileMap::pos_to_rect(&cell, 1, 1);
                            if h_rect.touches_rect(&wall_rect) {
                                let wc = wall_rect.center();
                                let hc = h_rect.center();
                                if wc.x > hc.x {
                                    hs = wall_rect.left() - h_rect.right();
                                } else {
                                    hs = wall_rect.right() - h_rect.left();
                                }
                            }
                            if v_rect.touches_rect(&wall_rect) {
                                let wc = wall_rect.center();
                                let vc = v_rect.center();
                                if wc.y > vc.y {
                                    vs = wall_rect.top() - v_rect.bottom();
                                } else {
                                    vs = wall_rect.bottom() - v_rect.top();
                                }
                            }
                        }
                        k = k + 1;
                    }
                    self.moving_away_from = Some(o.id);
                    self.hspd = hs;
                    self.vspd = vs;
                    return ;
                }
            }
            proof {
                assert(!collides_with(self@, views(others@)[i as int]));
            }
            i = i + 1;
        }
        proof {
            lemma_first_collider_skip(self@, views(others@), others@.len() as int);
            assert(first_collider(self@, views(others@), 0) == -1);
        }
    }

    /// One whole simulation tick of this worker against the given roster
    /// and map: velocities and the yielding relation are reset, the path is
    /// followed, the facing updated, collisions resolved, and the resolved
    /// velocity committed to the position.
    pub fn update(&mut self, others: &Vec<Worker>, map: &TileMap, dt_ms: i64)
        requires
            old(self)@.wf(),
            map.wf(),
            0 <= dt_ms <= DT_MAX,
            forall|i: int| 0 <= i < others@.len() ==> (#[trigger] others@[i])@.wf(),
        ensures
            final(self)@ == tick_model(old(self)@, views(others@), *map, dt_ms as int),
            final(self)@.wf(),
    {
        self.hspd = 0;
        self.vspd = 0;
        self.moving_away_from = None;
        proof {
            assert(self@ == reset_model(old(self)@));
        }
        self.update_path(dt_ms);
        self.update_direction();
        self.update_collision(others, map, dt_ms);
        let nx: i64 = self.rect.x + self.hspd;
        let ny: i64 = self.rect.y + self.vspd;
        let cx: i64 = if nx > POS_BOUND {
            POS_BOUND
        } else if nx < -POS_BOUND {
            -POS_BOUND
        } else {
            nx
        };
        let cy: i64 = if ny > POS_BOUND {
            POS_BOUND
        } else if ny < -POS_BOUND {
            -POS_BOUND
        } else {
            ny
        };
        self.rect.set_top_left(WorldPos { x: cx, y: cy });
    }

    /// Sets the path to the given goal cell: the result of a pathfinding
    /// request from the worker's current cell, or no path when the worker
    /// stands outside the map.
    pub fn set_path(&mut self, goal: GridCell, map: &TileMap)
        requires
            map.wf(),
        ensures
            final(self).id == old(self).id,
            final(self).rect == old(self).rect,
            final(self).max_hp == old(self).max_hp,
            final(self).hp == old(self).hp,
            final(self).speed == old(self).speed,
            final(self).direction == old(self).direction,
            final(self).hspd == old(self).hspd,
            final(self).vspd == old(self).vspd,
            final(self).moving_away_from == old(self).moving_away_from,
            final(self).color == old(self).color,
            ({
                let sx = crate::map::world_axis_to_cell(old(self).rect.x as int);
                let sy = crate::map::world_axis_to_cell(old(self).rect.y as int);
                if map.in_bounds_spec(sx, sy) {
                    ((final(self).path is Some) <==> crate::astar::reachable(
                        *map,
                        sx,
                        sy,
                        goal.x as int,
                        goal.y as int,
                    )) && (final(self).path matches Some(p) ==> crate::astar::path_ok(
                        *map,
                        p@,
                        sx,
                        sy,
                        goal.x as int,
                        goal.y as int,
                    ))
                } else {
                    final(self).path is None
                }
            }),
    {
        let start = world_to_cell(&self.rect.top_left());
        if map.in_bounds(&start) {
            self.path = astar(&start, &goal, map);
        } else {
            self.path = None;
        }
    }
}

/// Ticks every worker of the roster in order: each worker is updated
/// against the roster state left by those before it, so the outcome is
/// deterministic in the roster order.
pub fn tick_workers(workers: &mut Vec<Worker>, map: &TileMap, dt_ms: i64)
    requires
        map.wf(),
        0 <= dt_ms <= DT_MAX,
        forall|i: int| 0 <= i < old(workers)@.len() ==> (#[trigger] old(workers)@[i])@.wf(),
    ensures
        final(workers)@.len() == old(workers)@.len(),
        views(final(workers)@) == tick_roster(views(old(workers)@), *map, dt_ms as int, 0),
        forall|i: int| 0 <= i < final(workers)@.len() ==> (#[trigger] final(workers)@[i])@.wf(),
{
    let ghost m = *map;
    let mut i: usize = 0;
    while i < workers.len()
        invariant
            map.wf(),
            m == *map,
            0 <= dt_ms <= DT_MAX,
            0 <= i <= workers@.len(),
            workers@.len() == old(workers)@.len(),
            forall|k: int| 0 <= k < workers@.len() ==> (#[trigger] workers@[k])@.wf(),
            tick_roster(views(old(workers)@), m, dt_ms as int, 0) == tick_roster(
                views(workers@),
                m,
                dt_ms as int,
                i as int,
            ),
        decreases workers@.len() - i,
    {
        let ghost pre = views(workers@);
        let mut w = workers[i].duplicate();
        w.update(workers, map, dt_ms);
        proof {
            assert(w@ == tick_model(pre[i as int], pre, m, dt_ms as int));
        }
        workers[i] = w;
        proof {
            assert(views(workers@) =~= pre.update(i as int, tick_model(pre[i as int], pre, m, dt_ms as int)));
        }
        i = i + 1;
    }
    proof {
        assert(tick_roster(views(workers@), m, dt_ms as int, workers@.len() as int) == views(
            workers@,
        ));
    }
}


/// Some other worker collides with this one, so the scan finds a first
/// collider.
pub proof fn lemma_first_collider_finds(me: WorkerModel, others: Seq<WorkerModel>, k: int)
    requires
        0 <= k < others.len(),
        collides_with(me, others[k]),
    ensures
        0 <= first_collider(me, others, 0) < others.len(),
{
    lemma_first_collider_finds_from(me, others, k, 0);
}

proof fn lemma_first_collider_finds_from(me: WorkerModel, others: Seq<WorkerModel>, k: int, i: int)
    requires
        0 <= i <= k < others.len(),
        collides_with(me, others[k]),
    ensures
        i <= first_collider(me, others, i) < others.len(),
    decreases k - i,
{
    if collides_with(me, others[i]) {
    } else {
        lemma_first_collider_finds_from(me, others, k, i + 1);
    }
}

/// On a map whose in-bounds cells are all walkable, the wall scan leaves
/// the velocity unchanged.
proof fn lemma_wall_clamp_h_noop(m: TileMap, hx: int, hy: int, hw: int, hh: int, acc: int, k: int)
    requires
        0 <= k,
        forall|x: int, y: int| m.in_bounds_spec(x, y) ==> m.walkable(x, y),
    ensures
        wall_clamp_h(m, hx, hy, hw, hh, acc, k) == acc,
    decreases m.width as int * m.height as int - k,
{
    let w = m.width as int;
    let h = m.height as int;
    let n = w * h;
    if k < n {
        assert(w >= 1 && h >= 1) by (nonlinear_arith)
            requires
                0 <= k < w * h,
                w >= 0,
                h >= 0,
        ;
        lemma_id_coords(k, w, h);
        assert(m.in_bounds_spec(k % w, k / w));
        assert(m.walkable(k % w, k / w));
        lemma_wall_clamp_h_noop(m, hx, hy, hw, hh, acc, k + 1);
    }
}

proof fn lemma_wall_clamp_v_noop(m: TileMap, vx: int, vy: int, vw: int, vh: int, acc: int, k: int)
    requires
        0 <= k,
        forall|x: int, y: int| m.in_bounds_spec(x, y) ==> m.walkable(x, y),
    ensures
        wall_clamp_v(m, vx, vy, vw, vh, acc, k) == acc,
    decreases m.width as int * m.height as int - k,
{
    let w = m.width as int;
    let h = m.height as int;
    let n = w * h;
    if k < n {
        assert(w >= 1 && h >= 1) by (nonlinear_arith)
            requires
                0 <= k < w * h,
                w >= 0,
                h >= 0,
        ;
        lemma_id_coords(k, w, h);
        assert(m.in_bounds_spec(k % w, k / w));
        assert(m.walkable(k % w, k / w));
        lemma_wall_clamp_v_noop(m, vx, vy, vw, vh, acc, k + 1);
    }
}

/// A nonzero push away from a distinct point has a nonzero component, and
/// both components point away from the other point.
proof fn lemma_nudge_away(ox: int, oy: int, tx: int, ty: int, step: int)
    requires
        step >= 1,
    ensures
        nudge_x(ox, oy, tx, ty, step) * (ox - tx) >= 0,
        nudge_y(ox, oy, tx, ty, step) * (oy - ty) >= 0,
        nudge_x(ox, oy, tx, ty, step) != 0 || nudge_y(ox, oy, tx, ty, step) != 0,
{
    let dx = ox - tx;
    let dy = oy - ty;
    let d2 = dx * dx + dy * dy;
    if d2 == 0 {
        assert(dx * dx >= 0 && dy * dy >= 0) by (nonlinear_arith);
        assert(dx == 0) by (nonlinear_arith)
            requires
                dx * dx <= 0,
        ;
        assert(nudge_x(ox, oy, tx, ty, step) == step);
        assert(step * dx >= 0) by (nonlinear_arith)
            requires
                dx == 0,
        ;
    } else {
        let s = sqrt_floor(d2 as nat) as int;
        lemma_sqrt_floor_bounds(d2 as nat);
        lemma_component_le_sqrt(dx, dy);
        lemma_component_le_sqrt(dy, dx);
        assert(dy * dy + dx * dx == d2);
        if s == 0 {
            assert(d2 < (s + 1) * (s + 1));
            assert(d2 < 1) by (nonlinear_arith)
                requires
                    s == 0,
                    d2 < (s + 1) * (s + 1),
            ;
            assert(d2 >= 0) by (nonlinear_arith)
                requires
                    d2 == dx * dx + dy * dy,
            ;
            assert(false);
        }
        let nx = scale_round(dx, step, s);
        let ny = scale_round(dy, step, s);
        // sign agreement
        assert(nx * dx >= 0 && ny * dy >= 0) by (nonlinear_arith)
            requires
                s >= 1,
                step >= 0,
                nx == scale_round(dx, step, s),
                ny == scale_round(dy, step, s),
                nx == (if dx >= 0 {
                    (2 * dx * step + s) / (2 * s)
                } else {
                    -((2 * (-dx) * step + s) / (2 * s))
                }),
                ny == (if dy >= 0 {
                    (2 * dy * step + s) / (2 * s)
                } else {
                    -((2 * (-dy) * step + s) / (2 * s))
                }),
        ;
        // the larger component rounds to at least one
        let mx = if dx < 0 {
            -dx
        } else {
            dx
        };
        let my = if dy < 0 {
            -dy
        } else {
            dy
        };
        let mm = if mx >= my {
            mx
        } else {
            my
        };
        assert(s * s <= d2);
        assert(2 * mm > s) by (nonlinear_arith)
            requires
                s >= 1,
                s * s <= d2,
                d2 == dx * dx + dy * dy,
                mx == (if dx < 0 {
                    -dx
                } else {
                    dx
                }),
                my == (if dy < 0 {
                    -dy
                } else {
                    dy
                }),
                mm == (if mx >= my {
                    mx
                } else {
                    my
                }),
        ;
        assert((2 * mm * step + s) / (2 * s) >= 1) by (nonlinear_arith)
            requires
                s >= 1,
                step >= 1,
                2 * mm > s,
        ;
        if mx >= my {
            assert(mm == mx);
            if dx >= 0 {
                assert(nx == (2 * dx * step + s) / (2 * s));
                assert(2 * dx * step == 2 * mm * step) by (nonlinear_arith)
                    requires
                        dx == mm,
                ;
                assert(nx != 0);
            } else {
                assert(nx == -((2 * (-dx) * step + s) / (2 * s)));
                assert(2 * (-dx) * step == 2 * mm * step) by (nonlinear_arith)
                    requires
                        -dx == mm,
                ;
                assert(nx != 0);
            }
        } else {
            assert(mm == my);
            if dy >= 0 {
                assert(ny == (2 * dy * step + s) / (2 * s));
                assert(2 * dy * step == 2 * mm * step) by (nonlinear_arith)
                    requires
                        dy == mm,
                ;
                assert(ny != 0);
            } else {
                assert(ny == -((2 * (-dy) * step + s) / (2 * s)));
                assert(2 * (-dy) * step == 2 * mm * step) by (nonlinear_arith)
                    requires
                        -dy == mm,
                ;
                assert(ny != 0);
            }
        }
    }
}

/// Two workers placed with overlapping tentative footprints resolve, in
/// one tick on a map with no blocked cell in it, with this worker yielding
/// to the first collider and its velocity nudged by a nonzero push whose
/// components point away from that worker. This is soft avoidance: a
/// tendency, not a non-penetration guarantee.
pub proof fn lemma_collision_yields(
    me: WorkerModel,
    others: Seq<WorkerModel>,
    m: TileMap,
    dt_ms: int,
)
    requires
        0 <= first_collider(me, others, 0),
        forall|x: int, y: int| m.in_bounds_spec(x, y) ==> m.walkable(x, y),
        PUSH_SPEED as int * dt_ms / 1000 >= 1,
    ensures
        ({
            let j = first_collider(me, others, 0);
            let o = others[j];
            let r = resolve_model(me, others, m, dt_ms);
            let push = PUSH_SPEED as int * dt_ms / 1000;
            &&& r.moving_away_from == Some(o.id)
            &&& r.hspd == me.hspd + nudge_x(
                tent_x(me),
                tent_y(me),
                o.rect.x as int,
                o.rect.y as int,
                push,
            )
            &&& r.vspd == me.vspd + nudge_y(
                tent_x(me),
                tent_y(me),
                o.rect.x as int,
                o.rect.y as int,
                push,
            )
            &&& (r.hspd - me.hspd) * (tent_x(me) - o.rect.x) >= 0
            &&& (r.vspd - me.vspd) * (tent_y(me) - o.rect.y) >= 0
            &&& (r.hspd != me.hspd || r.vspd != me.vspd)
        }),
{
    let j = first_collider(me, others, 0);
    let o = others[j];
    let push = PUSH_SPEED as int * dt_ms / 1000;
    let nx = nudge_x(tent_x(me), tent_y(me), o.rect.x as int, o.rect.y as int, push);
    let ny = nudge_y(tent_x(me), tent_y(me), o.rect.x as int, o.rect.y as int, push);
    let h1 = me.hspd + nx;
    let v1 = me.vspd + ny;
    lemma_wall_clamp_h_noop(
        m,
        me.rect.x + h1,
        me.rect.y as int,
        me.rect.width as int,
        me.rect.height as int,
        h1,
        0,
    );
    lemma_wall_clamp_v_noop(
        m,
        me.rect.x as int,
        me.rect.y + v1,
        me.rect.width as int,
        me.rect.height as int,
        v1,
        0,
    );
    lemma_nudge_away(tent_x(me), tent_y(me), o.rect.x as int, o.rect.y as int, push);
}


/// Iterating the whole tick on a worker alone (an empty roster).
pub open spec fn motion_iter(w: WorkerModel, m: TileMap, dt_ms: int, n: nat) -> WorkerModel
    decreases n,
{
    if n == 0 {
        w
    } else {
        motion_iter(tick_model(w, Seq::empty(), m, dt_ms), m, dt_ms, (n - 1) as nat)
    }
}

/// One far-from-target motion step strictly shrinks the squared distance
/// to the target, moves each coordinate toward it, and never overshoots.
proof fn lemma_step_decreases(tlx: int, tly: int, tx: int, ty: int, step: int)
    requires
        step >= 1,
        dist_sq(tlx, tly, tx, ty) > step * step,
    ensures
        ({
            let d2 = dist_sq(tlx, tly, tx, ty);
            let s = sqrt_floor(d2 as nat) as int;
            let mx = scale_round(tx - tlx, step, s);
            let my = scale_round(ty - tly, step, s);
            &&& dist_sq(tlx + mx, tly + my, tx, ty) < d2
            &&& abs_val(mx) <= abs_val(tx - tlx)
            &&& mx * (tx - tlx) >= 0
            &&& abs_val(my) <= abs_val(ty - tly)
            &&& my * (ty - tly) >= 0
        }),
{
    let dx = tx - tlx;
    let dy = ty - tly;
    let d2 = dist_sq(tlx, tly, tx, ty);
    assert(d2 == dx * dx + dy * dy);
    let s = sqrt_floor(d2 as nat) as int;
    lemma_sqrt_floor_bounds(d2 as nat);
    assert(step * step >= 0 && step * step < (step + 1) * (step + 1)) by (nonlinear_arith)
        requires
            step >= 1,
    ;
    lemma_sqrt_floor_unique((step * step) as nat, step as nat);
    lemma_sqrt_floor_monotone((step * step) as nat, d2 as nat);
    assert(step <= s);
    assert(s >= 1);
    lemma_scale_round_bounds(dx, step, s);
    lemma_scale_round_bounds(dy, step, s);
    let mx = scale_round(dx, step, s);
    let my = scale_round(dy, step, s);
    // sign agreement
    assert(mx * dx >= 0 && my * dy >= 0) by (nonlinear_arith)
        requires
            s >= 1,
            step >= 0,
            mx == (if dx >= 0 {
                (2 * dx * step + s) / (2 * s)
            } else {
                -((2 * (-dx) * step + s) / (2 * s))
            }),
            my == (if dy >= 0 {
                (2 * dy * step + s) / (2 * s)
            } else {
                -((2 * (-dy) * step + s) / (2 * s))
            }),
    ;
    // the larger component moves by at least one
    let ax = if dx < 0 {
        -dx
    } else {
        dx
    };
    let ay = if dy < 0 {
        -dy
    } else {
        dy
    };
    let mm = if ax >= ay {
        ax
    } else {
        ay
    };
    assert(s * s <= d2);
    assert(2 * mm > s) by (nonlinear_arith)
        requires
            s >= 1,
            s * s <= d2,
            d2 == dx * dx + dy * dy,
            ax == (if dx < 0 {
                -dx
            } else {
                dx
            }),
            ay == (if dy < 0 {
                -dy
            } else {
                dy
            }),
            mm == (if ax >= ay {
                ax
            } else {
                ay
            }),
    ;
    assert((2 * mm * step + s) / (2 * s) >= 1) by (nonlinear_arith)
        requires
            s >= 1,
            step >= 1,
            2 * mm > s,
    ;
    // the dot product of movement and offset is at least one
    assert(dx * mx + dy * my >= 1) by (nonlinear_arith)
        requires
            s >= 1,
            step >= 1,
            (2 * mm * step + s) / (2 * s) >= 1,
            mx == (if dx >= 0 {
                (2 * dx * step + s) / (2 * s)
            } else {
                -((2 * (-dx) * step + s) / (2 * s))
            }),
            my == (if dy >= 0 {
                (2 * dy * step + s) / (2 * s)
            } else {
                -((2 * (-dy) * step + s) / (2 * s))
            }),
            ax == (if dx < 0 {
                -dx
            } else {
                dx
            }),
            ay == (if dy < 0 {
                -dy
            } else {
                dy
            }),
            mm == (if ax >= ay {
                ax
            } else {
                ay
            }),
            mx * dx >= 0,
            my * dy >= 0,
            abs_val(mx) <= abs_val(dx),
            abs_val(my) <= abs_val(dy),
            abs_val(mx) == (if mx < 0 {
                -mx
            } else {
                mx
            }),
            abs_val(my) == (if my < 0 {
                -my
            } else {
                my
            }),
            abs_val(dx) == ax,
            abs_val(dy) == ay,
    ;
    // the squared distance shrinks by at least the dot product
    assert(dist_sq(tlx + mx, tly + my, tx, ty) <= d2 - (dx * mx + dy * my)) by (nonlinear_arith)
        requires
            d2 == dx * dx + dy * dy,
            dx == tx - tlx,
            dy == ty - tly,
            mx * dx >= 0,
            my * dy >= 0,
            abs_val(mx) <= abs_val(dx),
            abs_val(my) <= abs_val(dy),
            abs_val(mx) == (if mx < 0 {
                -mx
            } else {
                mx
            }),
            abs_val(my) == (if my < 0 {
                -my
            } else {
                my
            }),
            abs_val(dx) == (if dx < 0 {
                -dx
            } else {
                dx
            }),
            abs_val(dy) == (if dy < 0 {
                -dy
            } else {
                dy
            }),
            dist_sq(tlx + mx, tly + my, tx, ty) == (dx - mx) * (dx - mx) + (dy - my) * (dy - my),
    ;
}

/// Given a straight or winding path and a positive per-tick step, a worker
/// ticked alone repeatedly arrives: after finitely many ticks the path is
/// gone and the position is exactly the final waypoint, with no overshoot
/// and no residual drift.
pub proof fn lemma_motion_converges(w: WorkerModel, m: TileMap, dt_ms: int)
    requires
        w.wf(),
        0 <= dt_ms <= DT_MAX,
        step_len(w.speed, dt_ms) >= 1,
        w.path matches Some(p) && p.len() >= 1,
    ensures
        exists|n: nat|
            #![trigger motion_iter(w, m, dt_ms, n)]
            {
                let f = motion_iter(w, m, dt_ms, n);
                let p = w.path.unwrap();
                &&& f.path is None
                &&& f.rect.x == p[p.len() - 1].x
                &&& f.rect.y == p[p.len() - 1].y
            },
    decreases w.path.unwrap().len(), dist_sq(
        w.rect.x as int,
        w.rect.y as int,
        w.path.unwrap()[0].x as int,
        w.path.unwrap()[0].y as int,
    ),
{
    let p = w.path.unwrap();
    let t = p[0];
    assert(-POS_BOUND <= t.x as int <= POS_BOUND && -POS_BOUND <= t.y as int <= POS_BOUND);
    let step = step_len(w.speed, dt_ms);
    let w0 = reset_model(w);
    let w1s = step_path_model(w0, dt_ms);
    let w1h = heading_model(w1s);
    assert(first_collider(w1h, Seq::empty(), 0) == -1);
    let w1r = resolve_model(w1h, Seq::empty(), m, dt_ms);
    assert(w1r == w1h);
    let w1 = commit_model(w1r);
    assert(tick_model(w, Seq::empty(), m, dt_ms) == w1);
    let d2 = dist_sq(w.rect.x as int, w.rect.y as int, t.x as int, t.y as int);
    crate::math::lemma_dist_sq_nonneg(w.rect.x as int, w.rect.y as int, t.x as int, t.y as int);
    if d2 > step * step {
        lemma_step_decreases(w.rect.x as int, w.rect.y as int, t.x as int, t.y as int, step);
        let s = sqrt_floor(d2 as nat) as int;
        let mx = scale_round(t.x - w.rect.x, step, s);
        let my = scale_round(t.y - w.rect.y, step, s);
        assert(w1s.hspd == mx && w1s.vspd == my);
        assert(w1r.hspd == mx && w1r.vspd == my);
        // the move stays between the old position and the waypoint
        let dxw = t.x as int - w.rect.x as int;
        let dyw = t.y as int - w.rect.y as int;
        assert(abs_val(dxw) == (if dxw < 0 {
            -dxw
        } else {
            dxw
        }));
        assert(abs_val(dyw) == (if dyw < 0 {
            -dyw
        } else {
            dyw
        }));
        assert(-POS_BOUND <= w.rect.x + mx <= POS_BOUND && -POS_BOUND <= w.rect.y + my
            <= POS_BOUND) by (nonlinear_arith)
            requires
                -POS_BOUND <= w.rect.x as int <= POS_BOUND,
                -POS_BOUND <= w.rect.y as int <= POS_BOUND,
                -POS_BOUND <= t.x as int <= POS_BOUND,
                -POS_BOUND <= t.y as int <= POS_BOUND,
                dxw == t.x as int - w.rect.x as int,
                dyw == t.y as int - w.rect.y as int,
                mx * dxw >= 0,
                my * dyw >= 0,
                abs_val(mx) <= abs_val(dxw),
                abs_val(my) <= abs_val(dyw),
                abs_val(mx) == (if mx < 0 {
                    -mx
                } else {
                    mx
                }),
                abs_val(my) == (if my < 0 {
                    -my
                } else {
                    my
                }),
                abs_val(dxw) == (if dxw < 0 {
                    -dxw
                } else {
                    dxw
                }),
                abs_val(dyw) == (if dyw < 0 {
                    -dyw
                } else {
                    dyw
                }),
        ;
        assert(w1.rect.x == w.rect.x + mx && w1.rect.y == w.rect.y + my);
        assert(w1.path == w.path);
        assert(w1.wf());
        assert(dist_sq(w1.rect.x as int, w1.rect.y as int, t.x as int, t.y as int) < d2);
        assert(w1.path.unwrap() == p);
        assert(w1.path.unwrap()[0] == t);
        assert(dist_sq(
            w1.rect.x as int,
            w1.rect.y as int,
            w1.path.unwrap()[0].x as int,
            w1.path.unwrap()[0].y as int,
        ) < dist_sq(
            w.rect.x as int,
            w.rect.y as int,
            w.path.unwrap()[0].x as int,
            w.path.unwrap()[0].y as int,
        ));
        crate::math::lemma_dist_sq_nonneg(
            w1.rect.x as int,
            w1.rect.y as int,
            w1.path.unwrap()[0].x as int,
            w1.path.unwrap()[0].y as int,
        );
        lemma_motion_converges(w1, m, dt_ms);
        let n0 = choose|n: nat|
            #![trigger motion_iter(w1, m, dt_ms, n)]
            {
                let f = motion_iter(w1, m, dt_ms, n);
                let p1 = w1.path.unwrap();
                &&& f.path is None
                &&& f.rect.x == p1[p1.len() - 1].x
                &&& f.rect.y == p1[p1.len() - 1].y
            };
        assert(motion_iter(w, m, dt_ms, (n0 + 1) as nat) == motion_iter(w1, m, dt_ms, n0));
        assert({
            let f = motion_iter(w, m, dt_ms, (n0 + 1) as nat);
            &&& f.path is None
            &&& f.rect.x == p[p.len() - 1].x
            &&& f.rect.y == p[p.len() - 1].y
        });
    } else {
        // arrival: the position snaps exactly onto the waypoint
        assert(w1s.hspd == t.x - w.rect.x && w1s.vspd == t.y - w.rect.y);
        assert(w1s.path == Some(p.drop_first()));
        assert(w1.rect.x == t.x && w1.rect.y == t.y);
        assert(w1.path == Some(p.drop_first()));
        if p.len() == 1 {
            let w2 = tick_model(w1, Seq::empty(), m, dt_ms);
            assert(p.drop_first().len() == 0);
            let w2s = step_path_model(reset_model(w1), dt_ms);
            assert(w2s.path is None);
            assert(w2s.hspd == 0 && w2s.vspd == 0);
            assert(first_collider(heading_model(w2s), Seq::empty(), 0) == -1);
            assert(w2.rect.x == t.x && w2.rect.y == t.y);
            assert(w2.path is None);
            assert(motion_iter(w2, m, dt_ms, 0) == w2);
            assert(motion_iter(w1, m, dt_ms, 1) == motion_iter(w2, m, dt_ms, 0));
            assert(motion_iter(w, m, dt_ms, 2) == motion_iter(w1, m, dt_ms, 1));
            assert(motion_iter(w, m, dt_ms, 2) == w2);
            assert({
                let f = motion_iter(w, m, dt_ms, 2);
                &&& f.path is None
                &&& f.rect.x == p[p.len() - 1].x
                &&& f.rect.y == p[p.len() - 1].y
            });
        } else {
            assert(w1.wf());
            assert(w1.path.unwrap().len() == p.len() - 1);
            lemma_motion_converges(w1, m, dt_ms);
            let n0 = choose|n: nat|
                #![trigger motion_iter(w1, m, dt_ms, n)]
                {
                    let f = motion_iter(w1, m, dt_ms, n);
                    let p1 = w1.path.unwrap();
                    &&& f.path is None
                    &&& f.rect.x == p1[p1.len() - 1].x
                    &&& f.rect.y == p1[p1.len() - 1].y
                };
            assert(p.drop_first()[p.len() - 2] == p[p.len() - 1]);
            assert(motion_iter(w, m, dt_ms, (n0 + 1) as nat) == motion_iter(w1, m, dt_ms, n0));
            assert({
                let f = motion_iter(w, m, dt_ms, (n0 + 1) as nat);
                &&& f.path is None
                &&& f.rect.x == p[p.len() - 1].x
                &&& f.rect.y == p[p.len() - 1].y
            });
        }
    }
}

} // verus!
