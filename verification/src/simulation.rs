//! The simulation state and its step function: four grid maps over one
//! world area, the agent, obstacle and target sets, and the change-gated
//! pipeline of rasterization, wavefront propagation, vector-field rebuild,
//! force accumulation, integration and arrival.

use vstd::prelude::*;
use vstd::arithmetic::div_mod::lemma_fundamental_div_mod_converse;
use crate::geom::{Vec2Fix, Rect, COORD_LIMIT, bounded};
use crate::components::{
    Agent, Speed, MotivationForce, ObstacleForce, RepulsiveForce, Obstacle, Objective, Shape,
    SimulationConstants, CONST_LIMIT, RADIUS_LIMIT, shape_like, lemma_shape_like_wf,
};
use crate::grid::{GridMap, CELLS_LIMIT};
use crate::models::{BlockedStatus, TargetStatus, TargetProximity};
use crate::pathfinding::{
    create_colision_map, compute_proximity_map, create_vector_map, char_inv, values_bounded,
    neighbors_done, distances_achievable, flow_vector_spec, covers_spec, any_covers,
    lemma_any_covers_push, lemma_any_rasterized_covers, lemma_shape_like_covers, DIST_BOUND,
};
use crate::systems::{
    apply_vector_map, obstacle_force, apply_repulsive_forces, apply_social_foces,
    agent_max_speed_system, velocity_sytem, check_agent_position,
    agent_araived_at_destination_system, agents_wf, agent_bounds, obstacles_wf, targets_wf,
    motivated_agent, obstacle_forced_agent, repulsed_agents, forces_summed_agent,
    speed_clamped_agent, integrated_agent, area_clamped_agent, stepped_agents, arrived_spec,
    MAX_BODIES,
};

verus! {

broadcast use crate::grid::GridMap::lemma_idx_bounds;

/// The whole simulation: constants, the four grid maps sharing one
/// geometry, and the entity sets.  The `*_changed` flags gate the
/// pathfinding recomputation: rasterization marks its map changed,
/// propagation consumes those marks and sets the proximity mark, and the
/// vector-field rebuild consumes that.
pub struct SimulationState {
    pub constants: SimulationConstants,
    pub blocked_map: GridMap<BlockedStatus>,
    pub target_map: GridMap<TargetStatus>,
    pub proximity_map: GridMap<TargetProximity>,
    pub vector_field: GridMap<Vec2Fix>,
    pub agents: Vec<Agent>,
    pub obstacles: Vec<Obstacle>,
    pub targets: Vec<Objective>,
    pub next_agent_id: u64,
    pub blocked_map_changed: bool,
    pub target_map_changed: bool,
    pub proximity_changed: bool,
}

impl SimulationState {
    /// Standing well-formedness: admissible constants, four maps with one
    /// shared geometry, bounded entity sets, and a speed-bounded vector
    /// field.
    pub open spec fn inv(self) -> bool {
        &&& self.constants.wf()
        &&& self.blocked_map.inv()
        &&& self.target_map.inv()
        &&& self.proximity_map.inv()
        &&& self.vector_field.inv()
        &&& self.blocked_map.same_geometry(self.target_map)
        &&& self.blocked_map.same_geometry(self.proximity_map)
        &&& self.blocked_map.same_geometry(self.vector_field)
        &&& agents_wf(self.agents@)
        &&& self.agents@.len() <= MAX_BODIES
        &&& obstacles_wf(self.obstacles@)
        &&& self.obstacles@.len() <= MAX_BODIES
        &&& targets_wf(self.targets@)
        &&& self.targets@.len() <= MAX_BODIES
        &&& forall|cx: int, cy: int| self.vector_field.valid_cell(cx, cy) ==> bounded(
            #[trigger] self.vector_field@[self.vector_field.idx(cx, cy)],
            CONST_LIMIT as int,
        )
        &&& char_inv(self.proximity_map, self.blocked_map, self.target_map)
        &&& values_bounded(self.proximity_map, DIST_BOUND as int)
        &&& forall|cx: int, cy: int| self.proximity_map.valid_cell(cx, cy)
            && (#[trigger] self.proximity_map@[self.proximity_map.idx(cx, cy)]) is Computed
            ==> neighbors_done(self.proximity_map, cx, cy)
        &&& distances_achievable(self.proximity_map, self.blocked_map, self.target_map)
    }

    /// No obstacle is marked changed.
    pub open spec fn obstacles_clean(self) -> bool {
        forall|i: int| 0 <= i < self.obstacles@.len() ==> !(#[trigger] self.obstacles@[i]).changed
    }

    /// No target is marked changed.
    pub open spec fn targets_clean(self) -> bool {
        forall|i: int| 0 <= i < self.targets@.len() ==> !(#[trigger] self.targets@[i]).changed
    }

    /// Some input of the wavefront propagation changed, so a step reruns
    /// it.
    pub open spec fn propagation_pending(self) -> bool {
        ||| !self.obstacles_clean()
        ||| !self.targets_clean()
        ||| self.blocked_map_changed
        ||| self.target_map_changed
    }

    /// No pathfinding input has changed since the maps were computed, so a
    /// step leaves the proximity map and vector field untouched.
    pub open spec fn pathfinding_clean(self) -> bool {
        &&& self.obstacles_clean()
        &&& self.targets_clean()
        &&& !self.blocked_map_changed
        &&& !self.target_map_changed
        &&& !self.proximity_changed
    }

    /// Builds a simulation over `world_area` with square-ish cells of about
    /// `cell_size` world units, all maps at their default values and no
    /// entities.
    pub fn initialize(world_area: Rect, cell_size: i64, constants: SimulationConstants) -> (s:
        SimulationState)
        requires
            constants.wf(),
            bounded(world_area.min, COORD_LIMIT as int),
            bounded(world_area.max, COORD_LIMIT as int),
            world_area.min.x < world_area.max.x,
            world_area.min.y < world_area.max.y,
            1 <= cell_size,
            world_area.max.x - world_area.min.x <= cell_size * 2048,
            world_area.max.y - world_area.min.y <= cell_size * 2048,
        ensures
            s.inv(),
            s.constants == constants,
            s.blocked_map.area == world_area,
            s.blocked_map.columns as int == (world_area.max.x - world_area.min.x + cell_size - 1)
                / (cell_size as int),
            s.blocked_map.rows as int == (world_area.max.y - world_area.min.y + cell_size - 1)
                / (cell_size as int),
            s.agents@.len() == 0,
            s.obstacles@.len() == 0,
            s.targets@.len() == 0,
            s.pathfinding_clean(),
            forall|i: int| 0 <= i < s.blocked_map@.len() ==> s.blocked_map@[i]
                == BlockedStatus::Empty,
            forall|i: int| 0 <= i < s.target_map@.len() ==> s.target_map@[i]
                == TargetStatus::NotTarget,
            forall|i: int| 0 <= i < s.proximity_map@.len() ==> s.proximity_map@[i]
                == TargetProximity::NotComputed,
    {
        let sx = world_area.max.x - world_area.min.x;
        let sy = world_area.max.y - world_area.min.y;
        let columns_i = ((sx as u64) + (cell_size as u64) - 1) / (cell_size as u64);
        let rows_i = ((sy as u64) + (cell_size as u64) - 1) / (cell_size as u64);
        proof {
            let cs = cell_size as int;
            lemma_fundamental_div_mod_converse(cs * 2049 - 1, cs, 2048, cs - 1);
            lemma_fundamental_div_mod_converse(cs, cs, 1, 0);
            vstd::arithmetic::div_mod::lemma_div_is_ordered(sx + cs - 1, cs * 2049 - 1, cs);
            vstd::arithmetic::div_mod::lemma_div_is_ordered(sy + cs - 1, cs * 2049 - 1, cs);
            vstd::arithmetic::div_mod::lemma_div_is_ordered(cs, sx + cs - 1, cs);
            vstd::arithmetic::div_mod::lemma_div_is_ordered(cs, sy + cs - 1, cs);
            assert(sx + cs - 1 <= sx * cs && sy + cs - 1 <= sy * cs) by (nonlinear_arith)
                requires 1 <= sx, 1 <= sy, 1 <= cs,
            {}
            vstd::arithmetic::div_mod::lemma_div_is_ordered(sx + cs - 1, sx * cs, cs);
            vstd::arithmetic::div_mod::lemma_div_is_ordered(sy + cs - 1, sy * cs, cs);
            vstd::arithmetic::div_mod::lemma_div_by_multiple(sx as int, cs);
            vstd::arithmetic::div_mod::lemma_div_by_multiple(sy as int, cs);
            assert(1 <= columns_i <= 2048 && 1 <= rows_i <= 2048);
            assert(columns_i <= sx && rows_i <= sy);
        }
        let columns = columns_i as usize;
        let rows = rows_i as usize;
        proof {
            assert(columns * rows <= CELLS_LIMIT) by (nonlinear_arith)
                requires 1 <= columns <= 2048, 1 <= rows <= 2048,
            {}
        }
        let blocked_map = GridMap::new(columns, rows, world_area, BlockedStatus::Empty);
        let target_map = GridMap::new(columns, rows, world_area, TargetStatus::NotTarget);
        let proximity_map = GridMap::new(columns, rows, world_area, TargetProximity::NotComputed);
        let vector_field = GridMap::new(columns, rows, world_area, Vec2Fix { x: 0, y: 0 });
        proof {
            assert forall|cx: int, cy: int| proximity_map.valid_cell(cx, cy) implies {
                let v = #[trigger] proximity_map@[proximity_map.idx(cx, cy)];
                v is NotComputed && !crate::pathfinding::blocked_at(blocked_map, cx, cy)
            } by {}
        }
        SimulationState {
            constants,
            blocked_map,
            target_map,
            proximity_map,
            vector_field,
            agents: Vec::new(),
            obstacles: Vec::new(),
            targets: Vec::new(),
            next_agent_id: 0,
            blocked_map_changed: false,
            target_map_changed: false,
            proximity_changed: false,
        }
    }

    /// Adds an agent at rest at `position` and returns its id, or `None`
    /// when the position falls outside the simulation area or the agent cap
    /// is reached (an out-of-bounds agent is dropped on creation).
    pub fn add_agent(&mut self, position: Vec2Fix) -> (r: Option<u64>)
        requires
            old(self).inv(),
        ensures
            final(self).inv(),
            r is Some <==> (old(self).blocked_map.area.contains_spec(position) && old(
                self,
            ).agents@.len() < MAX_BODIES && old(self).next_agent_id < u64::MAX),
            r is Some ==> final(self).agents@ == old(self).agents@.push(
                Agent {
                    id: old(self).next_agent_id,
                    position,
                    speed: Speed(Vec2Fix { x: 0, y: 0 }),
                    motivation_force: MotivationForce(Vec2Fix { x: 0, y: 0 }),
                    obstacle_force: ObstacleForce(Vec2Fix { x: 0, y: 0 }),
                    repulsive_force: RepulsiveForce(Vec2Fix { x: 0, y: 0 }),
                },
            ) && r->Some_0 == old(self).next_agent_id,
            r is None ==> *final(self) == *old(self),
    {
        if self.blocked_map.area.contains(position) && self.agents.len() < MAX_BODIES
            && self.next_agent_id < u64::MAX {
            let id = self.next_agent_id;
            self.agents.push(
                Agent {
                    id,
                    position,
                    speed: Speed(Vec2Fix { x: 0, y: 0 }),
                    motivation_force: MotivationForce(Vec2Fix { x: 0, y: 0 }),
                    obstacle_force: ObstacleForce(Vec2Fix { x: 0, y: 0 }),
                    repulsive_force: RepulsiveForce(Vec2Fix { x: 0, y: 0 }),
                },
            );
            self.next_agent_id = id + 1;
            Some(id)
        } else {
            None
        }
    }

    /// Removes every agent with the given id; the others keep their order.
    #[verifier::loop_isolation(false)]
    pub fn remove_agent(&mut self, id: u64)
        requires
            old(self).inv(),
        ensures
            final(self).inv(),
            final(self).agents@ == old(self).agents@.filter(|a: Agent| a.id != id),
    {
        let n = self.agents.len();
        let ghost pred = |a: Agent| a.id != id;
        let mut kept: Vec<Agent> = Vec::new();
        let mut k: usize = 0;
        while k < n
            invariant
                0 <= k <= n,
                self.agents@.len() == n,
                *self == *old(self),
                kept@ == old(self).agents@.take(k as int).filter(pred),
                pred == (|a: Agent| a.id != id),
                agents_wf(kept@),
                kept@.len() <= k,
            decreases n - k,
        {
            let a = self.agents[k];
            proof {
                assert(agents_wf(old(self).agents@));
                assert(agent_bounds(old(self).agents@[k as int]));
                assert(old(self).agents@.take(k + 1).drop_last() =~= old(self).agents@.take(
                    k as int,
                ));
                assert(old(self).agents@.take(k + 1).last() == a);
                reveal_with_fuel(Seq::filter, 2);
            }
            if a.id != id {
                kept.push(a);
            }
            k = k + 1;
        }
        proof {
            assert(old(self).agents@.take(n as int) =~= old(self).agents@);
        }
        self.agents = kept;
    }

    /// Adds a static obstacle and marks it changed, so the next step
    /// rasterizes it; a malformed shape, an out-of-range position or a full
    /// set is rejected.
    pub fn add_obstacle(&mut self, position: Vec2Fix, shape: Shape) -> (r: bool)
        requires
            old(self).inv(),
        ensures
            final(self).inv(),
            r <==> (shape.wf() && bounded(position, COORD_LIMIT as int) && old(
                self,
            ).obstacles@.len() < MAX_BODIES),
            r ==> final(self).obstacles@ == old(self).obstacles@.push(
                Obstacle { position, shape, changed: true },
            ),
            !r ==> *final(self) == *old(self),
    {
        if shape_wf_exec(&shape) && position_in_range(position) && self.obstacles.len()
            < MAX_BODIES {
            self.obstacles.push(Obstacle { position, shape, changed: true });
            true
        } else {
            false
        }
    }

    /// Adds a navigation target and marks it changed; the same rejections
    /// apply.
    pub fn add_target(&mut self, position: Vec2Fix, shape: Shape) -> (r: bool)
        requires
            old(self).inv(),
        ensures
            final(self).inv(),
            r <==> (shape.wf() && bounded(position, COORD_LIMIT as int) && old(
                self,
            ).targets@.len() < MAX_BODIES),
            r ==> final(self).targets@ == old(self).targets@.push(
                Objective { position, shape, changed: true },
            ),
            !r ==> *final(self) == *old(self),
    {
        if shape_wf_exec(&shape) && position_in_range(position) && self.targets.len()
            < MAX_BODIES {
            self.targets.push(Objective { position, shape, changed: true });
            true
        } else {
            false
        }
    }

    /// Repositions an obstacle and marks it changed; an out-of-range index
    /// or position is rejected.
    pub fn move_obstacle(&mut self, i: usize, position: Vec2Fix) -> (r: bool)
        requires
            old(self).inv(),
        ensures
            final(self).inv(),
            r <==> (i < old(self).obstacles@.len() && bounded(position, COORD_LIMIT as int)),
            r ==> {
                &&& final(self).obstacles@.len() == old(self).obstacles@.len()
                &&& forall|j: int| 0 <= j < old(self).obstacles@.len() && j != i
                    ==> final(self).obstacles@[j] == old(self).obstacles@[j]
                &&& final(self).obstacles@[i as int].position == position
                &&& final(self).obstacles@[i as int].changed
                &&& shape_like(
                    final(self).obstacles@[i as int].shape,
                    old(self).obstacles@[i as int].shape,
                )
            },
            !r ==> *final(self) == *old(self),
    {
        if i < self.obstacles.len() && position_in_range(position) {
            let shape = self.obstacles[i].shape.duplicate();
            proof {
                lemma_shape_like_wf(shape, self.obstacles@[i as int].shape);
            }
            self.obstacles.set(i, Obstacle { position, shape, changed: true });
            true
        } else {
            false
        }
    }

    /// Repositions a target and marks it changed; the same rejections
    /// apply.
    pub fn move_target(&mut self, i: usize, position: Vec2Fix) -> (r: bool)
        requires
            old(self).inv(),
        ensures
            final(self).inv(),
            r <==> (i < old(self).targets@.len() && bounded(position, COORD_LIMIT as int)),
            r ==> {
                &&& final(self).targets@.len() == old(self).targets@.len()
                &&& forall|j: int| 0 <= j < old(self).targets@.len() && j != i
                    ==> final(self).targets@[j] == old(self).targets@[j]
                &&& final(self).targets@[i as int].position == position
                &&& final(self).targets@[i as int].changed
                &&& shape_like(
                    final(self).targets@[i as int].shape,
                    old(self).targets@[i as int].shape,
                )
            },
            !r ==> *final(self) == *old(self),
    {
        if i < self.targets.len() && position_in_range(position) {
            let shape = self.targets[i].shape.duplicate();
            proof {
                lemma_shape_like_wf(shape, self.targets@[i as int].shape);
            }
            self.targets.set(i, Objective { position, shape, changed: true });
            true
        } else {
            false
        }
    }

    /// Runs one simulation step: rasterization of changed shapes, wavefront
    /// propagation and vector-field rebuild (each only when its inputs
    /// changed), then force accumulation, velocity and position integration
    /// with the speed clamp and the area clamp, and finally removal of
    /// agents that reached a target.  The contract pins each phase: a
    /// dirty obstacle or target set ends rasterized exactly at the cells
    /// its changed shapes cover, a clean one leaves its map untouched; the
    /// recomputed proximity map is characterized through the invariant
    /// (seeds, bounds, exhaustion and achievable distances against the new
    /// maps); the rebuilt vector field follows the proximity map cell for
    /// cell; and the agents end as `stepped_agents` of the old set under
    /// the field the step steered by.
    pub fn advance(&mut self)
        requires
            old(self).inv(),
        ensures
            final(self).inv(),
            final(self).pathfinding_clean(),
            final(self).constants == old(self).constants,
            final(self).next_agent_id == old(self).next_agent_id,
            final(self).blocked_map.same_geometry(old(self).blocked_map),
            final(self).target_map.same_geometry(old(self).target_map),
            final(self).proximity_map.same_geometry(old(self).proximity_map),
            final(self).vector_field.same_geometry(old(self).vector_field),
            // rasterization: a clean set leaves its map alone, a dirty one
            // ends rasterized exactly at the cells its changed shapes cover
            old(self).obstacles_clean() ==> final(self).blocked_map == old(self).blocked_map,
            !old(self).obstacles_clean() ==> forall|cx: int, cy: int|
                old(self).blocked_map.valid_cell(cx, cy)
                    ==> final(self).blocked_map@[old(self).blocked_map.idx(cx, cy)] == (
                    if any_changed_obstacle_covers(
                        old(self).obstacles@,
                        old(self).obstacles@.len() as int,
                        old(self).blocked_map.cell_center(cx, cy),
                    ) {
                        BlockedStatus::Blocked
                    } else {
                        BlockedStatus::Empty
                    }),
            old(self).targets_clean() ==> final(self).target_map == old(self).target_map,
            !old(self).targets_clean() ==> forall|cx: int, cy: int|
                old(self).target_map.valid_cell(cx, cy)
                    ==> final(self).target_map@[old(self).target_map.idx(cx, cy)] == (
                    if any_changed_target_covers(
                        old(self).targets@,
                        old(self).targets@.len() as int,
                        old(self).target_map.cell_center(cx, cy),
                    ) {
                        TargetStatus::IsTarget
                    } else {
                        TargetStatus::NotTarget
                    }),
            // propagation runs exactly when its inputs changed
            !old(self).propagation_pending() ==> final(self).proximity_map == old(
                self,
            ).proximity_map,
            // the field follows the (possibly recomputed) proximity map, or
            // is untouched when nothing was pending
            old(self).pathfinding_clean() ==> final(self).vector_field == old(self).vector_field,
            !old(self).pathfinding_clean() ==> forall|cx: int, cy: int|
                final(self).vector_field.valid_cell(cx, cy)
                    ==> #[trigger] final(self).vector_field@[final(self).vector_field.idx(cx, cy)]
                    == flow_vector_spec(
                    final(self).proximity_map,
                    cx,
                    cy,
                    old(self).constants.desired_speed as int,
                ),
            // entity sets keep their content; only the dirty flags are
            // consumed
            final(self).obstacles@.len() == old(self).obstacles@.len(),
            forall|i: int| 0 <= i < old(self).obstacles@.len()
                ==> (#[trigger] final(self).obstacles@[i]).position
                    == old(self).obstacles@[i].position && shape_like(
                    final(self).obstacles@[i].shape,
                    old(self).obstacles@[i].shape,
                ),
            final(self).targets@.len() == old(self).targets@.len(),
            forall|i: int| 0 <= i < old(self).targets@.len()
                ==> (#[trigger] final(self).targets@[i]).position
                    == old(self).targets@[i].position && shape_like(
                    final(self).targets@[i].shape,
                    old(self).targets@[i].shape,
                ),
            // the agents end as the whole step's image of the old set
            final(self).agents@ == stepped_agents(
                old(self).agents@,
                final(self).vector_field,
                final(self).obstacles@,
                final(self).targets@,
                old(self).constants,
                old(self).blocked_map.area,
            ),
            final(self).agents@.len() <= old(self).agents@.len(),
    {
        let changed_obstacles = collect_changed_obstacles(&self.obstacles);
        if changed_obstacles.len() > 0 {
            create_colision_map(&mut self.blocked_map, &changed_obstacles);
            clear_obstacle_flags(&mut self.obstacles);
            self.blocked_map_changed = true;
        }
        proof {
            if !old(self).obstacles_clean() {
                assert forall|cx: int, cy: int|
                    old(self).blocked_map.valid_cell(cx, cy) implies self.blocked_map@[old(
                    self,
                ).blocked_map.idx(cx, cy)] == (if any_changed_obstacle_covers(
                    old(self).obstacles@,
                    old(self).obstacles@.len() as int,
                    old(self).blocked_map.cell_center(cx, cy),
                ) {
                    BlockedStatus::Blocked
                } else {
                    BlockedStatus::Empty
                }) by {
                    lemma_any_rasterized_covers(
                        old(self).blocked_map,
                        changed_obstacles@,
                        changed_obstacles@.len() as int,
                        cx,
                        cy,
                    );
                }
            }
        }
        let changed_targets = collect_changed_targets(&self.targets);
        if changed_targets.len() > 0 {
            create_colision_map(&mut self.target_map, &changed_targets);
            clear_target_flags(&mut self.targets);
            self.target_map_changed = true;
        }
        proof {
            if !old(self).targets_clean() {
                assert forall|cx: int, cy: int|
                    old(self).target_map.valid_cell(cx, cy) implies self.target_map@[old(
                    self,
                ).target_map.idx(cx, cy)] == (if any_changed_target_covers(
                    old(self).targets@,
                    old(self).targets@.len() as int,
                    old(self).target_map.cell_center(cx, cy),
                ) {
                    TargetStatus::IsTarget
                } else {
                    TargetStatus::NotTarget
                }) by {
                    lemma_any_rasterized_covers(
                        old(self).target_map,
                        changed_targets@,
                        changed_targets@.len() as int,
                        cx,
                        cy,
                    );
                }
            }
        }
        if self.blocked_map_changed || self.target_map_changed {
            compute_proximity_map(&mut self.proximity_map, &self.blocked_map, &self.target_map);
            self.proximity_changed = true;
            self.blocked_map_changed = false;
            self.target_map_changed = false;
        }
        if self.proximity_changed {
            create_vector_map(
                &mut self.vector_field,
                &self.proximity_map,
                self.constants.desired_speed,
            );
            self.proximity_changed = false;
        }
        let ghost s0 = self.agents@;
        let ghost vf = self.vector_field;
        let ghost obs_final = self.obstacles@;
        let ghost tgs_final = self.targets@;
        let ghost area = self.blocked_map.area;
        proof {
            assert(s0 == old(self).agents@);
            assert(area == old(self).blocked_map.area);
        }
        apply_vector_map(&mut self.agents, &self.vector_field);
        let ghost s1 = self.agents@;
        proof {
            assert(s1 =~= s0.map_values(|a: Agent| motivated_agent(a, vf)));
        }
        obstacle_force(&mut self.agents, &self.obstacles, &self.constants);
        let ghost s2 = self.agents@;
        proof {
            assert(s2 =~= s1.map_values(
                |a: Agent| obstacle_forced_agent(a, obs_final, old(self).constants),
            ));
        }
        apply_repulsive_forces(&mut self.agents, &self.constants);
        let ghost s3 = self.agents@;
        proof {
            assert(s3 =~= repulsed_agents(s2, old(self).constants));
        }
        apply_social_foces(&mut self.agents, &self.constants);
        let ghost s4 = self.agents@;
        proof {
            assert(s4 =~= s3.map_values(|a: Agent| forces_summed_agent(a, old(self).constants)));
        }
        agent_max_speed_system(&mut self.agents, &self.constants);
        let ghost s5 = self.agents@;
        proof {
            assert(s5 =~= s4.map_values(|a: Agent| speed_clamped_agent(a, old(self).constants)));
        }
        velocity_sytem(&mut self.agents, &self.constants);
        let ghost s6 = self.agents@;
        proof {
            assert(s6 =~= s5.map_values(|a: Agent| integrated_agent(a)));
        }
        check_agent_position(&mut self.agents, self.blocked_map.area);
        let ghost s7 = self.agents@;
        proof {
            assert(s7 =~= s6.map_values(|a: Agent| area_clamped_agent(a, area)));
        }
        agent_araived_at_destination_system(&mut self.agents, &self.targets);
        proof {
            assert(self.agents@ == s7.filter(|a: Agent| !arrived_spec(a, tgs_final)));
            assert(self.agents@ == stepped_agents(
                s0,
                vf,
                obs_final,
                tgs_final,
                old(self).constants,
                area,
            ));
        }
    }
}

/// Some of the first `k` obstacles is marked changed and covers the point.
pub open spec fn any_changed_obstacle_covers(obs: Seq<Obstacle>, k: int, q: Vec2Fix) -> bool {
    exists|i: int| 0 <= i < k && (#[trigger] obs[i]).changed && covers_spec(
        obs[i].position,
        obs[i].shape,
        q,
    )
}

/// Some of the first `k` targets is marked changed and covers the point.
pub open spec fn any_changed_target_covers(tgs: Seq<Objective>, k: int, q: Vec2Fix) -> bool {
    exists|i: int| 0 <= i < k && (#[trigger] tgs[i]).changed && covers_spec(
        tgs[i].position,
        tgs[i].shape,
        q,
    )
}

/// Widening the obstacle prefix by one admits exactly that obstacle's
/// contribution.
proof fn lemma_changed_obstacle_step(obs: Seq<Obstacle>, k: int, q: Vec2Fix)
    requires
        0 <= k < obs.len(),
    ensures
        any_changed_obstacle_covers(obs, k + 1, q) == (any_changed_obstacle_covers(obs, k, q) || (
        obs[k].changed && covers_spec(obs[k].position, obs[k].shape, q))),
{
    if any_changed_obstacle_covers(obs, k + 1, q) {
        let i = choose|i: int| 0 <= i < k + 1 && (#[trigger] obs[i]).changed && covers_spec(
            obs[i].position,
            obs[i].shape,
            q,
        );
        if i < k {
            assert(any_changed_obstacle_covers(obs, k, q));
        }
    }
    if any_changed_obstacle_covers(obs, k, q) {
        let i = choose|i: int| 0 <= i < k && (#[trigger] obs[i]).changed && covers_spec(
            obs[i].position,
            obs[i].shape,
            q,
        );
        assert(any_changed_obstacle_covers(obs, k + 1, q));
    }
}

/// Widening the target prefix by one admits exactly that target's
/// contribution.
proof fn lemma_changed_target_step(tgs: Seq<Objective>, k: int, q: Vec2Fix)
    requires
        0 <= k < tgs.len(),
    ensures
        any_changed_target_covers(tgs, k + 1, q) == (any_changed_target_covers(tgs, k, q) || (
        tgs[k].changed && covers_spec(tgs[k].position, tgs[k].shape, q))),
{
    if any_changed_target_covers(tgs, k + 1, q) {
        let i = choose|i: int| 0 <= i < k + 1 && (#[trigger] tgs[i]).changed && covers_spec(
            tgs[i].position,
            tgs[i].shape,
            q,
        );
        if i < k {
            assert(any_changed_target_covers(tgs, k, q));
        }
    }
    if any_changed_target_covers(tgs, k, q) {
        let i = choose|i: int| 0 <= i < k && (#[trigger] tgs[i]).changed && covers_spec(
            tgs[i].position,
            tgs[i].shape,
            q,
        );
        assert(any_changed_target_covers(tgs, k + 1, q));
    }
}

/// The changed obstacles, as the (position, shape) pairs the rasterizer
/// takes: together they cover exactly the points the changed obstacles
/// cover.
fn collect_changed_obstacles(obstacles: &Vec<Obstacle>) -> (r: Vec<(Vec2Fix, Shape)>)
    requires
        obstacles_wf(obstacles@),
    ensures
        forall|i: int| 0 <= i < r@.len() ==> (#[trigger] r@[i]).1.wf() && bounded(
            r@[i].0,
            COORD_LIMIT as int,
        ),
        r@.len() == 0 <==> (forall|i: int| 0 <= i < obstacles@.len() ==> !(
        #[trigger] obstacles@[i]).changed),
        forall|q: Vec2Fix| #[trigger] any_covers(r@, r@.len() as int, q)
            == any_changed_obstacle_covers(obstacles@, obstacles@.len() as int, q),
{
    let n = obstacles.len();
    let mut r: Vec<(Vec2Fix, Shape)> = Vec::new();
    let mut k: usize = 0;
    while k < n
        invariant
            0 <= k <= n,
            n == obstacles@.len(),
            obstacles_wf(obstacles@),
            forall|i: int| 0 <= i < r@.len() ==> (#[trigger] r@[i]).1.wf() && bounded(
                r@[i].0,
                COORD_LIMIT as int,
            ),
            r@.len() == 0 <==> (forall|i: int| 0 <= i < k ==> !(#[trigger] obstacles@[i]).changed),
            forall|q: Vec2Fix| #[trigger] any_covers(r@, r@.len() as int, q)
                == any_changed_obstacle_covers(obstacles@, k as int, q),
        decreases n - k,
    {
        let ob = &obstacles[k];
        if ob.changed {
            let copy = ob.shape.duplicate();
            let ghost copy_g = copy;
            let ghost prev_r = r@;
            proof {
                lemma_shape_like_wf(copy, obstacles@[k as int].shape);
            }
            r.push((ob.position, copy));
            proof {
                lemma_shape_like_covers(copy_g, obstacles@[k as int].shape);
                assert forall|q: Vec2Fix| #[trigger] any_covers(r@, r@.len() as int, q)
                    == any_changed_obstacle_covers(obstacles@, k as int + 1, q) by {
                    assert(r@ == prev_r.push((obstacles@[k as int].position, copy_g)));
                    lemma_any_covers_push(prev_r, (obstacles@[k as int].position, copy_g), q);
                    lemma_changed_obstacle_step(obstacles@, k as int, q);
                }
            }
        } else {
            proof {
                assert forall|q: Vec2Fix| #[trigger] any_covers(r@, r@.len() as int, q)
                    == any_changed_obstacle_covers(obstacles@, k as int + 1, q) by {
                    lemma_changed_obstacle_step(obstacles@, k as int, q);
                }
            }
        }
        k = k + 1;
    }
    r
}

/// The changed targets, as (position, shape) pairs; together they cover
/// exactly the points the changed targets cover.
fn collect_changed_targets(targets: &Vec<Objective>) -> (r: Vec<(Vec2Fix, Shape)>)
    requires
        targets_wf(targets@),
    ensures
        forall|i: int| 0 <= i < r@.len() ==> (#[trigger] r@[i]).1.wf() && bounded(
            r@[i].0,
            COORD_LIMIT as int,
        ),
        r@.len() == 0 <==> (forall|i: int| 0 <= i < targets@.len() ==> !(
        #[trigger] targets@[i]).changed),
        forall|q: Vec2Fix| #[trigger] any_covers(r@, r@.len() as int, q)
            == any_changed_target_covers(targets@, targets@.len() as int, q),
{
    let n = targets.len();
    let mut r: Vec<(Vec2Fix, Shape)> = Vec::new();
    let mut k: usize = 0;
    while k < n
        invariant
            0 <= k <= n,
            n == targets@.len(),
            targets_wf(targets@),
            forall|i: int| 0 <= i < r@.len() ==> (#[trigger] r@[i]).1.wf() && bounded(
                r@[i].0,
                COORD_LIMIT as int,
            ),
            r@.len() == 0 <==> (forall|i: int| 0 <= i < k ==> !(#[trigger] targets@[i]).changed),
            forall|q: Vec2Fix| #[trigger] any_covers(r@, r@.len() as int, q)
                == any_changed_target_covers(targets@, k as int, q),
        decreases n - k,
    {
        let tg = &targets[k];
        if tg.changed {
            let copy = tg.shape.duplicate();
            let ghost copy_g = copy;
            let ghost prev_r = r@;
            proof {
                lemma_shape_like_wf(copy, targets@[k as int].shape);
            }
            r.push((tg.position, copy));
            proof {
                lemma_shape_like_covers(copy_g, targets@[k as int].shape);
                assert forall|q: Vec2Fix| #[trigger] any_covers(r@, r@.len() as int, q)
                    == any_changed_target_covers(targets@, k as int + 1, q) by {
                    assert(r@ == prev_r.push((targets@[k as int].position, copy_g)));
                    lemma_any_covers_push(prev_r, (targets@[k as int].position, copy_g), q);
                    lemma_changed_target_step(targets@, k as int, q);
                }
            }
        } else {
            proof {
                assert forall|q: Vec2Fix| #[trigger] any_covers(r@, r@.len() as int, q)
                    == any_changed_target_covers(targets@, k as int + 1, q) by {
                    lemma_changed_target_step(targets@, k as int, q);
                }
            }
        }
        k = k + 1;
    }
    r
}

/// Clears every obstacle's changed flag.
fn clear_obstacle_flags(obstacles: &mut Vec<Obstacle>)
    requires
        obstacles_wf(old(obstacles)@),
    ensures
        final(obstacles)@.len() == old(obstacles)@.len(),
        obstacles_wf(final(obstacles)@),
        forall|i: int| 0 <= i < final(obstacles)@.len() ==> {
            &&& !(#[trigger] final(obstacles)@[i]).changed
            &&& final(obstacles)@[i].position == old(obstacles)@[i].position
            &&& shape_like(final(obstacles)@[i].shape, old(obstacles)@[i].shape)
        },
{
    let n = obstacles.len();
    let mut k: usize = 0;
    while k < n
        invariant
            0 <= k <= n,
            obstacles@.len() == n,
            forall|i: int| 0 <= i < k ==> {
                &&& !(#[trigger] obstacles@[i]).changed
                &&& obstacles@[i].position == old(obstacles)@[i].position
                &&& shape_like(obstacles@[i].shape, old(obstacles)@[i].shape)
            },
            forall|i: int| k <= i < n ==> #[trigger] obstacles@[i] == old(obstacles)@[i],
            obstacles_wf(old(obstacles)@),
        decreases n - k,
    {
        let shape = obstacles[k].shape.duplicate();
        let position = obstacles[k].position;
        obstacles.set(k, Obstacle { position, shape, changed: false });
        k = k + 1;
    }
    proof {
        assert forall|i: int| 0 <= i < obstacles@.len() implies (#[trigger] obstacles@[i]).shape.wf()
            && bounded(obstacles@[i].position, COORD_LIMIT as int) by {
            lemma_shape_like_wf(obstacles@[i].shape, old(obstacles)@[i].shape);
        }
    }
}

/// Clears every target's changed flag.
fn clear_target_flags(targets: &mut Vec<Objective>)
    requires
        targets_wf(old(targets)@),
    ensures
        final(targets)@.len() == old(targets)@.len(),
        targets_wf(final(targets)@),
        forall|i: int| 0 <= i < final(targets)@.len() ==> {
            &&& !(#[trigger] final(targets)@[i]).changed
            &&& final(targets)@[i].position == old(targets)@[i].position
            &&& shape_like(final(targets)@[i].shape, old(targets)@[i].shape)
        },
{
    let n = targets.len();
    let mut k: usize = 0;
    while k < n
        invariant
            0 <= k <= n,
            targets@.len() == n,
            forall|i: int| 0 <= i < k ==> {
                &&& !(#[trigger] targets@[i]).changed
                &&& targets@[i].position == old(targets)@[i].position
                &&& shape_like(targets@[i].shape, old(targets)@[i].shape)
            },
            forall|i: int| k <= i < n ==> #[trigger] targets@[i] == old(targets)@[i],
            targets_wf(old(targets)@),
        decreases n - k,
    {
        let shape = targets[k].shape.duplicate();
        let position = targets[k].position;
        targets.set(k, Objective { position, shape, changed: false });
        k = k + 1;
    }
    proof {
        assert forall|i: int| 0 <= i < targets@.len() implies (#[trigger] targets@[i]).shape.wf()
            && bounded(targets@[i].position, COORD_LIMIT as int) by {
            lemma_shape_like_wf(targets@[i].shape, old(targets)@[i].shape);
        }
    }
}

/// Whether a shape is admissible, executable form.
pub fn shape_wf_exec(shape: &Shape) -> (b: bool)
    ensures
        b == shape.wf(),
{
    match shape {
        Shape::Circle(r) => 0 <= *r && *r <= RADIUS_LIMIT,
        Shape::Polygon(pts) => {
            let n = pts.len();
            if n < 3 || n > 4096 {
                return false;
            }
            let mut k: usize = 0;
            let mut ok = true;
            while k < n
                invariant
                    0 <= k <= n,
                    n == pts@.len(),
                    ok == (forall|i: int| 0 <= i < k ==> bounded(
                        #[trigger] pts@[i],
                        COORD_LIMIT as int,
                    )),
                decreases n - k,
            {
                let p = pts[k];
                if !(-COORD_LIMIT <= p.x && p.x <= COORD_LIMIT && -COORD_LIMIT <= p.y
                    && p.y <= COORD_LIMIT) {
                    ok = false;
                }
                k = k + 1;
            }
            ok
        },
    }
}

/// Whether a position is within the admissible coordinate range.
fn position_in_range(p: Vec2Fix) -> (b: bool)
    ensures
        b == bounded(p, COORD_LIMIT as int),
{
    -COORD_LIMIT <= p.x && p.x <= COORD_LIMIT && -COORD_LIMIT <= p.y && p.y <= COORD_LIMIT
}

} // verus!
