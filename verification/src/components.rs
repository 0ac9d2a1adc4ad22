//! The simulation's entity data: agents with their force accumulators,
//! obstacles and objectives with their shapes.

use vstd::prelude::*;
use crate::geom::{Vec2Fix, Rect, COORD_LIMIT, bounded};

verus! {

/// Largest shape radius (and agent radius) the simulation admits, in
/// fixed-point world units.
pub const RADIUS_LIMIT: i64 = 10_000_000;

/// A collision shape: a circle of a given fixed-point radius, or a polygon
/// given as an ordered vertex ring in model space (relative to the entity's
/// position).
#[derive(Clone, Debug)]
pub enum Shape {
    Circle(i64),
    Polygon(Vec<Vec2Fix>),
}

impl Shape {
    /// A well-formed shape: a circle of bounded non-negative radius, or a
    /// polygon of at least three bounded vertices.
    pub open spec fn wf(self) -> bool {
        match self {
            Shape::Circle(r) => 0 <= r <= RADIUS_LIMIT,
            Shape::Polygon(pts) => {
                &&& pts@.len() >= 3
                &&& pts@.len() <= 4096
                &&& forall|i: int| 0 <= i < pts@.len() ==> bounded(#[trigger] pts@[i], COORD_LIMIT as int)
            },
        }
    }

    /// The bounding rectangle of the shape placed at `center`.
    pub open spec fn rect_with_center_spec(self, center: Vec2Fix) -> Rect {
        match self {
            Shape::Circle(r) => Rect {
                min: Vec2Fix { x: (center.x - r) as i64, y: (center.y - r) as i64 },
                max: Vec2Fix { x: (center.x + r) as i64, y: (center.y + r) as i64 },
            },
            Shape::Polygon(pts) => Rect {
                min: Vec2Fix {
                    x: (center.x + poly_min_x(pts@, pts@.len() as int)) as i64,
                    y: (center.y + poly_min_y(pts@, pts@.len() as int)) as i64,
                },
                max: Vec2Fix {
                    x: (center.x + poly_max_x(pts@, pts@.len() as int)) as i64,
                    y: (center.y + poly_max_y(pts@, pts@.len() as int)) as i64,
                },
            },
        }
    }

    /// The bounding rectangle of the shape placed at `center`.
    pub fn get_rectangle_with_center(&self, center: Vec2Fix) -> (r: Rect)
        requires
            self.wf(),
            bounded(center, COORD_LIMIT as int),
        ensures
            r == self.rect_with_center_spec(center),
            bounded(r.min, 2 * COORD_LIMIT as int),
            bounded(r.max, 2 * COORD_LIMIT as int),
    {
        match self {
            Shape::Circle(radius) => Rect {
                min: Vec2Fix { x: center.x - *radius, y: center.y - *radius },
                max: Vec2Fix { x: center.x + *radius, y: center.y + *radius },
            },
            Shape::Polygon(pts) => {
                let n = pts.len();
                let mut min_x: i64 = pts[0].x;
                let mut max_x: i64 = pts[0].x;
                let mut min_y: i64 = pts[0].y;
                let mut max_y: i64 = pts[0].y;
                let mut i: usize = 1;
                while i < n
                    invariant
                        1 <= i <= n,
                        n == pts@.len(),
                        pts@.len() >= 3,
                        forall|k: int| 0 <= k < pts@.len() ==> bounded(#[trigger] pts@[k], COORD_LIMIT as int),
                        min_x == poly_min_x(pts@, i as int),
                        max_x == poly_max_x(pts@, i as int),
                        min_y == poly_min_y(pts@, i as int),
                        max_y == poly_max_y(pts@, i as int),
                        -COORD_LIMIT <= min_x <= COORD_LIMIT,
                        -COORD_LIMIT <= max_x <= COORD_LIMIT,
                        -COORD_LIMIT <= min_y <= COORD_LIMIT,
                        -COORD_LIMIT <= max_y <= COORD_LIMIT,
                    decreases n - i,
                {
                    if pts[i].x < min_x {
                        min_x = pts[i].x;
                    }
                    if pts[i].x > max_x {
                        max_x = pts[i].x;
                    }
                    if pts[i].y < min_y {
                        min_y = pts[i].y;
                    }
                    if pts[i].y > max_y {
                        max_y = pts[i].y;
                    }
                    i = i + 1;
                }
                Rect {
                    min: Vec2Fix { x: center.x + min_x, y: center.y + min_y },
                    max: Vec2Fix { x: center.x + max_x, y: center.y + max_y },
                }
            },
        }
    }
}

/// Two shapes with the same content (polygon vertex rings compared by their
/// views).
pub open spec fn shape_like(a: Shape, b: Shape) -> bool {
    match (a, b) {
        (Shape::Circle(r1), Shape::Circle(r2)) => r1 == r2,
        (Shape::Polygon(p1), Shape::Polygon(p2)) => p1@ == p2@,
        _ => false,
    }
}

/// Shapes with the same content agree on well-formedness and on their
/// bounding rectangles.
pub proof fn lemma_shape_like_wf(a: Shape, b: Shape)
    requires
        shape_like(a, b),
    ensures
        a.wf() == b.wf(),
        forall|center: Vec2Fix| #[trigger] a.rect_with_center_spec(center)
            == b.rect_with_center_spec(center),
{
}

impl Shape {
    /// A copy of the shape with the same content.
    pub fn duplicate(&self) -> (s: Shape)
        ensures
            shape_like(s, *self),
    {
        match self {
            Shape::Circle(r) => Shape::Circle(*r),
            Shape::Polygon(pts) => {
                let n = pts.len();
                let mut copy: Vec<Vec2Fix> = Vec::new();
                let mut k: usize = 0;
                while k < n
                    invariant
                        0 <= k <= n,
                        n == pts@.len(),
                        copy@ == pts@.take(k as int),
                    decreases n - k,
                {
                    copy.push(pts[k]);
                    proof {
                        assert(copy@ =~= pts@.take(k + 1));
                    }
                    k = k + 1;
                }
                proof {
                    assert(copy@ =~= pts@);
                }
                Shape::Polygon(copy)
            },
        }
    }
}

/// Smallest x coordinate among the first `k` vertices.
pub open spec fn poly_min_x(pts: Seq<Vec2Fix>, k: int) -> int
    decreases k,
{
    if k <= 1 {
        pts[0].x as int
    } else {
        let m = poly_min_x(pts, k - 1);
        if pts[k - 1].x < m { pts[k - 1].x as int } else { m }
    }
}

/// Largest x coordinate among the first `k` vertices.
pub open spec fn poly_max_x(pts: Seq<Vec2Fix>, k: int) -> int
    decreases k,
{
    if k <= 1 {
        pts[0].x as int
    } else {
        let m = poly_max_x(pts, k - 1);
        if pts[k - 1].x > m { pts[k - 1].x as int } else { m }
    }
}

/// Smallest y coordinate among the first `k` vertices.
pub open spec fn poly_min_y(pts: Seq<Vec2Fix>, k: int) -> int
    decreases k,
{
    if k <= 1 {
        pts[0].y as int
    } else {
        let m = poly_min_y(pts, k - 1);
        if pts[k - 1].y < m { pts[k - 1].y as int } else { m }
    }
}

/// Largest y coordinate among the first `k` vertices.
pub open spec fn poly_max_y(pts: Seq<Vec2Fix>, k: int) -> int
    decreases k,
{
    if k <= 1 {
        pts[0].y as int
    } else {
        let m = poly_max_y(pts, k - 1);
        if pts[k - 1].y > m { pts[k - 1].y as int } else { m }
    }
}

/// An agent's velocity, in fixed-point world units per step.
#[derive(Clone, Copy, Debug, PartialEq, Eq, Structural)]
pub struct Speed(pub Vec2Fix);

/// The relaxation force pulling an agent's velocity toward the flow field's
/// desired velocity.
#[derive(Clone, Copy, Debug, PartialEq, Eq, Structural)]
pub struct MotivationForce(pub Vec2Fix);

/// The accumulated repulsion an agent receives from all obstacles.
#[derive(Clone, Copy, Debug, PartialEq, Eq, Structural)]
pub struct ObstacleForce(pub Vec2Fix);

/// The accumulated pairwise repulsion an agent receives from all other
/// agents.
#[derive(Clone, Copy, Debug, PartialEq, Eq, Structural)]
pub struct RepulsiveForce(pub Vec2Fix);

/// A point agent: position, velocity and the three per-step force
/// accumulators.
#[derive(Clone, Copy, Debug, PartialEq, Eq, Structural)]
pub struct Agent {
    pub id: u64,
    pub position: Vec2Fix,
    pub speed: Speed,
    pub motivation_force: MotivationForce,
    pub obstacle_force: ObstacleForce,
    pub repulsive_force: RepulsiveForce,
}

/// A static obstacle: a shape at a position, with a dirty flag set when the
/// obstacle was added or repositioned since the last rasterization.
#[derive(Clone, Debug)]
pub struct Obstacle {
    pub position: Vec2Fix,
    pub shape: Shape,
    pub changed: bool,
}

/// A navigation target: a shape at a position, with the same dirty flag.
#[derive(Clone, Debug)]
pub struct Objective {
    pub position: Vec2Fix,
    pub shape: Shape,
    pub changed: bool,
}

/// Largest magnitude admitted for a tunable constant, in fixed-point units.
pub const CONST_LIMIT: i64 = 1_000_000_000;

/// The social-force model's tunable constants, all fixed-point.
#[derive(Clone, Copy, Debug, PartialEq, Eq, Structural)]
pub struct SimulationConstants {
    /// Magnitude of the exponential repulsion (the model's `A`).
    pub repulsion_strength: i64,
    /// Decay length of the repulsion, in meters (the model's `B`).
    pub decay_length: i64,
    /// Normal contact stiffness (the model's `k`).
    pub contact_stiffness: i64,
    /// Tangential contact stiffness (the model's `kappa`).
    pub tangential_stiffness: i64,
    /// Body radius of every agent, in world units.
    pub agent_radius: i64,
    /// Mass dividing the contact and repulsion forces.
    pub agent_mass: i64,
    /// World units per meter, scaling distances into the repulsion formula.
    pub pixels_per_meter: i64,
    /// Speed the flow field steers agents toward, in world units per step.
    pub desired_speed: i64,
}

impl SimulationConstants {
    /// Admissible constants: positive scales (at least one whole unit for
    /// the mass and meter scale) and bounded magnitudes.
    pub open spec fn wf(self) -> bool {
        &&& 0 <= self.repulsion_strength <= CONST_LIMIT
        &&& 1 <= self.decay_length <= CONST_LIMIT
        &&& 0 <= self.contact_stiffness <= CONST_LIMIT
        &&& 0 <= self.tangential_stiffness <= CONST_LIMIT
        &&& 0 <= self.agent_radius <= RADIUS_LIMIT
        &&& 1000 <= self.agent_mass <= CONST_LIMIT
        &&& 1000 <= self.pixels_per_meter <= CONST_LIMIT
        &&& 0 <= self.desired_speed <= CONST_LIMIT
    }
}

/// The error returned by grid accessors given a cell outside the grid.
#[derive(Clone, Copy, Debug, PartialEq, Eq, Structural)]
pub struct OutOfBounds;

} // verus!
