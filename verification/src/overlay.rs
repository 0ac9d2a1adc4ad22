//! Debug-overlay state: which grid or map a renderer should draw, and the
//! toggle decisions driven by key presses.

use vstd::prelude::*;
use crate::geom::{Vec2Fix, scaled_vec_spec, scale_to};

verus! {

/// Whether the cell grid itself is drawn.
#[derive(Clone, Copy, Debug, PartialEq, Eq, Structural)]
pub enum ShowGridState {
    HideGrid,
    ShowGrid,
}

/// Which pathfinding layer is drawn over the scene.
#[derive(Clone, Copy, Debug, PartialEq, Eq, Structural)]
pub enum PathFindingOverlayState {
    ShowNone,
    ShowTargets,
    ShowObstacles,
    ShowProimity,
    ShowVectorField,
}

/// The manual-steering displacement for one step of held direction keys:
/// the pressed directions sum to a vector that is normalized and scaled to
/// six world units, so diagonal steering is no faster than axial; with no
/// key held (or keys cancelling out) the displacement is zero.
pub fn input_system(up: bool, down: bool, left: bool, right: bool) -> (d: Vec2Fix)
    ensures
        d == ({
            let dx: int = (if right { 1int } else { 0int }) - (if left { 1int } else { 0int });
            let dy: int = (if up { 1int } else { 0int }) - (if down { 1int } else { 0int });
            scaled_vec_spec(1000 * dx, 1000 * dy, 6000)
        }),
        -6000 <= d.x <= 6000,
        -6000 <= d.y <= 6000,
{
    let mut dx: i64 = 0;
    let mut dy: i64 = 0;
    if up {
        dy = dy + 1;
    }
    if down {
        dy = dy - 1;
    }
    if left {
        dx = dx - 1;
    }
    if right {
        dx = dx + 1;
    }
    scale_to(1000 * dx, 1000 * dy, 6000)
}

/// The grid-visibility state after a toggle key event: pressing the toggle
/// flips the state, otherwise it stays.
pub fn handle_grid_state_inputs(current: ShowGridState, toggle_pressed: bool) -> (next:
    ShowGridState)
    ensures
        next == (if toggle_pressed {
            match current {
                ShowGridState::HideGrid => ShowGridState::ShowGrid,
                ShowGridState::ShowGrid => ShowGridState::HideGrid,
            }
        } else {
            current
        }),
{
    if toggle_pressed {
        match current {
            ShowGridState::HideGrid => ShowGridState::ShowGrid,
            ShowGridState::ShowGrid => ShowGridState::HideGrid,
        }
    } else {
        current
    }
}

/// The overlay state after the per-layer key events: a pressed layer key
/// selects that layer, or clears the overlay when its layer was already
/// shown; with no key pressed the state stays.  Later keys in the fixed
/// obstacle, proximity, target, vector-field order win.
pub fn handle_overlay_inputs(
    current: PathFindingOverlayState,
    obstacles_pressed: bool,
    proximity_pressed: bool,
    targets_pressed: bool,
    vector_field_pressed: bool,
) -> (next: PathFindingOverlayState)
    ensures
        next == ({
            let request = if vector_field_pressed {
                Some(PathFindingOverlayState::ShowVectorField)
            } else if targets_pressed {
                Some(PathFindingOverlayState::ShowTargets)
            } else if proximity_pressed {
                Some(PathFindingOverlayState::ShowProimity)
            } else if obstacles_pressed {
                Some(PathFindingOverlayState::ShowObstacles)
            } else {
                None
            };
            match request {
                Some(new_value) => if new_value == current {
                    PathFindingOverlayState::ShowNone
                } else {
                    new_value
                },
                None => current,
            }
        }),
{
    let mut next = Option::<PathFindingOverlayState>::None;
    if obstacles_pressed {
        next = Some(PathFindingOverlayState::ShowObstacles);
    }
    if proximity_pressed {
        next = Some(PathFindingOverlayState::ShowProimity);
    }
    if targets_pressed {
        next = Some(PathFindingOverlayState::ShowTargets);
    }
    if vector_field_pressed {
        next = Some(PathFindingOverlayState::ShowVectorField);
    }
    match next {
        Some(new_value) => {
            if new_value == current {
                PathFindingOverlayState::ShowNone
            } else {
                new_value
            }
        },
        None => current,
    }
}

} // verus!
