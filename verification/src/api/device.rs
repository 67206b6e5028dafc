//! The script-facing device object: clicks and swipes in buffer coordinates,
//! mapped to device coordinates before dispatch.

use vstd::prelude::*;

use crate::capture::FrameStore;
use crate::input::InputController;

verus! {

/// The script-facing device handle. Coordinates are mapped through the
/// store's current scale, then dispatched to the input controller.
#[derive(Debug, Clone, Copy)]
pub struct Device {}

impl Device {
    pub fn new() -> Device {
        Device {  }
    }

    /// The script-visible constructor.
    pub fn ctor() -> Device {
        Device {  }
    }

    /// Maps the point to device coordinates and clicks it.
    pub fn click<C: InputController>(&self, store: &FrameStore, controller: &C, x: i32, y: i32)
        requires
            store.wf(),
    {
        let (rx, ry) = store.map_coordinates(x, y);
        controller.click(rx, ry);
    }

    /// Maps both endpoints to device coordinates and swipes between them.
    pub fn swipe<C: InputController>(
        &self,
        store: &FrameStore,
        controller: &C,
        x1: i32,
        y1: i32,
        x2: i32,
        y2: i32,
        duration: u64,
    )
        requires
            store.wf(),
    {
        let (rx1, ry1) = store.map_coordinates(x1, y1);
        let (rx2, ry2) = store.map_coordinates(x2, y2);
        let mut points: Vec<Vec<i32>> = Vec::new();
        let mut p1: Vec<i32> = Vec::new();
        p1.push(rx1);
        p1.push(ry1);
        let mut p2: Vec<i32> = Vec::new();
        p2.push(rx2);
        p2.push(ry2);
        points.push(p1);
        points.push(p2);
        controller.swipe(&points, duration);
    }

    /// Hands the command to the controller's shell.
    pub fn shell<C: InputController>(&self, controller: &C, cmd: String) {
        controller.shell(cmd.as_str());
    }
}

} // verus!
