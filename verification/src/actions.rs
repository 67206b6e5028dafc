//! The automation actions a macro run dispatches, and the dispatch of device
//! actions. Waiting, logging, and vision-driven clicking perform outside
//! work, so their runners live with the embedder; the decisions they need
//! (color search, coordinate mapping) are functions of this crate.

use vstd::prelude::*;

use crate::input::InputController;

verus! {

/// Flow-control actions: waiting and logging.
#[derive(Debug, Clone)]
pub enum ControlAction {
    Wait { ms: u64 },
    Log { msg: String },
}

/// Raw device actions dispatched straight to the input controller.
#[derive(Debug, Clone)]
pub enum DeviceAction {
    Key { key_code: i32 },
    InputText { text: String },
    Shell { cmd: String },
}

/// Touch actions; a click waits for its delay afterwards.
#[derive(Debug, Clone)]
pub enum TouchAction {
    Click { x: i32, y: i32, delay_ms: u64 },
    Swipe { points: Vec<Vec<i32>>, duration_ms: u64 },
}

/// Vision-driven actions: color search with an optional click on the match.
/// The template threshold is in thousandths of full confidence.
#[derive(Debug, Clone)]
pub enum VisionAction {
    FindColor { color_html: String, tolerance: u8, region: Option<Vec<i32>>, auto_click: bool },
    FindImage {
        image_name: String,
        threshold_milli: u32,
        region: Option<Vec<i32>>,
        auto_click: bool,
    },
}

/// One action of a macro, routed to its handler by module.
#[derive(Debug, Clone)]
pub enum Action {
    Touch(TouchAction),
    Vision(VisionAction),
    Device(DeviceAction),
    Control(ControlAction),
}

/// A parsed macro: how often to loop, whether to use the root strategy, and
/// the actions of one round.
#[derive(Debug, Clone)]
pub struct MacroConfig {
    pub loop_count: i32,
    pub use_root: bool,
    pub actions: Vec<Action>,
}

/// The delay after a click when none is given.
pub fn default_delay() -> (r: u64)
    ensures
        r == 100,
{
    100
}

/// Dispatches one device action to the input controller.
pub fn handle<C: InputController>(action: &DeviceAction, controller: &C) {
    match action {
        DeviceAction::Key { key_code } => controller.key_event(*key_code),
        DeviceAction::InputText { text } => controller.input_text(text.as_str()),
        DeviceAction::Shell { cmd } => controller.shell(cmd.as_str()),
    }
}

} // verus!
