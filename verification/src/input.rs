//! The input-dispatch strategy interface. Implementations live with the
//! embedder: a root shell dispatches through system commands, an
//! accessibility service through platform callbacks. This crate only decides
//! what to dispatch and where.

use vstd::prelude::*;

verus! {

/// Basic input operations every strategy must offer. Only a root strategy
/// can truly execute a shell command; others may log and ignore it.
pub trait InputController: Send + Sync {
    fn click(&self, x: i32, y: i32);

    fn swipe(&self, points: &Vec<Vec<i32>>, duration_ms: u64);

    fn input_text(&self, text: &str);

    fn key_event(&self, key_code: i32);

    fn shell(&self, cmd: &str);
}

} // verus!
