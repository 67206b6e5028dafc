//! The script-facing color-search object: finds a color anywhere in the
//! captured frame with a fixed tolerance.

use vstd::prelude::*;

use crate::capture::{any_match_in, finds_first, lemma_finds_first_some, min_int, FrameStore};
use crate::colors::spec_parse_hex_color;

verus! {

/// The script-facing color-search handle, querying the whole frame with
/// tolerance 10.
#[derive(Debug, Clone, Copy)]
pub struct Colors {}

impl Colors {
    pub fn new() -> Colors {
        Colors {  }
    }

    /// The script-visible constructor.
    pub fn ctor() -> Colors {
        Colors {  }
    }

    /// Whether some pixel of the frame matches the color within tolerance 10.
    pub fn find_color(&self, store: &FrameStore, color: String) -> (r: bool)
        requires
            store.wf(),
        ensures
            r == (store.data@.len() > 0 && any_match_in(
                store.data@,
                store.stride as int,
                spec_parse_hex_color(color@),
                10,
                0,
                store.width as int,
                0,
                store.height as int,
            )),
    {
        let target = crate::colors::parse_hex_color(color.as_str());
        let found = store.find_color_helper(target, 10, None);
        proof {
            if store.data@.len() > 0 {
                lemma_finds_first_some(
                    store.data@,
                    store.stride as int,
                    spec_parse_hex_color(color@),
                    10,
                    0,
                    store.width as int,
                    0,
                    min_int(store.height as int, store.height as int),
                    found,
                );
            }
        }
        found.is_some()
    }

    /// The first pixel of the frame matching the color within tolerance 10,
    /// in row-major scan order, as a two-element point.
    pub fn find_color_point(&self, store: &FrameStore, color: String) -> (r: Option<Vec<i32>>)
        requires
            store.wf(),
        ensures
            r is Some <==> (store.data@.len() > 0 && any_match_in(
                store.data@,
                store.stride as int,
                spec_parse_hex_color(color@),
                10,
                0,
                store.width as int,
                0,
                store.height as int,
            )),
            r matches Some(v) ==> v@.len() == 2 && finds_first(
                store.data@,
                store.stride as int,
                spec_parse_hex_color(color@),
                10,
                0,
                store.width as int,
                0,
                store.height as int,
                Some((v@[0], v@[1])),
            ),
    {
        let target = crate::colors::parse_hex_color(color.as_str());
        let found = store.find_color_helper(target, 10, None);
        proof {
            if store.data@.len() > 0 {
                lemma_finds_first_some(
                    store.data@,
                    store.stride as int,
                    spec_parse_hex_color(color@),
                    10,
                    0,
                    store.width as int,
                    0,
                    min_int(store.height as int, store.height as int),
                    found,
                );
            }
        }
        match found {
            Some((x, y)) => {
                let mut v: Vec<i32> = Vec::new();
                v.push(x);
                v.push(y);
                proof {
                    assert(v@[0] == x && v@[1] == y);
                }
                Some(v)
            },
            None => None,
        }
    }
}

} // verus!
