use std::sync::Mutex;

use vision_core::api::colors::Colors;
use vision_core::api::config::Config;
use vision_core::api::device::Device;
use vision_core::api::thread::Thread;
use vision_core::capture::{FrameStore, Scale};
use vision_core::input::InputController;

struct Recorder {
    clicks: Mutex<Vec<(i32, i32)>>,
    shells: Mutex<Vec<String>>,
}

impl Recorder {
    fn new() -> Recorder {
        Recorder { clicks: Mutex::new(Vec::new()), shells: Mutex::new(Vec::new()) }
    }
}

impl InputController for Recorder {
    fn click(&self, x: i32, y: i32) {
        self.clicks.lock().unwrap().push((x, y));
    }
    fn swipe(&self, points: &Vec<Vec<i32>>, _duration_ms: u64) {
        for p in points {
            self.clicks.lock().unwrap().push((p[0], p[1]));
        }
    }
    fn input_text(&self, _text: &str) {}
    fn key_event(&self, _key_code: i32) {}
    fn shell(&self, cmd: &str) {
        self.shells.lock().unwrap().push(cmd.to_string());
    }
}

fn store_with_red_pixel() -> FrameStore {
    let mut store = FrameStore::new();
    let mut buf = vec![0u8; 4 * 4 * 4];
    let off = 2 * 16 + 1 * 4;
    buf[off] = 0;
    buf[off + 1] = 0;
    buf[off + 2] = 255;
    store.ingest_frame(buf, 4, 4, 16, Scale { num: 1, den: 1 });
    store
}

#[test]
fn colors_object_finds_the_frame_color() {
    let colors = Colors::new();
    let store = store_with_red_pixel();
    assert!(colors.find_color(&store, "#FF0000".to_string()));
    assert!(!colors.find_color(&store, "#00FF00".to_string()));
    assert_eq!(
        colors.find_color_point(&store, "#FF0000".to_string()),
        Some(vec![1, 2])
    );
    assert_eq!(colors.find_color_point(&store, "#0000FF".to_string()), None);
    let empty = FrameStore::new();
    assert!(!Colors::ctor().find_color(&empty, "#FF0000".to_string()));
}

#[test]
fn device_clicks_through_mapped_coordinates() {
    let device = Device::ctor();
    let recorder = Recorder::new();
    let mut store = FrameStore::new();
    store.ingest_frame(Vec::new(), 0, 0, 0, Scale { num: 3, den: 1 });
    device.click(&store, &recorder, 10, 20);
    device.swipe(&store, &recorder, 1, 2, 3, 4, 50);
    device.shell(&recorder, "echo hi".to_string());
    assert_eq!(
        recorder.clicks.lock().unwrap().clone(),
        vec![(30, 60), (3, 6), (9, 12)]
    );
    assert_eq!(recorder.shells.lock().unwrap().clone(), vec!["echo hi".to_string()]);
}

#[test]
fn thread_and_config_objects_construct() {
    let _t = Thread::new();
    let _t2 = Thread::ctor();
    let mut cfg = Config::ctor();
    cfg.set_value("k".to_string(), "v".to_string());
    assert_eq!(cfg.get("k".to_string()), "v");
}
