use kairos::textures::{ready_after, should_configure, GroupLoad};
use kairos::window::WindowData;

#[test]
fn cursor_starts_locked() {
    assert!(WindowData::new().cursor_lock);
}

#[test]
fn cursor_keys() {
    let mut w = WindowData::new();
    assert_eq!(w.apply_cursor_keys(false, false), None);
    assert!(w.cursor_lock);
    assert_eq!(w.apply_cursor_keys(false, true), Some(false));
    assert!(!w.cursor_lock);
    assert_eq!(w.apply_cursor_keys(false, false), None);
    assert!(!w.cursor_lock);
    assert_eq!(w.apply_cursor_keys(true, false), Some(true));
    assert!(w.cursor_lock);
    // both keys in one frame: the release wins
    assert_eq!(w.apply_cursor_keys(true, true), Some(false));
    assert!(!w.cursor_lock);
}

#[test]
fn texture_readiness() {
    assert!(should_configure(false, GroupLoad::Loaded));
    assert!(!should_configure(true, GroupLoad::Loaded));
    assert!(!should_configure(false, GroupLoad::Loading));
    assert!(!should_configure(false, GroupLoad::Other));
    assert!(ready_after(true, GroupLoad::Loading, false));
    assert!(ready_after(false, GroupLoad::Loaded, true));
    assert!(!ready_after(false, GroupLoad::Loaded, false));
    assert!(!ready_after(false, GroupLoad::Loading, true));
    assert!(!ready_after(false, GroupLoad::Other, true));
}

#[test]
fn same_keys_twice_change_nothing_more() {
    for start in [false, true] {
        for capture in [false, true] {
            for release in [false, true] {
                let mut w = WindowData { cursor_lock: start };
                w.apply_cursor_keys(capture, release);
                let once = w.cursor_lock;
                w.apply_cursor_keys(capture, release);
                assert_eq!(w.cursor_lock, once);
                if capture || release {
                    assert_eq!(once, !release);
                } else {
                    assert_eq!(once, start);
                }
            }
        }
    }
}
