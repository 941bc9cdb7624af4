//! Whether the window holds the mouse cursor, and how keys change it.
use vstd::prelude::*;

verus! {

/// Whether the mouse cursor is captured by the window; camera look follows
/// the mouse only while it is.
pub struct WindowData {
    pub cursor_lock: bool,
}

/// What the cursor keys of one frame ask for: `release` (Q) frees the
/// cursor, else `capture` (Escape) captures it, else nothing changes.
pub open spec fn cursor_request(capture: bool, release: bool) -> Option<bool> {
    if release {
        Some(false)
    } else if capture {
        Some(true)
    } else {
        None
    }
}

/// The lock state after a frame with these keys, starting from `lock`.
pub open spec fn lock_after(lock: bool, capture: bool, release: bool) -> bool {
    match cursor_request(capture, release) {
        Some(l) => l,
        None => lock,
    }
}

impl WindowData {
    /// The cursor starts captured.
    pub fn new() -> (r: WindowData)
        ensures
            r.cursor_lock,
    {
        WindowData { cursor_lock: true }
    }

    /// Applies the cursor keys pressed in one frame. Returns the lock state
    /// that the window is to be put in, if any key asked for one; the
    /// window shows the cursor exactly when it is not locked.
    pub fn apply_cursor_keys(&mut self, capture: bool, release: bool) -> (r: Option<bool>)
        ensures
            r == cursor_request(capture, release),
            final(self).cursor_lock == lock_after(old(self).cursor_lock, capture, release),
            release ==> r == Some(false) && !final(self).cursor_lock,
            capture && !release ==> r == Some(true) && final(self).cursor_lock,
            !capture && !release ==> r is None && final(self).cursor_lock == old(self).cursor_lock,
    {
        if capture {
            self.cursor_lock = true;
        }
        if release {
            self.cursor_lock = false;
        }
        if release {
            Some(false)
        } else if capture {
            Some(true)
        } else {
            None
        }
    }
}

/// Applying the same keys a second time changes nothing more, and a pressed
/// key decides the lock whatever it was before.
pub proof fn lemma_cursor_keys_settle(lock: bool, other: bool, capture: bool, release: bool)
    ensures
        lock_after(lock_after(lock, capture, release), capture, release) == lock_after(
            lock,
            capture,
            release,
        ),
        (capture || release) ==> lock_after(lock, capture, release) == lock_after(
            other,
            capture,
            release,
        ),
{
}

} // verus!
