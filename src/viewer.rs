//! The viewer's navigation state: which frame is shown, the display
//! toggles, and autoplay. The window loop hands each step's key presses
//! and the current time in; this module decides what changes.
use vstd::prelude::*;

verus! {

/// Autoplay advances one frame per period, in milliseconds.
pub const FRAME_PERIOD_MS: u64 = 100;

/// A key press the viewer reacts to.
#[derive(Debug, Clone, Copy, PartialEq, Eq, Structural)]
pub enum ViewerKey {
    /// Toggle recording of screenshots.
    Record,
    /// Toggle marking of the points inside boxes.
    MarkPoints,
    /// Toggle autoplay.
    PlayPause,
    /// Toggle drawing of boxes.
    ShowBoxes,
    /// Go to the previous frame, wrapping to the last.
    Previous,
    /// Go to the next frame, wrapping to the first.
    Next,
    /// Close the window.
    Quit,
}

/// What a step asks of the window loop.
#[derive(Debug, Clone, Copy, PartialEq, Eq, Structural)]
pub struct StepOutcome {
    /// Close the window.
    pub close: bool,
    /// Recording was switched on with nowhere to store screenshots.
    pub warn_no_screencast_dir: bool,
}

/// The viewer's state.
#[derive(Debug, Clone, Copy, PartialEq, Eq, Structural)]
pub struct ViewerState {
    /// Position in the list of frames.
    pub frame_idx: usize,
    /// How many frames there are.
    pub n_frames: usize,
    pub mark_points_in_boxes: bool,
    pub show_bbox: bool,
    pub play: bool,
    pub record: bool,
    /// When autoplay next advances, in milliseconds; unset until play starts.
    pub next_tick: Option<u64>,
}

/// The state after one key press.
pub open spec fn key_effect(st: ViewerState, key: ViewerKey) -> ViewerState {
    match key {
        ViewerKey::Record => ViewerState { record: !st.record, ..st },
        ViewerKey::MarkPoints => ViewerState { mark_points_in_boxes: !st.mark_points_in_boxes, ..st },
        ViewerKey::PlayPause => ViewerState { play: !st.play, ..st },
        ViewerKey::ShowBoxes => ViewerState { show_bbox: !st.show_bbox, ..st },
        ViewerKey::Previous => ViewerState {
            frame_idx: (if st.frame_idx == 0 { st.n_frames - 1 } else { st.frame_idx - 1 }) as usize,
            ..st
        },
        ViewerKey::Next => ViewerState {
            frame_idx: (if st.frame_idx + 1 == st.n_frames { 0 } else { st.frame_idx + 1 }) as usize,
            ..st
        },
        ViewerKey::Quit => st,
    }
}

/// The state after a sequence of key presses.
pub open spec fn keys_effect(st: ViewerState, keys: Seq<ViewerKey>) -> ViewerState
    decreases keys.len(),
{
    if keys.len() == 0 {
        st
    } else {
        key_effect(keys_effect(st, keys.drop_last()), keys.last())
    }
}

/// Whether some press switches recording on while screenshots cannot be stored.
pub open spec fn warns(st: ViewerState, keys: Seq<ViewerKey>, can_record: bool) -> bool {
    exists|i: int|
        0 <= i < keys.len() && #[trigger] keys[i] == ViewerKey::Record && !can_record && !keys_effect(
            st,
            keys.take(i),
        ).record
}

/// The length of `j` periods.
pub open spec fn periods(j: nat) -> int {
    FRAME_PERIOD_MS * j
}

/// `t` is the first tick after `now` on the schedule that starts at `t0`.
pub open spec fn caught_up(t0: u64, t: u64, now: u64) -> bool {
    &&& now < t
    &&& t - FRAME_PERIOD_MS <= now
    &&& exists|j: nat| j >= 1 && t == t0 + #[trigger] periods(j)
}

impl ViewerState {
    pub open spec fn wf(self) -> bool {
        self.n_frames > 0 && self.frame_idx < self.n_frames
    }

    /// The state at start: the first frame, boxes shown, points not
    /// marked. Recording starts only when asked for and possible.
    pub fn new(n_frames: usize, play_on_start: bool, record_on_start: bool, can_record: bool) -> (r: ViewerState)
        requires
            n_frames > 0,
        ensures
            r.wf(),
            r == (ViewerState {
                frame_idx: 0,
                n_frames,
                mark_points_in_boxes: false,
                show_bbox: true,
                play: play_on_start,
                record: record_on_start && can_record,
                next_tick: None,
            }),
    {
        ViewerState {
            frame_idx: 0,
            n_frames,
            mark_points_in_boxes: false,
            show_bbox: true,
            play: play_on_start,
            record: record_on_start && can_record,
            next_tick: None,
        }
    }

    fn press(&mut self, key: ViewerKey)
        requires
            old(self).wf(),
        ensures
            final(self).wf(),
            *final(self) == key_effect(*old(self), key),
    {
        match key {
            ViewerKey::Record => {
                self.record = !self.record;
            },
            ViewerKey::MarkPoints => {
                self.mark_points_in_boxes = !self.mark_points_in_boxes;
            },
            ViewerKey::PlayPause => {
                self.play = !self.play;
            },
            ViewerKey::ShowBoxes => {
                self.show_bbox = !self.show_bbox;
            },
            ViewerKey::Previous => {
                self.frame_idx = if self.frame_idx == 0 {
                    self.n_frames - 1
                } else {
                    self.frame_idx - 1
                };
            },
            ViewerKey::Next => {
                self.frame_idx = if self.frame_idx + 1 == self.n_frames {
                    0
                } else {
                    self.frame_idx + 1
                };
            },
            ViewerKey::Quit => {},
        }
    }

    /// One step of the viewer. The key presses apply in order; moving to
    /// another frame by key stops autoplay. Then, while playing, the first
    /// step sets the schedule one period ahead; a step at or past the
    /// scheduled tick moves the schedule forward by whole periods until it
    /// is after `now`, and advances one frame, or stops at the last frame.
    pub fn step(&mut self, keys: &Vec<ViewerKey>, can_record: bool, now: u64) -> (r: StepOutcome)
        requires
            old(self).wf(),
            now <= u64::MAX - FRAME_PERIOD_MS,
        ensures
            final(self).wf(),
            r.close == keys@.contains(ViewerKey::Quit),
            r.warn_no_screencast_dir == warns(*old(self), keys@, can_record),
            ({
                let k = keys_effect(*old(self), keys@);
                let playing = k.play && k.frame_idx == old(self).frame_idx;
                &&& final(self).n_frames == old(self).n_frames
                &&& final(self).mark_points_in_boxes == k.mark_points_in_boxes
                &&& final(self).show_bbox == k.show_bbox
                &&& final(self).record == k.record
                &&& !playing ==> final(self).play == false && final(self).frame_idx == k.frame_idx
                    && final(self).next_tick == k.next_tick
                &&& playing && k.next_tick is None ==> final(self).play && final(self).frame_idx
                    == k.frame_idx && final(self).next_tick == Some((now + FRAME_PERIOD_MS) as u64)
                &&& playing && k.next_tick is Some && now < k.next_tick->Some_0 ==> *final(self) == k
                &&& playing && k.next_tick is Some && now >= k.next_tick->Some_0 ==> {
                    &&& final(self).next_tick is Some
                    &&& caught_up(k.next_tick->Some_0, final(self).next_tick->Some_0, now)
                    &&& k.frame_idx + 1 < k.n_frames ==> final(self).frame_idx == k.frame_idx + 1
                        && final(self).play
                    &&& k.frame_idx + 1 >= k.n_frames ==> final(self).frame_idx == k.frame_idx
                        && !final(self).play
                }
            }),
    {
        let orig = self.frame_idx;
        let ghost start = *self;
        let mut close = false;
        let mut warn = false;
        let mut i: usize = 0;
        proof {
            assert(keys@.take(0) =~= Seq::<ViewerKey>::empty());
        }
        while i < keys.len()
            invariant
                i <= keys.len(),
                self.wf(),
                start.wf(),
                self.n_frames == start.n_frames,
                *self == keys_effect(start, keys@.take(i as int)),
                close == keys@.take(i as int).contains(ViewerKey::Quit),
                warn == warns(start, keys@.take(i as int), can_record),
            decreases keys.len() - i,
        {
            let key = keys[i];
            let ghost prefix = keys@.take(i as int);
            proof {
                assert(keys@.take(i + 1).drop_last() =~= prefix);
                assert(keys@.take(i + 1) =~= prefix.push(key));
            }
            let warn_here = key == ViewerKey::Record && !can_record && !self.record;
            proof {
                let next = keys@.take(i + 1);
                assert forall|j: int| 0 <= j < i implies next.take(j) =~= prefix.take(j) by {}
                if warn_here {
                    assert(next.take(i as int) =~= prefix);
                    assert(next[i as int] == ViewerKey::Record);
                }
                if warns(start, next, can_record) && !warn_here {
                    let j = choose|j: int|
                        0 <= j < next.len() && #[trigger] next[j] == ViewerKey::Record && !can_record
                            && !keys_effect(start, next.take(j)).record;
                    if j == i {
                        assert(next.take(i as int) =~= prefix);
                    } else {
                        assert(prefix[j] == next[j]);
                        assert(next.take(j) =~= prefix.take(j));
                    }
                }
                if warns(start, prefix, can_record) {
                    let j = choose|j: int|
                        0 <= j < prefix.len() && #[trigger] prefix[j] == ViewerKey::Record && !can_record
                            && !keys_effect(start, prefix.take(j)).record;
                    assert(next[j] == prefix[j]);
                    assert(next.take(j) =~= prefix.take(j));
                }
            }
            if warn_here {
                warn = true;
            }
            if key == ViewerKey::Quit {
                close = true;
            }
            self.press(key);
            i = i + 1;
        }
        proof {
            assert(keys@.take(keys.len() as int) =~= keys@);
        }
        let ghost k = *self;
        if self.frame_idx != orig {
            self.play = false;
        }
        if self.play {
            match self.next_tick {
                None => {
                    self.next_tick = Some(now + FRAME_PERIOD_MS);
                },
                Some(t0) => {
                    if now >= t0 {
                        let mut t = t0;
                        let ghost mut j: nat = 0;
                        while now >= t
                            invariant
                                t0 <= now,
                                now <= u64::MAX - FRAME_PERIOD_MS,
                                t == t0 + periods(j),
                                j >= 1 ==> t - FRAME_PERIOD_MS <= now,
                            decreases now - t + FRAME_PERIOD_MS,
                        {
                            t = t + FRAME_PERIOD_MS;
                            proof {
                                j = j + 1;
                            }
                        }
                        proof {
                            assert(j >= 1);
                            assert(t == t0 + periods(j));
                            assert(caught_up(t0, t, now));
                        }
                        self.next_tick = Some(t);
                        if self.frame_idx + 1 < self.n_frames {
                            self.frame_idx = self.frame_idx + 1;
                        } else {
                            self.play = false;
                        }
                    }
                },
            }
        }
        StepOutcome { close, warn_no_screencast_dir: warn }
    }
}

} // verus!
