//! The playback clock of a room.
//!
//! A position is a number of nanoseconds since the logical start of the
//! media. While the controller is playing the position advances with the wall
//! clock; while it is paused the position stands still.

use tokio::time::Instant;
use vstd::prelude::*;

verus! {

/// Nanoseconds between two heartbeats.
pub const TICK_INTERVAL_NANOS: u128 = 1_000_000_000;

/// `tokio::time::Instant`, a point on the monotonic clock. Nothing inside it
/// is visible to the verifier.
#[verifier::external_type_specification]
#[verifier::external_body]
pub struct ExInstant(tokio::time::Instant);

/// A monotonic clock that counts nanoseconds from the moment it was started.
pub struct Clock {
    origin: Instant,
}

impl Clock {
    /// Starts a clock at the present moment, taken from
    /// `tokio::time::Instant::now`. Nothing is claimed about the moment.
    #[verifier::external_body]
    pub(crate) fn start() -> (clock: Clock) {
        Clock { origin: Instant::now() }
    }

    /// Reads the clock through `tokio::time::Instant::elapsed`: the
    /// nanoseconds since it was started. Nothing is claimed about the
    /// reading, so two readings are unrelated as far as the proofs go.
    #[verifier::external_body]
    pub(crate) fn now(&self) -> (nanos: u128) {
        self.origin.elapsed().as_nanos()
    }
}

/// Nanoseconds from `start` to `now`, or zero if `now` lies before `start`.
pub open spec fn elapsed(start: u128, now: u128) -> u128 {
    if now >= start {
        (now - start) as u128
    } else {
        0
    }
}

/// `a + b`, pinned at the largest representable position.
pub open spec fn capped_sum(a: u128, b: u128) -> u128 {
    if a + b > u128::MAX {
        u128::MAX
    } else {
        (a + b) as u128
    }
}

/// What a controller is, as far as its behaviour goes.
pub struct ControllerView {
    /// Clock reading at which playback last started.
    pub start: u128,
    /// Position at the moment playback last stopped or was set.
    pub offset: u128,
    pub playing: bool,
    /// A change has happened that subscribers have not been told about.
    pub dirty: bool,
}

impl ControllerView {
    /// The playback position at clock reading `now`.
    pub open spec fn position_at(self, now: u128) -> u128 {
        if self.playing {
            capped_sum(self.offset, elapsed(self.start, now))
        } else {
            self.offset
        }
    }

    pub open spec fn state_at(self, now: u128) -> (u128, bool) {
        (self.position_at(now), self.playing)
    }

    pub open spec fn play_at(self, now: u128) -> ControllerView {
        if self.playing {
            self
        } else {
            ControllerView { start: now, playing: true, dirty: true, ..self }
        }
    }

    pub open spec fn pause_at(self, now: u128) -> ControllerView {
        if self.playing {
            ControllerView { offset: self.position_at(now), playing: false, dirty: true, ..self }
        } else {
            self
        }
    }

    pub open spec fn set(self, position: u128) -> ControllerView {
        ControllerView { offset: position, dirty: true, ..self }
    }

    pub open spec fn reset(self) -> ControllerView {
        ControllerView { offset: 0, playing: false, dirty: true, ..self }
    }

    /// The correction that is due at `now`, if one is due.
    pub open spec fn pending_at(self, now: u128) -> Option<PlayerEvent> {
        if self.dirty {
            Some(PlayerEvent::Fix { playing: self.playing, position: self.position_at(now) })
        } else {
            None
        }
    }

    pub open spec fn acknowledged(self) -> ControllerView {
        ControllerView { dirty: false, ..self }
    }
}

/// What subscribers are told about playback.
#[derive(Clone, Copy, Debug, PartialEq, Eq, Structural)]
pub enum PlayerEvent {
    /// An immediate correction. A player that is playing should come within a
    /// tenth of a second of `position`; one that is paused should jump to it
    /// exactly.
    Fix { playing: bool, position: u128 },
    /// The periodic heartbeat, carrying the current position.
    Tick(u128),
}

/// The playback clock of one room: where playback stands, whether it runs,
/// and whether the subscribers have yet to hear of the latest change.
pub struct Controller {
    clock: Clock,
    start: u128,
    offset: u128,
    playing: bool,
    dirty: bool,
}

impl View for Controller {
    type V = ControllerView;

    closed spec fn view(&self) -> ControllerView {
        ControllerView {
            start: self.start,
            offset: self.offset,
            playing: self.playing,
            dirty: self.dirty,
        }
    }
}

impl Controller {
    /// A paused controller at position zero with nothing to report.
    pub fn new() -> (c: Controller)
        ensures
            c@ == (ControllerView { start: 0, offset: 0, playing: false, dirty: false }),
    {
        Controller { clock: Clock::start(), start: 0, offset: 0, playing: false, dirty: false }
    }

    /// Whether a change is waiting to be told to the subscribers.
    pub fn needs_correction(&self) -> (dirty: bool)
        ensures
            dirty == self@.dirty,
    {
        self.dirty
    }

    /// The position and the playing flag as they stand at clock reading `now`.
    pub fn state_at(&self, now: u128) -> (r: (u128, bool))
        ensures
            r == self@.state_at(now),
    {
        if self.playing {
            let run: u128 = if now >= self.start { now - self.start } else { 0 };
            (self.offset.saturating_add(run), true)
        } else {
            (self.offset, false)
        }
    }

    /// The position and the playing flag at the moment of the call.
    pub fn state(&self) -> (r: (u128, bool))
        ensures
            exists|now: u128| r == #[trigger] self@.state_at(now),
    {
        let now: u128 = self.clock.now();
        self.state_at(now)
    }

    /// Starts playback at clock reading `now`. Does nothing if already playing.
    pub fn play_at(&mut self, now: u128)
        ensures
            final(self)@ == old(self)@.play_at(now),
    {
        if self.playing {
            return ;
        }
        self.playing = true;
        self.start = now;
        self.dirty = true;
    }

    /// Starts playback now. Does nothing if already playing.
    pub fn play(&mut self)
        ensures
            exists|now: u128| final(self)@ == #[trigger] old(self)@.play_at(now),
    {
        let now: u128 = self.clock.now();
        self.play_at(now);
    }

    /// Stops playback at clock reading `now`, keeping the position reached.
    /// Does nothing if already paused.
    pub fn pause_at(&mut self, now: u128)
        ensures
            final(self)@ == old(self)@.pause_at(now),
    {
        if !self.playing {
            return ;
        }
        let (position, _) = self.state_at(now);
        self.playing = false;
        self.offset = position;
        self.dirty = true;
    }

    /// Stops playback now. Does nothing if already paused.
    pub fn pause(&mut self)
        ensures
            exists|now: u128| final(self)@ == #[trigger] old(self)@.pause_at(now),
    {
        let now: u128 = self.clock.now();
        self.pause_at(now);
    }

    /// Stops playback and goes back to position zero.
    pub fn reset(&mut self)
        ensures
            final(self)@ == old(self)@.reset(),
    {
        self.playing = false;
        self.set(0);
    }

    /// Moves the position reached so far to `position`, playing or not.
    pub fn set(&mut self, position: u128)
        ensures
            final(self)@ == old(self)@.set(position),
    {
        self.offset = position;
        self.dirty = true;
    }

    /// Hands out the correction that is due at clock reading `now` and marks
    /// it as delivered. `None` means that nothing is due before the next
    /// heartbeat.
    pub fn next_update_at(&mut self, now: u128) -> (event: Option<PlayerEvent>)
        ensures
            event == old(self)@.pending_at(now),
            final(self)@ == old(self)@.acknowledged(),
    {
        if self.dirty {
            self.dirty = false;
            let (position, playing) = self.state_at(now);
            return Some(PlayerEvent::Fix { playing, position });
        }
        None
    }

    /// Hands out the correction that is due, if any, without waiting. On
    /// `None` the caller waits for the next heartbeat and then asks
    /// [`Controller::tick`].
    pub fn next_update(&mut self) -> (event: Option<PlayerEvent>)
        ensures
            final(self)@ == old(self)@.acknowledged(),
            event is Some <==> old(self)@.dirty,
            exists|now: u128| event == #[trigger] old(self)@.pending_at(now),
    {
        let now: u128 = self.clock.now();
        self.next_update_at(now)
    }

    /// The heartbeat for clock reading `now`.
    pub fn tick_at(&self, now: u128) -> (event: PlayerEvent)
        ensures
            event == PlayerEvent::Tick(self@.position_at(now)),
    {
        let (position, _) = self.state_at(now);
        PlayerEvent::Tick(position)
    }

    /// The heartbeat for the present moment.
    pub fn tick(&self) -> (event: PlayerEvent)
        ensures
            exists|now: u128| event == PlayerEvent::Tick(#[trigger] self@.position_at(now)),
    {
        let now: u128 = self.clock.now();
        self.tick_at(now)
    }
}

/// Starting playback and stopping it at the same instant leaves the position
/// where it was, and leaves a paused controller's offset untouched.
pub proof fn lemma_play_then_pause_keeps_position(c: ControllerView, now: u128)
    ensures
        !c.play_at(now).pause_at(now).playing,
        c.play_at(now).pause_at(now).position_at(now) == c.position_at(now),
        !c.playing ==> c.play_at(now).pause_at(now).offset == c.offset,
{
}

/// While paused the position stands still; while playing it never goes
/// back.
pub proof fn lemma_position_never_goes_back(c: ControllerView, earlier: u128, later: u128)
    requires
        earlier <= later,
    ensures
        c.position_at(earlier) <= c.position_at(later),
        !c.playing ==> c.position_at(earlier) == c.position_at(later),
{
}

/// While playing, the position is the offset plus the time since playback
/// started, as long as that sum can be represented.
pub proof fn lemma_position_while_playing(c: ControllerView, now: u128)
    requires
        c.playing,
        now >= c.start,
        c.offset + (now - c.start) <= u128::MAX,
    ensures
        c.position_at(now) == c.offset + (now - c.start),
{
}

} // verus!
