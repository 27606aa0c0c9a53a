//! The live rate controller: a polling state machine that turns a player's
//! replies into playback-rate commands.
use vstd::prelude::*;
use crate::analysis::AnalysisError;
use crate::ranges::{
    contiguous, covers, find_range, is_mapping, is_segmentation, lemma_contiguous_ordered,
    lemma_mapping_covers, map_ranges, range_holds, segment, SpeedupRange, MIN_RATE,
};
use crate::replies::{
    current_time_millis, first_number, parse_vlc_response_to_usize, reply_position_millis,
};
use crate::video::{Video, VideoSource};

verus! {

/// Why the live controller could not start or had to stop.
#[derive(Debug)]
pub enum VlcControllerError {
    /// Spawning mkfifo or the player failed.
    ExternalCommandError(std::io::Error),
    /// The video was not analysed before playing it.
    NotEnoughInfo,
    /// The analysis result or the configured rates cannot be segmented.
    Analysis(AnalysisError),
    /// The control channel to the player closed or failed.
    ConnectionClosed,
    /// The reported position lies outside every speed range.
    NoMatchingRange,
}

impl From<std::io::Error> for VlcControllerError {
    fn from(e: std::io::Error) -> (r: Self)
        ensures
            r == VlcControllerError::ExternalCommandError(e),
    {
        VlcControllerError::ExternalCommandError(e)
    }
}

impl vstd::std_specs::convert::FromSpecImpl<std::io::Error> for VlcControllerError {
    open spec fn obeys_from_spec() -> bool {
        true
    }

    open spec fn from_spec(e: std::io::Error) -> Self {
        VlcControllerError::ExternalCommandError(e)
    }
}

/// Where the controller stands in its polling cycle.
#[derive(Debug, Clone, Copy, PartialEq, Eq, Structural)]
pub enum ControllerState {
    /// The control channel is not open yet.
    Connecting,
    /// Connected; no cycle has started.
    Ready,
    /// Between two cycles.
    Polling,
    /// Waiting for the reply to "is the player playing?".
    AwaitingPlaying,
    /// Waiting for the reply that gives the playback position.
    AwaitingPosition,
    /// Finished; no further commands are issued.
    Stopped,
}

/// What the control channel reports to the controller.
pub enum PlayerEvent {
    /// The control channel is open.
    Connected,
    /// The polling interval has elapsed.
    Tick,
    /// The complete reply to the pending query.
    Reply(Vec<u8>),
    /// The control channel closed or failed.
    ChannelClosed,
}

/// What the controller asks to be done next.
#[derive(Debug, Clone, Copy, PartialEq, Eq, Structural)]
pub enum ControllerAction {
    /// Nothing to send now.
    Wait,
    /// Ask whether the player is playing.
    AskIsPlaying,
    /// Ask for the statistics and stream information that give the position.
    AskPosition,
    /// Set the playback rate, in thousandths.
    SetRate(u64),
    /// The reply could not be read; the next cycle tries again.
    MalformedReply,
}

/// Drives an external player's playback rate from the speed ranges of an
/// analysed video.
pub struct VlcController {
    pub source: VideoSource,
    /// Speed ranges over the video's length in milliseconds.
    pub table: Vec<SpeedupRange>,
    pub state: ControllerState,
    /// The last rate sent to the player.
    pub last_rate: Option<u64>,
}

/// The rate of the range that holds `position`, if one does.
pub open spec fn rate_at(table: Seq<SpeedupRange>, position: nat) -> Option<u64> {
    if exists|i: int| range_holds(table, i, position as int) {
        let i = choose|i: int| range_holds(table, i, position as int);
        Some(table[i].speedup_rate)
    } else {
        None
    }
}

/// One step of the polling cycle: the next state, the last rate sent after
/// the step, and the action to take, or `None` when the step stops the
/// controller with an error. Pairs of state and event not listed leave
/// everything as it is and wait.
pub open spec fn step_spec(
    state: ControllerState,
    last_rate: Option<u64>,
    table: Seq<SpeedupRange>,
    event: PlayerEvent,
) -> (ControllerState, Option<u64>, Option<ControllerAction>) {
    let idle = (state, last_rate, Some(ControllerAction::Wait));
    if state == ControllerState::Stopped {
        idle
    } else {
        match event {
            PlayerEvent::ChannelClosed => (ControllerState::Stopped, last_rate, None),
            PlayerEvent::Connected => if state == ControllerState::Connecting {
                (ControllerState::Ready, last_rate, Some(ControllerAction::Wait))
            } else {
                idle
            },
            PlayerEvent::Tick => if state == ControllerState::Ready || state
                == ControllerState::Polling {
                (ControllerState::AwaitingPlaying, last_rate, Some(ControllerAction::AskIsPlaying))
            } else {
                idle
            },
            PlayerEvent::Reply(reply) => if state == ControllerState::AwaitingPlaying {
                match first_number(reply@) {
                    None => (ControllerState::Polling, last_rate, Some(ControllerAction::MalformedReply)),
                    Some(playing) => if playing == 0 {
                        (ControllerState::Polling, last_rate, Some(ControllerAction::Wait))
                    } else {
                        (
                            ControllerState::AwaitingPosition,
                            last_rate,
                            Some(ControllerAction::AskPosition),
                        )
                    },
                }
            } else if state == ControllerState::AwaitingPosition {
                match reply_position_millis(reply@) {
                    None => (ControllerState::Polling, last_rate, Some(ControllerAction::MalformedReply)),
                    Some(position) => match rate_at(table, position) {
                        None => (ControllerState::Stopped, last_rate, None),
                        Some(rate) => if last_rate == Some(rate) {
                            (ControllerState::Polling, last_rate, Some(ControllerAction::Wait))
                        } else {
                            (ControllerState::Polling, Some(rate), Some(ControllerAction::SetRate(rate)))
                        },
                    },
                }
            } else {
                idle
            },
        }
    }
}

impl VlcController {
    pub open spec fn wf(&self) -> bool {
        self.table@.len() > 0 && contiguous(self.table@)
    }

    /// Builds the controller of an analysed video: its silence labels are cut
    /// into speed ranges at the given rates (in thousandths) and rescaled onto
    /// the video's length in milliseconds.
    pub fn new(video_info: Video, speedup_loud: u64, speedup_silent: u64) -> (r: Result<
        VlcController,
        VlcControllerError,
    >)
        ensures
            (video_info.silent_frames is None || video_info.length_millis is None) <==> (r matches Err(
                VlcControllerError::NotEnoughInfo,
            )),
            (video_info.silent_frames is Some && video_info.length_millis is Some) ==> {
                let frames = video_info.silent_frames->Some_0@;
                &&& (speedup_loud < MIN_RATE || speedup_silent < MIN_RATE) ==> (r matches Err(
                    VlcControllerError::Analysis(AnalysisError::InvalidRate),
                ))
                &&& (speedup_loud >= MIN_RATE && speedup_silent >= MIN_RATE && frames.len() < 2)
                    ==> (r matches Err(
                    VlcControllerError::Analysis(AnalysisError::InsufficientAudioData),
                ))
                &&& (speedup_loud >= MIN_RATE && speedup_silent >= MIN_RATE && frames.len() >= 2)
                    ==> r is Ok
            },
            r is Ok ==> {
                let c = r->Ok_0;
                let frames = video_info.silent_frames->Some_0@;
                let total = video_info.length_millis->Some_0;
                &&& c.wf()
                &&& c.source == video_info.source
                &&& c.state == ControllerState::Connecting
                &&& c.last_rate is None
                &&& covers(c.table@, total as nat)
                &&& exists|segments: Seq<SpeedupRange>| #[trigger]
                    is_segmentation(frames, speedup_loud, speedup_silent, segments) && is_mapping(
                        segments,
                        c.table@,
                        frames.len(),
                        total as nat,
                    )
            },
    {
        let Video { source, length_millis, silent_frames } = video_info;
        let (frames, total) = match (silent_frames, length_millis) {
            (Some(f), Some(t)) => (f, t),
            _ => {
                return Err(VlcControllerError::NotEnoughInfo);
            },
        };
        let segments = match segment(&frames, speedup_loud, speedup_silent) {
            Ok(s) => s,
            Err(e) => {
                return Err(VlcControllerError::Analysis(e));
            },
        };
        proof {
            let g = segments@;
            assert forall|i: int| 0 <= i < g.len() implies (#[trigger] g[i]).frame_from
                <= frames@.len() && g[i].frame_to <= frames@.len() by {
                if i < g.len() - 1 {
                    lemma_contiguous_ordered(g, i, g.len() - 1);
                }
            }
        }
        let table = map_ranges(&segments, frames.len(), total);
        proof {
            lemma_mapping_covers(segments@, table@, frames@.len(), total as nat);
        }
        Ok(VlcController { source, table, state: ControllerState::Connecting, last_rate: None })
    }

    /// Advances the polling cycle by one event and says what to send next.
    /// A closed channel, or a position outside every range, stops the
    /// controller with an error; a reply that cannot be read is reported and
    /// the next cycle starts over. A new rate is sent only when it differs
    /// from the last one sent.
    pub fn step(&mut self, event: PlayerEvent) -> (r: Result<ControllerAction, VlcControllerError>)
        requires
            old(self).wf(),
        ensures
            final(self).wf(),
            final(self).table@ == old(self).table@,
            final(self).source == old(self).source,
            ({
                let (state, last_rate, action) = step_spec(
                    old(self).state,
                    old(self).last_rate,
                    old(self).table@,
                    event,
                );
                &&& final(self).state == state
                &&& final(self).last_rate == last_rate
                &&& action is Some ==> r == Ok::<ControllerAction, VlcControllerError>(
                    action->Some_0,
                )
                &&& (action is None && event is ChannelClosed) ==> (r matches Err(
                    VlcControllerError::ConnectionClosed,
                ))
                &&& (action is None && !(event is ChannelClosed)) ==> (r matches Err(
                    VlcControllerError::NoMatchingRange,
                ))
            }),
    {
        if self.state == ControllerState::Stopped {
            return Ok(ControllerAction::Wait);
        }
        match event {
            PlayerEvent::ChannelClosed => {
                self.state = ControllerState::Stopped;
                Err(VlcControllerError::ConnectionClosed)
            },
            PlayerEvent::Connected => {
                if self.state == ControllerState::Connecting {
                    self.state = ControllerState::Ready;
                }
                Ok(ControllerAction::Wait)
            },
            PlayerEvent::Tick => {
                if self.state == ControllerState::Ready || self.state == ControllerState::Polling {
                    self.state = ControllerState::AwaitingPlaying;
                    Ok(ControllerAction::AskIsPlaying)
                } else {
                    Ok(ControllerAction::Wait)
                }
            },
            PlayerEvent::Reply(reply) => {
                if self.state == ControllerState::AwaitingPlaying {
                    match parse_vlc_response_to_usize(&reply) {
                        None => {
                            self.state = ControllerState::Polling;
                            Ok(ControllerAction::MalformedReply)
                        },
                        Some(0) => {
                            self.state = ControllerState::Polling;
                            Ok(ControllerAction::Wait)
                        },
                        Some(_) => {
                            self.state = ControllerState::AwaitingPosition;
                            Ok(ControllerAction::AskPosition)
                        },
                    }
                } else if self.state == ControllerState::AwaitingPosition {
                    match current_time_millis(&reply) {
                        None => {
                            self.state = ControllerState::Polling;
                            Ok(ControllerAction::MalformedReply)
                        },
                        Some(position) => match find_range(&self.table, position) {
                            None => {
                                self.state = ControllerState::Stopped;
                                Err(VlcControllerError::NoMatchingRange)
                            },
                            Some(i) => {
                                let rate = self.table[i].speedup_rate;
                                proof {
                                    let t = self.table@;
                                    assert(range_holds(t, i as int, position as int));
                                    let k = choose|k: int| range_holds(t, k, position as int);
                                    if k < i {
                                        lemma_contiguous_ordered(t, k, i as int);
                                    } else if k > i {
                                        lemma_contiguous_ordered(t, i as int, k);
                                    }
                                }
                                self.state = ControllerState::Polling;
                                if self.last_rate == Some(rate) {
                                    Ok(ControllerAction::Wait)
                                } else {
                                    self.last_rate = Some(rate);
                                    Ok(ControllerAction::SetRate(rate))
                                }
                            },
                        },
                    }
                } else {
                    Ok(ControllerAction::Wait)
                }
            },
        }
    }
}

/// The characters a telnet password is drawn from.
pub open spec fn password_alphabet() -> Seq<u8> {
    seq![
        113u8, 119, 101, 114, 116, 121, 117, 105, 111, 112, 97, 115, 100, 102, 103, 104, 106,
        107, 108, 122, 120, 99, 118, 98, 110, 109, 81, 87, 69, 82, 84, 89, 85, 73, 79, 80, 65,
        83, 68, 70, 71, 72, 74, 75, 76, 90, 88, 67, 86, 66, 78, 77, 59, 39, 44, 46, 47, 63, 62,
        60, 124, 34, 58, 125, 123, 80, 125, 41, 40, 42, 38, 94, 37, 36, 35, 64, 33, 41,
    ]
}

fn password_alphabet_bytes() -> (r: Vec<u8>)
    ensures
        r@ == password_alphabet(),
{
    let r = vec![
        113u8, 119, 101, 114, 116, 121, 117, 105, 111, 112, 97, 115, 100, 102, 103, 104, 106,
        107, 108, 122, 120, 99, 118, 98, 110, 109, 81, 87, 69, 82, 84, 89, 85, 73, 79, 80, 65,
        83, 68, 70, 71, 72, 74, 75, 76, 90, 88, 67, 86, 66, 78, 77, 59, 39, 44, 46, 47, 63, 62,
        60, 124, 34, 58, 125, 123, 80, 125, 41, 40, 42, 38, 94, 37, 36, 35, 64, 33, 41,
    ];
    assert(r@ =~= password_alphabet());
    r
}

/// Relies on `rand::random`: a value drawn from the thread-local generator;
/// nothing is known of it.
pub assume_specification<T>[ rand::random::<T> ]() -> (r: T)
    where
        rand::distributions::Standard: rand::distributions::Distribution<T>,
;

/// A random password of `length` ASCII characters for the player's telnet
/// interface, drawn from a fixed alphabet. Not cryptographically secure.
pub fn generate_telnet_password(length: usize) -> (r: Vec<u8>)
    requires
        length >= 4,
    ensures
        r@.len() == length,
        forall|i: int| 0 <= i < length ==> password_alphabet().contains(#[trigger] r@[i]),
{
    let alphabet = password_alphabet_bytes();
    let mut password: Vec<u8> = Vec::new();
    let mut i: usize = 0;
    while i < length
        invariant
            i <= length,
            alphabet@ == password_alphabet(),
            password@.len() == i,
            forall|k: int| 0 <= k < i ==> password_alphabet().contains(#[trigger] password@[k]),
        decreases length - i,
    {
        let draw: usize = rand::random::<usize>();
        let k = draw % alphabet.len();
        assert(password_alphabet()[k as int] == alphabet@[k as int]);
        password.push(alphabet[k]);
        i = i + 1;
    }
    password
}

} // verus!
