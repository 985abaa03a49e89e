//! The acquisition worker's decisions: a state machine from control messages,
//! decoded frames and logger failures to the next state and the actions that
//! the host carries out (logger commands, lifecycle events, repaint hints).
use vstd::prelude::*;
use crate::codec::{DecodeError, Reading};
use crate::logger::Command;
use crate::window::{
    lemma_pushed_all_first, lemma_window_fifo, pushed, pushed_all, transformed, SlidingWindow,
};

verus! {

/// How long a paused worker sleeps before it looks at the control channel again.
pub const PAUSE_SLEEP_MS: u64 = 250;

pub const MS_PER_SECOND: u32 = 1000;

/// The scale of the displacement transform, in tenths of a display unit per
/// counter step.
pub const DISPLACEMENT_SCALE: i64 = 792;

/// Control messages, from the consumer to the worker.
#[derive(Clone, Copy, Debug, PartialEq, Eq, Structural)]
pub enum Message {
    Disconnect,
    Pause,
    Resume,
    /// Readings per second; zero is ignored.
    SetSampleRate(u32),
}

/// Lifecycle events, from the worker to the consumer.
#[derive(Clone, Copy, Debug, PartialEq, Eq, Structural)]
pub enum Event {
    Disconnected,
    Errored,
}

#[derive(Clone, Copy, Debug, PartialEq, Eq, Structural)]
pub enum Phase {
    Running,
    Paused,
    Terminated,
}

/// Something that the worker reacts to.
#[derive(Clone, Copy, Debug, PartialEq, Eq)]
pub enum Input {
    /// A message arrived on the control channel.
    Control(Message),
    /// The consumer's end of the control channel is gone.
    PeerGone,
    /// The decoder handed out the next line.
    Frame(Result<Reading, DecodeError>),
    /// The logger could not open a new session file.
    RotationFailed,
    /// Reading from the device failed.
    DeviceFailed,
}

/// What the host does after one step: at most one logger command, at most one
/// event to the consumer, and whether to ask the UI for a redraw.
#[derive(Clone, Copy, Debug, PartialEq, Eq, Structural)]
pub struct Outcome {
    pub log: Option<Command>,
    pub event: Option<Event>,
    pub repaint: bool,
}

pub open spec fn quiet() -> Outcome {
    Outcome { log: None, event: None, repaint: false }
}

/// The worker as the contracts see it.
pub struct WorkerState {
    pub phase: Phase,
    pub window: Seq<Reading>,
    pub cap: nat,
    pub scale: i64,
    pub interval_ms: u64,
}

pub open spec fn terminated(s: WorkerState, event: Option<Event>, log: Option<Command>) -> (
    WorkerState,
    Outcome,
) {
    (
        WorkerState { phase: Phase::Terminated, ..s },
        Outcome { log, event, repaint: true },
    )
}

/// One transition of the worker.
pub open spec fn step(s: WorkerState, input: Input) -> (WorkerState, Outcome) {
    if s.phase == Phase::Terminated {
        (s, quiet())
    } else {
        match input {
            Input::Control(Message::Pause) => (WorkerState { phase: Phase::Paused, ..s }, quiet()),
            Input::Control(Message::Resume) => (
                WorkerState { phase: Phase::Running, ..s },
                Outcome { log: Some(Command::NewFile), event: None, repaint: false },
            ),
            Input::Control(Message::SetSampleRate(rate)) => if rate == 0 {
                (s, quiet())
            } else {
                (
                    WorkerState { interval_ms: (MS_PER_SECOND / rate) as u64, ..s },
                    Outcome { log: Some(Command::NewFile), event: None, repaint: false },
                )
            },
            Input::Control(Message::Disconnect) => terminated(
                s,
                Some(Event::Disconnected),
                Some(Command::Kill),
            ),
            Input::PeerGone => terminated(s, None, Some(Command::Kill)),
            Input::RotationFailed => terminated(s, Some(Event::Errored), None),
            Input::DeviceFailed => terminated(s, Some(Event::Errored), Some(Command::Kill)),
            Input::Frame(frame) => if s.phase == Phase::Paused {
                (s, quiet())
            } else {
                match frame {
                    Ok(raw) => {
                        let r = transformed(s.window, raw, s.scale);
                        (
                            WorkerState { window: pushed(s.window, s.cap, r), ..s },
                            Outcome { log: Some(Command::Write(r)), event: None, repaint: true },
                        )
                    },
                    Err(_) => terminated(s, Some(Event::Errored), Some(Command::Kill)),
                }
            },
        }
    }
}

/// The final state and the outcomes of a run of inputs, first to last.
pub open spec fn run(s: WorkerState, inputs: Seq<Input>) -> (WorkerState, Seq<Outcome>)
    decreases inputs.len(),
{
    if inputs.len() == 0 {
        (s, seq![])
    } else {
        let (s1, o) = step(s, inputs[0]);
        let (s2, os) = run(s1, inputs.drop_first());
        (s2, seq![o] + os)
    }
}

pub open spec fn is_write(o: Outcome) -> bool {
    o.log matches Some(Command::Write(_))
}

/// Every outcome that writes a row comes after one that opens a new session file.
pub open spec fn rotated_before_writes(os: Seq<Outcome>) -> bool {
    forall|j: int|
        0 <= j < os.len() && #[trigger] is_write(os[j]) ==> exists|i: int|
            0 <= i < j && (#[trigger] os[i]).log == Some(Command::NewFile)
}

/// The reading that an outcome writes to the log.
pub open spec fn written(o: Outcome) -> Reading {
    match o.log {
        Some(Command::Write(r)) => r,
        _ => arbitrary(),
    }
}

pub open spec fn is_good_frame(i: Input) -> bool {
    i matches Input::Frame(Ok(_))
}

proof fn lemma_frames_fill_window(s: WorkerState, inputs: Seq<Input>)
    requires
        s.phase == Phase::Running,
        forall|j: int| 0 <= j < inputs.len() ==> #[trigger] is_good_frame(inputs[j]),
    ensures
        run(s, inputs).0.phase == Phase::Running,
        run(s, inputs).0.cap == s.cap,
        run(s, inputs).1.len() == inputs.len(),
        forall|j: int| 0 <= j < inputs.len() ==> #[trigger] is_write(run(s, inputs).1[j]),
        run(s, inputs).0.window == pushed_all(
            s.window,
            s.cap,
            run(s, inputs).1.map_values(|o: Outcome| written(o)),
        ),
    decreases inputs.len(),
{
    let os = run(s, inputs).1;
    if inputs.len() == 0 {
        assert(os.map_values(|o: Outcome| written(o)) =~= Seq::<Reading>::empty());
    } else {
        assert(is_good_frame(inputs[0]));
        let (s1, o) = step(s, inputs[0]);
        let rest = inputs.drop_first();
        assert forall|j: int| 0 <= j < rest.len() implies #[trigger] is_good_frame(rest[j]) by {
            assert(rest[j] == inputs[j + 1]);
        }
        lemma_frames_fill_window(s1, rest);
        let os1 = run(s1, rest).1;
        assert(os == seq![o] + os1);
        assert forall|j: int| 0 <= j < inputs.len() implies #[trigger] is_write(os[j]) by {
            if j > 0 {
                assert(os[j] == os1[j - 1]);
            }
        }
        assert(os.map_values(|o: Outcome| written(o)) =~= seq![written(o)] + os1.map_values(
            |o: Outcome| written(o),
        ));
        lemma_pushed_all_first(s.window, s.cap, written(o), os1.map_values(|o: Outcome| written(o)));
    }
}

/// A running worker with an empty window that is handed `n` good frames
/// writes `n` readings to the log, and its window then holds exactly the last
/// `cap` of them (all of them while fewer), oldest first: with `cap + 1`
/// frames, the first reading is the one evicted.
pub proof fn lemma_worker_keeps_last_readings(s: WorkerState, inputs: Seq<Input>)
    requires
        s.phase == Phase::Running,
        s.window.len() == 0,
        s.cap >= 1,
        forall|j: int| 0 <= j < inputs.len() ==> #[trigger] is_good_frame(inputs[j]),
    ensures
        ({
            let (end, os) = run(s, inputs);
            let logged = os.map_values(|o: Outcome| written(o));
            &&& os.len() == inputs.len()
            &&& forall|j: int| 0 <= j < os.len() ==> #[trigger] is_write(os[j])
            &&& end.phase == Phase::Running
            &&& end.window == logged.subrange(
                if logged.len() > s.cap { logged.len() - s.cap } else { 0 },
                logged.len() as int,
            )
            &&& inputs.len() == s.cap + 1 ==> end.window == logged.drop_first()
        }),
{
    lemma_frames_fill_window(s, inputs);
    let logged = run(s, inputs).1.map_values(|o: Outcome| written(o));
    assert(s.window =~= Seq::<Reading>::empty());
    lemma_window_fifo(s.cap, logged);
}

/// A terminated worker stays terminated, keeps its window and does nothing
/// whatever comes after.
pub proof fn lemma_terminated_is_final(s: WorkerState, inputs: Seq<Input>)
    requires
        s.phase == Phase::Terminated,
    ensures
        run(s, inputs).0 == s,
        run(s, inputs).1.len() == inputs.len(),
        forall|j: int| 0 <= j < inputs.len() ==> #[trigger] run(s, inputs).1[j] == quiet(),
    decreases inputs.len(),
{
    if inputs.len() > 0 {
        lemma_terminated_is_final(s, inputs.drop_first());
        let os = run(s, inputs).1;
        assert forall|j: int| 0 <= j < inputs.len() implies #[trigger] os[j] == quiet() by {
            if j > 0 {
                assert(os[j] == run(s, inputs.drop_first()).1[j - 1]);
            }
        }
    }
}

/// `Disconnect` yields exactly one `Disconnected` event, and after it the
/// worker neither writes to its window or its log nor emits anything more.
pub proof fn lemma_disconnect_is_last(s: WorkerState, inputs: Seq<Input>)
    requires
        s.phase != Phase::Terminated,
    ensures
        ({
            let all = seq![Input::Control(Message::Disconnect)] + inputs;
            let (end, os) = run(s, all);
            &&& os.len() == all.len()
            &&& os[0].event == Some(Event::Disconnected)
            &&& os[0].log == Some(Command::Kill)
            &&& forall|j: int| 1 <= j < os.len() ==> #[trigger] os[j] == quiet()
            &&& end.phase == Phase::Terminated
            &&& end.window == s.window
        }),
{
    let all = seq![Input::Control(Message::Disconnect)] + inputs;
    assert(all.drop_first() =~= inputs);
    let s1 = step(s, all[0]).0;
    lemma_terminated_is_final(s1, inputs);
    let os = run(s, all).1;
    assert forall|j: int| 1 <= j < os.len() implies #[trigger] os[j] == quiet() by {
        assert(os[j] == run(s1, inputs).1[j - 1]);
    }
}

proof fn lemma_idle_rotates_first(s: WorkerState, inputs: Seq<Input>)
    requires
        s.phase != Phase::Running,
    ensures
        rotated_before_writes(run(s, inputs).1),
    decreases inputs.len(),
{
    if inputs.len() > 0 {
        let (s1, o) = step(s, inputs[0]);
        let rest = run(s1, inputs.drop_first()).1;
        let os = run(s, inputs).1;
        assert(os == seq![o] + rest);
        assert(!is_write(o));
        if o.log == Some(Command::NewFile) {
            assert forall|j: int| 0 <= j < os.len() && #[trigger] is_write(os[j]) implies exists|
                i: int,
            | 0 <= i < j && (#[trigger] os[i]).log == Some(Command::NewFile) by {
                assert(os[0] == o);
            }
        } else {
            assert(s1.phase != Phase::Running);
            lemma_idle_rotates_first(s1, inputs.drop_first());
            assert forall|j: int| 0 <= j < os.len() && #[trigger] is_write(os[j]) implies exists|
                i: int,
            | 0 <= i < j && (#[trigger] os[i]).log == Some(Command::NewFile) by {
                assert(j >= 1);
                assert(os[j] == rest[j - 1]);
                assert(is_write(rest[j - 1]));
                let i = choose|i: int| 0 <= i < j - 1 && (#[trigger] rest[i]).log == Some(Command::NewFile);
                assert(os[i + 1] == rest[i]);
            }
        }
    }
}

/// After `Pause`, whatever follows, no row is written before a new session
/// file has been opened; and a `Resume` right after opens one and starts the
/// worker again.
pub proof fn lemma_pause_resume(s: WorkerState, inputs: Seq<Input>)
    requires
        s.phase != Phase::Terminated,
    ensures
        ({
            let paused = step(s, Input::Control(Message::Pause)).0;
            let (resumed, o) = step(paused, Input::Control(Message::Resume));
            &&& paused.phase == Phase::Paused
            &&& paused.window == s.window
            &&& rotated_before_writes(run(paused, inputs).1)
            &&& o.log == Some(Command::NewFile)
            &&& resumed.phase == Phase::Running
        }),
{
    let paused = step(s, Input::Control(Message::Pause)).0;
    lemma_idle_rotates_first(paused, inputs);
}

/// The acquisition worker: its phase, its window of recent readings, the
/// displacement scale and the poll interval.
pub struct Worker {
    phase: Phase,
    window: SlidingWindow,
    scale: i64,
    interval_ms: u64,
}

impl View for Worker {
    type V = WorkerState;

    closed spec fn view(&self) -> WorkerState {
        WorkerState {
            phase: self.phase,
            window: self.window@,
            cap: self.window.cap(),
            scale: self.scale,
            interval_ms: self.interval_ms,
        }
    }
}

impl Worker {
    pub closed spec fn wf(&self) -> bool {
        self.window.wf()
    }

    /// A running worker with an empty window of `capacity` readings, polling
    /// `sample_rate` times a second.
    pub fn new(capacity: usize, scale: i64, sample_rate: u32) -> (w: Worker)
        requires
            capacity >= 1,
            sample_rate >= 1,
        ensures
            w.wf(),
            w@ == (WorkerState {
                phase: Phase::Running,
                window: Seq::empty(),
                cap: capacity as nat,
                scale,
                interval_ms: (MS_PER_SECOND / sample_rate) as u64,
            }),
    {
        Worker {
            phase: Phase::Running,
            window: SlidingWindow::new(capacity),
            scale,
            interval_ms: (MS_PER_SECOND / sample_rate) as u64,
        }
    }

    pub fn phase(&self) -> (r: Phase)
        ensures
            r == self@.phase,
    {
        self.phase
    }

    /// Whether the host should wait for the next frame now.
    pub fn should_poll(&self) -> (r: bool)
        ensures
            r == (self@.phase == Phase::Running),
    {
        match self.phase {
            Phase::Running => true,
            _ => false,
        }
    }

    pub fn is_terminated(&self) -> (r: bool)
        ensures
            r == (self@.phase == Phase::Terminated),
    {
        match self.phase {
            Phase::Terminated => true,
            _ => false,
        }
    }

    /// Milliseconds between two polls of the device.
    pub fn poll_interval_ms(&self) -> (r: u64)
        ensures
            r == self@.interval_ms,
    {
        self.interval_ms
    }

    /// The window of recent readings, for reading only.
    pub fn window(&self) -> (r: &SlidingWindow)
        requires
            self.wf(),
        ensures
            r@ == self@.window,
            r.cap() == self@.cap,
            r.wf(),
    {
        &self.window
    }

    /// Reacts to one input, and says what the host must do.
    pub fn step(&mut self, input: Input) -> (r: Outcome)
        requires
            old(self).wf(),
        ensures
            final(self).wf(),
            (final(self)@, r) == step(old(self)@, input),
    {
        let none = Outcome { log: None, event: None, repaint: false };
        if self.is_terminated() {
            return none;
        }
        match input {
            Input::Control(Message::Pause) => {
                self.phase = Phase::Paused;
                none
            },
            Input::Control(Message::Resume) => {
                self.phase = Phase::Running;
                Outcome { log: Some(Command::NewFile), event: None, repaint: false }
            },
            Input::Control(Message::SetSampleRate(rate)) => {
                if rate == 0 {
                    none
                } else {
                    self.interval_ms = (MS_PER_SECOND / rate) as u64;
                    Outcome { log: Some(Command::NewFile), event: None, repaint: false }
                }
            },
            Input::Control(Message::Disconnect) => {
                self.phase = Phase::Terminated;
                Outcome { log: Some(Command::Kill), event: Some(Event::Disconnected), repaint: true }
            },
            Input::PeerGone => {
                self.phase = Phase::Terminated;
                Outcome { log: Some(Command::Kill), event: None, repaint: true }
            },
            Input::RotationFailed => {
                self.phase = Phase::Terminated;
                Outcome { log: None, event: Some(Event::Errored), repaint: true }
            },
            Input::DeviceFailed => {
                self.phase = Phase::Terminated;
                Outcome { log: Some(Command::Kill), event: Some(Event::Errored), repaint: true }
            },
            Input::Frame(frame) => {
                if !self.should_poll() {
                    return none;
                }
                match frame {
                    Ok(raw) => {
                        let r = self.window.record(raw, self.scale);
                        Outcome { log: Some(Command::Write(r)), event: None, repaint: true }
                    },
                    Err(_) => {
                        self.phase = Phase::Terminated;
                        Outcome {
                            log: Some(Command::Kill),
                            event: Some(Event::Errored),
                            repaint: true,
                        }
                    },
                }
            },
        }
    }
}

} // verus!
