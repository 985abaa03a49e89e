use lazer::bidirectional::{channel, notice_for, Channel, Notice, Polled};
use lazer::codec::{DecodeError, LaserCodec, Reading};
use lazer::logger::Command;
use lazer::window::MAX_SAMPLES;
use lazer::worker::{Event, Input, Message, Outcome, Phase, Worker, DISPLACEMENT_SCALE};

fn raw(total: i64, seq: i64) -> Reading {
    Reading {
        reference: 10,
        measured: 20,
        total_displacement: total,
        velocity: 5,
        zero: 0,
        sequence_num: seq,
        code: 0,
        data: 0,
        displacement: 0,
    }
}

fn quiet() -> Outcome {
    Outcome { log: None, event: None, repaint: false }
}

#[test]
fn frame_is_transformed_buffered_and_logged() {
    let mut w = Worker::new(MAX_SAMPLES, DISPLACEMENT_SCALE, 10);
    let o = w.step(Input::Frame(Ok(raw(0, 1))));
    let expected = Reading { displacement: 0, ..raw(0, 1) };
    assert_eq!(o, Outcome { log: Some(Command::Write(expected)), event: None, repaint: true });
    let o = w.step(Input::Frame(Ok(raw(3, 2))));
    assert_eq!(o.log, Some(Command::Write(Reading { displacement: 3 * 792, ..raw(3, 2) })));
    assert_eq!(w.window().len(), 2);
}

#[test]
fn decode_error_ends_the_worker() {
    let mut w = Worker::new(MAX_SAMPLES, DISPLACEMENT_SCALE, 10);
    let o = w.step(Input::Frame(Err(DecodeError::MissingField(2))));
    assert_eq!(o, Outcome { log: Some(Command::Kill), event: Some(Event::Errored), repaint: true });
    assert_eq!(w.window().len(), 0);
    assert!(w.is_terminated());
    assert_eq!(w.step(Input::Frame(Ok(raw(1, 1)))), quiet());
    assert_eq!(w.window().len(), 0);
}

#[test]
fn pause_then_resume_opens_new_file() {
    let mut w = Worker::new(MAX_SAMPLES, DISPLACEMENT_SCALE, 10);
    w.step(Input::Frame(Ok(raw(1, 1))));
    assert_eq!(w.step(Input::Control(Message::Pause)), quiet());
    assert_eq!(w.phase(), Phase::Paused);
    assert!(!w.should_poll());
    assert_eq!(w.step(Input::Frame(Ok(raw(2, 2)))), quiet());
    assert_eq!(w.window().len(), 1);
    let o = w.step(Input::Control(Message::Resume));
    assert_eq!(o.log, Some(Command::NewFile));
    assert!(w.should_poll());
    let o = w.step(Input::Frame(Ok(raw(4, 3))));
    assert!(matches!(o.log, Some(Command::Write(_))));
}

#[test]
fn disconnect_is_last_word() {
    let mut w = Worker::new(MAX_SAMPLES, DISPLACEMENT_SCALE, 10);
    w.step(Input::Frame(Ok(raw(1, 1))));
    let o = w.step(Input::Control(Message::Disconnect));
    assert_eq!(o, Outcome { log: Some(Command::Kill), event: Some(Event::Disconnected), repaint: true });
    let inputs = [
        Input::Frame(Ok(raw(2, 2))),
        Input::Control(Message::Resume),
        Input::Control(Message::Disconnect),
        Input::Control(Message::SetSampleRate(5)),
        Input::PeerGone,
        Input::RotationFailed,
        Input::DeviceFailed,
    ];
    for i in inputs {
        assert_eq!(w.step(i), quiet());
    }
    assert_eq!(w.window().len(), 1);
}

#[test]
fn sample_rate_sets_interval_and_rotates() {
    let mut w = Worker::new(MAX_SAMPLES, DISPLACEMENT_SCALE, 1);
    assert_eq!(w.poll_interval_ms(), 1000);
    let o = w.step(Input::Control(Message::SetSampleRate(8)));
    assert_eq!(o.log, Some(Command::NewFile));
    assert_eq!(w.poll_interval_ms(), 125);
    assert_eq!(w.step(Input::Control(Message::SetSampleRate(0))), quiet());
    assert_eq!(w.poll_interval_ms(), 125);
    w.step(Input::Control(Message::Pause));
    w.step(Input::Control(Message::SetSampleRate(3000)));
    assert_eq!(w.poll_interval_ms(), 0);
    assert_eq!(w.phase(), Phase::Paused);
}

#[test]
fn peer_gone_and_rotation_failure() {
    let mut w = Worker::new(MAX_SAMPLES, DISPLACEMENT_SCALE, 10);
    assert_eq!(w.step(Input::PeerGone), Outcome { log: Some(Command::Kill), event: None, repaint: true });
    assert!(w.is_terminated());
    let mut w = Worker::new(MAX_SAMPLES, DISPLACEMENT_SCALE, 10);
    assert_eq!(w.step(Input::RotationFailed), Outcome { log: None, event: Some(Event::Errored), repaint: true });
    assert!(w.is_terminated());
    let mut w = Worker::new(MAX_SAMPLES, DISPLACEMENT_SCALE, 10);
    assert_eq!(w.step(Input::DeviceFailed), Outcome { log: Some(Command::Kill), event: Some(Event::Errored), repaint: true });
    assert!(w.is_terminated());
}

#[test]
fn notices_for_polls() {
    assert_eq!(notice_for(Polled::Received(Event::Disconnected)), Some(Notice::Disconnected));
    assert_eq!(notice_for(Polled::Received(Event::Errored)), Some(Notice::Errored));
    assert_eq!(notice_for(Polled::PeerGone), Some(Notice::WorkerGone));
    assert_eq!(notice_for(Polled::Empty), None);
}

#[test]
fn duplex_channel_pairs() {
    let (a, b): (Channel<Message, Event>, Channel<Event, Message>) = channel();
    assert!(a.poll() == Polled::Empty);
    a.send(Message::Pause).unwrap();
    a.send(Message::Resume).unwrap();
    assert_eq!(b.recv(), Ok(Message::Pause));
    assert_eq!(b.try_recv(), Ok(Message::Resume));
    b.send(Event::Disconnected).unwrap();
    assert!(a.poll() == Polled::Received(Event::Disconnected));
    drop(b);
    assert!(a.poll() == Polled::PeerGone);
    assert!(a.send(Message::Disconnect).is_err());
    assert!(a.recv().is_err());
}

#[test]
fn bad_line_ends_worker_without_push() {
    let mut codec = LaserCodec::new();
    codec.feed(b"bad line\n");
    let frame: Result<Reading, DecodeError> = match codec.decode() {
        Ok(Some(r)) => Ok(r),
        Ok(None) => panic!("the line is complete"),
        Err(e) => Err(e),
    };
    assert_eq!(frame, Err(DecodeError::MissingField(2)));
    let mut w = Worker::new(MAX_SAMPLES, DISPLACEMENT_SCALE, 10);
    let o = w.step(Input::Frame(frame));
    assert_eq!(o.event, Some(Event::Errored));
    assert_eq!(w.window().len(), 0);
}

#[test]
fn scenario_line_on_empty_window() {
    let mut codec = LaserCodec::new();
    codec.feed(b"10 20 0 5 0 1 0 0\n");
    let r = codec.decode().unwrap().unwrap();
    let mut w = Worker::new(MAX_SAMPLES, DISPLACEMENT_SCALE, 10);
    w.step(Input::Frame(Ok(r)));
    assert_eq!(w.window().len(), 1);
    assert_eq!(w.window().get(0), Reading { displacement: 0, ..raw(0, 1) });
}

#[test]
fn worker_window_keeps_last_readings() {
    let cap = 4usize;
    let mut w = Worker::new(cap, DISPLACEMENT_SCALE, 10);
    let mut logged = Vec::new();
    for n in 1..=(cap as i64 + 1) {
        match w.step(Input::Frame(Ok(raw(n * 10, n)))).log {
            Some(Command::Write(r)) => logged.push(r),
            other => panic!("expected a write, got {:?}", other),
        }
    }
    let kept: Vec<Reading> = (0..w.window().len()).map(|i| w.window().get(i)).collect();
    assert_eq!(kept, logged[1..].to_vec());
    assert_eq!(kept[0].displacement, 10 * 792);
}
