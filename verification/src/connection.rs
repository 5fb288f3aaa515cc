//! The serial connection, as far as it can be decided without the device.
//!
//! Opening, configuring, reading and releasing the port are the caller's
//! work. What is decided here is what to do next: the settings to apply, the
//! step that follows each outcome, the error that an outcome stands for, and
//! the chunk that a read has delivered.

use vstd::prelude::*;
use vstd::slice::slice_subrange;

verus! {

/// The number of bits of a character on the line.
#[derive(Debug, Clone, Copy, PartialEq, Eq, Structural)]
pub enum DataBits {
    Five,
    Six,
    Seven,
    Eight,
}

/// The parity bit of a character.
#[derive(Debug, Clone, Copy, PartialEq, Eq, Structural)]
pub enum Parity {
    Off,
    Odd,
    Even,
}

/// The number of stop bits behind a character.
#[derive(Debug, Clone, Copy, PartialEq, Eq, Structural)]
pub enum StopBits {
    One,
    Two,
}

/// How the two ends hold each other back.
#[derive(Debug, Clone, Copy, PartialEq, Eq, Structural)]
pub enum FlowControl {
    Off,
    Software,
    Hardware,
}

/// The settings of a connection. They are fixed when the port is opened; to
/// change them the port is released and opened again.
#[derive(Debug, Clone, Copy, PartialEq, Eq, Structural)]
pub struct ConnectionConfig {
    /// Bits per second.
    pub baud_rate: u32,
    pub data_bits: DataBits,
    pub parity: Parity,
    pub stop_bits: StopBits,
    pub flow_control: FlowControl,
    /// How long a read waits for data, in milliseconds.
    pub read_timeout_ms: u64,
}

impl ConnectionConfig {
    /// The settings of the device: 115200 baud, eight data bits, no parity,
    /// one stop bit, no flow control, and reads that give up after a second.
    pub open spec fn standard_spec() -> ConnectionConfig {
        ConnectionConfig {
            baud_rate: 115200,
            data_bits: DataBits::Eight,
            parity: Parity::Off,
            stop_bits: StopBits::One,
            flow_control: FlowControl::Off,
            read_timeout_ms: 1000,
        }
    }

    /// The settings of the device.
    pub fn standard() -> (config: ConnectionConfig)
        ensures
            config == ConnectionConfig::standard_spec(),
    {
        ConnectionConfig {
            baud_rate: 115200,
            data_bits: DataBits::Eight,
            parity: Parity::Off,
            stop_bits: StopBits::One,
            flow_control: FlowControl::Off,
            read_timeout_ms: 1000,
        }
    }
}

/// The most bytes asked of the port in one read.
pub const READ_SIZE: usize = 255;

/// Why no connection came about.
#[derive(Debug, Clone, Copy, PartialEq, Eq, Structural)]
pub enum ConnectionError {
    /// The port could not be opened: it does not exist, is in use, or may
    /// not be used.
    OpenFailed,
    /// The port was opened but did not take the settings. It has been
    /// released.
    ConfigureFailed,
}

/// Where a connection stands.
#[derive(Debug, Clone, Copy, PartialEq, Eq, Structural)]
pub enum Phase {
    /// No port is held.
    Closed,
    /// The port is being opened. None is held yet.
    Opening,
    /// The port is held and is being given its settings.
    Configuring,
    /// The port is held and delivers data.
    Open,
}

/// What has happened to a connection.
#[derive(Debug, Clone, Copy, PartialEq, Eq, Structural)]
pub enum Event {
    /// The operator asks for a connection.
    ConnectRequested,
    /// The port has been opened.
    Opened,
    /// The port could not be opened.
    OpenRefused,
    /// The port has taken the settings.
    Configured,
    /// The port has not taken the settings.
    ConfigureRefused,
    /// The operator asks for the connection to end.
    CloseRequested,
}

/// What the caller is to do with the port.
#[derive(Debug, Clone, Copy, PartialEq, Eq, Structural)]
pub enum Action {
    /// Nothing.
    Nothing,
    /// Open the port.
    Open,
    /// Release the port held, then open the port.
    ReleaseAndOpen,
    /// Give the port its settings.
    Configure,
    /// Release the port held.
    Release,
    /// Tell the operator that no connection came about.
    Report(ConnectionError),
    /// Release the port held, then tell the operator that no connection
    /// came about.
    ReleaseAndReport(ConnectionError),
}

impl Phase {
    /// A port is held in this phase.
    pub open spec fn holds_port(self) -> bool {
        self == Phase::Configuring || self == Phase::Open
    }

    /// Data may be read in this phase.
    pub open spec fn delivers(self) -> bool {
        self == Phase::Open
    }
}

impl Action {
    /// The action releases the port held.
    pub open spec fn releases(self) -> bool {
        self == Action::Release || self == Action::ReleaseAndOpen
            || self is ReleaseAndReport
    }

    /// The error that the action reports, if it reports one.
    pub open spec fn reported(self) -> Option<ConnectionError> {
        match self {
            Action::Report(error) => Some(error),
            Action::ReleaseAndReport(error) => Some(error),
            _ => None,
        }
    }
}

/// The phase that follows `phase` on `event`, and what the caller is to do.
/// An event that does not belong to the phase changes nothing.
pub open spec fn next(phase: Phase, event: Event) -> (Phase, Action) {
    match (phase, event) {
        (Phase::Closed, Event::ConnectRequested) => (Phase::Opening, Action::Open),
        (Phase::Opening, Event::ConnectRequested) => (Phase::Opening, Action::Nothing),
        (Phase::Configuring, Event::ConnectRequested) => (Phase::Opening, Action::ReleaseAndOpen),
        (Phase::Open, Event::ConnectRequested) => (Phase::Opening, Action::ReleaseAndOpen),
        (Phase::Opening, Event::Opened) => (Phase::Configuring, Action::Configure),
        (Phase::Opening, Event::OpenRefused) => (
            Phase::Closed,
            Action::Report(ConnectionError::OpenFailed),
        ),
        (Phase::Configuring, Event::Configured) => (Phase::Open, Action::Nothing),
        (Phase::Configuring, Event::ConfigureRefused) => (
            Phase::Closed,
            Action::ReleaseAndReport(ConnectionError::ConfigureFailed),
        ),
        (Phase::Configuring, Event::CloseRequested) => (Phase::Closed, Action::Release),
        (Phase::Open, Event::CloseRequested) => (Phase::Closed, Action::Release),
        (Phase::Opening, Event::CloseRequested) => (Phase::Closed, Action::Nothing),
        _ => (phase, Action::Nothing),
    }
}

/// The phase that follows `phase` on `event`, and what the caller is to do.
pub fn step(phase: Phase, event: Event) -> (outcome: (Phase, Action))
    ensures
        outcome == next(phase, event),
{
    match phase {
        Phase::Closed => match event {
            Event::ConnectRequested => (Phase::Opening, Action::Open),
            _ => (phase, Action::Nothing),
        },
        Phase::Opening => match event {
            Event::Opened => (Phase::Configuring, Action::Configure),
            Event::OpenRefused => (Phase::Closed, Action::Report(ConnectionError::OpenFailed)),
            Event::CloseRequested => (Phase::Closed, Action::Nothing),
            _ => (phase, Action::Nothing),
        },
        Phase::Configuring => match event {
            Event::ConnectRequested => (Phase::Opening, Action::ReleaseAndOpen),
            Event::Configured => (Phase::Open, Action::Nothing),
            Event::ConfigureRefused => (
                Phase::Closed,
                Action::ReleaseAndReport(ConnectionError::ConfigureFailed),
            ),
            Event::CloseRequested => (Phase::Closed, Action::Release),
            _ => (phase, Action::Nothing),
        },
        Phase::Open => match event {
            Event::ConnectRequested => (Phase::Opening, Action::ReleaseAndOpen),
            Event::CloseRequested => (Phase::Closed, Action::Release),
            _ => (phase, Action::Nothing),
        },
    }
}

/// No port is leaked and none is released twice: the port is released
/// exactly on the steps that lead from a phase that holds it to one that
/// does not. Closing always ends in `Closed`, so closing twice is closing
/// once. A failure is reported exactly when an attempt to connect ends
/// without a connection, and names the step that failed.
pub proof fn lemma_port_is_accounted_for(phase: Phase, event: Event)
    ensures
        next(phase, event).1.releases() <==> phase.holds_port() && !next(
            phase,
            event,
        ).0.holds_port(),
        event == Event::CloseRequested ==> next(phase, event).0 == Phase::Closed,
        event == Event::CloseRequested ==> next(next(phase, event).0, event) == (
            Phase::Closed,
            Action::Nothing,
        ),
        next(phase, event).1.reported() == Some(ConnectionError::OpenFailed) <==> phase
            == Phase::Opening && event == Event::OpenRefused,
        next(phase, event).1.reported() == Some(ConnectionError::ConfigureFailed) <==> phase
            == Phase::Configuring && event == Event::ConfigureRefused,
        next(phase, event).0.delivers() ==> (phase == Phase::Open || (phase == Phase::Configuring
            && event == Event::Configured)),
{
}

/// The number of bytes that a read has delivered into a buffer of `room`
/// bytes: none when the read gave up or failed, else the number it reports,
/// and never more than there is room for.
pub open spec fn delivered(outcome: Option<usize>, room: nat) -> nat {
    match outcome {
        Some(count) => if count <= room {
            count as nat
        } else {
            room
        },
        None => 0,
    }
}

/// The chunk that a read into `buffer` has delivered: the first bytes of the
/// buffer, as many as the read reports.
pub open spec fn chunk_of(buffer: Seq<u8>, outcome: Option<usize>) -> Seq<u8> {
    buffer.take(delivered(outcome, buffer.len()) as int)
}

/// The chunk that a read has delivered: the first bytes of `buffer`, as many
/// as the read reports. A read that gave up or failed delivers the empty
/// chunk, which is no error.
pub fn received(buffer: &[u8], outcome: Option<usize>) -> (chunk: &[u8])
    ensures
        chunk@ == chunk_of(buffer@, outcome),
{
    let count = match outcome {
        Some(count) => if count <= buffer.len() {
            count
        } else {
            buffer.len()
        },
        None => 0,
    };
    slice_subrange(buffer, 0, count)
}

} // verus!
