//! The lifecycle controller: the startup handshake, the shutdown sequence,
//! and the classification of the child's exit status.
//!
//! Error taxonomy of the session: a spawn failure never reaches this
//! controller (the child must launch); a missing or malformed greeting is a
//! [`HandshakeError`]; protocol violations during operation surface through
//! the engine's routing; the closed channel is the engine's [`crate::engine::Eof`],
//! a normal shutdown signal; a non-clean child exit is an
//! [`ExitClass::Failure`], reported and never retried.

use vstd::prelude::*;
use vstd::string::StringSliceAdditionalSpecFns;

use crate::codec::spec_parse_line;
use crate::codec::parse_line;
use crate::msg::{Message, Val, execute_command, execute_val, get_field, key_qmp, obj_lookup};

verus! {

/// The protocol version reported in the greeting: major, minor and micro
/// numbers. Captured once at handshake, used only for diagnostics.
#[derive(Debug, PartialEq, Eq, Structural, Clone, Copy)]
pub struct Version(pub u8, pub u8, pub u8);

/// The path keys under which the greeting carries its version numbers.
pub open spec fn key_version() -> Seq<u8> {
    "version".spec_bytes()
}

pub open spec fn key_qemu() -> Seq<u8> {
    "qemu".spec_bytes()
}

pub open spec fn key_major() -> Seq<u8> {
    "major".spec_bytes()
}

pub open spec fn key_minor() -> Seq<u8> {
    "minor".spec_bytes()
}

pub open spec fn key_micro() -> Seq<u8> {
    "micro".spec_bytes()
}

/// An unsigned 8-bit integer under `key` of object `v`, if present and in
/// range.
pub open spec fn version_part(v: Val, key: Seq<u8>) -> Option<int> {
    match obj_lookup(v, key) {
        Some(Val::Int(n)) => if 0 <= n <= 255 {
            Some(n)
        } else {
            None
        },
        _ => None,
    }
}

/// The version numbers reachable in a greeting at the fixed path
/// `QMP.version.qemu.{major,minor,micro}`, each present and within unsigned
/// 8-bit range; absence or overflow of any component yields nothing.
pub open spec fn greeting_version(g: Val) -> Option<(int, int, int)> {
    match obj_lookup(g, key_qmp()) {
        Some(q) => match obj_lookup(q, key_version()) {
            Some(ver) => match obj_lookup(ver, key_qemu()) {
                Some(qe) => match (version_part(qe, key_major()), version_part(qe, key_minor()),
                    version_part(qe, key_micro())) {
                    (Some(a), Some(b), Some(c)) => Some((a, b, c)),
                    _ => None,
                },
                None => None,
            },
            None => None,
        },
        None => None,
    }
}

/// Reads one version component of the greeting: present and within unsigned
/// 8-bit range.
fn read_part(qe: &Message, key: &str) -> (r: Option<u8>)
    ensures
        match r {
            Some(n) => version_part(qe@, key.spec_bytes()) == Some(n as int),
            None => version_part(qe@, key.spec_bytes()) is None,
        },
{
    match get_field(qe, key) {
        Some(m) => match m {
            Message::Int(n) => {
                let n = *n;
                if 0 <= n && n <= 255 {
                    Some(n as u8)
                } else {
                    None
                }
            },
            _ => None,
        },
        None => None,
    }
}

impl Version {
    /// Reads the version out of a parsed greeting message; absence of any
    /// component, or a value outside the unsigned 8-bit range, is a fatal
    /// handshake error, reported as nothing here.
    pub fn from_message(g: &Message) -> (r: Option<Version>)
        ensures
            match r {
                Some(ver) => greeting_version(g@) == Some(
                    ((ver.0 as int, ver.1 as int, ver.2 as int)),
                ),
                None => greeting_version(g@) is None,
            },
    {
        match get_field(g, "QMP") {
            Some(q) => match get_field(q, "version") {
                Some(ver) => match get_field(ver, "qemu") {
                    Some(qe) => match (read_part(qe, "major"), read_part(qe, "minor"), read_part(
                        qe,
                        "micro",
                    )) {
                        (Some(a), Some(b), Some(c)) => Some(Version(a, b, c)),
                        _ => None,
                    },
                    None => None,
                },
                None => None,
            },
            None => None,
        }
    }
}

/// The raw exit status of the finished child: a normal exit code, or the
/// signal that terminated it.
#[derive(Debug, PartialEq, Eq, Structural, Clone, Copy)]
pub enum ExitStatus {
    Code(i32),
    Signal(i32),
}

/// The classification of a finished child: a clean zero exit is success;
/// anything else is a failure carrying the raw status for diagnostics.
#[derive(Debug, PartialEq, Eq, Structural, Clone, Copy)]
pub enum ExitClass {
    Success,
    Failure(ExitStatus),
}

/// Success exactly on a clean zero exit.
pub open spec fn exit_class_of(st: ExitStatus) -> ExitClass {
    if st == ExitStatus::Code(0i32) {
        ExitClass::Success
    } else {
        ExitClass::Failure(st)
    }
}

/// Classifies an exit status: success on a clean zero exit; a non-zero exit
/// or a signal termination is a failure with the raw status retrievable.
/// Failure is reported, never retried.
pub fn classify_exit(st: ExitStatus) -> (r: ExitClass)
    ensures
        r == exit_class_of(st),
        (r == ExitClass::Success) <==> (st == ExitStatus::Code(0i32)),
{
    match st {
        ExitStatus::Code(c) => if c == 0 {
            ExitClass::Success
        } else {
            ExitClass::Failure(st)
        },
        ExitStatus::Signal(_) => ExitClass::Failure(st),
    }
}

/// The phases of one session.
#[derive(Debug, PartialEq, Eq, Structural, Clone, Copy)]
pub enum Phase {
    Launching,
    Handshaking,
    Ready,
    Closing,
    Terminated,
}

/// Why the handshake failed: the stream closed before any line arrived, or
/// the first line was not a valid greeting.
#[derive(Debug, PartialEq, Eq, Structural, Clone, Copy)]
pub enum HandshakeError {
    ClosedBeforeGreeting,
    BadGreeting,
}

/// The lifecycle controller: Launching, then Handshaking once the transport
/// spawned, Ready once the greeting was read and the capability negotiation
/// answered, Closing once the stream went down, Terminated once the child's
/// exit status is in hand.
pub struct Lifecycle {
    pub phase: Phase,
    pub version: Option<Version>,
    pub exit: Option<ExitClass>,
}

impl Lifecycle {
    /// A session about to spawn its child.
    pub fn new() -> (c: Lifecycle)
        ensures
            c.phase == Phase::Launching,
            c.version is None,
            c.exit is None,
    {
        Lifecycle { phase: Phase::Launching, version: None, exit: None }
    }

    /// The transport spawned successfully: the handshake begins.
    pub fn on_spawned(&mut self)
        requires
            old(self).phase == Phase::Launching,
        ensures
            final(self).phase == Phase::Handshaking,
            final(self).version == old(self).version,
            final(self).exit == old(self).exit,
    {
        self.phase = Phase::Handshaking;
    }

    /// Handles the first inbound line. A valid greeting — parseable and
    /// carrying in-range version numbers at the fixed path — yields the
    /// version, and the controller stays in Handshaking awaiting the
    /// capability-negotiation reply. Any other first line is a handshake
    /// failure: the session moves to Closing to await the child's exit.
    pub fn on_greeting_line(&mut self, line: &Vec<u8>) -> (r: Result<Version, HandshakeError>)
        requires
            old(self).phase == Phase::Handshaking,
        ensures
            final(self).exit == old(self).exit,
            match r {
                Ok(ver) => {
                    &&& (match spec_parse_line(line@) {
                        Some(g) => greeting_version(g) == Some(
                            ((ver.0 as int, ver.1 as int, ver.2 as int)),
                        ),
                        None => false,
                    })
                    &&& final(self).phase == Phase::Handshaking
                    &&& final(self).version == Some(ver)
                },
                Err(e) => {
                    &&& e == HandshakeError::BadGreeting
                    &&& (match spec_parse_line(line@) {
                        Some(g) => greeting_version(g) is None,
                        None => true,
                    })
                    &&& final(self).phase == Phase::Closing
                    &&& final(self).version == old(self).version
                },
            },
    {
        match parse_line(line) {
            Some(g) => match Version::from_message(&g) {
                Some(ver) => {
                    self.version = Some(ver);
                    Ok(ver)
                },
                None => {
                    self.phase = Phase::Closing;
                    Err(HandshakeError::BadGreeting)
                },
            },
            None => {
                self.phase = Phase::Closing;
                Err(HandshakeError::BadGreeting)
            },
        }
    }

    /// The stream closed before any line arrived: a handshake failure; the
    /// session awaits the child's exit.
    pub fn on_eos_before_greeting(&mut self) -> (r: HandshakeError)
        requires
            old(self).phase == Phase::Handshaking,
        ensures
            r == HandshakeError::ClosedBeforeGreeting,
            final(self).phase == Phase::Closing,
            final(self).version == old(self).version,
            final(self).exit == old(self).exit,
    {
        self.phase = Phase::Closing;
        HandshakeError::ClosedBeforeGreeting
    }

    /// The fixed capability-negotiation command, submitted once, immediately
    /// after the greeting.
    pub fn capabilities_command() -> (m: Message)
        ensures
            m@ == execute_val("qmp_capabilities".spec_bytes()),
    {
        execute_command("qmp_capabilities")
    }

    /// The capability-negotiation reply arrived: the session is Ready.
    pub fn on_capabilities_reply(&mut self)
        requires
            old(self).phase == Phase::Handshaking,
            old(self).version is Some,
        ensures
            final(self).phase == Phase::Ready,
            final(self).version == old(self).version,
            final(self).exit == old(self).exit,
    {
        self.phase = Phase::Ready;
    }

    /// End of stream in the Ready phase — observed by the engine, or brought
    /// about by an explicit shutdown request: the session closes and awaits
    /// the child's exit.
    pub fn on_closed(&mut self)
        requires
            old(self).phase == Phase::Ready,
        ensures
            final(self).phase == Phase::Closing,
            final(self).version == old(self).version,
            final(self).exit == old(self).exit,
    {
        self.phase = Phase::Closing;
    }

    /// The terminate command for an explicit shutdown request; closure is
    /// then observed as on any other end of stream.
    pub fn quit_command() -> (m: Message)
        ensures
            m@ == execute_val("quit".spec_bytes()),
    {
        execute_command("quit")
    }

    /// The child's exit status is in hand: the session terminates, with the
    /// status classified as success exactly on a clean zero exit.
    pub fn on_exit(&mut self, st: ExitStatus)
        requires
            old(self).phase == Phase::Closing,
        ensures
            final(self).phase == Phase::Terminated,
            final(self).exit == Some(exit_class_of(st)),
            (final(self).exit == Some(ExitClass::Success)) <==> (st == ExitStatus::Code(0i32)),
            final(self).version == old(self).version,
    {
        self.phase = Phase::Terminated;
        self.exit = Some(classify_exit(st));
    }

    /// The final exit classification, once Terminated.
    pub fn exit_class(&self) -> (r: Option<ExitClass>)
        ensures
            r == self.exit,
    {
        self.exit
    }
}

} // verus!
