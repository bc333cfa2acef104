//! Device-side data model and the device session's decisions.
//!
//! The session owns the frame decoder, the outgoing sequence number and the
//! current mode. It never touches a transport: the caller writes the frames it
//! returns and hands it the bytes that were read.

use vstd::prelude::*;
use vstd::string::StringExecFns;
use crate::codec::{decode_all, encode_frame, FrameView, ProtocolParser, RawFrame};
use crate::text::{ascii_chars, dec_bytes, push_decimal_chars};

verus! {

#[derive(Debug, Clone, Copy, PartialEq, Eq, Structural)]
pub enum ConnectionType {
    Serial,
    Socket,
}

/// Where the device is reached.
#[derive(Debug, Clone)]
pub struct DeviceConfig {
    pub connection_type: ConnectionType,
    pub serial_port: Option<String>,
    pub socket_address: Option<String>,
    pub baud_rate: u32,
}

/// How the samples of a packet were captured.
#[derive(Debug, Clone, Copy, PartialEq, Eq, Structural)]
pub enum DataType {
    Continuous,
    Trigger { trigger_timestamp: u32, is_complete: bool },
}

/// One block of samples as the device sent it.
#[derive(Debug, Clone)]
pub struct DataPacket {
    pub timestamp_ms: u32,
    /// Bit `k` set: channel `k` is present, in ascending bit order.
    pub enabled_channels: u16,
    /// Samples per enabled channel.
    pub sample_count: u16,
    /// Non-interleaved little-endian `i16` samples, channel after channel.
    pub sensor_data: Vec<u8>,
    pub data_type: DataType,
}

/// A device-side trigger; the packets of its burst follow.
#[derive(Debug, Clone, Copy, PartialEq, Eq, Structural)]
pub struct TriggerEvent {
    pub timestamp: u32,
    pub channel: u16,
    pub pre_samples: u32,
    pub post_samples: u32,
}


/// What the session knows of the device.
#[derive(Debug, Clone)]
pub struct DeviceStatus {
    pub connected: bool,
    pub device_id: Option<u64>,
    pub firmware_version: Option<u16>,
    pub mode: Option<String>,
    pub stream_active: bool,
}

impl DeviceStatus {
    pub fn copy(&self) -> (r: Self)
        ensures
            r.connected == self.connected,
            r.device_id == self.device_id,
            r.firmware_version == self.firmware_version,
            r.stream_active == self.stream_active,
            r.mode is Some <==> self.mode is Some,
            self.mode matches Some(m) ==> (r.mode matches Some(n) && n@ == m@),
    {
        DeviceStatus {
            connected: self.connected,
            device_id: self.device_id,
            firmware_version: self.firmware_version,
            mode: match &self.mode {
                Some(m) => Some(m.clone()),
                None => None,
            },
            stream_active: self.stream_active,
        }
    }
}

/// Sampling configuration of one channel.
#[derive(Debug, Clone, Copy, PartialEq, Eq, Structural)]
pub struct ChannelConfig {
    pub channel_id: u8,
    pub sample_rate: u32,
    pub format: u8,
}

/// Commands the control surface sends to the device.
#[derive(Debug, Clone)]
pub enum DeviceCommand {
    Ping,
    GetDeviceInfo,
    SetModeContinuous,
    SetModeTrigger,
    StartStream,
    StopStream,
    ConfigureStream { channels: Vec<ChannelConfig> },
    RequestBufferedData,
}

/// What the session reports to the rest of the gateway.
#[derive(Debug, Clone)]
pub enum DeviceEvent {
    Connected(String),
    Disconnected,
    FrameReceived(RawFrame),
    DataPacket(DataPacket),
    StatusUpdate(DeviceStatus),
    TriggerEvent(TriggerEvent),
    BufferTransferComplete,
    LogMessage { level: u8, message: String },
    Error(String),
}

pub const CMD_PING: u8 = 0x01;
pub const CMD_GET_DEVICE_INFO: u8 = 0x03;
pub const CMD_SET_MODE_CONTINUOUS: u8 = 0x10;
pub const CMD_SET_MODE_TRIGGER: u8 = 0x11;
pub const CMD_START_STREAM: u8 = 0x12;
pub const CMD_STOP_STREAM: u8 = 0x13;
pub const CMD_CONFIGURE_STREAM: u8 = 0x14;
pub const CMD_REQUEST_BUFFERED_DATA: u8 = 0x42;

pub const FRAME_PONG: u8 = 0x81;
pub const FRAME_DEVICE_INFO: u8 = 0x83;
pub const FRAME_DATA_PACKET: u8 = 0x40;
pub const FRAME_TRIGGER_EVENT: u8 = 0x41;
pub const FRAME_BUFFER_TRANSFER_COMPLETE: u8 = 0x4F;
pub const FRAME_ACK: u8 = 0x90;
pub const FRAME_NACK: u8 = 0x91;
pub const FRAME_LOG_MESSAGE: u8 = 0xE0;

/// Most channels a `ConfigureStream` payload can count in its one-byte header.
pub const MAX_CONFIGURED_CHANNELS: usize = 255;

/// Little-endian value of `k` bytes of `s` starting at `i`.
pub open spec fn le_value(s: Seq<u8>, i: int, k: nat) -> nat
    decreases k,
{
    if k == 0 {
        0
    } else {
        s[i] as nat + 256 * le_value(s, i + 1, (k - 1) as nat)
    }
}

pub open spec fn le32_bytes(v: u32) -> Seq<u8> {
    seq![(v % 256) as u8, (v / 256 % 256) as u8, (v / 65536 % 256) as u8, (v / 16777216) as u8]
}

/// Id, rate and format of each channel, back to back.
pub open spec fn channel_entries(channels: Seq<ChannelConfig>) -> Seq<u8>
    decreases channels.len(),
{
    if channels.len() == 0 {
        Seq::empty()
    } else {
        let c = channels.last();
        channel_entries(channels.drop_last()) + seq![c.channel_id] + le32_bytes(c.sample_rate) + seq![
            c.format,
        ]
    }
}

/// The payload of `ConfigureStream`: the channel count, then the entries.
pub open spec fn configure_payload(channels: Seq<ChannelConfig>) -> Seq<u8> {
    seq![channels.len() as u8] + channel_entries(channels)
}

/// Relies on `String::from_utf8_lossy`: the text of the bytes, invalid
/// sequences replaced. Its result depends on the bytes alone.
pub uninterp spec fn lossy_text(b: Seq<u8>) -> Seq<char>;

#[verifier::external_body]
fn utf8_lossy(b: &[u8]) -> (r: String)
    ensures
        r@ == lossy_text(b@),
{
    String::from_utf8_lossy(b).to_string()
}

pub open spec fn nack_message(error_type: u8, code: u8) -> Seq<char> {
    if error_type == 1 && code == 1 {
        "Parameter error: invalid parameter"@
    } else if error_type == 1 && code == 2 {
        "Parameter error: invalid channel configuration"@
    } else if error_type == 2 && code == 1 {
        "Status error: invalid mode for operation"@
    } else if error_type == 2 && code == 2 {
        "Status error: trigger not occurred"@
    } else if error_type == 5 && code == 0 {
        "Command not supported"@
    } else {
        "Unknown error: type="@ + ascii_chars(dec_bytes(error_type as nat)) + ", code="@ + ascii_chars(
            dec_bytes(code as nat),
        )
    }
}

/// Human-readable text of a device Nack.
pub fn nack_error_message(error_type: u8, code: u8) -> (r: String)
    ensures
        r@ == nack_message(error_type, code),
{
    if error_type == 1 && code == 1 {
        String::from_str("Parameter error: invalid parameter")
    } else if error_type == 1 && code == 2 {
        String::from_str("Parameter error: invalid channel configuration")
    } else if error_type == 2 && code == 1 {
        String::from_str("Status error: invalid mode for operation")
    } else if error_type == 2 && code == 2 {
        String::from_str("Status error: trigger not occurred")
    } else if error_type == 5 && code == 0 {
        String::from_str("Command not supported")
    } else {
        let mut s = String::from_str("Unknown error: type=");
        push_decimal_chars(&mut s, error_type as u64);
        s.append(", code=");
        push_decimal_chars(&mut s, code as u64);
        s
    }
}


fn read_le(s: &Vec<u8>, i: usize, k: usize) -> (r: u64)
    requires
        i + k <= s.len(),
        k <= 8,
    ensures
        r as nat == le_value(s@, i as int, k as nat),
    decreases k,
{
    if k == 0 {
        0
    } else {
        let rest = read_le(s, i + 1, k - 1);
        proof {
            lemma_le_value_bound(s@, i as int + 1, (k - 1) as nat);
            vstd::arithmetic::power2::lemma2_to64();
        }
        assert(rest < 72057594037927936) by {
            lemma_le_value_bound(s@, i as int + 1, (k - 1) as nat);
            assert(pow256((k - 1) as nat) <= 72057594037927936) by {
                lemma_pow256_bound((k - 1) as nat);
            }
        }
        s[i] as u64 + 256 * rest
    }
}

pub open spec fn pow256(k: nat) -> nat
    decreases k,
{
    if k == 0 {
        1
    } else {
        256 * pow256((k - 1) as nat)
    }
}

proof fn lemma_pow256_bound(k: nat)
    requires
        k <= 7,
    ensures
        pow256(k) <= 72057594037927936,
{
    reveal_with_fuel(pow256, 8);
}

proof fn lemma_le_value_bound(s: Seq<u8>, i: int, k: nat)
    ensures
        le_value(s, i, k) < pow256(k),
    decreases k,
{
    if k > 0 {
        lemma_le_value_bound(s, i + 1, (k - 1) as nat);
        assert(s[i] as nat + 256 * le_value(s, i + 1, (k - 1) as nat) < 256 * pow256((k - 1) as nat)) by (nonlinear_arith)
            requires
                (s[i] as nat) < 256,
                le_value(s, i + 1, (k - 1) as nat) < pow256((k - 1) as nat),
        ;
    }
}

/// The device mode as the session labels it.
pub struct ModeSnapshot {
    pub trigger_active: bool,
    pub current_trigger: Option<TriggerEvent>,
    pub mode: Option<String>,
}

/// A frame ready to be written, with what to restore if the write fails.
pub struct OutgoingCommand {
    pub command_id: u8,
    pub sequence: u8,
    pub payload: Vec<u8>,
    pub frame: Vec<u8>,
    pub rollback: Option<ModeSnapshot>,
}

/// Command id and payload of `cmd`; `None` when nothing is to be sent.
pub open spec fn command_wire(cmd: DeviceCommand, trigger_active: bool) -> Option<(u8, Seq<u8>)> {
    match cmd {
        DeviceCommand::Ping => Some((CMD_PING, Seq::empty())),
        DeviceCommand::GetDeviceInfo => Some((CMD_GET_DEVICE_INFO, Seq::empty())),
        DeviceCommand::SetModeContinuous => Some((CMD_SET_MODE_CONTINUOUS, Seq::empty())),
        DeviceCommand::SetModeTrigger => Some((CMD_SET_MODE_TRIGGER, Seq::empty())),
        DeviceCommand::StartStream => Some((CMD_START_STREAM, Seq::empty())),
        DeviceCommand::StopStream => Some((CMD_STOP_STREAM, Seq::empty())),
        DeviceCommand::ConfigureStream { channels } => if channels@.len() <= MAX_CONFIGURED_CHANNELS {
            Some((CMD_CONFIGURE_STREAM, configure_payload(channels@)))
        } else {
            None
        },
        DeviceCommand::RequestBufferedData => if trigger_active {
            Some((CMD_REQUEST_BUFFERED_DATA, Seq::empty()))
        } else {
            None
        },
    }
}

/// The device session: frame decoder, outgoing sequence number and mode.
pub struct DeviceSession {
    pub parser: ProtocolParser,
    pub status: DeviceStatus,
    /// Sequence byte of the next outgoing frame; wraps mod 256.
    pub seq: u8,
    pub trigger_active: bool,
    pub current_trigger: Option<TriggerEvent>,
}

/// The events that carry received frames, in order.
pub open spec fn received_frames(events: Seq<DeviceEvent>) -> Seq<FrameView>
    decreases events.len(),
{
    if events.len() == 0 {
        Seq::empty()
    } else {
        received_frames(events.drop_last()) + match events.last() {
            DeviceEvent::FrameReceived(f) => seq![f@],
            _ => Seq::empty(),
        }
    }
}

proof fn lemma_received_concat(a: Seq<DeviceEvent>, b: Seq<DeviceEvent>)
    ensures
        received_frames(a + b) == received_frames(a) + received_frames(b),
    decreases b.len(),
{
    if b.len() == 0 {
        assert(a + b =~= a);
        assert(received_frames(a) + received_frames(b) =~= received_frames(a));
    } else {
        lemma_received_concat(a, b.drop_last());
        assert((a + b).drop_last() =~= a + b.drop_last());
        assert(received_frames(a) + received_frames(b.drop_last()) + match b.last() {
            DeviceEvent::FrameReceived(f) => seq![f@],
            _ => Seq::<FrameView>::empty(),
        } =~= received_frames(a) + received_frames(b));
    }
}

fn push_events(out: &mut Vec<DeviceEvent>, more: Vec<DeviceEvent>)
    ensures
        final(out)@ == old(out)@ + more@,
{
    let mut more = more;
    out.append(&mut more);
}

impl DeviceSession {
    pub fn new() -> (r: Self)
        ensures
            r.pending_bytes() == Seq::<u8>::empty(),
            r.seq == 0,
            !r.trigger_active,
            r.current_trigger is None,
            !r.status.connected,
            r.status.device_id is None,
            r.status.firmware_version is None,
            r.status.mode is None,
            !r.status.stream_active,
    {
        DeviceSession {
            parser: ProtocolParser::new(),
            status: DeviceStatus {
                connected: false,
                device_id: None,
                firmware_version: None,
                mode: None,
                stream_active: false,
            },
            seq: 0,
            trigger_active: false,
            current_trigger: None,
        }
    }

    /// Bytes received but not yet parsed into a frame.
    pub open spec fn pending_bytes(&self) -> Seq<u8> {
        self.parser.pending()
    }

    /// Marks the link up and returns the event and the initial `Ping`.
    pub fn on_connected(&mut self, connection_name: &str) -> (r: (DeviceEvent, OutgoingCommand))
        ensures
            final(self).status.connected,
            final(self).status.device_id == old(self).status.device_id,
            final(self).status.firmware_version == old(self).status.firmware_version,
            final(self).status.mode == old(self).status.mode,
            final(self).status.stream_active == old(self).status.stream_active,
            final(self).seq == old(self).seq,
            final(self).trigger_active == old(self).trigger_active,
            final(self).current_trigger == old(self).current_trigger,
            final(self).pending_bytes() == old(self).pending_bytes(),
            r.0 matches DeviceEvent::Connected(s) && s@ == connection_name@,
            r.1.command_id == CMD_PING,
            r.1.sequence == old(self).seq,
            r.1.frame@ == encode_frame(CMD_PING, old(self).seq, Seq::empty()),
            r.1.rollback is None,
    {
        self.status.connected = true;
        let payload: Vec<u8> = Vec::new();
        let frame = ProtocolParser::build_frame(CMD_PING, self.seq, payload.as_slice());
        (
            DeviceEvent::Connected(String::from_str(connection_name)),
            OutgoingCommand { command_id: CMD_PING, sequence: self.seq, payload, frame, rollback: None },
        )
    }

    /// Marks the link down.
    pub fn on_disconnected(&mut self) -> (r: DeviceEvent)
        ensures
            !final(self).status.connected,
            final(self).status.device_id == old(self).status.device_id,
            final(self).status.firmware_version == old(self).status.firmware_version,
            final(self).status.mode == old(self).status.mode,
            final(self).status.stream_active == old(self).status.stream_active,
            final(self).seq == old(self).seq,
            final(self).trigger_active == old(self).trigger_active,
            final(self).current_trigger == old(self).current_trigger,
            final(self).pending_bytes() == old(self).pending_bytes(),
            r is Disconnected,
    {
        self.status.connected = false;
        DeviceEvent::Disconnected
    }

    fn snapshot(&self) -> (r: ModeSnapshot)
        ensures
            r.trigger_active == self.trigger_active,
            r.current_trigger == self.current_trigger,
            r.mode is Some <==> self.status.mode is Some,
            self.status.mode matches Some(m) ==> (r.mode matches Some(n) && n@ == m@),
    {
        ModeSnapshot {
            trigger_active: self.trigger_active,
            current_trigger: self.current_trigger,
            mode: match &self.status.mode {
                Some(m) => Some(m.clone()),
                None => None,
            },
        }
    }

    /// Applies the local effect of `cmd` and returns the frame to write, if any.
    /// A mode change takes effect here and is undone by `command_written` when
    /// the write fails.
    pub fn handle_command(&mut self, cmd: &DeviceCommand) -> (r: Option<OutgoingCommand>)
        ensures
            final(self).seq == old(self).seq,
            final(self).pending_bytes() == old(self).pending_bytes(),
            final(self).status.connected == old(self).status.connected,
            final(self).status.device_id == old(self).status.device_id,
            final(self).status.firmware_version == old(self).status.firmware_version,
            r is Some <==> command_wire(*cmd, old(self).trigger_active) is Some,
            r matches Some(o) ==> ({
                let w = command_wire(*cmd, old(self).trigger_active)->0;
                &&& o.command_id == w.0
                &&& o.payload@ == w.1
                &&& o.sequence == old(self).seq
                &&& o.frame@ == encode_frame(w.0, old(self).seq, w.1)
            }),
            match *cmd {
                DeviceCommand::SetModeContinuous => !final(self).trigger_active && final(self).current_trigger is None
                    && (final(self).status.mode matches Some(m) && m@ == "continuous"@),
                DeviceCommand::SetModeTrigger => final(self).trigger_active && final(self).current_trigger is None
                    && (final(self).status.mode matches Some(m) && m@ == "trigger"@),
                _ => final(self).trigger_active == old(self).trigger_active && final(self).current_trigger
                    == old(self).current_trigger && final(self).status.mode == old(self).status.mode,
            },
            match *cmd {
                DeviceCommand::StartStream => final(self).status.stream_active,
                DeviceCommand::StopStream => !final(self).status.stream_active,
                _ => final(self).status.stream_active == old(self).status.stream_active,
            },
            (*cmd is SetModeContinuous || *cmd is SetModeTrigger) ==> (r matches Some(o) && o.rollback is Some),
            !(*cmd is SetModeContinuous || *cmd is SetModeTrigger) ==> (r matches Some(o) ==> o.rollback is None),
            r matches Some(o) ==> (o.rollback matches Some(snap) ==> (snap.trigger_active == old(
                self,
            ).trigger_active && snap.current_trigger == old(self).current_trigger && (snap.mode is Some
                <==> old(self).status.mode is Some) && (old(self).status.mode matches Some(m) ==> (
            snap.mode matches Some(n) && n@ == m@)))),
    {
        let mut payload: Vec<u8> = Vec::new();
        let mut rollback: Option<ModeSnapshot> = None;
        let command_id: u8 = match cmd {
            DeviceCommand::Ping => CMD_PING,
            DeviceCommand::GetDeviceInfo => CMD_GET_DEVICE_INFO,
            DeviceCommand::SetModeContinuous => {
                rollback = Some(self.snapshot());
                self.trigger_active = false;
                self.current_trigger = None;
                self.status.mode = Some(String::from_str("continuous"));
                CMD_SET_MODE_CONTINUOUS
            },
            DeviceCommand::SetModeTrigger => {
                rollback = Some(self.snapshot());
                self.trigger_active = true;
                self.current_trigger = None;
                self.status.mode = Some(String::from_str("trigger"));
                CMD_SET_MODE_TRIGGER
            },
            DeviceCommand::StartStream => {
                self.status.stream_active = true;
                CMD_START_STREAM
            },
            DeviceCommand::StopStream => {
                self.status.stream_active = false;
                CMD_STOP_STREAM
            },
            DeviceCommand::ConfigureStream { channels } => {
                if channels.len() > MAX_CONFIGURED_CHANNELS {
                    return None;
                }
                payload = encode_channel_configs(channels);
                CMD_CONFIGURE_STREAM
            },
            DeviceCommand::RequestBufferedData => {
                if !self.trigger_active {
                    return None;
                }
                CMD_REQUEST_BUFFERED_DATA
            },
        };
        let frame = ProtocolParser::build_frame(command_id, self.seq, payload.as_slice());
        Some(OutgoingCommand { command_id, sequence: self.seq, payload, frame, rollback })
    }

    /// Records the outcome of writing `out`: a written frame advances the
    /// sequence number; a failed one leaves it and undoes a mode change.
    pub fn command_written(&mut self, out: OutgoingCommand, written: bool)
        ensures
            final(self).pending_bytes() == old(self).pending_bytes(),
            final(self).status.connected == old(self).status.connected,
            final(self).status.stream_active == old(self).status.stream_active,
            final(self).status.device_id == old(self).status.device_id,
            final(self).status.firmware_version == old(self).status.firmware_version,
            written ==> final(self).seq == (old(self).seq + 1) % 256 && final(self).trigger_active == old(
                self,
            ).trigger_active && final(self).current_trigger == old(self).current_trigger
                && final(self).status.mode == old(self).status.mode,
            !written ==> final(self).seq == old(self).seq,
            !written && out.rollback is None ==> final(self).trigger_active == old(self).trigger_active
                && final(self).current_trigger == old(self).current_trigger && final(self).status.mode
                == old(self).status.mode,
            !written && out.rollback is Some ==> final(self).trigger_active == out.rollback->0.trigger_active
                && final(self).current_trigger == out.rollback->0.current_trigger && final(self).status.mode
                == out.rollback->0.mode,
    {
        if written {
            self.seq = self.seq.wrapping_add(1);
        } else {
            match out.rollback {
                Some(snap) => {
                    self.trigger_active = snap.trigger_active;
                    self.current_trigger = snap.current_trigger;
                    self.status.mode = snap.mode;
                },
                None => {},
            }
        }
    }
}

/// The `ConfigureStream` payload for `channels`.
pub fn encode_channel_configs(channels: &Vec<ChannelConfig>) -> (r: Vec<u8>)
    requires
        channels@.len() <= MAX_CONFIGURED_CHANNELS,
    ensures
        r@ == configure_payload(channels@),
        r@.len() == 1 + 6 * channels@.len(),
{
    let mut out: Vec<u8> = Vec::new();
    out.push(channels.len() as u8);
    let mut i: usize = 0;
    while i < channels.len()
        invariant
            i <= channels@.len() <= MAX_CONFIGURED_CHANNELS,
            out@ == seq![channels@.len() as u8] + channel_entries(channels@.subrange(0, i as int)),
            out@.len() == 1 + 6 * i,
        decreases channels@.len() - i,
    {
        let c = channels[i];
        out.push(c.channel_id);
        out.push((c.sample_rate % 256) as u8);
        out.push((c.sample_rate / 256 % 256) as u8);
        out.push((c.sample_rate / 65536 % 256) as u8);
        out.push((c.sample_rate / 16777216) as u8);
        out.push(c.format);
        assert(channels@.subrange(0, i + 1).drop_last() =~= channels@.subrange(0, i as int));
        i = i + 1;
        assert(out@ =~= seq![channels@.len() as u8] + channel_entries(channels@.subrange(0, i as int)));
    }
    assert(channels@.subrange(0, channels@.len() as int) =~= channels@);
    out
}


/// The label a data packet gets from the session's mode.
pub open spec fn packet_label(trigger_active: bool, current: Option<TriggerEvent>) -> DataType {
    if trigger_active && current is Some {
        DataType::Trigger { trigger_timestamp: current->0.timestamp, is_complete: false }
    } else {
        DataType::Continuous
    }
}

/// The trigger event carried by a `TriggerEvent` frame payload.
pub open spec fn trigger_of(p: Seq<u8>) -> TriggerEvent {
    TriggerEvent {
        timestamp: le_value(p, 0, 4) as u32,
        channel: le_value(p, 4, 2) as u16,
        pre_samples: le_value(p, 6, 4) as u32,
        post_samples: le_value(p, 10, 4) as u32,
    }
}

/// `st` reports the session status `s`.
pub open spec fn reports(st: DeviceStatus, s: DeviceStatus) -> bool {
    &&& st.connected == s.connected
    &&& st.device_id == s.device_id
    &&& st.firmware_version == s.firmware_version
    &&& st.stream_active == s.stream_active
    &&& (st.mode is Some <==> s.mode is Some)
    &&& (s.mode matches Some(m) ==> (st.mode matches Some(n) && n@ == m@))
}

/// What handling frame `f` does: the session goes from `s0` to `s1` and
/// the events `r` come out, the frame itself last.
#[verifier::opaque]
pub open spec fn frame_handled(s0: DeviceSession, f: FrameView, s1: DeviceSession, r: Seq<DeviceEvent>) -> bool {
    &&& s1.seq == s0.seq
    &&& s1.trigger_active == s0.trigger_active
    &&& s1.pending_bytes() == s0.pending_bytes()
    &&& s1.status.connected == s0.status.connected
    &&& s1.status.stream_active == s0.status.stream_active
    &&& s1.status.mode == s0.status.mode
    &&& r.len() >= 1
    &&& r.last() matches DeviceEvent::FrameReceived(g) && g@ == f
    &&& received_frames(r) == seq![f]
    &&& ({
        let p = f.payload;
        let n = p.len();
        &&& s1.status.device_id == if f.command_id == FRAME_PONG && n >= 8 {
            Some(le_value(p, 0, 8) as u64)
        } else {
            s0.status.device_id
        }
        &&& s1.status.firmware_version == if f.command_id == FRAME_DEVICE_INFO && n >= 3 {
            Some(le_value(p, 1, 2) as u16)
        } else {
            s0.status.firmware_version
        }
        &&& s1.current_trigger == if f.command_id == FRAME_TRIGGER_EVENT && n >= 14 {
            Some(trigger_of(p))
        } else {
            s0.current_trigger
        }
        &&& (f.command_id == FRAME_PONG || f.command_id == FRAME_DEVICE_INFO) ==> r.len() == 2
            && (r[0] matches DeviceEvent::StatusUpdate(st) && reports(st, s1.status))
        &&& f.command_id == FRAME_DATA_PACKET ==> if n >= 8 {
            r.len() == 2 && (r[0] matches DeviceEvent::DataPacket(pk) && pk.timestamp_ms
                == le_value(p, 0, 4) as u32 && pk.enabled_channels == le_value(p, 4, 2) as u16
                && pk.sample_count == le_value(p, 6, 2) as u16 && pk.sensor_data@ == p.subrange(
                8,
                n as int,
            ) && pk.data_type == packet_label(s0.trigger_active, s0.current_trigger))
        } else {
            r.len() == 1
        }
        &&& f.command_id == FRAME_TRIGGER_EVENT ==> if n >= 14 {
            r.len() == 2 && (r[0] matches DeviceEvent::TriggerEvent(e) && e == trigger_of(p))
        } else {
            r.len() == 1
        }
        &&& f.command_id == FRAME_BUFFER_TRANSFER_COMPLETE ==> r.len() == 2
            && r[0] is BufferTransferComplete
        &&& f.command_id == FRAME_NACK ==> if n >= 2 {
            r.len() == 2 && (r[0] matches DeviceEvent::Error(m) && m@ == nack_message(p[0], p[1]))
        } else {
            r.len() == 1
        }
        &&& f.command_id == FRAME_LOG_MESSAGE ==> if n >= 2 && n >= 2 + p[1] {
            r.len() == 2 && (r[0] matches DeviceEvent::LogMessage { level, message } && level
                == p[0] && message@ == lossy_text(p.subrange(2, 2 + p[1])))
        } else {
            r.len() == 1
        }
        &&& (f.command_id != FRAME_PONG && f.command_id != FRAME_DEVICE_INFO && f.command_id
            != FRAME_DATA_PACKET && f.command_id != FRAME_TRIGGER_EVENT && f.command_id
            != FRAME_BUFFER_TRANSFER_COMPLETE && f.command_id != FRAME_NACK && f.command_id
            != FRAME_LOG_MESSAGE) ==> r.len() == 1
    })
}

impl DeviceSession {
    /// Acts on one received frame and returns the events it gives, the
    /// frame itself last.
    pub fn handle_frame(&mut self, f: RawFrame) -> (r: Vec<DeviceEvent>)
        ensures
            frame_handled(*old(self), f@, *final(self), r@),
            final(self).pending_bytes() == old(self).pending_bytes(),
            received_frames(r@) == seq![f@],
    {
        proof {
            reveal(frame_handled);
        }
        let mut events: Vec<DeviceEvent> = Vec::new();
        let n = f.payload.len();
        let id = f.command_id;
        if id == FRAME_PONG {
            if n >= 8 {
                self.status.device_id = Some(read_le(&f.payload, 0, 8));
            }
            events.push(DeviceEvent::StatusUpdate(self.status.copy()));
        } else if id == FRAME_DEVICE_INFO {
            if n >= 3 {
                self.status.firmware_version = Some(read_le(&f.payload, 1, 2) as u16);
            }
            events.push(DeviceEvent::StatusUpdate(self.status.copy()));
        } else if id == FRAME_DATA_PACKET {
            if n >= 8 {
                let ts = read_le(&f.payload, 0, 4) as u32;
                let mask = read_le(&f.payload, 4, 2) as u16;
                let count = read_le(&f.payload, 6, 2) as u16;
                let mut data: Vec<u8> = Vec::new();
                let mut i: usize = 8;
                while i < n
                    invariant
                        8 <= i <= n,
                        n == f.payload@.len(),
                        data@ == f.payload@.subrange(8, i as int),
                    decreases n - i,
                {
                    data.push(f.payload[i]);
                    i = i + 1;
                    assert(data@ =~= f.payload@.subrange(8, i as int));
                }
                let data_type = match self.current_trigger {
                    Some(t) => if self.trigger_active {
                        DataType::Trigger { trigger_timestamp: t.timestamp, is_complete: false }
                    } else {
                        DataType::Continuous
                    },
                    None => DataType::Continuous,
                };
                events.push(
                    DeviceEvent::DataPacket(
                        DataPacket {
                            timestamp_ms: ts,
                            enabled_channels: mask,
                            sample_count: count,
                            sensor_data: data,
                            data_type,
                        },
                    ),
                );
            }
        } else if id == FRAME_TRIGGER_EVENT {
            if n >= 14 {
                let e = TriggerEvent {
                    timestamp: read_le(&f.payload, 0, 4) as u32,
                    channel: read_le(&f.payload, 4, 2) as u16,
                    pre_samples: read_le(&f.payload, 6, 4) as u32,
                    post_samples: read_le(&f.payload, 10, 4) as u32,
                };
                self.current_trigger = Some(e);
                events.push(DeviceEvent::TriggerEvent(e));
            }
        } else if id == FRAME_BUFFER_TRANSFER_COMPLETE {
            events.push(DeviceEvent::BufferTransferComplete);
        } else if id == FRAME_NACK {
            if n >= 2 {
                events.push(DeviceEvent::Error(nack_error_message(f.payload[0], f.payload[1])));
            }
        } else if id == FRAME_LOG_MESSAGE {
            if n >= 2 {
                let level = f.payload[0];
                let len = f.payload[1] as usize;
                if n >= 2 + len {
                    let text = utf8_lossy(slice_range(f.payload.as_slice(), 2, 2 + len));
                    events.push(DeviceEvent::LogMessage { level, message: text });
                }
            }
        }
        let ghost fv = f@;
        let ghost before = events@;
        assert(before.len() <= 1 && (before.len() == 1 ==> !(before[0] is FrameReceived)));
        events.push(DeviceEvent::FrameReceived(f));
        proof {
            assert(events@.drop_last() == before);
            assert(received_frames(before) =~= Seq::<FrameView>::empty()) by {
                if before.len() == 1 {
                    assert(before.drop_last() =~= Seq::<DeviceEvent>::empty());
                    assert(received_frames(before.drop_last()) =~= Seq::<FrameView>::empty());
                    assert(before.last() == before[0]);
                } else {
                    assert(before =~= Seq::<DeviceEvent>::empty());
                }
            }
            assert(received_frames(events@) =~= seq![fv]);
        }
        events
    }

    /// Takes in bytes read from the link and acts on every frame they
    /// complete, in order; the events of all frames come out in that order.
    pub fn process_bytes(&mut self, data: &[u8]) -> (r: Vec<DeviceEvent>)
        requires
            old(self).pending_bytes().len() + data@.len() <= isize::MAX,
        ensures
            final(self).pending_bytes() == decode_all(old(self).pending_bytes() + data@).rest,
            received_frames(r@) == decode_all(old(self).pending_bytes() + data@).frames,
            exists|states: Seq<DeviceSession>, chunks: Seq<Seq<DeviceEvent>>|
                #[trigger] frames_handled(states, decode_all(old(self).pending_bytes() + data@).frames, chunks)
                    && r@ == concat_events(chunks) && states[0].seq == old(self).seq && states[0].trigger_active
                    == old(self).trigger_active && states[0].current_trigger == old(self).current_trigger
                    && states[0].status == old(self).status && states.last() == *final(self),
    {
        let mut frames = self.parser.feed_data(data);
        let ghost all = frames@;
        let ghost start = *self;
        let ghost mut states: Seq<DeviceSession> = seq![start];
        let ghost mut chunks: Seq<Seq<DeviceEvent>> = Seq::empty();
        let mut events: Vec<DeviceEvent> = Vec::new();
        assert(crate::codec::frames_view(all.subrange(0, 0)) =~= Seq::<FrameView>::empty());
        while frames.len() > 0
            invariant
                all.len() >= frames@.len(),
                frames@ == all.subrange(all.len() - frames@.len(), all.len() as int),
                received_frames(events@) == crate::codec::frames_view(all.subrange(0, all.len() - frames@.len())),
                frames_handled(states, crate::codec::frames_view(all.subrange(0, all.len() - frames@.len())), chunks),
                events@ == concat_events(chunks),
                states[0] == start,
                states.last() == *self,
                self.pending_bytes() == decode_all(old(self).pending_bytes() + data@).rest,
            decreases frames@.len(),
        {
            let ghost k = all.len() - frames@.len();
            let f = frames.remove(0);
            let ghost fv = f@;
            let ghost before = *self;
            let more = self.handle_frame(f);
            proof {
                lemma_received_concat(events@, more@);
                assert(all.subrange(0, k + 1) =~= all.subrange(0, k).push(all[k]));
                let old_views = crate::codec::frames_view(all.subrange(0, k));
                let new_views = crate::codec::frames_view(all.subrange(0, k + 1));
                assert(new_views =~= old_views.push(fv));
                let states2 = states.push(*self);
                let chunks2 = chunks.push(more@);
                assert forall|i: int| 0 <= i < new_views.len() implies frame_handled(
                    #[trigger] states2[i],
                    new_views[i],
                    states2[i + 1],
                    chunks2[i],
                ) by {
                    if i < old_views.len() {
                        assert(states2[i] == states[i] && states2[i + 1] == states[i + 1]);
                        assert(chunks2[i] == chunks[i] && new_views[i] == old_views[i]);
                        assert(frame_handled(states[i], old_views[i], states[i + 1], chunks[i]));
                    } else {
                        assert(states2[i] == before);
                    }
                }
                assert(chunks2.drop_last() =~= chunks);
                states = states2;
                chunks = chunks2;
            }
            push_events(&mut events, more);
            assert(frames@ =~= all.subrange(all.len() - frames@.len(), all.len() as int));
        }
        assert(all.subrange(0, all.len() as int) =~= all);
        events
    }
}

/// Events of several frames, one after another.
pub open spec fn concat_events(chunks: Seq<Seq<DeviceEvent>>) -> Seq<DeviceEvent>
    decreases chunks.len(),
{
    if chunks.len() == 0 {
        Seq::empty()
    } else {
        concat_events(chunks.drop_last()) + chunks.last()
    }
}

/// Frames handled one after another: `states[i]` to `states[i + 1]` by
/// frame `i`, which gave the events `chunks[i]`.
pub open spec fn frames_handled(states: Seq<DeviceSession>, frames: Seq<FrameView>, chunks: Seq<Seq<DeviceEvent>>) -> bool {
    &&& states.len() == frames.len() + 1
    &&& chunks.len() == frames.len()
    &&& forall|i: int|
        0 <= i < frames.len() ==> frame_handled(#[trigger] states[i], frames[i], states[i + 1], chunks[i])
}

/// `s[from..to]`.
fn slice_range(s: &[u8], from: usize, to: usize) -> (r: &[u8])
    requires
        from <= to <= s@.len(),
    ensures
        r@ == s@.subrange(from as int, to as int),
{
    vstd::slice::slice_subrange(s, from, to)
}

} // verus!
