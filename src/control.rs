//! The control surface: what each request does to the local state and which
//! device command it sends, status snapshots, and names of saved bursts.

use vstd::prelude::*;
use vstd::string::{StrSliceExecFns, StringExecFns};
use crate::clock::now_millis;
use crate::device::{ChannelConfig, DeviceCommand};
use crate::processing::ProcessingStats;
use crate::text::{ascii_chars, dec_bytes, push_decimal_chars, push_signed_decimal_chars, str_eq};

verus! {

/// The device mode as the control surface last set it.
#[derive(Debug, Clone, Copy, PartialEq, Eq, Structural)]
pub enum Mode {
    Continuous,
    Trigger,
}

/// Local state of the control surface.
#[derive(Debug, Clone, Copy, PartialEq, Eq, Structural)]
pub struct ControlState {
    pub collecting: bool,
    pub mode: Option<Mode>,
}

#[derive(Debug, Clone)]
pub enum ControlRequest {
    Start,
    Stop,
    Ping,
    DeviceInfo,
    ContinuousMode,
    TriggerMode,
    RequestTriggerData,
    Configure { channels: Vec<ChannelConfig> },
}

/// What the handler does after a request.
#[derive(Debug, Clone)]
pub enum ControlOutcome {
    /// Enqueue this command for the device session.
    Send(DeviceCommand),
    /// Refuse: buffered data can only be requested in trigger mode.
    NotInTriggerMode,
}

impl ControlState {
    pub fn new() -> (r: Self)
        ensures
            !r.collecting,
            r.mode is None,
    {
        ControlState { collecting: false, mode: None }
    }

    /// Applies `req` to the local state and says what to send.
    pub fn handle_request(&mut self, req: ControlRequest) -> (r: ControlOutcome)
        ensures
            match req {
                ControlRequest::Start => final(self).collecting && final(self).mode == old(self).mode
                    && r matches ControlOutcome::Send(DeviceCommand::StartStream),
                ControlRequest::Stop => !final(self).collecting && final(self).mode == old(self).mode
                    && r matches ControlOutcome::Send(DeviceCommand::StopStream),
                ControlRequest::Ping => *final(self) == *old(self) && r matches ControlOutcome::Send(
                    DeviceCommand::Ping,
                ),
                ControlRequest::DeviceInfo => *final(self) == *old(self) && r matches ControlOutcome::Send(
                    DeviceCommand::GetDeviceInfo,
                ),
                ControlRequest::ContinuousMode => final(self).collecting == old(self).collecting
                    && final(self).mode == Some(Mode::Continuous) && r matches ControlOutcome::Send(
                    DeviceCommand::SetModeContinuous,
                ),
                ControlRequest::TriggerMode => final(self).collecting == old(self).collecting
                    && final(self).mode == Some(Mode::Trigger) && r matches ControlOutcome::Send(
                    DeviceCommand::SetModeTrigger,
                ),
                ControlRequest::RequestTriggerData => *final(self) == *old(self) && if old(self).mode
                    == Some(Mode::Trigger) {
                    r matches ControlOutcome::Send(DeviceCommand::RequestBufferedData)
                } else {
                    r matches ControlOutcome::NotInTriggerMode
                },
                ControlRequest::Configure { channels } => *final(self) == *old(self) && (r matches ControlOutcome::Send(
                    DeviceCommand::ConfigureStream { channels: c },
                ) && c@ == channels@),
            },
    {
        match req {
            ControlRequest::Start => {
                self.collecting = true;
                ControlOutcome::Send(DeviceCommand::StartStream)
            },
            ControlRequest::Stop => {
                self.collecting = false;
                ControlOutcome::Send(DeviceCommand::StopStream)
            },
            ControlRequest::Ping => ControlOutcome::Send(DeviceCommand::Ping),
            ControlRequest::DeviceInfo => ControlOutcome::Send(DeviceCommand::GetDeviceInfo),
            ControlRequest::ContinuousMode => {
                self.mode = Some(Mode::Continuous);
                ControlOutcome::Send(DeviceCommand::SetModeContinuous)
            },
            ControlRequest::TriggerMode => {
                self.mode = Some(Mode::Trigger);
                ControlOutcome::Send(DeviceCommand::SetModeTrigger)
            },
            ControlRequest::RequestTriggerData => {
                if self.mode == Some(Mode::Trigger) {
                    ControlOutcome::Send(DeviceCommand::RequestBufferedData)
                } else {
                    ControlOutcome::NotInTriggerMode
                }
            },
            ControlRequest::Configure { channels } => ControlOutcome::Send(
                DeviceCommand::ConfigureStream { channels },
            ),
        }
    }
}

/// Burst part of the status report.
#[derive(Debug, Clone, Copy, PartialEq, Eq)]
pub struct TriggerStatus {
    pub cached_bursts: usize,
    pub current_burst_active: bool,
    pub last_trigger_timestamp: Option<u32>,
    /// Trigger events received so far.
    pub total_triggers_received: u64,
}

/// The burst part of the status report, from the processor's counters.
pub fn trigger_status_of(stats: &ProcessingStats) -> (r: TriggerStatus)
    ensures
        r.cached_bursts == stats.cached_bursts_count,
        r.current_burst_active == stats.current_burst_active,
        r.last_trigger_timestamp == stats.current_trigger_timestamp,
        r.total_triggers_received == stats.triggers_received,
{
    TriggerStatus {
        cached_bursts: stats.cached_bursts_count,
        current_burst_active: stats.current_burst_active,
        last_trigger_timestamp: stats.current_trigger_timestamp,
        total_triggers_received: stats.triggers_received,
    }
}

/// The envelope of every JSON response.
#[derive(Debug, Clone)]
pub struct ApiResponse<T> {
    pub success: bool,
    pub data: Option<T>,
    pub error: Option<String>,
    pub timestamp: i64,
}

impl<T> ApiResponse<T> {
    pub fn ok(data: T, timestamp: i64) -> (r: Self)
        ensures
            r.success,
            r.data == Some(data),
            r.error is None,
            r.timestamp == timestamp,
    {
        ApiResponse { success: true, data: Some(data), error: None, timestamp }
    }

    pub fn failure(error: String, timestamp: i64) -> (r: Self)
        ensures
            !r.success,
            r.data is None,
            r.error == Some(error),
            r.timestamp == timestamp,
    {
        ApiResponse { success: false, data: None, error: Some(error), timestamp }
    }
}

// ---------------------------------------------------------------- file names

/// Extension of an export format's file; `.dat` for any other name.
pub open spec fn extension_of(format: Seq<char>) -> Seq<char> {
    if format == "json"@ {
        ".json"@
    } else if format == "csv"@ {
        ".csv"@
    } else if format == "binary"@ {
        ".bin"@
    } else {
        ".dat"@
    }
}

pub fn export_extension(format: &str) -> (r: &'static str)
    ensures
        r@ == extension_of(format@),
{
    if str_eq(format, "json") {
        ".json"
    } else if str_eq(format, "csv") {
        ".csv"
    } else if str_eq(format, "binary") {
        ".bin"
    } else {
        ".dat"
    }
}

/// A character of the Unicode `White_Space` property.
pub open spec fn is_white_space(c: char) -> bool {
    let u = c as u32;
    (0x09 <= u <= 0x0D) || u == 0x20 || u == 0x85 || u == 0xA0 || u == 0x1680 || (0x2000 <= u
        <= 0x200A) || u == 0x2028 || u == 0x2029 || u == 0x202F || u == 0x205F || u == 0x3000
}

/// Number of white-space characters at the front of `s[i..]`.
pub open spec fn leading_ws(s: Seq<char>, i: int) -> int
    decreases s.len() - i,
{
    if 0 <= i < s.len() && is_white_space(s[i]) {
        1 + leading_ws(s, i + 1)
    } else {
        0
    }
}

/// Number of white-space characters at the back of `s[..j]`.
pub open spec fn trailing_ws(s: Seq<char>, j: int) -> int
    decreases j,
{
    if 0 < j <= s.len() && is_white_space(s[j - 1]) {
        1 + trailing_ws(s, j - 1)
    } else {
        0
    }
}

/// `s` without its leading and trailing white space.
pub open spec fn trimmed(s: Seq<char>) -> Seq<char> {
    let a = leading_ws(s, 0);
    if a >= s.len() {
        Seq::empty()
    } else {
        s.subrange(a, s.len() - trailing_ws(s, s.len() as int))
    }
}

/// Relies on `str::trim`: leading and trailing characters of the Unicode
/// `White_Space` property removed.
#[verifier::external_body]
fn trim_text(s: &str) -> (r: String)
    ensures
        r@ == trimmed(s@),
{
    s.trim().to_string()
}

/// The UTC date and time of an instant given in epoch milliseconds, written
/// with a `strftime`-style pattern.
pub uninterp spec fn utc_formatted(ms: int, pattern: Seq<char>) -> Seq<char>;

/// Instants that chrono can represent: about 253,000 years either side of
/// the epoch, well inside its range of years -262143 to 262142.
pub open spec fn representable_ms(ms: int) -> bool {
    -8_000_000_000_000_000 <= ms <= 8_000_000_000_000_000
}

/// Relies on `chrono::DateTime::from_timestamp_millis` and `DateTime::format`:
/// the instant written with `pattern`, `None` when it is out of chrono's
/// range. `to_string` panics on a pattern that chrono cannot parse, so only
/// the file-name pattern, whose items are all valid, is accepted.
#[verifier::external_body]
fn utc_format(ms: i64, pattern: &str) -> (r: Option<String>)
    requires
        pattern@ == STAMP_PATTERN@,
    ensures
        r matches Some(s) ==> s@ == utc_formatted(ms as int, pattern@),
        representable_ms(ms as int) ==> r is Some,
{
    match chrono::DateTime::from_timestamp_millis(ms) {
        Some(t) => Some(t.format(pattern).to_string()),
        None => None,
    }
}

/// Pattern of the date part of generated file names.
pub const STAMP_PATTERN: &'static str = "%Y%m%d_%H%M%S";

pub open spec fn opt_text(o: Option<&str>) -> Option<Seq<char>> {
    match o {
        Some(u) => Some(u@),
        None => None,
    }
}

/// Name of a saved burst: the user's name, trimmed, when it is not blank,
/// else `trigger_{trigger_timestamp}_{stamp}`; then the format's extension.
pub open spec fn burst_file_name_of(
    user_name: Option<Seq<char>>,
    format: Seq<char>,
    trigger_timestamp: u32,
    stamp: Seq<char>,
) -> Seq<char> {
    if user_name is Some && trimmed(user_name->0).len() > 0 {
        trimmed(user_name->0) + extension_of(format)
    } else {
        "trigger_"@ + ascii_chars(dec_bytes(trigger_timestamp as nat)) + "_"@ + stamp + extension_of(format)
    }
}

/// The file name of a saved burst, given the creation stamp to use.
pub fn burst_file_name(user_name: Option<&str>, format: &str, trigger_timestamp: u32, stamp: &str) -> (r: String)
    ensures
        r@ == burst_file_name_of(
            opt_text(user_name),
            format@,
            trigger_timestamp,
            stamp@,
        ),
{
    let ext = export_extension(format);
    if let Some(u) = user_name {
        let t = trim_text(u);
        if t.as_str().unicode_len() > 0 {
            let mut name = t;
            name.append(ext);
            return name;
        }
    }
    let mut name = String::from_str("trigger_");
    push_decimal_chars(&mut name, trigger_timestamp as u64);
    name.append("_");
    name.append(stamp);
    name.append(ext);
    name
}

/// The file name of a saved burst created at `created_at` (epoch
/// milliseconds); the current time stands in when that instant cannot be
/// formatted, and its millisecond count when neither can. The stamp is the
/// instant written with `STAMP_PATTERN`.
pub fn burst_file_name_at(user_name: Option<&str>, format: &str, trigger_timestamp: u32, created_at: i64) -> (r: String)
    ensures
        representable_ms(created_at as int) ==> r@ == burst_file_name_of(
            opt_text(user_name),
            format@,
            trigger_timestamp,
            utc_formatted(created_at as int, STAMP_PATTERN@),
        ),
        exists|stamp: Seq<char>|
            r@ == #[trigger] burst_file_name_of(
                opt_text(user_name),
                format@,
                trigger_timestamp,
                stamp,
            ),
{
    let stamp = match utc_format(created_at, STAMP_PATTERN) {
        Some(s) => s,
        None => {
            let now = now_millis();
            match utc_format(now, STAMP_PATTERN) {
                Some(s) => s,
                None => {
                    let mut s = String::new();
                    push_signed_decimal_chars(&mut s, now);
                    s
                },
            }
        },
    };
    burst_file_name(user_name, format, trigger_timestamp, stamp.as_str())
}

/// An automatically named file: `{prefix}_{stamp}{ext}`.
pub fn auto_file_name(prefix: &str, stamp: &str, ext: &str) -> (r: String)
    ensures
        r@ == prefix@ + "_"@ + stamp@ + ext@,
{
    let mut s = String::from_str(prefix);
    s.append("_");
    s.append(stamp);
    s.append(ext);
    s
}

} // verus!
