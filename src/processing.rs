//! Sample decoding, per-channel statistics, quality classification and the
//! triggered-burst accumulator with its bounded cache and exports.
//!
//! Samples are the device's signed 16-bit values, passed through unscaled.

use vstd::prelude::*;
use vstd::string::StringExecFns;
use crate::device::{DataPacket, DataType, TriggerEvent};
use crate::text::{ascii_chars, dec_bytes, signed_dec_bytes, push_decimal_chars, push_signed_decimal_chars, str_eq};
use crate::clock::now_millis;

verus! {

/// Assumed interval between two data packets, in milliseconds.
pub const PACKET_INTERVAL_MS: u64 = 10;

/// Default number of completed bursts kept in the cache.
pub const DEFAULT_MAX_CACHED_BURSTS: usize = 10;

// ---------------------------------------------------------------- channel mask

/// Whether bit `b` of the mask is set.
pub open spec fn bit_set(mask: u16, b: nat) -> bool {
    b < 16 && (mask >> (b as u16)) & 1u16 == 1u16
}

/// Number of set bits below position `b`.
pub open spec fn bits_below(mask: u16, b: nat) -> nat
    decreases b,
{
    if b == 0 {
        0
    } else {
        bits_below(mask, (b - 1) as nat) + if bit_set(mask, (b - 1) as nat) {
            1nat
        } else {
            0nat
        }
    }
}

/// Number of enabled channels.
pub open spec fn popcount(mask: u16) -> nat {
    bits_below(mask, 16)
}

/// The bit position of the `k`-th set bit at or after `b`; `k` itself when there is none.
pub open spec fn nth_channel_from(mask: u16, k: nat, b: nat) -> nat
    decreases 16 - b,
{
    if b >= 16 {
        k
    } else if bit_set(mask, b) && bits_below(mask, b) == k {
        b
    } else {
        nth_channel_from(mask, k, b + 1)
    }
}

/// Physical channel id of the `k`-th enabled channel (LSB first).
pub open spec fn nth_channel(mask: u16, k: nat) -> nat {
    nth_channel_from(mask, k, 0)
}

/// Number of enabled channels in `mask`.
pub fn channel_count_of(mask: u16) -> (r: u32)
    ensures
        r as nat == popcount(mask),
        r <= 16,
{
    let mut count: u32 = 0;
    let mut bit: u16 = 0;
    while bit < 16
        invariant
            bit <= 16,
            count as nat == bits_below(mask, bit as nat),
            count <= bit,
        decreases 16 - bit,
    {
        if (mask >> bit) & 1 == 1 {
            count = count + 1;
        }
        bit = bit + 1;
    }
    count
}

/// Physical channel id of the channel at position `index` among the enabled ones.
pub fn get_channel_id_from_mask(mask: u16, index: u8) -> (r: u8)
    ensures
        r as nat == nth_channel(mask, index as nat),
{
    let mut current: u32 = 0;
    let mut bit: u16 = 0;
    while bit < 16
        invariant
            bit <= 16,
            current as nat == bits_below(mask, bit as nat),
            current <= bit,
            nth_channel(mask, index as nat) == nth_channel_from(mask, index as nat, bit as nat),
        decreases 16 - bit,
    {
        if (mask >> bit) & 1 == 1 {
            if current == index as u32 {
                return bit as u8;
            }
            current = current + 1;
        }
        bit = bit + 1;
    }
    index
}

// ---------------------------------------------------------------- samples

/// The `i`-th little-endian signed 16-bit value of `bytes`.
pub open spec fn le_i16(bytes: Seq<u8>, i: int) -> int {
    let u = bytes[2 * i] as int + bytes[2 * i + 1] as int * 256;
    if u >= 32768 {
        u - 65536
    } else {
        u
    }
}

pub open spec fn seq_sum(s: Seq<i16>) -> int
    decreases s.len(),
{
    if s.len() == 0 {
        0
    } else {
        seq_sum(s.drop_last()) + s.last() as int
    }
}

/// Smallest value; 0 for an empty sequence.
pub open spec fn seq_min(s: Seq<i16>) -> int
    decreases s.len(),
{
    if s.len() == 0 {
        0
    } else if s.len() == 1 {
        s[0] as int
    } else {
        let m = seq_min(s.drop_last());
        if (s.last() as int) < m {
            s.last() as int
        } else {
            m
        }
    }
}

/// Largest value; 0 for an empty sequence.
pub open spec fn seq_max(s: Seq<i16>) -> int
    decreases s.len(),
{
    if s.len() == 0 {
        0
    } else if s.len() == 1 {
        s[0] as int
    } else {
        let m = seq_max(s.drop_last());
        if (s.last() as int) > m {
            s.last() as int
        } else {
            m
        }
    }
}

/// Statistics of one channel of one packet. `min_value` and `max_value`
/// are 0 when the channel holds no samples; the average is `sum / sample_count`.
#[derive(Debug, Clone, Copy, PartialEq, Eq, Structural)]
pub struct ChannelMetadata {
    pub channel_id: u8,
    pub sample_count: usize,
    pub min_value: i16,
    pub max_value: i16,
    pub sum: i64,
}

/// The samples of channel position `k` when each channel holds `n`.
pub open spec fn channel_slice(data: Seq<i16>, k: int, n: int) -> Seq<i16> {
    data.subrange(k * n, (k + 1) * n)
}

/// `m` describes the samples `chunk` of physical channel `id`.
pub open spec fn describes(m: ChannelMetadata, id: nat, chunk: Seq<i16>) -> bool {
    &&& m.channel_id as nat == id
    &&& m.sample_count as nat == chunk.len()
    &&& m.min_value as int == seq_min(chunk)
    &&& m.max_value as int == seq_max(chunk)
    &&& m.sum as int == seq_sum(chunk)
}

proof fn lemma_bounds_push(s: Seq<i16>, v: i16)
    ensures
        seq_sum(s.push(v)) == seq_sum(s) + v,
        s.len() == 0 ==> seq_min(s.push(v)) == v && seq_max(s.push(v)) == v,
        s.len() > 0 ==> seq_min(s.push(v)) == if (v as int) < seq_min(s) {
            v as int
        } else {
            seq_min(s)
        },
        s.len() > 0 ==> seq_max(s.push(v)) == if (v as int) > seq_max(s) {
            v as int
        } else {
            seq_max(s)
        },
{
    assert(s.push(v).drop_last() =~= s);
}

proof fn lemma_sum_bound(s: Seq<i16>)
    ensures
        -32768 * s.len() <= seq_sum(s) <= 32767 * s.len(),
    decreases s.len(),
{
    if s.len() > 0 {
        lemma_sum_bound(s.drop_last());
    }
}

/// Statistics of `data[start .. start + n]` for physical channel `id`.
fn channel_stats(data: &Vec<i16>, start: usize, n: usize, id: u8) -> (r: ChannelMetadata)
    requires
        start + n <= data@.len(),
        n <= 65535,
    ensures
        describes(r, id as nat, data@.subrange(start as int, start + n)),
{
    let mut min_v: i16 = 0;
    let mut max_v: i16 = 0;
    let mut sum: i64 = 0;
    let mut s: usize = 0;
    while s < n
        invariant
            s <= n,
            n <= 65535,
            start + n <= data.len(),
            min_v as int == seq_min(data@.subrange(start as int, start + s)),
            max_v as int == seq_max(data@.subrange(start as int, start + s)),
            sum as int == seq_sum(data@.subrange(start as int, start + s)),
        decreases n - s,
    {
        let v = data[start + s];
        let ghost prefix = data@.subrange(start as int, start + s);
        proof {
            lemma_bounds_push(prefix, v);
            lemma_sum_bound(prefix);
            assert(prefix.push(v) =~= data@.subrange(start as int, start + s + 1));
        }
        if s == 0 {
            min_v = v;
            max_v = v;
        } else {
            if v < min_v {
                min_v = v;
            }
            if v > max_v {
                max_v = v;
            }
        }
        sum = sum + v as i64;
        s = s + 1;
    }
    ChannelMetadata { channel_id: id, sample_count: n, min_value: min_v, max_value: max_v, sum }
}

// ---------------------------------------------------------------- quality

#[derive(Debug, Clone)]
pub enum DataQuality {
    Good,
    Warning(String),
    Error(String),
}

pub enum QualityView {
    Good,
    Warning(Seq<char>),
    Error(Seq<char>),
}

impl View for DataQuality {
    type V = QualityView;

    open spec fn view(&self) -> QualityView {
        match self {
            DataQuality::Good => QualityView::Good,
            DataQuality::Warning(s) => QualityView::Warning(s@),
            DataQuality::Error(s) => QualityView::Error(s@),
        }
    }
}

impl DataQuality {
    pub fn copy(&self) -> (r: Self)
        ensures
            r@ == self@,
    {
        match self {
            DataQuality::Good => DataQuality::Good,
            DataQuality::Warning(s) => DataQuality::Warning(s.clone()),
            DataQuality::Error(s) => DataQuality::Error(s.clone()),
        }
    }

    /// The variant's name: `Good`, `Warning` or `Error`.
    pub fn label(&self) -> (r: &'static str)
        ensures
            r@ == match self@ {
                QualityView::Good => "Good"@,
                QualityView::Warning(_) => "Warning"@,
                QualityView::Error(_) => "Error"@,
            },
    {
        match self {
            DataQuality::Good => "Good",
            DataQuality::Warning(_) => "Warning",
            DataQuality::Error(_) => "Error",
        }
    }
}

/// A channel whose signal does not move over more than ten samples.
pub open spec fn is_flat(m: ChannelMetadata) -> bool {
    m.sample_count > 10 && m.max_value == m.min_value
}

/// A channel whose maximum lies more than ten ranges away from its mean.
pub open spec fn is_outlier(m: ChannelMetadata) -> bool {
    let range = m.max_value as int - m.min_value as int;
    let n = m.sample_count as int;
    let d = m.max_value as int * n - m.sum as int;
    range > 0 && n > 0 && (if d < 0 {
        -d
    } else {
        d
    }) > 10 * range * n
}

/// Index of the first channel at or after `i` that is flat or has outliers, or -1.
pub open spec fn first_flagged(chans: Seq<ChannelMetadata>, i: int) -> int
    decreases chans.len() - i,
{
    if i < 0 || i >= chans.len() {
        -1
    } else if is_flat(chans[i]) || is_outlier(chans[i]) {
        i
    } else {
        first_flagged(chans, i + 1)
    }
}

pub open spec fn flat_message(id: u8) -> Seq<char> {
    "Channel "@ + ascii_chars(dec_bytes(id as nat)) + " signal appears flat"@
}

pub open spec fn outlier_message(id: u8) -> Seq<char> {
    "Channel "@ + ascii_chars(dec_bytes(id as nat)) + " may have outlier values"@
}

/// Integrity classification of a decoded packet.
pub open spec fn integrity_of(sample_total: nat, chans: Seq<ChannelMetadata>) -> QualityView {
    if sample_total == 0 {
        QualityView::Error("No samples"@)
    } else {
        let i = first_flagged(chans, 0);
        if i < 0 {
            QualityView::Good
        } else if is_flat(chans[i]) {
            QualityView::Warning(flat_message(chans[i].channel_id))
        } else {
            QualityView::Warning(outlier_message(chans[i].channel_id))
        }
    }
}

/// Classifies the integrity of a packet from its samples and channel statistics.
pub fn assess_data_integrity(samples: &Vec<i16>, channel_info: &Vec<ChannelMetadata>) -> (r: DataQuality)
    requires
        forall|i: int|
            0 <= i < channel_info@.len() ==> (#[trigger] channel_info@[i]).sample_count <= 65535,
    ensures
        r@ == integrity_of(samples@.len(), channel_info@),
{
    if samples.len() == 0 {
        return DataQuality::Error(String::from_str("No samples"));
    }
    let mut i: usize = 0;
    while i < channel_info.len()
        invariant
            i <= channel_info@.len(),
            samples@.len() > 0,
            forall|j: int|
                0 <= j < channel_info@.len() ==> (#[trigger] channel_info@[j]).sample_count <= 65535,
            first_flagged(channel_info@, 0) == first_flagged(channel_info@, i as int),
        decreases channel_info@.len() - i,
    {
        let ch = channel_info[i];
        let range: i64 = ch.max_value as i64 - ch.min_value as i64;
        if ch.sample_count > 10 && range == 0 {
            let mut msg = String::from_str("Channel ");
            push_decimal_chars(&mut msg, ch.channel_id as u64);
            msg.append(" signal appears flat");
            return DataQuality::Warning(msg);
        }
        let n: i128 = ch.sample_count as i128;
        let mx: i128 = ch.max_value as i128;
        assert(-32768 * 65535 <= mx * n <= 32767 * 65535) by (nonlinear_arith)
            requires
                -32768 <= mx <= 32767,
                0 <= n <= 65535,
        ;
        let d: i128 = mx * n - ch.sum as i128;
        let dist: i128 = if d < 0 {
            -d
        } else {
            d
        };
        assert(0 <= 10 * (range as i128) * n <= 10 * 65536 * 65535 || range <= 0) by (nonlinear_arith)
            requires
                -65536 <= range <= 65536,
                0 <= n <= 65535,
        ;
        if range > 0 && n > 0 && dist > 10 * (range as i128) * n {
            let mut msg = String::from_str("Channel ");
            push_decimal_chars(&mut msg, ch.channel_id as u64);
            msg.append(" may have outlier values");
            return DataQuality::Warning(msg);
        }
        i = i + 1;
    }
    DataQuality::Good
}


// ---------------------------------------------------------------- processed packets

#[derive(Debug, Clone, Copy, PartialEq, Eq)]
pub enum DataSource {
    Continuous,
    Trigger,
}

#[derive(Debug, Clone, Copy, PartialEq, Eq)]
pub struct TriggerInfo {
    pub trigger_timestamp: u32,
    pub is_complete: bool,
    pub sequence_in_burst: Option<u32>,
}

#[derive(Debug, Clone, Copy, PartialEq, Eq)]
pub struct ProcessedDataType {
    pub source: DataSource,
    pub trigger_info: Option<TriggerInfo>,
}

#[derive(Debug, Clone)]
pub struct DataMetadata {
    pub packet_count: u64,
    /// Filled in by the caller that times the decoding; 0 as decoded.
    pub processing_time_us: u64,
    pub data_quality: DataQuality,
    pub channel_info: Vec<ChannelMetadata>,
}

/// A decoded packet.
#[derive(Debug, Clone)]
pub struct ProcessedData {
    pub timestamp: u64,
    /// 1-based, assigned by the decoder, never reused.
    pub sequence: u64,
    pub channel_count: usize,
    /// Advisory estimate in samples per second per channel.
    pub sample_rate: u64,
    /// Channel after channel, each value as the device sent it.
    pub data: Vec<i16>,
    pub metadata: DataMetadata,
    pub data_type: ProcessedDataType,
}

pub struct ProcessedView {
    pub timestamp: u64,
    pub sequence: u64,
    pub channel_count: usize,
    pub sample_rate: u64,
    pub data: Seq<i16>,
    pub packet_count: u64,
    pub processing_time_us: u64,
    pub quality: QualityView,
    pub channel_info: Seq<ChannelMetadata>,
    pub data_type: ProcessedDataType,
}

impl View for ProcessedData {
    type V = ProcessedView;

    open spec fn view(&self) -> ProcessedView {
        ProcessedView {
            timestamp: self.timestamp,
            sequence: self.sequence,
            channel_count: self.channel_count,
            sample_rate: self.sample_rate,
            data: self.data@,
            packet_count: self.metadata.packet_count,
            processing_time_us: self.metadata.processing_time_us,
            quality: self.metadata.data_quality@,
            channel_info: self.metadata.channel_info@,
            data_type: self.data_type,
        }
    }
}

fn copy_channel_info(v: &Vec<ChannelMetadata>) -> (r: Vec<ChannelMetadata>)
    ensures
        r@ == v@,
{
    let mut r: Vec<ChannelMetadata> = Vec::new();
    let mut i: usize = 0;
    while i < v.len()
        invariant
            i <= v@.len(),
            r@ == v@.subrange(0, i as int),
        decreases v@.len() - i,
    {
        r.push(v[i]);
        i = i + 1;
        assert(r@ =~= v@.subrange(0, i as int));
    }
    assert(v@.subrange(0, v@.len() as int) =~= v@);
    r
}

fn copy_samples(v: &Vec<i16>) -> (r: Vec<i16>)
    ensures
        r@ == v@,
{
    let mut r: Vec<i16> = Vec::new();
    let mut i: usize = 0;
    while i < v.len()
        invariant
            i <= v@.len(),
            r@ == v@.subrange(0, i as int),
        decreases v@.len() - i,
    {
        r.push(v[i]);
        i = i + 1;
        assert(r@ =~= v@.subrange(0, i as int));
    }
    assert(v@.subrange(0, v@.len() as int) =~= v@);
    r
}

impl ProcessedData {
    pub fn copy(&self) -> (r: Self)
        ensures
            r@ == self@,
    {
        ProcessedData {
            timestamp: self.timestamp,
            sequence: self.sequence,
            channel_count: self.channel_count,
            sample_rate: self.sample_rate,
            data: copy_samples(&self.data),
            metadata: DataMetadata {
                packet_count: self.metadata.packet_count,
                processing_time_us: self.metadata.processing_time_us,
                data_quality: self.metadata.data_quality.copy(),
                channel_info: copy_channel_info(&self.metadata.channel_info),
            },
            data_type: self.data_type,
        }
    }
}

/// Why a packet was rejected.
#[derive(Debug, Clone, Copy, PartialEq, Eq, Structural)]
pub enum DecodeError {
    NoEnabledChannels,
    LengthMismatch { expected: usize, actual: usize },
}

/// Decodes the first `count` little-endian signed 16-bit values of `bytes`.
pub fn decode_samples(bytes: &Vec<u8>, count: usize) -> (r: Vec<i16>)
    requires
        2 * count <= bytes@.len(),
    ensures
        r@.len() == count,
        forall|i: int| 0 <= i < count ==> (#[trigger] r@[i]) as int == le_i16(bytes@, i),
{
    let mut r: Vec<i16> = Vec::with_capacity(count);
    let mut i: usize = 0;
    while i < count
        invariant
            i <= count,
            2 * count <= bytes.len(),
            r@.len() == i,
            forall|j: int| 0 <= j < i ==> (#[trigger] r@[j]) as int == le_i16(bytes@, j),
        decreases count - i,
    {
        let u: i32 = bytes[2 * i] as i32 + bytes[2 * i + 1] as i32 * 256;
        let v: i32 = if u >= 32768 {
            u - 65536
        } else {
            u
        };
        r.push(v as i16);
        i = i + 1;
    }
    r
}

/// Samples per second per channel when `sample_count` samples arrive every packet interval.
pub open spec fn sample_rate_of(sample_count: nat) -> nat {
    sample_count * 1000 / PACKET_INTERVAL_MS as nat
}

/// Estimated sample rate for packets of `sample_count` samples per channel.
pub fn estimate_sample_rate(sample_count: u16) -> (r: u64)
    ensures
        r as nat == sample_rate_of(sample_count as nat),
{
    sample_count as u64 * 1000 / PACKET_INTERVAL_MS
}

/// The shape that every packet the decoder produces has.
pub open spec fn packet_ok(p: ProcessedView) -> bool {
    let cc = p.channel_count as int;
    let n: int = p.channel_info[0].sample_count as int;
    &&& 1 <= cc <= 16
    &&& p.channel_info.len() == cc
    &&& p.data.len() == cc * n
    &&& n <= 65535
    &&& forall|k: int|
        0 <= k < cc ==> (#[trigger] p.channel_info[k]).sample_count as int == n && describes(
            p.channel_info[k],
            p.channel_info[k].channel_id as nat,
            channel_slice(p.data, k, n),
        ) && p.channel_info[k].channel_id < 16
}


proof fn lemma_nth_channel_below_16(mask: u16, k: nat, b: nat)
    requires
        b <= 16,
        bits_below(mask, b) <= k < popcount(mask),
    ensures
        nth_channel_from(mask, k, b) < 16,
    decreases 16 - b,
{
    if b < 16 {
        if !(bit_set(mask, b) && bits_below(mask, b) == k) {
            assert(bits_below(mask, b + 1) == bits_below(mask, b) + if bit_set(mask, b) {
                1nat
            } else {
                0nat
            });
            lemma_nth_channel_below_16(mask, k, b + 1);
        }
    }
}

/// Splits `data` into the channel runs of a packet and describes each.
fn describe_channels(data: &Vec<i16>, mask: u16, cc: usize, n: usize) -> (r: Vec<ChannelMetadata>)
    requires
        1 <= cc <= 16,
        cc == popcount(mask),
        n <= 65535,
        data@.len() == cc * n,
    ensures
        r@.len() == cc,
        forall|k: int|
            0 <= k < cc ==> describes(#[trigger] r@[k], nth_channel(mask, k as nat), channel_slice(data@, k, n as int))
                && r@[k].channel_id < 16 && r@[k].sample_count == n,
{
    let mut info: Vec<ChannelMetadata> = Vec::new();
    let mut k: usize = 0;
    while k < cc
        invariant
            k <= cc <= 16,
            cc == popcount(mask),
            n <= 65535,
            data@.len() == cc * n,
            info@.len() == k,
            forall|j: int|
                0 <= j < k ==> describes(#[trigger] info@[j], nth_channel(mask, j as nat), channel_slice(data@, j, n as int))
                    && info@[j].channel_id < 16 && info@[j].sample_count == n,
        decreases cc - k,
    {
        let id = get_channel_id_from_mask(mask, k as u8);
        proof {
            lemma_nth_channel_below_16(mask, k as nat, 0);
        }
        assert((k + 1) * n <= cc * n) by (nonlinear_arith)
            requires
                k < cc,
        ;
        assert((k + 1) * n == k * n + n) by (nonlinear_arith);
        assert(k * n <= 16 * 65535) by (nonlinear_arith)
            requires
                k <= 16,
                n <= 65535,
        ;
        let m = channel_stats(data, k * n, n, id);
        info.push(m);
        k = k + 1;
    }
    info
}

// ---------------------------------------------------------------- bursts

/// Statistics of one physical channel over a whole burst. The average is
/// `sum / sample_count` and the RMS `sqrt(sum_of_squares / sample_count)`.
#[derive(Debug, Clone, Copy, PartialEq, Eq)]
pub struct ChannelStats {
    pub channel_id: u8,
    pub sample_count: usize,
    pub min_value: i16,
    pub max_value: i16,
    pub sum: i128,
    pub sum_of_squares: u128,
}

#[derive(Debug, Clone)]
pub struct DataQualitySummary {
    pub overall_quality: DataQuality,
    /// One entry per channel that holds samples, by ascending channel id.
    pub channel_stats: Vec<ChannelStats>,
    /// Smallest and largest sample of the burst; `None` when it holds none.
    pub value_range: Option<(i16, i16)>,
    pub anomaly_count: usize,
}

pub struct SummaryView {
    pub overall_quality: QualityView,
    pub channel_stats: Seq<ChannelStats>,
    pub value_range: Option<(i16, i16)>,
    pub anomaly_count: usize,
}

impl View for DataQualitySummary {
    type V = SummaryView;

    open spec fn view(&self) -> SummaryView {
        SummaryView {
            overall_quality: self.overall_quality@,
            channel_stats: self.channel_stats@,
            value_range: self.value_range,
            anomaly_count: self.anomaly_count,
        }
    }
}

/// All packets of one device-side trigger.
#[derive(Debug, Clone)]
pub struct TriggerBurst {
    pub burst_id: String,
    pub trigger_timestamp: u32,
    pub trigger_channel: u16,
    pub pre_samples: u32,
    pub post_samples: u32,
    pub data_packets: Vec<ProcessedData>,
    pub is_complete: bool,
    pub total_samples: usize,
    pub created_at: i64,
    pub quality_summary: DataQualitySummary,
}

pub struct BurstView {
    pub burst_id: Seq<char>,
    pub trigger_timestamp: u32,
    pub trigger_channel: u16,
    pub pre_samples: u32,
    pub post_samples: u32,
    pub packets: Seq<ProcessedView>,
    pub is_complete: bool,
    pub total_samples: usize,
    pub created_at: i64,
    pub summary: SummaryView,
}

pub open spec fn packets_view(ps: Seq<ProcessedData>) -> Seq<ProcessedView> {
    ps.map_values(|p: ProcessedData| p@)
}

impl View for TriggerBurst {
    type V = BurstView;

    open spec fn view(&self) -> BurstView {
        BurstView {
            burst_id: self.burst_id@,
            trigger_timestamp: self.trigger_timestamp,
            trigger_channel: self.trigger_channel,
            pre_samples: self.pre_samples,
            post_samples: self.post_samples,
            packets: packets_view(self.data_packets@),
            is_complete: self.is_complete,
            total_samples: self.total_samples,
            created_at: self.created_at,
            summary: self.quality_summary@,
        }
    }
}

/// Total number of samples in a list of packets.
pub open spec fn sum_lens(ps: Seq<ProcessedView>) -> int
    decreases ps.len(),
{
    if ps.len() == 0 {
        0
    } else {
        sum_lens(ps.drop_last()) + ps.last().data.len()
    }
}

/// The burst's sample total matches its packets, and each packet has the decoder's shape.
pub open spec fn burst_ok(b: BurstView) -> bool {
    &&& b.total_samples == sum_lens(b.packets)
    &&& forall|i: int| 0 <= i < b.packets.len() ==> packet_ok(#[trigger] b.packets[i])
}

fn copy_stats(v: &Vec<ChannelStats>) -> (r: Vec<ChannelStats>)
    ensures
        r@ == v@,
{
    let mut r: Vec<ChannelStats> = Vec::new();
    let mut i: usize = 0;
    while i < v.len()
        invariant
            i <= v@.len(),
            r@ == v@.subrange(0, i as int),
        decreases v@.len() - i,
    {
        r.push(v[i]);
        i = i + 1;
        assert(r@ =~= v@.subrange(0, i as int));
    }
    assert(v@.subrange(0, v@.len() as int) =~= v@);
    r
}

fn copy_packets(v: &Vec<ProcessedData>) -> (r: Vec<ProcessedData>)
    ensures
        packets_view(r@) == packets_view(v@),
{
    let mut r: Vec<ProcessedData> = Vec::new();
    let mut i: usize = 0;
    while i < v.len()
        invariant
            i <= v@.len(),
            packets_view(r@) == packets_view(v@.subrange(0, i as int)),
        decreases v@.len() - i,
    {
        let p = v[i].copy();
        let ghost before = r@;
        r.push(p);
        proof {
            assert(v@.subrange(0, i + 1) =~= v@.subrange(0, i as int).push(v@[i as int]));
            assert(packets_view(before.push(p)) =~= packets_view(before).push(p@));
            assert(packets_view(v@.subrange(0, i as int).push(v@[i as int])) =~= packets_view(
                v@.subrange(0, i as int),
            ).push(v@[i as int]@));
        }
        i = i + 1;
    }
    assert(v@.subrange(0, v@.len() as int) =~= v@);
    r
}

impl TriggerBurst {
    pub fn copy(&self) -> (r: Self)
        ensures
            r@ == self@,
    {
        TriggerBurst {
            burst_id: self.burst_id.clone(),
            trigger_timestamp: self.trigger_timestamp,
            trigger_channel: self.trigger_channel,
            pre_samples: self.pre_samples,
            post_samples: self.post_samples,
            data_packets: copy_packets(&self.data_packets),
            is_complete: self.is_complete,
            total_samples: self.total_samples,
            created_at: self.created_at,
            quality_summary: DataQualitySummary {
                overall_quality: self.quality_summary.overall_quality.copy(),
                channel_stats: copy_stats(&self.quality_summary.channel_stats),
                value_range: self.quality_summary.value_range,
                anomaly_count: self.quality_summary.anomaly_count,
            },
        }
    }
}


// ---------------------------------------------------------------- processor

/// Counters of the decoder and the accumulator, for status reports.
#[derive(Debug, Clone, Copy, PartialEq, Eq)]
pub struct ProcessingStats {
    pub total_packets_processed: u64,
    pub current_trigger_burst_sequence: u32,
    pub current_trigger_timestamp: Option<u32>,
    pub cached_bursts_count: usize,
    pub current_burst_active: bool,
    /// Trigger events that opened a burst (saturating).
    pub triggers_received: u64,
}

/// The sample decoder and the burst accumulator.
pub struct DataProcessor {
    packet_sequence: u64,
    trigger_burst_sequence: u32,
    current_trigger_timestamp: Option<u32>,
    current_trigger_burst: Option<TriggerBurst>,
    /// Completed bursts, ids distinct. A `Vec` keyed by comparing ids lets
    /// every lookup be proved; a map keyed by `String` would not be.
    completed_trigger_bursts: Vec<TriggerBurst>,
    max_cached_bursts: usize,
    triggers_received: u64,
}

pub struct ProcessorView {
    pub packet_sequence: u64,
    pub burst_sequence: u32,
    pub trigger_timestamp: Option<u32>,
    pub current: Option<BurstView>,
    pub cache: Seq<BurstView>,
    pub capacity: usize,
    pub triggers_received: u64,
}

pub open spec fn bursts_view(bs: Seq<TriggerBurst>) -> Seq<BurstView> {
    bs.map_values(|b: TriggerBurst| b@)
}

impl ProcessorView {
    /// The cache stays within its capacity, holds completed bursts with
    /// distinct ids, and every burst's sample total matches its packets.
    pub open spec fn wf(self) -> bool {
        &&& self.cache.len() <= self.capacity
        &&& forall|i: int|
            0 <= i < self.cache.len() ==> (#[trigger] self.cache[i]).is_complete && burst_ok(
                self.cache[i],
            )
        &&& forall|i: int, j: int|
            0 <= i < j < self.cache.len() ==> (#[trigger] self.cache[i]).burst_id
                != (#[trigger] self.cache[j]).burst_id
        &&& self.current matches Some(b) ==> !b.is_complete && burst_ok(b)
    }
}

impl View for DataProcessor {
    type V = ProcessorView;

    closed spec fn view(&self) -> ProcessorView {
        ProcessorView {
            packet_sequence: self.packet_sequence,
            burst_sequence: self.trigger_burst_sequence,
            trigger_timestamp: self.current_trigger_timestamp,
            current: match self.current_trigger_burst {
                Some(b) => Some(b@),
                None => None,
            },
            cache: bursts_view(self.completed_trigger_bursts@),
            capacity: self.max_cached_bursts,
            triggers_received: self.triggers_received,
        }
    }
}

/// `p` is the decoding of `packet` as the packet numbered `sequence`,
/// labelled with `data_type`.
pub open spec fn decoded_as(p: ProcessedView, packet: DataPacket, sequence: u64, data_type: ProcessedDataType) -> bool {
    let cc = popcount(packet.enabled_channels);
    let n = packet.sample_count as int;
    &&& p.sequence == sequence
    &&& p.packet_count == sequence
    &&& p.timestamp == packet.timestamp_ms as u64
    &&& p.channel_count == cc
    &&& p.sample_rate == sample_rate_of(n as nat)
    &&& p.data.len() == cc * n
    &&& forall|i: int| 0 <= i < cc * n ==> (#[trigger] p.data[i]) as int == le_i16(packet.sensor_data@, i)
    &&& p.channel_info.len() == cc
    &&& forall|k: int|
        0 <= k < cc ==> describes(#[trigger] p.channel_info[k], nth_channel(packet.enabled_channels, k as nat), channel_slice(p.data, k, n))
    &&& p.quality == integrity_of(p.data.len(), p.channel_info)
    &&& p.processing_time_us == 0
    &&& p.data_type == data_type
}

/// Burst counter after a packet of type `t`.
pub open spec fn burst_sequence_after(s: ProcessorView, t: DataType) -> u32 {
    match t {
        DataType::Continuous => 0,
        DataType::Trigger { trigger_timestamp, .. } => (if s.trigger_timestamp == Some(trigger_timestamp) {
            s.burst_sequence
        } else {
            0
        } + 1) as u32,
    }
}

/// Label that a packet of type `t` gets.
pub open spec fn label_after(s: ProcessorView, t: DataType) -> ProcessedDataType {
    match t {
        DataType::Continuous => ProcessedDataType { source: DataSource::Continuous, trigger_info: None },
        DataType::Trigger { trigger_timestamp, is_complete } => ProcessedDataType {
            source: DataSource::Trigger,
            trigger_info: Some(
                TriggerInfo {
                    trigger_timestamp,
                    is_complete,
                    sequence_in_burst: Some(burst_sequence_after(s, t)),
                },
            ),
        },
    }
}

/// State after the decoded packet `p` of type `t` went through.
pub open spec fn state_after_packet(s: ProcessorView, t: DataType, p: ProcessedView) -> ProcessorView {
    ProcessorView {
        packet_sequence: (s.packet_sequence + 1) as u64,
        burst_sequence: burst_sequence_after(s, t),
        trigger_timestamp: match t {
            DataType::Continuous => None,
            DataType::Trigger { trigger_timestamp, .. } => Some(trigger_timestamp),
        },
        current: match s.current {
            Some(b) => if t is Trigger && b.total_samples + p.data.len() <= usize::MAX {
                Some(BurstView {
                    packets: b.packets.push(p),
                    total_samples: (b.total_samples + p.data.len()) as usize,
                    ..b
                })
            } else {
                Some(b)
            },
            None => None,
        },
        cache: s.cache,
        capacity: s.capacity,
        triggers_received: s.triggers_received,
    }
}

/// The open burst after the last packet numbered `sequence` got its
/// decoding time.
pub open spec fn timed_current(c: Option<BurstView>, sequence: u64, micros: u64) -> Option<BurstView> {
    match c {
        Some(b) => if b.packets.len() > 0 && b.packets.last().sequence == sequence {
            Some(BurstView {
                packets: b.packets.update(
                    b.packets.len() - 1,
                    ProcessedView { processing_time_us: micros, ..b.packets.last() },
                ),
                ..b
            })
        } else {
            Some(b)
        },
        None => None,
    }
}

proof fn lemma_sum_lens_push(ps: Seq<ProcessedView>, p: ProcessedView)
    ensures
        sum_lens(ps.push(p)) == sum_lens(ps) + p.data.len(),
{
    assert(ps.push(p).drop_last() =~= ps);
}

impl DataProcessor {
    pub fn new() -> (r: Self)
        ensures
            r@.wf(),
            r@.packet_sequence == 0,
            r@.burst_sequence == 0,
            r@.trigger_timestamp is None,
            r@.current is None,
            r@.cache.len() == 0,
            r@.capacity == DEFAULT_MAX_CACHED_BURSTS,
            r@.triggers_received == 0,
    {
        Self::with_cache_capacity(DEFAULT_MAX_CACHED_BURSTS)
    }

    /// A processor whose cache keeps at most `capacity` completed bursts.
    pub fn with_cache_capacity(capacity: usize) -> (r: Self)
        ensures
            r@.wf(),
            r@.packet_sequence == 0,
            r@.burst_sequence == 0,
            r@.trigger_timestamp is None,
            r@.current is None,
            r@.cache.len() == 0,
            r@.capacity == capacity,
            r@.triggers_received == 0,
    {
        let r = DataProcessor {
            packet_sequence: 0,
            trigger_burst_sequence: 0,
            current_trigger_timestamp: None,
            current_trigger_burst: None,
            completed_trigger_bursts: Vec::new(),
            max_cached_bursts: capacity,
            triggers_received: 0,
        };
        assert(r@.cache =~= Seq::<BurstView>::empty());
        r
    }

    /// Whether the counters leave room for one more packet.
    pub fn can_process(&self) -> (r: bool)
        ensures
            r == (self@.packet_sequence < u64::MAX && self@.burst_sequence < u32::MAX),
    {
        self.packet_sequence < u64::MAX && self.trigger_burst_sequence < u32::MAX
    }

    /// Decodes a packet, updates the trigger bookkeeping and, for a trigger
    /// packet, appends it to the open burst.
    pub fn process_packet(&mut self, packet: &DataPacket) -> (r: Result<ProcessedData, DecodeError>)
        requires
            old(self)@.wf(),
            old(self)@.packet_sequence < u64::MAX,
            old(self)@.burst_sequence < u32::MAX,
        ensures
            final(self)@.wf(),
            popcount(packet.enabled_channels) == 0 ==> r == Err::<ProcessedData, DecodeError>(
                DecodeError::NoEnabledChannels,
            ) && final(self)@ == old(self)@,
            popcount(packet.enabled_channels) != 0 && packet.sensor_data@.len() != popcount(
                packet.enabled_channels,
            ) * packet.sample_count * 2 ==> r == Err::<ProcessedData, DecodeError>(
                DecodeError::LengthMismatch {
                    expected: (popcount(packet.enabled_channels) * packet.sample_count * 2) as usize,
                    actual: packet.sensor_data@.len() as usize,
                },
            ) && final(self)@ == old(self)@,
            popcount(packet.enabled_channels) != 0 && packet.sensor_data@.len() == popcount(
                packet.enabled_channels,
            ) * packet.sample_count * 2 ==> (r matches Ok(p) && decoded_as(
                p@,
                *packet,
                (old(self)@.packet_sequence + 1) as u64,
                label_after(old(self)@, packet.data_type),
            ) && final(self)@ == state_after_packet(old(self)@, packet.data_type, p@)),
    {
        let mask = packet.enabled_channels;
        let cc32 = channel_count_of(mask);
        if cc32 == 0 {
            return Err(DecodeError::NoEnabledChannels);
        }
        let cc = cc32 as usize;
        let n = packet.sample_count as usize;
        assert(cc * n <= 16 * 65535) by (nonlinear_arith)
            requires
                cc <= 16,
                n <= 65535,
        ;
        let expected: usize = cc * n * 2;
        if packet.sensor_data.len() != expected {
            return Err(DecodeError::LengthMismatch { expected, actual: packet.sensor_data.len() });
        }
        let data = decode_samples(&packet.sensor_data, cc * n);
        let info = describe_channels(&data, mask, cc, n);
        let quality = assess_data_integrity(&data, &info);
        let ghost s0 = self@;
        let data_type = match packet.data_type {
            DataType::Continuous => {
                self.current_trigger_timestamp = None;
                self.trigger_burst_sequence = 0;
                ProcessedDataType { source: DataSource::Continuous, trigger_info: None }
            },
            DataType::Trigger { trigger_timestamp, is_complete } => {
                if self.current_trigger_timestamp != Some(trigger_timestamp) {
                    self.current_trigger_timestamp = Some(trigger_timestamp);
                    self.trigger_burst_sequence = 0;
                }
                self.trigger_burst_sequence = self.trigger_burst_sequence + 1;
                ProcessedDataType {
                    source: DataSource::Trigger,
                    trigger_info: Some(
                        TriggerInfo {
                            trigger_timestamp,
                            is_complete,
                            sequence_in_burst: Some(self.trigger_burst_sequence),
                        },
                    ),
                }
            },
        };
        self.packet_sequence = self.packet_sequence + 1;
        let processed = ProcessedData {
            timestamp: packet.timestamp_ms as u64,
            sequence: self.packet_sequence,
            channel_count: cc,
            sample_rate: estimate_sample_rate(packet.sample_count),
            data,
            metadata: DataMetadata {
                packet_count: self.packet_sequence,
                processing_time_us: 0,
                data_quality: quality,
                channel_info: info,
            },
            data_type,
        };
        proof {
            assert(packet_ok(processed@)) by {
                assert(processed@.channel_info[0].sample_count == n);
            }
        }
        if let DataType::Trigger { .. } = packet.data_type {
            if let Some(burst) = &mut self.current_trigger_burst {
                let len = processed.data.len();
                if burst.total_samples <= usize::MAX - len {
                    let ghost b0 = burst@;
                    burst.data_packets.push(processed.copy());
                    burst.total_samples = burst.total_samples + len;
                    proof {
                        lemma_sum_lens_push(b0.packets, processed@);
                        assert(packets_view(burst.data_packets@) =~= b0.packets.push(processed@));
                        assert forall|i: int| 0 <= i < burst@.packets.len() implies packet_ok(
                            #[trigger] burst@.packets[i],
                        ) by {
                            if i < b0.packets.len() {
                                assert(burst@.packets[i] == b0.packets[i]);
                            }
                        }
                    }
                }
            }
        }
        Ok(processed)
    }

    /// Records the measured decoding time of the packet numbered `sequence`
    /// in the copy that the open burst holds, when that packet is its last.
    pub fn record_processing_time(&mut self, sequence: u64, micros: u64)
        requires
            old(self)@.wf(),
        ensures
            final(self)@.wf(),
            final(self)@ == (ProcessorView {
                current: timed_current(old(self)@.current, sequence, micros),
                ..old(self)@
            }),
    {
        if let Some(burst) = &mut self.current_trigger_burst {
            let n = burst.data_packets.len();
            if n > 0 && burst.data_packets[n - 1].sequence == sequence {
                let ghost b0 = burst@;
                let mut last = burst.data_packets.pop().unwrap();
                last.metadata.processing_time_us = micros;
                let ghost lv = last@;
                burst.data_packets.push(last);
                proof {
                    let ps = b0.packets;
                    assert(packets_view(burst.data_packets@) =~= ps.drop_last().push(lv));
                    assert(ps.drop_last().push(lv) =~= ps.update(ps.len() - 1, lv));
                    assert(ps.drop_last().push(ps.last()) =~= ps);
                    lemma_sum_lens_push(ps.drop_last(), lv);
                    lemma_sum_lens_push(ps.drop_last(), ps.last());
                    assert(packet_ok(ps[ps.len() - 1]));
                    assert forall|i: int| 0 <= i < burst@.packets.len() implies packet_ok(
                        #[trigger] burst@.packets[i],
                    ) by {
                        if i < ps.len() - 1 {
                            assert(burst@.packets[i] == ps[i]);
                        }
                    }
                }
            }
        }
    }

    /// Drops the open burst and the trigger counters; the cache stays.
    pub fn reset_trigger_state(&mut self)
        requires
            old(self)@.wf(),
        ensures
            final(self)@ == (ProcessorView {
                burst_sequence: 0,
                trigger_timestamp: None,
                current: None,
                ..old(self)@
            }),
            final(self)@.wf(),
    {
        self.current_trigger_timestamp = None;
        self.trigger_burst_sequence = 0;
        self.current_trigger_burst = None;
    }

    pub fn get_stats(&self) -> (r: ProcessingStats)
        ensures
            r.total_packets_processed == self@.packet_sequence,
            r.current_trigger_burst_sequence == self@.burst_sequence,
            r.current_trigger_timestamp == self@.trigger_timestamp,
            r.cached_bursts_count == self@.cache.len(),
            r.current_burst_active == self@.current is Some,
            r.triggers_received == self@.triggers_received,
    {
        ProcessingStats {
            total_packets_processed: self.packet_sequence,
            current_trigger_burst_sequence: self.trigger_burst_sequence,
            current_trigger_timestamp: self.current_trigger_timestamp,
            cached_bursts_count: self.completed_trigger_bursts.len(),
            current_burst_active: self.current_trigger_burst.is_some(),
            triggers_received: self.triggers_received,
        }
    }
}


// ---------------------------------------------------------------- burst summary

pub open spec fn seq_sum_sq(s: Seq<i16>) -> int
    decreases s.len(),
{
    if s.len() == 0 {
        0
    } else {
        seq_sum_sq(s.drop_last()) + s.last() as int * s.last() as int
    }
}

/// Running statistics of a sample sequence.
struct Acc {
    count: usize,
    min_value: i16,
    max_value: i16,
    sum: i128,
    sum_sq: u128,
}

spec fn acc_ok(a: Acc, s: Seq<i16>) -> bool {
    &&& a.count == s.len()
    &&& a.min_value as int == seq_min(s)
    &&& a.max_value as int == seq_max(s)
    &&& a.sum as int == seq_sum(s)
    &&& a.sum_sq as int == seq_sum_sq(s)
}

proof fn lemma_sum_sq_bound(s: Seq<i16>)
    ensures
        0 <= seq_sum_sq(s) <= 1073741824 * s.len(),
    decreases s.len(),
{
    if s.len() > 0 {
        lemma_sum_sq_bound(s.drop_last());
        let v = s.last() as int;
        assert(0 <= v * v <= 1073741824) by (nonlinear_arith)
            requires
                -32768 <= v <= 32767,
        ;
    }
}

fn acc_new() -> (r: Acc)
    ensures
        acc_ok(r, Seq::empty()),
{
    Acc { count: 0, min_value: 0, max_value: 0, sum: 0, sum_sq: 0 }
}

fn acc_push(a: Acc, v: i16, Ghost(s): Ghost<Seq<i16>>) -> (r: Acc)
    requires
        acc_ok(a, s),
        s.len() < usize::MAX,
    ensures
        acc_ok(r, s.push(v)),
{
    proof {
        lemma_bounds_push(s, v);
        lemma_sum_bound(s);
        lemma_sum_sq_bound(s);
        assert(s.push(v).drop_last() =~= s);
        let w = v as int;
        assert(0 <= w * w <= 1073741824) by (nonlinear_arith)
            requires
                -32768 <= w <= 32767,
        ;
        assert(1073741824 * s.len() <= 1073741824 * 18446744073709551615) by (nonlinear_arith)
            requires
                s.len() <= 18446744073709551615,
        ;
    }
    let vv: i128 = v as i128;
    Acc {
        count: a.count + 1,
        min_value: if a.count == 0 || v < a.min_value {
            v
        } else {
            a.min_value
        },
        max_value: if a.count == 0 || v > a.max_value {
            v
        } else {
            a.max_value
        },
        sum: a.sum + vv,
        sum_sq: a.sum_sq + (vv * vv) as u128,
    }
}

/// Position of the run of physical channel `c` in a packet's channel list, or -1.
pub open spec fn find_channel(ci: Seq<ChannelMetadata>, c: nat, i: int) -> int
    decreases ci.len() - i,
{
    if i < 0 || i >= ci.len() {
        -1
    } else if ci[i].channel_id as nat == c {
        i
    } else {
        find_channel(ci, c, i + 1)
    }
}

/// The samples of physical channel `c` in one packet.
pub open spec fn packet_channel(p: ProcessedView, c: nat) -> Seq<i16> {
    let k = find_channel(p.channel_info, c, 0);
    if k < 0 {
        Seq::empty()
    } else {
        channel_slice(p.data, k, p.channel_info[k].sample_count as int)
    }
}

/// The samples of physical channel `c` over all packets, in arrival order.
pub open spec fn channel_samples(ps: Seq<ProcessedView>, c: nat) -> Seq<i16>
    decreases ps.len(),
{
    if ps.len() == 0 {
        Seq::empty()
    } else {
        channel_samples(ps.drop_last(), c) + packet_channel(ps.last(), c)
    }
}

/// Every sample of every packet, in arrival order.
pub open spec fn all_samples(ps: Seq<ProcessedView>) -> Seq<i16>
    decreases ps.len(),
{
    if ps.len() == 0 {
        Seq::empty()
    } else {
        all_samples(ps.drop_last()) + ps.last().data
    }
}

pub open spec fn stats_entry(c: nat, s: Seq<i16>) -> ChannelStats {
    ChannelStats {
        channel_id: c as u8,
        sample_count: s.len() as usize,
        min_value: seq_min(s) as i16,
        max_value: seq_max(s) as i16,
        sum: seq_sum(s) as i128,
        sum_of_squares: seq_sum_sq(s) as u128,
    }
}

/// Per-channel statistics for the channels below `c` that hold samples.
pub open spec fn stats_upto(ps: Seq<ProcessedView>, c: nat) -> Seq<ChannelStats>
    decreases c,
{
    if c == 0 {
        Seq::empty()
    } else {
        let s = channel_samples(ps, (c - 1) as nat);
        stats_upto(ps, (c - 1) as nat) + if s.len() > 0 {
            seq![stats_entry((c - 1) as nat, s)]
        } else {
            Seq::empty()
        }
    }
}

pub open spec fn range_of(ps: Seq<ProcessedView>) -> Option<(i16, i16)> {
    let s = all_samples(ps);
    if s.len() == 0 {
        None
    } else {
        Some((seq_min(s) as i16, seq_max(s) as i16))
    }
}

/// Gap between packet `i - 1` and packet `i`, 0 when time went backwards.
pub open spec fn gap(ps: Seq<ProcessedView>, i: int) -> int {
    if ps[i].timestamp >= ps[i - 1].timestamp {
        ps[i].timestamp - ps[i - 1].timestamp
    } else {
        0
    }
}

pub open spec fn irregular(ps: Seq<ProcessedView>, i: int) -> bool {
    gap(ps, i) > 50 || gap(ps, i) == 0
}

/// First packet index at or after `i` whose gap to its predecessor is irregular, or -1.
pub open spec fn first_irregular(ps: Seq<ProcessedView>, i: int) -> int
    decreases ps.len() - i,
{
    if i < 1 || i >= ps.len() {
        -1
    } else if irregular(ps, i) {
        i
    } else {
        first_irregular(ps, i + 1)
    }
}

pub open spec fn timing_message(gap: int) -> Seq<char> {
    "Irregular timing detected: "@ + ascii_chars(dec_bytes(gap as nat)) + "ms gap"@
}

/// Quality of a completed burst.
pub open spec fn burst_quality(ps: Seq<ProcessedView>) -> QualityView {
    if ps.len() == 0 {
        QualityView::Error("No data packets in trigger burst"@)
    } else {
        let i = first_irregular(ps, 1);
        if i < 0 {
            QualityView::Good
        } else {
            QualityView::Warning(timing_message(gap(ps, i)))
        }
    }
}

pub open spec fn summary_of(ps: Seq<ProcessedView>) -> SummaryView {
    SummaryView {
        overall_quality: burst_quality(ps),
        channel_stats: stats_upto(ps, 16),
        value_range: range_of(ps),
        anomaly_count: 0,
    }
}

/// An open burst once it is closed.
pub open spec fn completed(b: BurstView) -> BurstView {
    BurstView { is_complete: true, summary: summary_of(b.packets), ..b }
}

proof fn lemma_channel_samples_len(ps: Seq<ProcessedView>, c: nat)
    requires
        forall|i: int| 0 <= i < ps.len() ==> packet_ok(#[trigger] ps[i]),
    ensures
        channel_samples(ps, c).len() <= sum_lens(ps),
    decreases ps.len(),
{
    if ps.len() > 0 {
        let q = ps.drop_last();
        assert forall|i: int| 0 <= i < q.len() implies packet_ok(#[trigger] q[i]) by {
            assert(q[i] == ps[i]);
        }
        lemma_channel_samples_len(q, c);
        let p = ps.last();
        assert(packet_ok(ps[ps.len() - 1]));
        let k = find_channel(p.channel_info, c, 0);
        lemma_find_channel_range(p.channel_info, c, 0);
        assert(channel_samples(ps, c) == channel_samples(q, c) + packet_channel(p, c));
        assert(sum_lens(ps) == sum_lens(q) + p.data.len());
        if k >= 0 {
            let n = p.channel_info[0].sample_count as int;
            assert(p.channel_info[k].sample_count as int == n);
            assert((k + 1) * n == k * n + n) by (nonlinear_arith);
            assert((k + 1) * n <= p.channel_count * n) by (nonlinear_arith)
                requires
                    k < p.channel_count,
                    n >= 0,
            ;
            assert(k * n >= 0) by (nonlinear_arith)
                requires
                    k >= 0,
                    n >= 0,
            ;
        }
    }
}

proof fn lemma_all_samples_len(ps: Seq<ProcessedView>)
    ensures
        all_samples(ps).len() == sum_lens(ps),
    decreases ps.len(),
{
    if ps.len() > 0 {
        lemma_all_samples_len(ps.drop_last());
    }
}

proof fn lemma_find_channel_range(ci: Seq<ChannelMetadata>, c: nat, i: int)
    requires
        0 <= i,
    ensures
        find_channel(ci, c, i) == -1 || (i <= find_channel(ci, c, i) < ci.len()
            && ci[find_channel(ci, c, i)].channel_id as nat == c),
    decreases ci.len() - i,
{
    if i < ci.len() && ci[i].channel_id as nat != c {
        lemma_find_channel_range(ci, c, i + 1);
    }
}

fn find_channel_exec(ci: &Vec<ChannelMetadata>, c: u8) -> (r: Option<usize>)
    ensures
        match r {
            Some(k) => k as int == find_channel(ci@, c as nat, 0),
            None => find_channel(ci@, c as nat, 0) == -1,
        },
{
    let mut i: usize = 0;
    while i < ci.len()
        invariant
            i <= ci@.len(),
            find_channel(ci@, c as nat, 0) == find_channel(ci@, c as nat, i as int),
        decreases ci@.len() - i,
    {
        if ci[i].channel_id == c {
            return Some(i);
        }
        i = i + 1;
    }
    None
}

/// Statistics of physical channel `c` over the packets of a burst.
fn channel_acc(ps: &Vec<ProcessedData>, c: u8, Ghost(total): Ghost<int>) -> (r: Acc)
    requires
        forall|i: int| 0 <= i < ps@.len() ==> packet_ok(#[trigger] packets_view(ps@)[i]),
        total == sum_lens(packets_view(ps@)),
        total <= usize::MAX,
    ensures
        acc_ok(r, channel_samples(packets_view(ps@), c as nat)),
{
    let ghost pv = packets_view(ps@);
    let mut acc = acc_new();
    let mut i: usize = 0;
    proof {
        lemma_channel_samples_len(pv, c as nat);
    }
    while i < ps.len()
        invariant
            i <= ps@.len(),
            pv == packets_view(ps@),
            forall|j: int| 0 <= j < ps@.len() ==> packet_ok(#[trigger] pv[j]),
            channel_samples(pv, c as nat).len() <= usize::MAX,
            acc_ok(acc, channel_samples(pv.subrange(0, i as int), c as nat)),
        decreases ps@.len() - i,
    {
        let p = &ps[i];
        let ghost pre = channel_samples(pv.subrange(0, i as int), c as nat);
        assert(pv.subrange(0, i + 1).drop_last() =~= pv.subrange(0, i as int));
        assert(pv[i as int] == p@);
        assert(packet_ok(pv[i as int]));
        let ghost full = pre + packet_channel(p@, c as nat);
        assert(channel_samples(pv.subrange(0, i + 1), c as nat) == full);
        proof {
            lemma_channel_samples_prefix(pv, c as nat, i + 1);
        }
        match find_channel_exec(&p.metadata.channel_info, c) {
            None => {
                assert(full =~= pre);
            },
            Some(k) => {
                proof {
                    lemma_find_channel_range(p@.channel_info, c as nat, 0);
                }
                let n = p.metadata.channel_info[k].sample_count;
                proof {
                    let n0 = p@.channel_info[0].sample_count as int;
                    assert(n as int == n0);
                    assert((k + 1) * n <= p@.channel_count * n) by (nonlinear_arith)
                        requires
                            k < p@.channel_count,
                    ;
                    assert((k + 1) * n == k * n + n) by (nonlinear_arith);
                    assert(p@.data.len() == p@.channel_count * n0);
                    assert(k * n <= p.data@.len());
                    assert(k * n <= p.data.len());
                }
                let start = k * n;
                let mut s: usize = 0;
                while s < n
                    invariant
                        s <= n,
                        i < ps@.len(),
                        pv.len() == ps@.len(),
                        start + n <= p.data.len(),
                        start == k * n,
                        pre == channel_samples(pv.subrange(0, i as int), c as nat),
                        full == pre + p.data@.subrange(start as int, start + n),
                        full.len() <= usize::MAX,
                        acc_ok(acc, pre + p.data@.subrange(start as int, start + s)),
                    decreases n - s,
                {
                    let v = p.data[start + s];
                    proof {
                        assert(pre + p.data@.subrange(start as int, start + s + 1) =~= (pre
                            + p.data@.subrange(start as int, start + s)).push(v));
                    }
                    acc = acc_push(acc, v, Ghost(pre + p.data@.subrange(start as int, start + s)));
                    s = s + 1;
                }
            },
        }
        i = i + 1;
    }
    assert(pv.subrange(0, ps@.len() as int) =~= pv);
    acc
}

proof fn lemma_channel_samples_prefix(ps: Seq<ProcessedView>, c: nat, m: int)
    requires
        0 <= m <= ps.len(),
    ensures
        channel_samples(ps.subrange(0, m), c).len() <= channel_samples(ps, c).len(),
    decreases ps.len() - m,
{
    if m < ps.len() {
        lemma_channel_samples_prefix(ps, c, m + 1);
        assert(ps.subrange(0, m + 1).drop_last() =~= ps.subrange(0, m));
    } else {
        assert(ps.subrange(0, m) =~= ps);
    }
}


proof fn lemma_all_samples_prefix(ps: Seq<ProcessedView>, m: int)
    requires
        0 <= m <= ps.len(),
    ensures
        all_samples(ps.subrange(0, m)).len() <= all_samples(ps).len(),
    decreases ps.len() - m,
{
    if m < ps.len() {
        lemma_all_samples_prefix(ps, m + 1);
        assert(ps.subrange(0, m + 1).drop_last() =~= ps.subrange(0, m));
    } else {
        assert(ps.subrange(0, m) =~= ps);
    }
}

/// Statistics of every sample of the burst.
fn all_acc(ps: &Vec<ProcessedData>, Ghost(total): Ghost<int>) -> (r: Acc)
    requires
        total == sum_lens(packets_view(ps@)),
        total <= usize::MAX,
    ensures
        acc_ok(r, all_samples(packets_view(ps@))),
{
    let ghost pv = packets_view(ps@);
    let mut acc = acc_new();
    let mut i: usize = 0;
    proof {
        lemma_all_samples_len(pv);
    }
    while i < ps.len()
        invariant
            i <= ps@.len(),
            pv == packets_view(ps@),
            all_samples(pv).len() <= usize::MAX,
            acc_ok(acc, all_samples(pv.subrange(0, i as int))),
        decreases ps@.len() - i,
    {
        let p = &ps[i];
        let ghost pre = all_samples(pv.subrange(0, i as int));
        assert(pv.subrange(0, i + 1).drop_last() =~= pv.subrange(0, i as int));
        assert(pv[i as int] == p@);
        let ghost full = pre + p@.data;
        assert(all_samples(pv.subrange(0, i + 1)) == full);
        proof {
            lemma_all_samples_prefix(pv, i + 1);
        }
        let mut s: usize = 0;
        while s < p.data.len()
            invariant
                s <= p.data@.len(),
                i < ps@.len(),
                pv.len() == ps@.len(),
                pre == all_samples(pv.subrange(0, i as int)),
                full == pre + p.data@,
                full.len() <= usize::MAX,
                acc_ok(acc, pre + p.data@.subrange(0, s as int)),
            decreases p.data@.len() - s,
        {
            let v = p.data[s];
            proof {
                assert(pre + p.data@.subrange(0, s + 1) =~= (pre + p.data@.subrange(0, s as int)).push(v));
            }
            acc = acc_push(acc, v, Ghost(pre + p.data@.subrange(0, s as int)));
            s = s + 1;
        }
        assert(p.data@.subrange(0, p.data@.len() as int) =~= p.data@);
        i = i + 1;
    }
    assert(pv.subrange(0, ps@.len() as int) =~= pv);
    acc
}

fn stats_of_channels(ps: &Vec<ProcessedData>, Ghost(total): Ghost<int>) -> (r: Vec<ChannelStats>)
    requires
        forall|i: int| 0 <= i < ps@.len() ==> packet_ok(#[trigger] packets_view(ps@)[i]),
        total == sum_lens(packets_view(ps@)),
        total <= usize::MAX,
    ensures
        r@ == stats_upto(packets_view(ps@), 16),
{
    let mut out: Vec<ChannelStats> = Vec::new();
    let mut c: u8 = 0;
    while c < 16
        invariant
            c <= 16,
            forall|i: int| 0 <= i < ps@.len() ==> packet_ok(#[trigger] packets_view(ps@)[i]),
            total == sum_lens(packets_view(ps@)),
            total <= usize::MAX,
            out@ == stats_upto(packets_view(ps@), c as nat),
        decreases 16 - c,
    {
        let a = channel_acc(ps, c, Ghost(total));
        if a.count > 0 {
            out.push(
                ChannelStats {
                    channel_id: c,
                    sample_count: a.count,
                    min_value: a.min_value,
                    max_value: a.max_value,
                    sum: a.sum,
                    sum_of_squares: a.sum_sq,
                },
            );
        }
        c = c + 1;
        assert(out@ =~= stats_upto(packets_view(ps@), c as nat));
    }
    out
}

/// Quality of a burst: incomplete, empty, irregularly timed, or good.
pub open spec fn burst_quality_of(b: BurstView) -> QualityView {
    if !b.is_complete {
        QualityView::Warning("Trigger data incomplete"@)
    } else {
        burst_quality(b.packets)
    }
}

fn assess_burst_quality(burst: &TriggerBurst) -> (r: DataQuality)
    ensures
        r@ == burst_quality_of(burst@),
{
    if !burst.is_complete {
        return DataQuality::Warning(String::from_str("Trigger data incomplete"));
    }
    let ps = &burst.data_packets;
    let ghost pv = packets_view(ps@);
    if ps.len() == 0 {
        return DataQuality::Error(String::from_str("No data packets in trigger burst"));
    }
    let mut i: usize = 1;
    while i < ps.len()
        invariant
            1 <= i <= ps@.len(),
            pv == packets_view(ps@),
            pv == burst@.packets,
            burst@.is_complete,
            first_irregular(pv, 1) == first_irregular(pv, i as int),
        decreases ps@.len() - i,
    {
        let prev = ps[i - 1].timestamp;
        let cur = ps[i].timestamp;
        let diff: u64 = if cur >= prev {
            cur - prev
        } else {
            0
        };
        assert(pv[i as int] == ps@[i as int]@ && pv[i - 1] == ps@[i - 1]@);
        assert(gap(pv, i as int) == diff as int);
        if diff > 50 || diff == 0 {
            assert(first_irregular(pv, i as int) == i as int);
            let mut msg = String::from_str("Irregular timing detected: ");
            push_decimal_chars(&mut msg, diff);
            msg.append("ms gap");
            assert(msg@ == timing_message(diff as int));
            assert(burst_quality(pv) == QualityView::Warning(timing_message(gap(pv, i as int))));
            return DataQuality::Warning(msg);
        }
        i = i + 1;
    }
    DataQuality::Good
}

/// Computes the summary of a closed burst.
fn calculate_quality_summary(burst: &mut TriggerBurst)
    requires
        old(burst)@.is_complete,
        burst_ok(old(burst)@),
    ensures
        final(burst)@ == (BurstView { summary: summary_of(old(burst)@.packets), ..old(burst)@ }),
{
    let ghost total = burst.total_samples as int;
    let stats = stats_of_channels(&burst.data_packets, Ghost(total));
    let all = all_acc(&burst.data_packets, Ghost(total));
    let range = if all.count == 0 {
        None
    } else {
        Some((all.min_value, all.max_value))
    };
    let quality = assess_burst_quality(burst);
    burst.quality_summary = DataQualitySummary {
        overall_quality: quality,
        channel_stats: stats,
        value_range: range,
        anomaly_count: 0,
    };
}

// ---------------------------------------------------------------- cache

/// Index of the cached burst with id `id` at or after `i`, or -1.
pub open spec fn find_burst(cache: Seq<BurstView>, id: Seq<char>, i: int) -> int
    decreases cache.len() - i,
{
    if i < 0 || i >= cache.len() {
        -1
    } else if cache[i].burst_id == id {
        i
    } else {
        find_burst(cache, id, i + 1)
    }
}

/// Index of the first burst with the smallest `created_at` among the first `n`.
pub open spec fn oldest_upto(cache: Seq<BurstView>, n: int) -> int
    decreases n,
{
    if n <= 1 {
        0
    } else {
        let j = oldest_upto(cache, n - 1);
        if cache[n - 1].created_at < cache[j].created_at {
            n - 1
        } else {
            j
        }
    }
}

/// The cache after `b` is stored under its id and, past `capacity`, the oldest is evicted.
pub open spec fn cache_insert(cache: Seq<BurstView>, b: BurstView, capacity: int) -> Seq<BurstView> {
    let i = find_burst(cache, b.burst_id, 0);
    let c1 = if i >= 0 {
        cache.remove(i).push(b)
    } else {
        cache.push(b)
    };
    if c1.len() > capacity {
        c1.remove(oldest_upto(c1, c1.len() as int))
    } else {
        c1
    }
}

proof fn lemma_oldest_range(cache: Seq<BurstView>, n: int)
    requires
        1 <= n,
    ensures
        0 <= oldest_upto(cache, n) < n,
        forall|k: int| 0 <= k < n ==> cache[oldest_upto(cache, n)].created_at <= #[trigger] cache[k].created_at,
    decreases n,
{
    if n > 1 {
        lemma_oldest_range(cache, n - 1);
    }
}

pub proof fn lemma_find_burst_index(cache: Seq<BurstView>, id: Seq<char>)
    ensures
        find_burst(cache, id, 0) != -1 ==> 0 <= find_burst(cache, id, 0) < cache.len()
            && cache[find_burst(cache, id, 0)].burst_id == id,
{
    lemma_find_burst_range(cache, id, 0);
}

proof fn lemma_find_burst_range(cache: Seq<BurstView>, id: Seq<char>, i: int)
    requires
        0 <= i,
    ensures
        find_burst(cache, id, i) == -1 ==> forall|k: int| i <= k < cache.len() ==> #[trigger] cache[k].burst_id != id,
        find_burst(cache, id, i) != -1 ==> i <= find_burst(cache, id, i) < cache.len()
            && cache[find_burst(cache, id, i)].burst_id == id,
    decreases cache.len() - i,
{
    if i < cache.len() && cache[i].burst_id != id {
        lemma_find_burst_range(cache, id, i + 1);
    }
}

fn find_burst_exec(cache: &Vec<TriggerBurst>, id: &str) -> (r: Option<usize>)
    ensures
        match r {
            Some(k) => k as int == find_burst(bursts_view(cache@), id@, 0) && k < cache@.len(),
            None => find_burst(bursts_view(cache@), id@, 0) == -1,
        },
{
    let ghost cv = bursts_view(cache@);
    let mut i: usize = 0;
    while i < cache.len()
        invariant
            i <= cache@.len(),
            cv == bursts_view(cache@),
            find_burst(cv, id@, 0) == find_burst(cv, id@, i as int),
        decreases cache@.len() - i,
    {
        assert(cv[i as int] == cache@[i as int]@);
        if str_eq(cache[i].burst_id.as_str(), id) {
            return Some(i);
        }
        i = i + 1;
    }
    None
}

fn oldest_exec(cache: &Vec<TriggerBurst>) -> (r: usize)
    requires
        cache@.len() >= 1,
    ensures
        r as int == oldest_upto(bursts_view(cache@), cache@.len() as int),
{
    let ghost cv = bursts_view(cache@);
    let mut best: usize = 0;
    let mut n: usize = 1;
    while n < cache.len()
        invariant
            1 <= n <= cache@.len(),
            cv == bursts_view(cache@),
            best as int == oldest_upto(cv, n as int),
        decreases cache@.len() - n,
    {
        proof {
            lemma_oldest_range(cv, n as int);
        }
        assert(cv[n as int] == cache@[n as int]@ && cv[best as int] == cache@[best as int]@);
        if cache[n].created_at < cache[best].created_at {
            best = n;
        }
        n = n + 1;
    }
    best
}


proof fn lemma_cache_insert_wf(cache: Seq<BurstView>, b: BurstView, capacity: usize)
    requires
        (ProcessorView {
            packet_sequence: 0,
            burst_sequence: 0,
            trigger_timestamp: None,
            current: None,
            cache,
            capacity,
            triggers_received: 0,
        }).wf(),
        b.is_complete,
        burst_ok(b),
    ensures
        (ProcessorView {
            packet_sequence: 0,
            burst_sequence: 0,
            trigger_timestamp: None,
            current: None,
            cache: cache_insert(cache, b, capacity as int),
            capacity,
            triggers_received: 0,
        }).wf(),
{
    let i = find_burst(cache, b.burst_id, 0);
    lemma_find_burst_range(cache, b.burst_id, 0);
    let c0 = if i >= 0 {
        cache.remove(i)
    } else {
        cache
    };
    assert forall|x: int, y: int| 0 <= x < y < c0.len() implies (#[trigger] c0[x]).burst_id
        != (#[trigger] c0[y]).burst_id by {
        if i >= 0 {
            let x0 = if x < i { x } else { x + 1 };
            let y0 = if y < i { y } else { y + 1 };
            assert(c0[x] == cache[x0] && c0[y] == cache[y0]);
        }
    }
    assert forall|x: int| 0 <= x < c0.len() implies (#[trigger] c0[x]).burst_id != b.burst_id && c0[x].is_complete
        && burst_ok(c0[x]) by {
        if i >= 0 {
            let x0 = if x < i { x } else { x + 1 };
            assert(c0[x] == cache[x0]);
            assert(cache[x0].burst_id != cache[i].burst_id) by {
                if x0 < i {
                    assert(cache[x0].burst_id != cache[i].burst_id);
                } else {
                    assert(cache[i].burst_id != cache[x0].burst_id);
                }
            }
        }
    }
    let c1 = c0.push(b);
    assert(i >= 0 ==> c1 == cache.remove(i).push(b));
    assert forall|x: int, y: int| 0 <= x < y < c1.len() implies (#[trigger] c1[x]).burst_id
        != (#[trigger] c1[y]).burst_id by {
        if y < c0.len() {
            assert(c1[x] == c0[x] && c1[y] == c0[y]);
        } else {
            assert(c1[x] == c0[x]);
        }
    }
    assert forall|x: int| 0 <= x < c1.len() implies (#[trigger] c1[x]).is_complete && burst_ok(c1[x]) by {
        if x < c0.len() {
            assert(c1[x] == c0[x]);
        }
    }
    if c1.len() > capacity {
        lemma_oldest_range(c1, c1.len() as int);
        let o = oldest_upto(c1, c1.len() as int);
        let c2 = c1.remove(o);
        assert forall|x: int, y: int| 0 <= x < y < c2.len() implies (#[trigger] c2[x]).burst_id
            != (#[trigger] c2[y]).burst_id by {
            let x0 = if x < o { x } else { x + 1 };
            let y0 = if y < o { y } else { y + 1 };
            assert(c2[x] == c1[x0] && c2[y] == c1[y0]);
        }
        assert forall|x: int| 0 <= x < c2.len() implies (#[trigger] c2[x]).is_complete && burst_ok(c2[x]) by {
            let x0 = if x < o { x } else { x + 1 };
            assert(c2[x] == c1[x0]);
        }
    }
}

/// What the burst list reports of one cached burst.
#[derive(Debug, Clone)]
pub struct TriggerSummary {
    pub burst_id: String,
    pub trigger_timestamp: u32,
    pub trigger_channel: u16,
    pub total_samples: usize,
    /// Time from the first to the last packet, in milliseconds.
    pub duration_ms: i128,
    pub created_at: i64,
    pub quality: String,
    pub can_save: bool,
}

pub struct TriggerSummaryView {
    pub burst_id: Seq<char>,
    pub trigger_timestamp: u32,
    pub trigger_channel: u16,
    pub total_samples: usize,
    pub duration_ms: i128,
    pub created_at: i64,
    pub quality: Seq<char>,
    pub can_save: bool,
}

impl View for TriggerSummary {
    type V = TriggerSummaryView;

    open spec fn view(&self) -> TriggerSummaryView {
        TriggerSummaryView {
            burst_id: self.burst_id@,
            trigger_timestamp: self.trigger_timestamp,
            trigger_channel: self.trigger_channel,
            total_samples: self.total_samples,
            duration_ms: self.duration_ms,
            created_at: self.created_at,
            quality: self.quality@,
            can_save: self.can_save,
        }
    }
}

/// Time from the first to the last packet of a burst; 0 with fewer than two packets.
pub open spec fn duration_of(b: BurstView) -> i128 {
    if b.packets.len() <= 1 {
        0
    } else {
        (b.packets.last().timestamp - b.packets[0].timestamp) as i128
    }
}

pub open spec fn quality_label(q: QualityView) -> Seq<char> {
    match q {
        QualityView::Good => "Good"@,
        QualityView::Warning(_) => "Warning"@,
        QualityView::Error(_) => "Error"@,
    }
}

pub open spec fn summary_item(b: BurstView) -> TriggerSummaryView {
    TriggerSummaryView {
        burst_id: b.burst_id,
        trigger_timestamp: b.trigger_timestamp,
        trigger_channel: b.trigger_channel,
        total_samples: b.total_samples,
        duration_ms: duration_of(b),
        created_at: b.created_at,
        quality: quality_label(b.summary.overall_quality),
        can_save: b.is_complete && b.packets.len() > 0,
    }
}

pub open spec fn summaries_view(s: Seq<TriggerSummary>) -> Seq<TriggerSummaryView> {
    s.map_values(|t: TriggerSummary| t@)
}


impl TriggerBurst {
    /// What the burst list reports of this burst.
    pub fn summary(&self) -> (r: TriggerSummary)
        ensures
            r@ == summary_item(self@),
    {
        TriggerSummary {
            burst_id: self.burst_id.clone(),
            trigger_timestamp: self.trigger_timestamp,
            trigger_channel: self.trigger_channel,
            total_samples: self.total_samples,
            duration_ms: DataProcessor::calculate_duration_ms_of(self),
            created_at: self.created_at,
            quality: String::from_str(self.quality_summary.overall_quality.label()),
            can_save: self.is_complete && self.data_packets.len() > 0,
        }
    }

    /// Time from the first to the last packet, in milliseconds.
    pub fn duration_ms(&self) -> (r: i128)
        ensures
            r == duration_of(self@),
    {
        DataProcessor::calculate_duration_ms_of(self)
    }
}

/// How many samples a completed-burst notice previews.
pub const PREVIEW_SAMPLES: usize = 100;

/// The first `PREVIEW_SAMPLES` samples of the packets, or all when fewer.
pub open spec fn preview_of(ps: Seq<ProcessedView>) -> Seq<i16> {
    let all = all_samples(ps);
    if all.len() <= PREVIEW_SAMPLES {
        all
    } else {
        all.take(PREVIEW_SAMPLES as int)
    }
}

proof fn lemma_all_samples_prefix_of(ps: Seq<ProcessedView>, m: int)
    requires
        0 <= m <= ps.len(),
    ensures
        all_samples(ps.subrange(0, m)).len() <= all_samples(ps).len(),
        all_samples(ps.subrange(0, m)) =~= all_samples(ps).take(all_samples(ps.subrange(0, m)).len() as int),
    decreases ps.len() - m,
{
    if m < ps.len() {
        lemma_all_samples_prefix_of(ps, m + 1);
        assert(ps.subrange(0, m + 1).drop_last() =~= ps.subrange(0, m));
    } else {
        assert(ps.subrange(0, m) =~= ps);
    }
}

impl TriggerBurst {
    /// The first samples of the burst, for a quick look.
    pub fn preview_samples(&self) -> (r: Vec<i16>)
        ensures
            r@ == preview_of(self@.packets),
    {
        let ghost pv = self@.packets;
        let mut out: Vec<i16> = Vec::new();
        let mut i: usize = 0;
        assert(pv.subrange(0, 0) =~= Seq::<ProcessedView>::empty());
        while i < self.data_packets.len()
            invariant
                i <= pv.len(),
                pv == self@.packets,
                pv.len() == self.data_packets@.len(),
                out@ == all_samples(pv.subrange(0, i as int)),
                out@.len() < PREVIEW_SAMPLES,
            decreases pv.len() - i,
        {
            let p = &self.data_packets[i];
            assert(pv[i as int] == p@);
            let ghost pre = out@;
            assert(pv.subrange(0, i + 1).drop_last() =~= pv.subrange(0, i as int));
            assert(all_samples(pv.subrange(0, i + 1)) == pre + p@.data);
            let mut s: usize = 0;
            while s < p.data.len()
                invariant
                    s <= p.data@.len(),
                    i < pv.len(),
                    pv == self@.packets,
                    all_samples(pv.subrange(0, i + 1)) == pre + p.data@,
                    out@ == pre + p.data@.subrange(0, s as int),
                    out@.len() < PREVIEW_SAMPLES,
                decreases p.data@.len() - s,
            {
                out.push(p.data[s]);
                s = s + 1;
                assert(out@ =~= pre + p.data@.subrange(0, s as int));
                if out.len() >= PREVIEW_SAMPLES {
                    proof {
                        lemma_all_samples_prefix_of(pv, i + 1);
                        let full = all_samples(pv.subrange(0, i + 1));
                        assert(out@ =~= full.take(PREVIEW_SAMPLES as int));
                        assert(full =~= all_samples(pv).take(full.len() as int));
                        assert(out@ =~= all_samples(pv).take(PREVIEW_SAMPLES as int));
                    }
                    return out;
                }
            }
            assert(p.data@.subrange(0, p.data@.len() as int) =~= p.data@);
            i = i + 1;
        }
        assert(pv.subrange(0, pv.len() as int) =~= pv);
        out
    }
}

/// A counter raised by one, staying at its largest value.
pub open spec fn add_one_capped(n: u64) -> u64 {
    if n < u64::MAX {
        (n + 1) as u64
    } else {
        n
    }
}

/// Identifier of a burst opened by `event` at `now_ms`.
pub open spec fn burst_id_of(event: TriggerEvent, now_ms: i64) -> Seq<char> {
    "trigger_"@ + ascii_chars(dec_bytes(event.timestamp as nat)) + "_"@ + ascii_chars(
        signed_dec_bytes(now_ms as int),
    )
}

/// The burst that `event` opens at `now_ms`.
pub open spec fn opened_burst(event: TriggerEvent, now_ms: i64) -> BurstView {
    BurstView {
        burst_id: burst_id_of(event, now_ms),
        trigger_timestamp: event.timestamp,
        trigger_channel: event.channel,
        pre_samples: event.pre_samples,
        post_samples: event.post_samples,
        packets: Seq::empty(),
        is_complete: false,
        total_samples: 0,
        created_at: now_ms,
        summary: SummaryView {
            overall_quality: QualityView::Good,
            channel_stats: Seq::empty(),
            value_range: None,
            anomaly_count: 0,
        },
    }
}

impl DataProcessor {
    /// Time from the first to the last packet of a burst.
    pub fn calculate_duration_ms(&self, burst: &TriggerBurst) -> (r: i128)
        ensures
            r == duration_of(burst@),
    {
        Self::calculate_duration_ms_of(burst)
    }

    fn calculate_duration_ms_of(burst: &TriggerBurst) -> (r: i128)
        ensures
            r == duration_of(burst@),
    {
        let n = burst.data_packets.len();
        if n <= 1 {
            return 0;
        }
        let first = burst.data_packets[0].timestamp;
        let last = burst.data_packets[n - 1].timestamp;
        assert(burst@.packets[0] == burst.data_packets@[0]@);
        assert(burst@.packets.last() == burst.data_packets@[n - 1]@);
        last as i128 - first as i128
    }

    /// Opens a new burst for `event`, stamped with the current time; an
    /// open burst is abandoned.
    pub fn start_trigger_burst(&mut self, event: &TriggerEvent) -> (r: String)
        requires
            old(self)@.wf(),
        ensures
            final(self)@.wf(),
            exists|now: i64|
                final(self)@ == (ProcessorView {
                    current: Some(opened_burst(*event, now)),
                    triggers_received: add_one_capped(old(self)@.triggers_received),
                    ..old(self)@
                }) && r@ == burst_id_of(*event, now),
    {
        let now = now_millis();
        self.start_trigger_burst_at(event, now)
    }

    /// Opens a new burst for `event` created at `now_ms`; an open burst is abandoned.
    pub fn start_trigger_burst_at(&mut self, event: &TriggerEvent, now_ms: i64) -> (r: String)
        requires
            old(self)@.wf(),
        ensures
            final(self)@.wf(),
            final(self)@ == (ProcessorView {
                current: Some(opened_burst(*event, now_ms)),
                triggers_received: add_one_capped(old(self)@.triggers_received),
                ..old(self)@
            }),
            r@ == burst_id_of(*event, now_ms),
    {
        if self.triggers_received < u64::MAX {
            self.triggers_received = self.triggers_received + 1;
        }
        let mut id = String::from_str("trigger_");
        push_decimal_chars(&mut id, event.timestamp as u64);
        id.append("_");
        push_signed_decimal_chars(&mut id, now_ms);
        let burst = TriggerBurst {
            burst_id: id.clone(),
            trigger_timestamp: event.timestamp,
            trigger_channel: event.channel,
            pre_samples: event.pre_samples,
            post_samples: event.post_samples,
            data_packets: Vec::new(),
            is_complete: false,
            total_samples: 0,
            created_at: now_ms,
            quality_summary: DataQualitySummary {
                overall_quality: DataQuality::Good,
                channel_stats: Vec::new(),
                value_range: None,
                anomaly_count: 0,
            },
        };
        assert(burst@.packets =~= Seq::<ProcessedView>::empty());
        assert(burst@.summary.channel_stats =~= Seq::<ChannelStats>::empty());
        self.current_trigger_burst = Some(burst);
        id
    }

    /// Closes the open burst: computes its summary, marks it complete and
    /// stores it in the cache, evicting the oldest past capacity.
    pub fn complete_trigger_burst(&mut self) -> (r: Option<TriggerBurst>)
        requires
            old(self)@.wf(),
        ensures
            final(self)@.wf(),
            old(self)@.current is None ==> r is None && final(self)@ == old(self)@,
            old(self)@.current matches Some(b) ==> (r matches Some(c) && c@ == completed(b) && final(self)@
                == (ProcessorView {
                current: None,
                cache: cache_insert(old(self)@.cache, completed(b), old(self)@.capacity as int),
                ..old(self)@
            })),
    {
        let taken = self.current_trigger_burst.take();
        match taken {
            None => None,
            Some(burst0) => {
                let mut burst = burst0;
                let ghost b0 = burst@;
                burst.is_complete = true;
                calculate_quality_summary(&mut burst);
                assert(burst@ == completed(b0));
                let out = burst.copy();
                let ghost c0 = self@.cache;
                proof {
                    lemma_cache_insert_wf(c0, burst@, self.max_cached_bursts);
                }
                match find_burst_exec(&self.completed_trigger_bursts, burst.burst_id.as_str()) {
                    Some(i) => {
                        let ghost before = self.completed_trigger_bursts@;
                        self.completed_trigger_bursts.remove(i);
                        assert(bursts_view(self.completed_trigger_bursts@) =~= bursts_view(before).remove(i as int));
                    },
                    None => {},
                }
                let ghost mid = self.completed_trigger_bursts@;
                self.completed_trigger_bursts.push(burst);
                assert(bursts_view(self.completed_trigger_bursts@) =~= bursts_view(mid).push(out@));
                if self.completed_trigger_bursts.len() > self.max_cached_bursts {
                    let o = oldest_exec(&self.completed_trigger_bursts);
                    let ghost before = self.completed_trigger_bursts@;
                    proof {
                        lemma_oldest_range(bursts_view(before), before.len() as int);
                    }
                    self.completed_trigger_bursts.remove(o);
                    assert(bursts_view(self.completed_trigger_bursts@) =~= bursts_view(before).remove(o as int));
                }
                Some(out)
            },
        }
    }

    /// The cached burst with id `burst_id`.
    pub fn get_trigger_burst(&self, burst_id: &str) -> (r: Option<&TriggerBurst>)
        ensures
            find_burst(self@.cache, burst_id@, 0) == -1 ==> r is None,
            find_burst(self@.cache, burst_id@, 0) != -1 ==> (r matches Some(b) && b@ == self@.cache[find_burst(
                self@.cache,
                burst_id@,
                0,
            )]),
    {
        match find_burst_exec(&self.completed_trigger_bursts, burst_id) {
            Some(i) => Some(&self.completed_trigger_bursts[i]),
            None => None,
        }
    }

    /// Forgets the cached burst with id `burst_id`; false when there is none.
    pub fn remove_trigger_burst(&mut self, burst_id: &str) -> (r: bool)
        requires
            old(self)@.wf(),
        ensures
            final(self)@.wf(),
            r == (find_burst(old(self)@.cache, burst_id@, 0) != -1),
            r ==> final(self)@ == (ProcessorView {
                cache: old(self)@.cache.remove(find_burst(old(self)@.cache, burst_id@, 0)),
                ..old(self)@
            }),
            !r ==> final(self)@ == old(self)@,
    {
        match find_burst_exec(&self.completed_trigger_bursts, burst_id) {
            Some(i) => {
                let ghost before = self.completed_trigger_bursts@;
                self.completed_trigger_bursts.remove(i);
                assert(bursts_view(self.completed_trigger_bursts@) =~= bursts_view(before).remove(i as int));
                proof {
                    let c0 = bursts_view(before);
                    let c2 = c0.remove(i as int);
                    assert forall|x: int, y: int| 0 <= x < y < c2.len() implies (#[trigger] c2[x]).burst_id
                        != (#[trigger] c2[y]).burst_id by {
                        let x0 = if x < i { x } else { x + 1 };
                        let y0 = if y < i { y } else { y + 1 };
                        assert(c2[x] == c0[x0] && c2[y] == c0[y0]);
                    }
                    assert forall|x: int| 0 <= x < c2.len() implies (#[trigger] c2[x]).is_complete && burst_ok(c2[x]) by {
                        let x0 = if x < i { x } else { x + 1 };
                        assert(c2[x] == c0[x0]);
                    }
                }
                true
            },
            None => false,
        }
    }

    /// Summaries of the cached bursts, newest `created_at` first.
    pub fn get_trigger_summaries(&self) -> (r: Vec<TriggerSummary>)
        ensures
            summaries_view(r@).to_multiset() == self@.cache.map_values(|b: BurstView| summary_item(b)).to_multiset(),
            forall|i: int, j: int|
                0 <= i < j < r@.len() ==> (#[trigger] r@[i]).created_at >= (#[trigger] r@[j]).created_at,
    {
        let ghost items = self@.cache.map_values(|b: BurstView| summary_item(b));
        let mut out: Vec<TriggerSummary> = Vec::new();
        let mut i: usize = 0;
        assert(summaries_view(out@) =~= items.subrange(0, 0));
        while i < self.completed_trigger_bursts.len()
            invariant
                i <= self@.cache.len(),
                self@.cache.len() == self.completed_trigger_bursts@.len(),
                items == self@.cache.map_values(|b: BurstView| summary_item(b)),
                summaries_view(out@).to_multiset() == items.subrange(0, i as int).to_multiset(),
                forall|x: int, y: int|
                    0 <= x < y < out@.len() ==> (#[trigger] out@[x]).created_at >= (#[trigger] out@[y]).created_at,
            decreases self@.cache.len() - i,
        {
            let item = self.completed_trigger_bursts[i].summary();
            assert(self@.cache[i as int] == self.completed_trigger_bursts@[i as int]@);
            let mut pos: usize = 0;
            while pos < out.len() && out[pos].created_at >= item.created_at
                invariant
                    pos <= out@.len(),
                    forall|x: int| 0 <= x < pos ==> (#[trigger] out@[x]).created_at >= item.created_at,
                decreases out@.len() - pos,
            {
                pos = pos + 1;
            }
            let ghost before = out@;
            out.insert(pos, item);
            proof {
                assert(summaries_view(out@) =~= summaries_view(before).insert(pos as int, item@));
                vstd::seq_lib::to_multiset_insert(summaries_view(before), pos as int, item@);
                assert(items.subrange(0, i + 1) =~= items.subrange(0, i as int).push(item@));
                vstd::seq_lib::to_multiset_build(items.subrange(0, i as int), item@);
                assert forall|x: int, y: int|
                    0 <= x < y < out@.len() implies (#[trigger] out@[x]).created_at >= (#[trigger] out@[y]).created_at by {
                    if x < pos {
                        assert(out@[x] == before[x]);
                        if y < pos {
                            assert(out@[y] == before[y]);
                        } else if y > pos {
                            assert(out@[y] == before[y - 1]);
                            assert(before[x].created_at >= before[y - 1].created_at);
                        }
                    } else if x == pos {
                        assert(out@[y] == before[y - 1]);
                        if pos < before.len() {
                            assert(before[pos as int].created_at < item.created_at);
                            if y - 1 > pos {
                                assert(before[pos as int].created_at >= before[y - 1].created_at);
                            }
                        }
                    } else {
                        assert(out@[x] == before[x - 1] && out@[y] == before[y - 1]);
                    }
                }
            }
            i = i + 1;
        }
        assert(items.subrange(0, i as int) =~= items);
        out
    }
}

/// Each accepted packet is numbered one past the previous one, and the
/// processor's counter moves with it, so the numbers handed out over the
/// processor's lifetime go up by exactly one each time.
pub proof fn lemma_sequence_step(s: ProcessorView, packet: DataPacket, p: ProcessedView)
    requires
        s.packet_sequence < u64::MAX,
        decoded_as(p, packet, (s.packet_sequence + 1) as u64, label_after(s, packet.data_type)),
    ensures
        p.sequence == s.packet_sequence + 1,
        state_after_packet(s, packet.data_type, p).packet_sequence == p.sequence,
{
}

/// An accepted packet decodes to one value per enabled channel and sample.
pub proof fn lemma_decode_length(p: ProcessedView, packet: DataPacket, sequence: u64, data_type: ProcessedDataType)
    requires
        decoded_as(p, packet, sequence, data_type),
    ensures
        p.channel_count == popcount(packet.enabled_channels),
        p.data.len() == popcount(packet.enabled_channels) * packet.sample_count,
{
}

/// Appending a packet to the open burst keeps its sample total equal to
/// the samples its packets hold.
pub proof fn lemma_burst_total_kept(s: ProcessorView, t: DataType, p: ProcessedView)
    requires
        s.current matches Some(b) ==> b.total_samples == sum_lens(b.packets),
    ensures
        state_after_packet(s, t, p).current matches Some(b) ==> b.total_samples == sum_lens(b.packets),
{
    if let Some(b) = s.current {
        lemma_sum_lens_push(b.packets, p);
    }
}

/// Every burst that the processor holds, open or cached, carries exactly as
/// many samples as its packets hold, and the cache never exceeds its capacity.
pub proof fn lemma_burst_invariants(s: ProcessorView)
    requires
        s.wf(),
    ensures
        s.cache.len() <= s.capacity,
        forall|i: int| 0 <= i < s.cache.len() ==> (#[trigger] s.cache[i]).total_samples == sum_lens(s.cache[i].packets),
        s.current matches Some(b) ==> b.total_samples == sum_lens(b.packets),
{
}

} // verus!
