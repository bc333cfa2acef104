//! Export of a completed burst as CSV text or as little-endian binary.

use vstd::prelude::*;
use crate::processing::{
    burst_ok, find_burst, packet_ok, summary_item, BurstView, DataProcessor, ProcessedView, TriggerBurst,
    TriggerSummary,
};
use crate::text::{dec_bytes, push_decimal, push_signed_decimal, signed_dec_bytes, str_eq};

verus! {

// ---------------------------------------------------------------- CSV

pub open spec fn csv_header() -> Seq<u8> {
    seq![116u8, 105, 109, 101, 115, 116, 97, 109, 112, 95, 109, 115, 44, 99, 104, 97, 110, 110, 101, 108, 95, 105, 100, 44, 115, 97, 109, 112, 108, 101, 95, 105, 110, 100, 101, 120, 44, 118, 97, 108, 117, 101, 10]
}

/// `.000000` and a line end: samples are whole numbers.
pub open spec fn csv_fraction() -> Seq<u8> {
    seq![46u8, 48, 48, 48, 48, 48, 48, 10]
}

pub open spec fn csv_row(ts: u64, ch: nat, idx: nat, v: i16) -> Seq<u8> {
    dec_bytes(ts as nat) + seq![44u8] + dec_bytes(ch) + seq![44u8] + dec_bytes(idx) + seq![44u8]
        + signed_dec_bytes(v as int) + csv_fraction()
}

/// Samples per channel of a decoded packet.
pub open spec fn per_channel(p: ProcessedView) -> int {
    p.channel_info[0].sample_count as int
}

/// Rows of the first `m` samples of channel position `ch`.
pub open spec fn channel_rows(p: ProcessedView, ch: nat, m: nat) -> Seq<u8>
    decreases m,
{
    if m == 0 {
        Seq::empty()
    } else {
        channel_rows(p, ch, (m - 1) as nat) + csv_row(
            p.timestamp,
            ch,
            (m - 1) as nat,
            p.data[ch * per_channel(p) + m - 1],
        )
    }
}

/// Rows of the first `c` channels of a packet, channel after channel.
pub open spec fn packet_rows(p: ProcessedView, c: nat) -> Seq<u8>
    decreases c,
{
    if c == 0 {
        Seq::empty()
    } else {
        packet_rows(p, (c - 1) as nat) + channel_rows(p, (c - 1) as nat, per_channel(p) as nat)
    }
}

pub open spec fn csv_body(ps: Seq<ProcessedView>) -> Seq<u8>
    decreases ps.len(),
{
    if ps.len() == 0 {
        Seq::empty()
    } else {
        csv_body(ps.drop_last()) + packet_rows(ps.last(), ps.last().channel_count as nat)
    }
}

pub open spec fn csv_of(b: BurstView) -> Seq<u8> {
    csv_header() + csv_body(b.packets)
}

fn push_all(out: &mut Vec<u8>, bytes: &Vec<u8>)
    ensures
        final(out)@ == old(out)@ + bytes@,
{
    let mut i: usize = 0;
    while i < bytes.len()
        invariant
            i <= bytes@.len(),
            out@ == old(out)@ + bytes@.subrange(0, i as int),
        decreases bytes@.len() - i,
    {
        out.push(bytes[i]);
        i = i + 1;
        assert(out@ =~= old(out)@ + bytes@.subrange(0, i as int));
    }
    assert(bytes@.subrange(0, bytes@.len() as int) =~= bytes@);
}

fn push_csv_row(out: &mut Vec<u8>, ts: u64, ch: usize, idx: usize, v: i16)
    ensures
        final(out)@ == old(out)@ + csv_row(ts, ch as nat, idx as nat, v),
{
    push_decimal(out, ts);
    out.push(44u8);
    push_decimal(out, ch as u64);
    out.push(44u8);
    push_decimal(out, idx as u64);
    out.push(44u8);
    push_signed_decimal(out, v as i64);
    let fraction: Vec<u8> = vec![46u8, 48, 48, 48, 48, 48, 48, 10];
    assert(fraction@ =~= csv_fraction());
    push_all(out, &fraction);
    assert(final(out)@ =~= old(out)@ + csv_row(ts, ch as nat, idx as nat, v));
}

fn push_packet_rows(out: &mut Vec<u8>, p: &crate::processing::ProcessedData)
    requires
        packet_ok(p@),
    ensures
        final(out)@ == old(out)@ + packet_rows(p@, p@.channel_count as nat),
{
    let n = p.metadata.channel_info[0].sample_count;
    let cc = p.channel_count;
    let mut ch: usize = 0;
    while ch < cc
        invariant
            ch <= cc,
            cc == p@.channel_count,
            n == per_channel(p@),
            packet_ok(p@),
            out@ == old(out)@ + packet_rows(p@, ch as nat),
        decreases cc - ch,
    {
        let mut idx: usize = 0;
        let ghost base = out@;
        assert((ch + 1) * n <= cc * n) by (nonlinear_arith)
            requires
                ch < cc,
        ;
        assert((ch + 1) * n == ch * n + n) by (nonlinear_arith);
        assert(cc * n == p.data@.len());
        while idx < n
            invariant
                idx <= n,
                ch < cc,
                cc == p@.channel_count,
                n == per_channel(p@),
                ch * n + n <= p.data.len(),
                out@ == base + channel_rows(p@, ch as nat, idx as nat),
            decreases n - idx,
        {
            push_csv_row(out, p.timestamp, ch, idx, p.data[ch * n + idx]);
            idx = idx + 1;
            assert(out@ =~= base + channel_rows(p@, ch as nat, idx as nat));
        }
        ch = ch + 1;
        assert(out@ =~= old(out)@ + packet_rows(p@, ch as nat));
    }
}

/// The burst as CSV: a header, then one row per sample.
pub fn export_burst_as_csv(burst: &TriggerBurst) -> (r: Vec<u8>)
    requires
        burst_ok(burst@),
    ensures
        r@ == csv_of(burst@),
{
    let mut out: Vec<u8> = vec![116u8, 105, 109, 101, 115, 116, 97, 109, 112, 95, 109, 115, 44, 99, 104, 97, 110, 110, 101, 108, 95, 105, 100, 44, 115, 97, 109, 112, 108, 101, 95, 105, 110, 100, 101, 120, 44, 118, 97, 108, 117, 101, 10];
    assert(out@ =~= csv_header());
    let ghost pv = burst@.packets;
    let mut i: usize = 0;
    while i < burst.data_packets.len()
        invariant
            i <= pv.len(),
            pv == burst@.packets,
            pv.len() == burst.data_packets@.len(),
            burst_ok(burst@),
            out@ == csv_header() + csv_body(pv.subrange(0, i as int)),
        decreases pv.len() - i,
    {
        let p = &burst.data_packets[i];
        assert(pv[i as int] == p@);
        assert(packet_ok(pv[i as int]));
        push_packet_rows(&mut out, p);
        assert(pv.subrange(0, i + 1).drop_last() =~= pv.subrange(0, i as int));
        i = i + 1;
        assert(out@ =~= csv_header() + csv_body(pv.subrange(0, i as int)));
    }
    assert(pv.subrange(0, pv.len() as int) =~= pv);
    out
}


// ---------------------------------------------------------------- binary

pub open spec fn le32(v: int) -> Seq<u8> {
    seq![(v % 256) as u8, (v / 256 % 256) as u8, (v / 65536 % 256) as u8, (v / 16777216 % 256) as u8]
}

pub open spec fn two_pow(e: nat) -> nat
    decreases e,
{
    if e == 0 {
        1
    } else {
        2 * two_pow((e - 1) as nat)
    }
}

pub open spec fn log2_floor(a: nat) -> nat
    decreases a,
{
    if a < 2 {
        0
    } else {
        1 + log2_floor(a / 2)
    }
}

/// IEEE-754 single-precision bits of a 16-bit integer value: sign, biased
/// exponent of the leading bit, and the bits below it as mantissa.
pub open spec fn f32_bits(v: int) -> nat {
    if v == 0 {
        0
    } else {
        let a: nat = (if v < 0 {
            -v
        } else {
            v
        }) as nat;
        let e = log2_floor(a);
        (if v < 0 {
            2147483648nat
        } else {
            0nat
        }) + (127 + e) * 8388608 + ((a - two_pow(e)) * two_pow((23 - e) as nat)) as nat
    }
}

/// All samples of the packets as `f32` values, in arrival order.
pub open spec fn samples_bytes(ps: Seq<ProcessedView>) -> Seq<u8>
    decreases ps.len(),
{
    if ps.len() == 0 {
        Seq::empty()
    } else {
        samples_bytes(ps.drop_last()) + data_bytes(ps.last().data)
    }
}

pub open spec fn data_bytes(d: Seq<i16>) -> Seq<u8>
    decreases d.len(),
{
    if d.len() == 0 {
        Seq::empty()
    } else {
        data_bytes(d.drop_last()) + le32(f32_bits(d.last() as int) as int)
    }
}

/// Header of trigger timestamp, trigger channel and sample total (truncated
/// to 32 bits), then every sample as a little-endian `f32`.
pub open spec fn binary_of(b: BurstView) -> Seq<u8> {
    le32(b.trigger_timestamp as int) + le32(b.trigger_channel as int) + le32(
        b.total_samples as int % 4294967296,
    ) + samples_bytes(b.packets)
}

proof fn lemma_log2_bounds(a: nat)
    requires
        1 <= a,
    ensures
        two_pow(log2_floor(a)) <= a < 2 * two_pow(log2_floor(a)),
    decreases a,
{
    if a >= 2 {
        lemma_log2_bounds(a / 2);
    }
}

proof fn lemma_log2_small(a: nat)
    requires
        1 <= a <= 32768,
    ensures
        log2_floor(a) <= 15,
    decreases a,
{
    if a >= 2 {
        lemma_log2_small(a / 2);
        if log2_floor(a / 2) == 15 {
            lemma_log2_bounds(a / 2);
            lemma_two_pow_values();
        }
    }
}

proof fn lemma_two_pow_add(x: nat, y: nat)
    ensures
        two_pow(x) * two_pow(y) == two_pow(x + y),
    decreases x,
{
    if x > 0 {
        lemma_two_pow_add((x - 1) as nat, y);
        let a = two_pow((x - 1) as nat);
        let b = two_pow(y);
        assert(two_pow(x) == 2 * a);
        assert(two_pow(x) * b == 2 * (a * b)) by (nonlinear_arith)
            requires
                two_pow(x) == 2 * a,
        ;
        assert(((x + y - 1) as nat) == ((x - 1) as nat + y) as nat);
        assert(two_pow(x + y) == 2 * two_pow((x + y - 1) as nat));
    } else {
        assert(two_pow(x) == 1);
    }
}

fn push_le32(out: &mut Vec<u8>, v: u32)
    ensures
        final(out)@ == old(out)@ + le32(v as int),
{
    out.push((v % 256) as u8);
    out.push((v / 256 % 256) as u8);
    out.push((v / 65536 % 256) as u8);
    out.push((v / 16777216 % 256) as u8);
    assert(final(out)@ =~= old(out)@ + le32(v as int));
}

/// Single-precision bits of a sample value.
pub fn f32_bits_of(v: i16) -> (r: u32)
    ensures
        r as nat == f32_bits(v as int),
{
    if v == 0 {
        return 0;
    }
    let a: u32 = if v < 0 {
        (-(v as i32)) as u32
    } else {
        v as u32
    };
    let mut t: u32 = a;
    let mut e: u32 = 0;
    while t >= 2
        invariant
            1 <= t <= a <= 32768,
            e + log2_floor(t as nat) == log2_floor(a as nat),
            e <= 15,
        decreases t,
    {
        proof {
            lemma_log2_small(a as nat);
        }
        t = t / 2;
        e = e + 1;
    }
    proof {
        lemma_log2_bounds(a as nat);
        lemma_log2_small(a as nat);
    }
    let mut p: u32 = 1;
    let mut k: u32 = 0;
    while k < e
        invariant
            k <= e <= 15,
            p as nat == two_pow(k as nat),
            p <= 32768,
        decreases e - k,
    {
        proof {
            lemma_two_pow_add(k as nat, 1);
            lemma_two_pow_values();
            lemma_two_pow_add((k + 1) as nat, (14 - k) as nat);
            lemma_two_pow_values();
            assert(two_pow((k + 1) as nat) <= 32768) by (nonlinear_arith)
                requires
                    two_pow((k + 1) as nat) * two_pow((14 - k) as nat) == 32768,
                    two_pow((14 - k) as nat) >= 1,
            {
            }
            lemma_two_pow_pos((14 - k) as nat);
        }
        p = p * 2;
        k = k + 1;
    }
    let mut q: u32 = 1;
    let mut j: u32 = 0;
    while j < 23 - e
        invariant
            j <= 23 - e,
            e <= 15,
            q as nat == two_pow(j as nat),
            q <= 8388608,
        decreases 23 - e - j,
    {
        proof {
            lemma_two_pow_add(j as nat, 1);
            lemma_two_pow_values();
            lemma_two_pow_add((j + 1) as nat, (22 - j) as nat);
            lemma_two_pow_values();
            lemma_two_pow_pos((22 - j) as nat);
            assert(two_pow((j + 1) as nat) <= 8388608) by (nonlinear_arith)
                requires
                    two_pow((j + 1) as nat) * two_pow((22 - j) as nat) == 8388608,
                    two_pow((22 - j) as nat) >= 1,
            {
            }
        }
        q = q * 2;
        j = j + 1;
    }
    proof {
        lemma_two_pow_add(e as nat, (23 - e) as nat);
        lemma_two_pow_values();
        assert((a - p) * q < 8388608) by (nonlinear_arith)
            requires
                a < 2 * p,
                p <= a,
                p * q == 8388608,
        ;
    }
    let m: u32 = (a - p) * q;
    let sign: u32 = if v < 0 {
        2147483648
    } else {
        0
    };
    sign + (127 + e) * 8388608 + m
}

proof fn lemma_two_pow_values()
    ensures
        two_pow(1) == 2,
        two_pow(15) == 32768,
        two_pow(23) == 8388608,
{
    reveal_with_fuel(two_pow, 24);
}

proof fn lemma_two_pow_pos(e: nat)
    ensures
        two_pow(e) >= 1,
    decreases e,
{
    if e > 0 {
        lemma_two_pow_pos((e - 1) as nat);
    }
}

/// The burst as binary: header, then every sample as a little-endian `f32`.
pub fn export_burst_as_binary(burst: &TriggerBurst) -> (r: Vec<u8>)
    ensures
        r@ == binary_of(burst@),
{
    let mut out: Vec<u8> = Vec::new();
    push_le32(&mut out, burst.trigger_timestamp);
    push_le32(&mut out, burst.trigger_channel as u32);
    push_le32(&mut out, (burst.total_samples as u64 % 4294967296) as u32);
    let ghost head = out@;
    let ghost pv = burst@.packets;
    let mut i: usize = 0;
    while i < burst.data_packets.len()
        invariant
            i <= pv.len(),
            pv == burst@.packets,
            pv.len() == burst.data_packets@.len(),
            out@ == head + samples_bytes(pv.subrange(0, i as int)),
        decreases pv.len() - i,
    {
        let p = &burst.data_packets[i];
        assert(pv[i as int] == p@);
        let ghost base = out@;
        let mut s: usize = 0;
        while s < p.data.len()
            invariant
                s <= p.data@.len(),
                out@ == base + data_bytes(p.data@.subrange(0, s as int)),
            decreases p.data@.len() - s,
        {
            let bits = f32_bits_of(p.data[s]);
            push_le32(&mut out, bits);
            assert(p.data@.subrange(0, s + 1).drop_last() =~= p.data@.subrange(0, s as int));
            s = s + 1;
            assert(out@ =~= base + data_bytes(p.data@.subrange(0, s as int)));
        }
        assert(p.data@.subrange(0, p.data@.len() as int) =~= p.data@);
        assert(pv.subrange(0, i + 1).drop_last() =~= pv.subrange(0, i as int));
        i = i + 1;
        assert(out@ =~= head + samples_bytes(pv.subrange(0, i as int)));
    }
    assert(pv.subrange(0, pv.len() as int) =~= pv);
    assert(out@ =~= binary_of(burst@));
    out
}


// ---------------------------------------------------------------- export

/// An exported burst: bytes for CSV and binary; for JSON the burst itself,
/// which the caller serialises.
#[derive(Debug, Clone)]
pub enum BurstExport {
    Json(TriggerBurst),
    Bytes(Vec<u8>),
}

#[derive(Debug, Clone, Copy, PartialEq, Eq, Structural)]
pub enum ExportError {
    NotFound,
    UnsupportedFormat,
}

impl DataProcessor {
    /// Exports the cached burst `burst_id` as `json`, `csv` or `binary`.
    pub fn export_trigger_burst(&self, burst_id: &str, format: &str) -> (r: Result<BurstExport, ExportError>)
        requires
            self@.wf(),
        ensures
            find_burst(self@.cache, burst_id@, 0) == -1 ==> r == Err::<BurstExport, ExportError>(
                ExportError::NotFound,
            ),
            find_burst(self@.cache, burst_id@, 0) != -1 ==> ({
                let b = self@.cache[find_burst(self@.cache, burst_id@, 0)];
                &&& format@ == "json"@ ==> (r matches Ok(BurstExport::Json(c)) && c@ == b)
                &&& format@ == "csv"@ ==> (r matches Ok(BurstExport::Bytes(v)) && v@ == csv_of(b))
                &&& format@ == "binary"@ ==> (r matches Ok(BurstExport::Bytes(v)) && v@ == binary_of(b))
                &&& format@ != "json"@ && format@ != "csv"@ && format@ != "binary"@ ==> r == Err::<
                    BurstExport,
                    ExportError,
                >(ExportError::UnsupportedFormat)
            }),
    {
        proof {
            reveal_strlit("json");
            reveal_strlit("csv");
            reveal_strlit("binary");
        }
        let burst = match self.get_trigger_burst(burst_id) {
            Some(b) => b,
            None => {
                return Err(ExportError::NotFound);
            },
        };
        proof {
            let i = find_burst(self@.cache, burst_id@, 0);
            crate::processing::lemma_find_burst_index(self@.cache, burst_id@);
            assert(burst_ok(self@.cache[i]));
        }
        assert("json"@.len() == 4 && "csv"@.len() == 3 && "binary"@.len() == 6);
        assert("json"@ != "csv"@ && "json"@ != "binary"@ && "csv"@ != "binary"@);
        if str_eq(format, "json") {
            Ok(BurstExport::Json(burst.copy()))
        } else if str_eq(format, "csv") {
            Ok(BurstExport::Bytes(export_burst_as_csv(burst)))
        } else if str_eq(format, "binary") {
            Ok(BurstExport::Bytes(export_burst_as_binary(burst)))
        } else {
            Err(ExportError::UnsupportedFormat)
        }
    }
}

/// Why a save request was refused.
#[derive(Debug, Clone, Copy, PartialEq, Eq, Structural)]
pub enum SaveError {
    InvalidFormat,
    NotFound,
    Incomplete,
}

pub open spec fn known_format(format: Seq<char>) -> bool {
    format == "json"@ || format == "csv"@ || format == "binary"@
}

impl DataProcessor {
    /// Checks a save request for burst `burst_id` in `format`: the format is
    /// known, the burst is cached and complete. Then exports it and reports
    /// its summary.
    pub fn prepare_burst_save(&self, burst_id: &str, format: &str) -> (r: Result<(BurstExport, TriggerSummary), SaveError>)
        requires
            self@.wf(),
        ensures
            !known_format(format@) ==> r == Err::<(BurstExport, TriggerSummary), SaveError>(SaveError::InvalidFormat),
            known_format(format@) && find_burst(self@.cache, burst_id@, 0) == -1 ==> r == Err::<
                (BurstExport, TriggerSummary),
                SaveError,
            >(SaveError::NotFound),
            known_format(format@) && find_burst(self@.cache, burst_id@, 0) != -1 ==> ({
                let b = self@.cache[find_burst(self@.cache, burst_id@, 0)];
                &&& !b.is_complete ==> r == Err::<(BurstExport, TriggerSummary), SaveError>(SaveError::Incomplete)
                &&& b.is_complete ==> (r matches Ok((e, s)) && s@ == summary_item(b) && (format@ == "json"@ ==> (
                e matches BurstExport::Json(c) && c@ == b)) && (format@ == "csv"@ ==> (e matches BurstExport::Bytes(
                    v,
                ) && v@ == csv_of(b))) && (format@ == "binary"@ ==> (e matches BurstExport::Bytes(v) && v@
                    == binary_of(b))))
            }),
    {
        if !(str_eq(format, "json") || str_eq(format, "csv") || str_eq(format, "binary")) {
            return Err(SaveError::InvalidFormat);
        }
        let burst = match self.get_trigger_burst(burst_id) {
            Some(b) => b,
            None => {
                return Err(SaveError::NotFound);
            },
        };
        if !burst.is_complete {
            return Err(SaveError::Incomplete);
        }
        let summary = burst.summary();
        match self.export_trigger_burst(burst_id, format) {
            Ok(e) => Ok((e, summary)),
            Err(_) => Err(SaveError::NotFound),
        }
    }
}

} // verus!
