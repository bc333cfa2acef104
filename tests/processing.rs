use data_processor::device::{DataPacket, DataType, TriggerEvent};
use data_processor::export::{export_burst_as_binary, f32_bits_of, BurstExport, ExportError, SaveError};
use data_processor::processing::{
    get_channel_id_from_mask, DataProcessor, DataQuality, DataSource, DecodeError,
};

fn samples_bytes(values: &[i16]) -> Vec<u8> {
    values.iter().flat_map(|v| v.to_le_bytes()).collect()
}

fn packet(mask: u16, count: u16, values: &[i16], data_type: DataType, ts: u32) -> DataPacket {
    DataPacket {
        timestamp_ms: ts,
        enabled_channels: mask,
        sample_count: count,
        sensor_data: samples_bytes(values),
        data_type,
    }
}

fn trigger(ts: u32) -> DataType {
    DataType::Trigger { trigger_timestamp: ts, is_complete: false }
}

#[test]
fn decode_two_channel_non_interleaved() {
    let mut p = DataProcessor::new();
    let values = [10i16, -20, 30, 400, 500, -600];
    let out = p.process_packet(&packet(0b11, 3, &values, DataType::Continuous, 5)).unwrap();
    assert_eq!(out.data, values.to_vec());
    assert_eq!(out.channel_count, 2);
    assert_eq!(out.metadata.channel_info.len(), 2);
    assert_eq!(out.metadata.channel_info[0].channel_id, 0);
    assert_eq!(out.metadata.channel_info[1].channel_id, 1);
    assert_eq!(out.metadata.channel_info[0].min_value, -20);
    assert_eq!(out.metadata.channel_info[0].max_value, 30);
    assert_eq!(out.metadata.channel_info[0].sum, 20);
    assert_eq!(out.metadata.channel_info[1].min_value, -600);
    assert_eq!(out.metadata.channel_info[1].max_value, 500);
    assert_eq!(out.metadata.channel_info[1].sum, 300);
    assert_eq!(out.sample_rate, 300);
    assert_eq!(out.timestamp, 5);
    assert!(matches!(out.data_type.source, DataSource::Continuous));
}

#[test]
fn decode_length_law_and_channel_ids_from_mask() {
    let mut p = DataProcessor::new();
    let values: Vec<i16> = (0..12).collect();
    let out = p.process_packet(&packet(0b1010_0100, 4, &values, DataType::Continuous, 0)).unwrap();
    assert_eq!(out.data.len(), 3 * 4);
    let ids: Vec<u8> = out.metadata.channel_info.iter().map(|c| c.channel_id).collect();
    assert_eq!(ids, vec![2, 5, 7]);
    assert_eq!(get_channel_id_from_mask(0b1010_0100, 1), 5);
    assert_eq!(get_channel_id_from_mask(0b1, 3), 3);
}

#[test]
fn negative_samples_pass_through_unscaled() {
    let mut p = DataProcessor::new();
    let out = p
        .process_packet(&packet(1, 2, &[i16::MIN, i16::MAX], DataType::Continuous, 0))
        .unwrap();
    assert_eq!(out.data, vec![i16::MIN, i16::MAX]);
}

#[test]
fn no_enabled_channels_is_rejected() {
    let mut p = DataProcessor::new();
    let r = p.process_packet(&packet(0, 3, &[1, 2, 3], DataType::Continuous, 0));
    assert!(matches!(r, Err(DecodeError::NoEnabledChannels)));
    assert_eq!(p.get_stats().total_packets_processed, 0);
}

#[test]
fn length_mismatch_is_rejected() {
    let mut p = DataProcessor::new();
    let r = p.process_packet(&packet(0b11, 3, &[1, 2, 3], DataType::Continuous, 0));
    assert!(matches!(r, Err(DecodeError::LengthMismatch { expected: 12, actual: 6 })));
    assert_eq!(p.get_stats().total_packets_processed, 0);
}

#[test]
fn sequence_increases_by_one_and_skips_rejected_packets() {
    let mut p = DataProcessor::new();
    let a = p.process_packet(&packet(1, 1, &[1], DataType::Continuous, 0)).unwrap();
    let _ = p.process_packet(&packet(0, 1, &[1], DataType::Continuous, 0));
    let b = p.process_packet(&packet(1, 1, &[2], DataType::Continuous, 0)).unwrap();
    let c = p.process_packet(&packet(1, 1, &[3], DataType::Continuous, 0)).unwrap();
    assert_eq!((a.sequence, b.sequence, c.sequence), (1, 2, 3));
    assert_eq!(c.metadata.packet_count, 3);
}

#[test]
fn quality_flat_signal_and_empty_packet() {
    let mut p = DataProcessor::new();
    let flat = p.process_packet(&packet(0b10, 11, &[7; 11], DataType::Continuous, 0)).unwrap();
    match flat.metadata.data_quality {
        DataQuality::Warning(m) => assert_eq!(m, "Channel 1 signal appears flat"),
        other => panic!("unexpected {:?}", other),
    }
    let empty = p.process_packet(&packet(1, 0, &[], DataType::Continuous, 0)).unwrap();
    match empty.metadata.data_quality {
        DataQuality::Error(m) => assert_eq!(m, "No samples"),
        other => panic!("unexpected {:?}", other),
    }
    let good = p.process_packet(&packet(1, 3, &[1, 2, 3], DataType::Continuous, 0)).unwrap();
    assert!(matches!(good.metadata.data_quality, DataQuality::Good));
}

#[test]
fn trigger_sequence_in_burst_restarts_on_new_trigger() {
    let mut p = DataProcessor::new();
    let a = p.process_packet(&packet(1, 1, &[1], trigger(100), 0)).unwrap();
    let b = p.process_packet(&packet(1, 1, &[1], trigger(100), 10)).unwrap();
    let c = p.process_packet(&packet(1, 1, &[1], trigger(200), 20)).unwrap();
    let seqs: Vec<Option<u32>> = [a, b, c]
        .iter()
        .map(|x| x.data_type.trigger_info.unwrap().sequence_in_burst)
        .collect();
    assert_eq!(seqs, vec![Some(1), Some(2), Some(1)]);
    let d = p.process_packet(&packet(1, 1, &[1], DataType::Continuous, 30)).unwrap();
    assert!(d.data_type.trigger_info.is_none());
    assert_eq!(p.get_stats().current_trigger_burst_sequence, 0);
    assert_eq!(p.get_stats().current_trigger_timestamp, None);
}

#[test]
fn trigger_burst_lifecycle() {
    let mut p = DataProcessor::new();
    let e = TriggerEvent { timestamp: 100, channel: 0, pre_samples: 10, post_samples: 20 };
    let id = p.start_trigger_burst_at(&e, 1_700_000_000_000);
    assert_eq!(id, "trigger_100_1700000000000");
    for i in 0..3u32 {
        p.process_packet(&packet(1, 4, &[1, 2, 3, 4], trigger(100), 10 * i + 10)).unwrap();
    }
    let b = p.complete_trigger_burst().unwrap();
    assert_eq!(b.total_samples, 12);
    assert!(b.is_complete);
    assert_eq!(b.data_packets.len(), 3);
    assert_eq!(b.quality_summary.value_range, Some((1, 4)));
    assert_eq!(b.quality_summary.channel_stats.len(), 1);
    assert_eq!(b.quality_summary.channel_stats[0].sample_count, 12);
    assert_eq!(b.quality_summary.channel_stats[0].sum, 30);
    assert_eq!(b.quality_summary.channel_stats[0].sum_of_squares, 90);
    assert!(matches!(b.quality_summary.overall_quality, DataQuality::Good));
    assert!(p.complete_trigger_burst().is_none());
    assert!(p.get_trigger_burst(&id).is_some());
    let summaries = p.get_trigger_summaries();
    assert_eq!(summaries.len(), 1);
    assert_eq!(summaries[0].quality, "Good");
    assert_eq!(summaries[0].duration_ms, 20);
    assert!(summaries[0].can_save);
}

#[test]
fn burst_with_irregular_timing_is_warned() {
    let mut p = DataProcessor::new();
    let e = TriggerEvent { timestamp: 1, channel: 0, pre_samples: 0, post_samples: 0 };
    p.start_trigger_burst_at(&e, 5);
    p.process_packet(&packet(1, 1, &[1], trigger(1), 0)).unwrap();
    p.process_packet(&packet(1, 1, &[1], trigger(1), 100)).unwrap();
    let b = p.complete_trigger_burst().unwrap();
    match b.quality_summary.overall_quality {
        DataQuality::Warning(m) => assert_eq!(m, "Irregular timing detected: 100ms gap"),
        other => panic!("unexpected {:?}", other),
    }
}

#[test]
fn empty_burst_is_an_error() {
    let mut p = DataProcessor::new();
    let e = TriggerEvent { timestamp: 1, channel: 0, pre_samples: 0, post_samples: 0 };
    p.start_trigger_burst_at(&e, 5);
    let b = p.complete_trigger_burst().unwrap();
    assert!(matches!(b.quality_summary.overall_quality, DataQuality::Error(_)));
    assert_eq!(b.quality_summary.value_range, None);
}

#[test]
fn continuous_packets_do_not_join_the_open_burst() {
    let mut p = DataProcessor::new();
    let e = TriggerEvent { timestamp: 1, channel: 0, pre_samples: 0, post_samples: 0 };
    p.start_trigger_burst_at(&e, 5);
    p.process_packet(&packet(1, 2, &[1, 2], DataType::Continuous, 0)).unwrap();
    p.process_packet(&packet(1, 2, &[1, 2], trigger(1), 10)).unwrap();
    let b = p.complete_trigger_burst().unwrap();
    assert_eq!(b.data_packets.len(), 1);
    assert_eq!(b.total_samples, 2);
}

#[test]
fn cache_eviction_keeps_newest() {
    let mut p = DataProcessor::with_cache_capacity(2);
    let mut ids = Vec::new();
    for (k, ts) in [(1u32, 1000i64), (2, 2000), (3, 3000)] {
        let e = TriggerEvent { timestamp: k, channel: 0, pre_samples: 0, post_samples: 0 };
        ids.push(p.start_trigger_burst_at(&e, ts));
        p.complete_trigger_burst().unwrap();
    }
    assert!(p.get_trigger_burst(&ids[0]).is_none());
    assert!(p.get_trigger_burst(&ids[1]).is_some());
    assert!(p.get_trigger_burst(&ids[2]).is_some());
    assert_eq!(p.get_stats().cached_bursts_count, 2);
    assert!(matches!(p.export_trigger_burst(&ids[0], "csv"), Err(ExportError::NotFound)));
    let s = p.get_trigger_summaries();
    assert_eq!(s[0].burst_id, ids[2]);
    assert_eq!(s[1].burst_id, ids[1]);
}

#[test]
fn remove_trigger_burst_reports_absence() {
    let mut p = DataProcessor::new();
    let e = TriggerEvent { timestamp: 4, channel: 1, pre_samples: 0, post_samples: 0 };
    let id = p.start_trigger_burst_at(&e, 9);
    p.complete_trigger_burst().unwrap();
    assert!(p.remove_trigger_burst(&id));
    assert!(!p.remove_trigger_burst(&id));
    assert!(p.get_trigger_burst(&id).is_none());
}

#[test]
fn export_csv_and_binary_and_json() {
    let mut p = DataProcessor::new();
    let e = TriggerEvent { timestamp: 100, channel: 3, pre_samples: 0, post_samples: 0 };
    let id = p.start_trigger_burst_at(&e, 1);
    p.process_packet(&packet(0b11, 2, &[1, -2, 3, 4], trigger(100), 7)).unwrap();
    p.complete_trigger_burst().unwrap();
    match p.export_trigger_burst(&id, "csv").unwrap() {
        BurstExport::Bytes(b) => assert_eq!(
            String::from_utf8(b).unwrap(),
            "timestamp_ms,channel_id,sample_index,value\n7,0,0,1.000000\n7,0,1,-2.000000\n7,1,0,3.000000\n7,1,1,4.000000\n"
        ),
        _ => panic!("expected bytes"),
    }
    match p.export_trigger_burst(&id, "binary").unwrap() {
        BurstExport::Bytes(b) => {
            let mut want = Vec::new();
            want.extend_from_slice(&100u32.to_le_bytes());
            want.extend_from_slice(&3u32.to_le_bytes());
            want.extend_from_slice(&4u32.to_le_bytes());
            for v in [1.0f32, -2.0, 3.0, 4.0] {
                want.extend_from_slice(&v.to_le_bytes());
            }
            assert_eq!(b, want);
        }
        _ => panic!("expected bytes"),
    }
    match p.export_trigger_burst(&id, "json").unwrap() {
        BurstExport::Json(b) => assert_eq!(b.burst_id, id),
        _ => panic!("expected the burst"),
    }
    assert!(matches!(p.export_trigger_burst(&id, "xml"), Err(ExportError::UnsupportedFormat)));
    let b = p.get_trigger_burst(&id).unwrap();
    assert_eq!(export_burst_as_binary(b).len(), 12 + 16);
}

#[test]
fn f32_bits_match_ieee_encoding() {
    for v in [0i16, 1, -1, 2, 3, 7, 100, -100, 1234, i16::MAX, i16::MIN] {
        assert_eq!(f32_bits_of(v), (v as f32).to_bits(), "value {}", v);
    }
}

#[test]
fn reset_keeps_the_cache() {
    let mut p = DataProcessor::new();
    let e = TriggerEvent { timestamp: 4, channel: 1, pre_samples: 0, post_samples: 0 };
    let id = p.start_trigger_burst_at(&e, 9);
    p.complete_trigger_burst().unwrap();
    p.start_trigger_burst_at(&e, 10);
    p.reset_trigger_state();
    let s = p.get_stats();
    assert!(!s.current_burst_active);
    assert_eq!(s.cached_bursts_count, 1);
    assert!(p.get_trigger_burst(&id).is_some());
}

#[test]
fn clock_stamped_burst_id() {
    let mut p = DataProcessor::new();
    let e = TriggerEvent { timestamp: 42, channel: 0, pre_samples: 0, post_samples: 0 };
    let id = p.start_trigger_burst(&e);
    assert!(id.starts_with("trigger_42_"));
    let b = p.complete_trigger_burst().unwrap();
    assert_eq!(b.burst_id, id);
    assert_eq!(id, format!("trigger_42_{}", b.created_at));
    assert_eq!(p.calculate_duration_ms(&b), 0);
}

#[test]
fn prepare_burst_save_checks_format_and_presence() {
    let mut p = DataProcessor::new();
    let e = TriggerEvent { timestamp: 9, channel: 0, pre_samples: 0, post_samples: 0 };
    let id = p.start_trigger_burst_at(&e, 0);
    p.process_packet(&packet(1, 2, &[5, 6], trigger(9), 0)).unwrap();
    p.complete_trigger_burst().unwrap();
    assert!(matches!(p.prepare_burst_save(&id, "xml"), Err(SaveError::InvalidFormat)));
    assert!(matches!(p.prepare_burst_save("nope", "csv"), Err(SaveError::NotFound)));
    let (export, summary) = p.prepare_burst_save(&id, "binary").unwrap();
    assert!(matches!(export, BurstExport::Bytes(ref b) if b.len() == 12 + 8));
    assert_eq!(summary.burst_id, id);
    assert_eq!(summary.total_samples, 2);
}

#[test]
fn preview_takes_the_first_hundred_samples() {
    let mut p = DataProcessor::new();
    let e = TriggerEvent { timestamp: 9, channel: 0, pre_samples: 0, post_samples: 0 };
    p.start_trigger_burst_at(&e, 0);
    let values: Vec<i16> = (0..60).collect();
    p.process_packet(&packet(1, 60, &values, trigger(9), 0)).unwrap();
    p.process_packet(&packet(1, 60, &values, trigger(9), 30)).unwrap();
    let b = p.complete_trigger_burst().unwrap();
    let preview = b.preview_samples();
    assert_eq!(preview.len(), 100);
    assert_eq!(preview[59], 59);
    assert_eq!(preview[60], 0);
    assert_eq!(preview[99], 39);
    assert_eq!(b.duration_ms(), 30);
}

#[test]
fn trigger_count_and_recorded_processing_time() {
    let mut p = DataProcessor::new();
    let e = TriggerEvent { timestamp: 3, channel: 0, pre_samples: 0, post_samples: 0 };
    p.start_trigger_burst_at(&e, 0);
    p.start_trigger_burst_at(&e, 1);
    assert_eq!(p.get_stats().triggers_received, 2);
    let d = p.process_packet(&packet(1, 1, &[1], trigger(3), 0)).unwrap();
    p.record_processing_time(d.sequence, 42);
    p.record_processing_time(d.sequence + 7, 99);
    let b = p.complete_trigger_burst().unwrap();
    assert_eq!(b.data_packets[0].metadata.processing_time_us, 42);
    assert_eq!(p.get_stats().total_packets_processed, 1);
}
