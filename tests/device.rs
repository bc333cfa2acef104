use data_processor::codec::ProtocolParser;
use data_processor::device::{
    encode_channel_configs, nack_error_message, ChannelConfig, DataType, DeviceCommand, DeviceEvent,
    DeviceSession,
};

#[test]
fn ping_frame_uses_current_sequence_and_advances_after_write() {
    let mut s = DeviceSession::new();
    let out = s.handle_command(&DeviceCommand::Ping).unwrap();
    assert_eq!(out.command_id, 0x01);
    assert_eq!(out.sequence, 0);
    assert_eq!(out.frame, ProtocolParser::build_frame(0x01, 0, &[]));
    s.command_written(out, true);
    assert_eq!(s.seq, 1);
    let out = s.handle_command(&DeviceCommand::GetDeviceInfo).unwrap();
    assert_eq!(out.frame, ProtocolParser::build_frame(0x03, 1, &[]));
    s.command_written(out, false);
    assert_eq!(s.seq, 1);
}

#[test]
fn sequence_wraps_mod_256() {
    let mut s = DeviceSession::new();
    for _ in 0..256 {
        let out = s.handle_command(&DeviceCommand::Ping).unwrap();
        s.command_written(out, true);
    }
    assert_eq!(s.seq, 0);
}

#[test]
fn failed_mode_change_is_rolled_back() {
    let mut s = DeviceSession::new();
    let out = s.handle_command(&DeviceCommand::SetModeTrigger).unwrap();
    assert_eq!(out.command_id, 0x11);
    assert!(s.trigger_active);
    assert_eq!(s.status.mode.as_deref(), Some("trigger"));
    s.command_written(out, false);
    assert!(!s.trigger_active);
    assert_eq!(s.status.mode, None);
}

#[test]
fn buffered_data_needs_trigger_mode() {
    let mut s = DeviceSession::new();
    assert!(s.handle_command(&DeviceCommand::RequestBufferedData).is_none());
    let out = s.handle_command(&DeviceCommand::SetModeTrigger).unwrap();
    s.command_written(out, true);
    let out = s.handle_command(&DeviceCommand::RequestBufferedData).unwrap();
    assert_eq!(out.command_id, 0x42);
}

#[test]
fn configure_stream_payload() {
    let chans = vec![
        ChannelConfig { channel_id: 1, sample_rate: 1000, format: 2 },
        ChannelConfig { channel_id: 3, sample_rate: 0x01020304, format: 0 },
    ];
    let p = encode_channel_configs(&chans);
    assert_eq!(p, vec![2, 1, 0xE8, 0x03, 0, 0, 2, 3, 4, 3, 2, 1, 0]);
    let mut s = DeviceSession::new();
    let out = s.handle_command(&DeviceCommand::ConfigureStream { channels: chans }).unwrap();
    assert_eq!(out.command_id, 0x14);
    assert_eq!(out.payload, p);
}

#[test]
fn nack_messages() {
    assert_eq!(nack_error_message(1, 1), "Parameter error: invalid parameter");
    assert_eq!(nack_error_message(1, 2), "Parameter error: invalid channel configuration");
    assert_eq!(nack_error_message(2, 1), "Status error: invalid mode for operation");
    assert_eq!(nack_error_message(2, 2), "Status error: trigger not occurred");
    assert_eq!(nack_error_message(5, 0), "Command not supported");
    assert_eq!(nack_error_message(9, 12), "Unknown error: type=9, code=12");
}

#[test]
fn data_packets_are_labelled_by_mode_and_trigger() {
    let mut s = DeviceSession::new();
    let out = s.handle_command(&DeviceCommand::SetModeTrigger).unwrap();
    s.command_written(out, true);
    let mut bytes = ProtocolParser::build_frame(0x41, 0, &[100, 0, 0, 0, 2, 0, 10, 0, 0, 0, 20, 0, 0, 0]);
    bytes.extend_from_slice(&ProtocolParser::build_frame(0x40, 1, &[5, 0, 0, 0, 1, 0, 1, 0, 0x34, 0x12]));
    let events = s.process_bytes(&bytes);
    assert_eq!(events.len(), 4);
    match &events[0] {
        DeviceEvent::TriggerEvent(e) => {
            assert_eq!((e.timestamp, e.channel, e.pre_samples, e.post_samples), (100, 2, 10, 20));
        }
        other => panic!("unexpected {:?}", other),
    }
    assert!(matches!(events[1], DeviceEvent::FrameReceived(_)));
    match &events[2] {
        DeviceEvent::DataPacket(p) => {
            assert_eq!(p.timestamp_ms, 5);
            assert_eq!(p.enabled_channels, 1);
            assert_eq!(p.sample_count, 1);
            assert_eq!(p.sensor_data, vec![0x34, 0x12]);
            assert!(matches!(p.data_type, DataType::Trigger { trigger_timestamp: 100, is_complete: false }));
        }
        other => panic!("unexpected {:?}", other),
    }
}

#[test]
fn pong_and_device_info_update_status() {
    let mut s = DeviceSession::new();
    let mut bytes = ProtocolParser::build_frame(0x81, 0, &[1, 2, 3, 4, 5, 6, 7, 8]);
    bytes.extend_from_slice(&ProtocolParser::build_frame(0x83, 1, &[0, 0x02, 0x01]));
    let events = s.process_bytes(&bytes);
    assert_eq!(events.len(), 4);
    assert_eq!(s.status.device_id, Some(0x0807060504030201));
    assert_eq!(s.status.firmware_version, Some(0x0102));
    assert!(matches!(events[0], DeviceEvent::StatusUpdate(_)));
}

#[test]
fn nack_log_and_unknown_frames() {
    let mut s = DeviceSession::new();
    let mut bytes = ProtocolParser::build_frame(0x91, 0, &[2, 2]);
    bytes.extend_from_slice(&ProtocolParser::build_frame(0xE0, 1, &[1, 2, b'h', b'i']));
    bytes.extend_from_slice(&ProtocolParser::build_frame(0x77, 2, &[]));
    bytes.extend_from_slice(&ProtocolParser::build_frame(0x4F, 3, &[]));
    let events = s.process_bytes(&bytes);
    assert_eq!(events.len(), 7);
    match &events[0] {
        DeviceEvent::Error(m) => assert_eq!(m, "Status error: trigger not occurred"),
        other => panic!("unexpected {:?}", other),
    }
    match &events[2] {
        DeviceEvent::LogMessage { level, message } => {
            assert_eq!(*level, 1);
            assert_eq!(message, "hi");
        }
        other => panic!("unexpected {:?}", other),
    }
    assert!(matches!(events[4], DeviceEvent::FrameReceived(_)));
    assert!(matches!(events[5], DeviceEvent::BufferTransferComplete));
}

#[test]
fn connect_sends_ping_and_disconnect_clears_flag() {
    let mut s = DeviceSession::new();
    let (ev, out) = s.on_connected("Socket");
    assert!(matches!(ev, DeviceEvent::Connected(ref n) if n == "Socket"));
    assert_eq!(out.frame, ProtocolParser::build_frame(0x01, 0, &[]));
    assert!(s.status.connected);
    assert!(matches!(s.on_disconnected(), DeviceEvent::Disconnected));
    assert!(!s.status.connected);
}
