use data_processor::config::{normalize_extension, Config};
use data_processor::control::{
    auto_file_name, burst_file_name, burst_file_name_at, export_extension, ControlOutcome, ControlRequest, ControlState, Mode,
};
use data_processor::control::trigger_status_of;
use data_processor::device::{DeviceCommand, TriggerEvent};
use data_processor::processing::DataProcessor;

#[test]
fn trigger_data_refused_outside_trigger_mode() {
    let mut st = ControlState::new();
    assert!(matches!(st.handle_request(ControlRequest::RequestTriggerData), ControlOutcome::NotInTriggerMode));
    assert!(matches!(
        st.handle_request(ControlRequest::TriggerMode),
        ControlOutcome::Send(DeviceCommand::SetModeTrigger)
    ));
    assert_eq!(st.mode, Some(Mode::Trigger));
    assert!(matches!(
        st.handle_request(ControlRequest::RequestTriggerData),
        ControlOutcome::Send(DeviceCommand::RequestBufferedData)
    ));
    st.handle_request(ControlRequest::ContinuousMode);
    assert!(matches!(st.handle_request(ControlRequest::RequestTriggerData), ControlOutcome::NotInTriggerMode));
}

#[test]
fn start_and_stop_toggle_collecting() {
    let mut st = ControlState::new();
    assert!(matches!(st.handle_request(ControlRequest::Start), ControlOutcome::Send(DeviceCommand::StartStream)));
    assert!(st.collecting);
    assert!(matches!(st.handle_request(ControlRequest::Stop), ControlOutcome::Send(DeviceCommand::StopStream)));
    assert!(!st.collecting);
}

#[test]
fn burst_file_names() {
    assert_eq!(export_extension("binary"), ".bin");
    assert_eq!(export_extension("other"), ".dat");
    assert_eq!(burst_file_name(Some("  run1 "), "csv", 5, "20250101_000000"), "run1.csv");
    assert_eq!(burst_file_name(Some("   "), "json", 5, "20250101_000000"), "trigger_5_20250101_000000.json");
    assert_eq!(burst_file_name(None, "binary", 7, "X"), "trigger_7_X.bin");
    assert_eq!(auto_file_name("wave", "20250101_120000", ".bin"), "wave_20250101_120000.bin");
}

#[test]
fn config_defaults() {
    let c = Config::default();
    assert_eq!(c.device.connection_type, "socket");
    assert_eq!(c.web_server.port, 8080);
    assert_eq!(c.websocket.port, 8081);
    assert_eq!(c.storage.max_files, 200);
    assert_eq!(normalize_extension("bin"), ".bin");
    assert_eq!(normalize_extension(".txt"), ".txt");
}

#[test]
fn burst_file_name_uses_utc_creation_time() {
    assert_eq!(burst_file_name_at(None, "csv", 1, 0), "trigger_1_19700101_000000.csv");
    assert_eq!(burst_file_name_at(None, "json", 2, 1_700_000_000_000), "trigger_2_20231114_221320.json");
    assert_eq!(burst_file_name_at(Some("x"), "binary", 2, 0), "x.bin");
    assert_eq!(burst_file_name_at(Some(" \u{3000}y\t"), "csv", 2, 0), "y.csv");
}

#[test]
fn trigger_status_counts_trigger_events() {
    let mut p = DataProcessor::new();
    let e = TriggerEvent { timestamp: 3, channel: 0, pre_samples: 0, post_samples: 0 };
    p.start_trigger_burst_at(&e, 0);
    let d = p.process_packet(&data_processor::device::DataPacket {
        timestamp_ms: 0,
        enabled_channels: 1,
        sample_count: 1,
        sensor_data: vec![1, 0],
        data_type: data_processor::device::DataType::Continuous,
    });
    assert!(d.is_ok());
    let t = trigger_status_of(&p.get_stats());
    assert_eq!(t.total_triggers_received, 1);
    assert!(t.current_burst_active);
}
