use data_processor::fanout::{
    burst_complete_recipients, data_recipients, handle_client_message, trigger_event_recipients, ClientReply,
    ClientSubscriptions,
};
use data_processor::processing::DataSource;

fn names(v: &[&str]) -> Vec<String> {
    v.iter().map(|s| s.to_string()).collect()
}

#[test]
fn default_subscribes_everything() {
    let s = ClientSubscriptions::default();
    assert!(s.data_stream && s.trigger_events && s.trigger_bursts);
    assert!(!s.continuous_only && !s.trigger_only);
}

#[test]
fn subscribe_resets_then_applies() {
    let mut s = ClientSubscriptions::default();
    let r = handle_client_message(&mut s, "subscribe", Some(&names(&["trigger_events"])));
    assert_eq!(r, ClientReply::SubscriptionUpdated);
    assert!(!s.data_stream && s.trigger_events && !s.trigger_bursts);
    let r = handle_client_message(&mut s, "subscribe", Some(&names(&["all", "bogus"])));
    assert_eq!(r, ClientReply::SubscriptionUpdated);
    assert!(s.data_stream && s.trigger_events && s.trigger_bursts);
}

#[test]
fn later_exclusive_filter_wins() {
    let s = ClientSubscriptions::from_channels(&names(&["continuous_only", "trigger_only"]));
    assert!(s.data_stream && s.trigger_only && !s.continuous_only);
    let s = ClientSubscriptions::from_channels(&names(&["trigger_only", "continuous_only"]));
    assert!(s.continuous_only && !s.trigger_only);
}

#[test]
fn ping_and_unknown_frames() {
    let mut s = ClientSubscriptions::default();
    assert_eq!(handle_client_message(&mut s, "ping", None), ClientReply::Pong);
    assert_eq!(handle_client_message(&mut s, "hello", None), ClientReply::Ignore);
    assert_eq!(handle_client_message(&mut s, "subscribe", None), ClientReply::Ignore);
    assert_eq!(s, ClientSubscriptions::default());
}

#[test]
fn continuous_only_never_gets_trigger_data() {
    let c = ClientSubscriptions::from_channels(&names(&["continuous_only"]));
    let t = ClientSubscriptions::from_channels(&names(&["trigger_only"]));
    let none = ClientSubscriptions::from_channels(&names(&[]));
    let all = ClientSubscriptions::default();
    let clients = vec![c, t, none, all];
    assert_eq!(data_recipients(&clients, DataSource::Trigger), vec![false, true, false, true]);
    assert_eq!(data_recipients(&clients, DataSource::Continuous), vec![true, false, false, true]);
}

#[test]
fn burst_notice_goes_to_each_subscribed_client_once() {
    let a = ClientSubscriptions::from_channels(&names(&["trigger_bursts"]));
    let b = ClientSubscriptions::from_channels(&names(&["data"]));
    let r = burst_complete_recipients(&vec![a, b, a]);
    assert_eq!(r, vec![true, false, true]);
}

#[test]
fn trigger_events_follow_their_flag() {
    let a = ClientSubscriptions::from_channels(&names(&["trigger_events"]));
    let b = ClientSubscriptions::from_channels(&names(&["data", "trigger_bursts"]));
    assert_eq!(trigger_event_recipients(&vec![a, b]), vec![true, false]);
}
