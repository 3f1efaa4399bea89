use qbitbot::server::{event_path, event_url, loopback, EventPayload};

#[test]
fn event_address() {
    assert_eq!(event_url(9091), "http://127.0.0.1:9091/event");
    assert_eq!(event_url(0), "http://127.0.0.1:0/event");
    assert_eq!(event_url(65535), "http://127.0.0.1:65535/event");
    assert_eq!(event_path(), "/event");
    assert_eq!(loopback(), [127, 0, 0, 1]);
    let p = EventPayload { message: "done".to_string() };
    assert_eq!(p.clone().message, "done");
}
