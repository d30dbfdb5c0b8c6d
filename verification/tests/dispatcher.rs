use calc_bridge::safe_read::DecodeError;
use calc_bridge::spec::http::{HttpReq, HttpResp, MethodWithArgs};
use calc_bridge::spec::wifi::{
    AccessPointInfo, AuthMethod, ClientConfiguration, ProtocolViolation, WifiActions, WifiReply,
    WifiResponse,
};
use calc_bridge::spec::{CalcRequest, CalcResponse, Outcome, Serialise};
use calc_bridge::state::{delivery, Delivery, State};

fn done() -> Option<Outcome> {
    Some(Outcome::Wifi(Ok(WifiReply::Done)))
}

fn get(url: &str) -> CalcRequest {
    CalcRequest::Http(HttpReq { url: url.to_string(), extra: MethodWithArgs::Get })
}

#[test]
fn new_dispatcher_is_idle() {
    let mut state = State::new();
    assert!(!state.is_processing());
    assert!(state.in_flight().is_none());
    assert!(!state.try_process_incoming());
    assert!(matches!(state.poll_processing(None), Ok(None)));
    assert!(matches!(state.try_send_processing(None), Ok(None)));
    assert!(!state.is_processing());
}

#[test]
fn responses_come_in_the_order_of_the_requests() {
    let mut state = State::new();
    state.push_incoming(CalcRequest::Wifi(WifiActions::Start));
    state.push_incoming(get("http://b"));
    state.push_incoming(CalcRequest::Wifi(WifiActions::IsConnected));

    assert!(state.try_process_incoming());
    assert_eq!(state.in_flight(), Some(&CalcRequest::Wifi(WifiActions::Start)));
    // the first operation is slow: polls come back empty and nothing else starts
    for _ in 0..5 {
        assert!(matches!(state.try_send_processing(None), Ok(None)));
        assert!(!state.try_process_incoming());
        assert_eq!(state.in_flight(), Some(&CalcRequest::Wifi(WifiActions::Start)));
    }
    assert_eq!(state.try_send_processing(done()), Ok(Some(vec![0, 5])));

    assert!(state.try_process_incoming());
    assert_eq!(state.in_flight(), Some(&get("http://b")));
    let body = Outcome::Http(Ok(HttpResp { raw: b"ok".to_vec() }));
    assert_eq!(
        state.try_send_processing(Some(body)),
        Ok(Some(vec![1, 0, 0, 0, 0, 2, b'o', b'k']))
    );

    assert!(state.try_process_incoming());
    assert_eq!(state.in_flight(), Some(&CalcRequest::Wifi(WifiActions::IsConnected)));
    let flag = Outcome::Wifi(Ok(WifiReply::Flag(true)));
    assert_eq!(state.try_send_processing(Some(flag)), Ok(Some(vec![0, 2, 1])));

    assert!(!state.is_processing());
    assert!(!state.try_process_incoming());
}

#[test]
fn request_pushed_while_busy_waits_its_turn() {
    let mut state = State::new();
    state.push_incoming(CalcRequest::Wifi(WifiActions::Scan));
    assert!(state.try_process_incoming());
    state.push_incoming(CalcRequest::Wifi(WifiActions::Stop));
    assert!(!state.try_process_incoming());
    assert_eq!(state.in_flight(), Some(&CalcRequest::Wifi(WifiActions::Scan)));
    let found = Outcome::Wifi(Ok(WifiReply::Networks(vec![])));
    assert_eq!(state.try_send_processing(Some(found)), Ok(Some(vec![0, 3, 0])));
    assert!(state.in_flight().is_none());
    assert!(state.is_processing());
    assert!(state.try_process_incoming());
    assert_eq!(state.in_flight(), Some(&CalcRequest::Wifi(WifiActions::Stop)));
}

#[test]
fn at_most_one_operation_is_in_flight() {
    let mut state = State::new();
    for _ in 0..10 {
        state.push_incoming(CalcRequest::Wifi(WifiActions::Start));
    }
    let mut started = 0;
    let mut answered = 0;
    for tick in 0..100 {
        if state.try_process_incoming() {
            started += 1;
        }
        assert!(started - answered <= 1);
        assert_eq!(state.in_flight().is_some(), started - answered == 1);
        let polled = if tick % 3 == 2 { done() } else { None };
        match state.poll_processing(polled) {
            Ok(Some(response)) => {
                assert!(matches!(response, CalcResponse::Wifi(WifiResponse::Started)));
                answered += 1;
            }
            Ok(None) => {}
            Err(violation) => assert_eq!(violation, ProtocolViolation::NothingInFlight),
        }
        assert!(started - answered <= 1);
    }
    assert_eq!(started, 10);
    assert_eq!(answered, 10);
    assert!(!state.is_processing());
}

#[test]
fn is_processing_tells_of_the_slot_and_the_queue() {
    let mut state = State::new();
    assert!(!state.is_processing());
    state.push_incoming(CalcRequest::Wifi(WifiActions::Stop));
    assert!(state.is_processing());
    assert!(state.try_process_incoming());
    assert!(state.is_processing());
    assert!(matches!(state.poll_processing(None), Ok(None)));
    assert!(state.is_processing());
    assert!(matches!(
        state.poll_processing(done()),
        Ok(Some(CalcResponse::Wifi(WifiResponse::Stopped)))
    ));
    assert!(!state.is_processing());
}

#[test]
fn read_incoming_accepts_a_frame_and_hands_back_the_rest() {
    let mut state = State::new();
    let bytes = [0u8, 5, 0, 3, 1];
    let rest = state.read_incoming(&bytes).unwrap();
    assert_eq!(rest, &[0u8, 3, 1][..]);
    let rest = state.read_incoming(rest).unwrap();
    assert_eq!(rest, &[1u8][..]);
    assert_eq!(
        state.read_incoming(rest),
        Err(DecodeError::SizeMismatch { read: 0, expected: 4 })
    );
    assert!(state.try_process_incoming());
    assert_eq!(state.in_flight(), Some(&CalcRequest::Wifi(WifiActions::Scan)));
    assert_eq!(
        state.try_send_processing(Some(Outcome::Wifi(Err(-1)))),
        Ok(Some(vec![0, 0, 255, 255, 255, 255]))
    );
    assert!(state.try_process_incoming());
    assert_eq!(state.in_flight(), Some(&CalcRequest::Wifi(WifiActions::Start)));
    assert_eq!(state.try_send_processing(done()), Ok(Some(vec![0, 5])));
    assert!(!state.is_processing());
}

#[test]
fn refused_bytes_change_nothing_and_the_next_frame_still_decodes() {
    let mut state = State::new();
    assert_eq!(state.read_incoming(&[7, 7, 7]), Err(DecodeError::UnknownTag { tag: 7 }));
    assert!(!state.is_processing());
    assert_eq!(state.read_incoming(&[0, 200]), Err(DecodeError::UnknownTag { tag: 200 }));
    assert_eq!(
        state.read_incoming(&[0, 8, 1, 2, 3]),
        Err(DecodeError::SizeMismatch { read: 3, expected: 32 })
    );
    assert_eq!(
        state.read_incoming(&[1, 0, 0, 0, 1, 0xff, 1]),
        Err(DecodeError::InvalidUtf8)
    );
    assert_eq!(state.read_incoming(&[]), Err(DecodeError::SizeMismatch { read: 0, expected: 1 }));
    assert!(!state.is_processing());
    assert!(!state.try_process_incoming());

    let frame = get("http://next").to_bytes();
    assert_eq!(state.read_incoming(&frame), Ok(&[][..]));
    assert!(state.try_process_incoming());
    assert_eq!(state.in_flight(), Some(&get("http://next")));
}

#[test]
fn set_configuration_frame_is_dispatched_and_acknowledged() {
    let mut state = State::new();
    let config = ClientConfiguration {
        ssid: "home".to_string(),
        password: "pw".to_string(),
        auth_method: AuthMethod::WPA2Personal,
    };
    let frame = CalcRequest::Wifi(WifiActions::SetConfig(config.clone())).to_bytes();
    assert_eq!(state.read_incoming(&frame), Ok(&[][..]));
    assert!(state.try_process_incoming());
    assert_eq!(state.in_flight(), Some(&CalcRequest::Wifi(WifiActions::SetConfig(config))));
    assert_eq!(state.try_send_processing(done()), Ok(Some(vec![0, 9])));
}

#[test]
fn outcome_without_an_operation_is_a_violation() {
    let mut state = State::new();
    assert_eq!(state.poll_processing(done()).unwrap_err(), ProtocolViolation::NothingInFlight);
    assert_eq!(state.try_send_processing(done()), Err(ProtocolViolation::NothingInFlight));
    state.push_incoming(CalcRequest::Wifi(WifiActions::Start));
    // still waiting, not in flight
    assert_eq!(state.poll_processing(done()).unwrap_err(), ProtocolViolation::NothingInFlight);
    assert!(state.is_processing());
    assert!(state.try_process_incoming());
    assert_eq!(state.try_send_processing(done()), Ok(Some(vec![0, 5])));
}

#[test]
fn outcome_of_the_wrong_kind_is_a_violation_and_changes_nothing() {
    let mut state = State::new();
    state.push_incoming(CalcRequest::Wifi(WifiActions::Scan));
    assert!(state.try_process_incoming());
    assert_eq!(state.poll_processing(done()).unwrap_err(), ProtocolViolation::UnexpectedReply);
    assert_eq!(
        state.try_send_processing(Some(Outcome::Http(Err(1)))),
        Err(ProtocolViolation::UnexpectedReply)
    );
    assert_eq!(state.in_flight(), Some(&CalcRequest::Wifi(WifiActions::Scan)));
    let found = Outcome::Wifi(Ok(WifiReply::Networks(vec![])));
    assert_eq!(state.try_send_processing(Some(found)), Ok(Some(vec![0, 3, 0])));
    assert!(!state.is_processing());
}

#[test]
fn response_that_fits_no_frame_is_a_violation_and_changes_nothing() {
    let mut state = State::new();
    state.push_incoming(CalcRequest::Wifi(WifiActions::Scan));
    assert!(state.try_process_incoming());
    let many: Vec<AccessPointInfo> = (0..300)
        .map(|i| AccessPointInfo {
            ssid: format!("n{i}"),
            bssid: [0; 6],
            channel: 1,
            signal_strength: -50,
        })
        .collect();
    assert_eq!(
        state.try_send_processing(Some(Outcome::Wifi(Ok(WifiReply::Networks(many))))),
        Err(ProtocolViolation::OversizedResponse)
    );
    assert_eq!(state.in_flight(), Some(&CalcRequest::Wifi(WifiActions::Scan)));
    assert_eq!(
        state.try_send_processing(Some(Outcome::Wifi(Err(-2)))),
        Ok(Some(vec![0, 0, 255, 255, 255, 254]))
    );
}

#[test]
fn failing_operation_does_not_stop_the_queue() {
    let mut state = State::new();
    state.push_incoming(CalcRequest::Wifi(WifiActions::Connect));
    state.push_incoming(get("http://x"));
    state.push_incoming(CalcRequest::Wifi(WifiActions::Disconnect));
    assert!(state.try_process_incoming());
    assert_eq!(
        state.try_send_processing(Some(Outcome::Wifi(Err(-1)))),
        Ok(Some(vec![0, 0, 255, 255, 255, 255]))
    );
    assert!(state.try_process_incoming());
    assert_eq!(
        state.try_send_processing(Some(Outcome::Http(Err(-1)))),
        Ok(Some(vec![1, 1, 255, 255, 255, 255]))
    );
    assert!(state.try_process_incoming());
    assert_eq!(state.try_send_processing(done()), Ok(Some(vec![0, 8])));
    assert!(!state.is_processing());
}

#[test]
fn short_write_is_reported() {
    assert_eq!(delivery(Ok(8), 8), Delivery::Complete);
    assert_eq!(delivery(Ok(0), 0), Delivery::Complete);
    assert_eq!(delivery(Ok(3), 8), Delivery::Partial { written: 3, expected: 8 });
    assert_eq!(delivery(Ok(9), 8), Delivery::Partial { written: 9, expected: 8 });
    assert_eq!(delivery(Err(-5), 8), Delivery::Failed(-5));
}
