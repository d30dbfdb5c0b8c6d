use calc_bridge::safe_read::{ByteReader, DecodeError};
use calc_bridge::spec::http::{
    Headers, HeadersTrait, HttpReq, HttpResp, Method, MethodWithArgs, RESPONSE_LIMIT,
};
use calc_bridge::spec::wifi::{AuthMethod, ClientConfiguration, WifiActions};
use calc_bridge::spec::{CalcRequest, Deserialise, Serialise};

fn decode_request(bytes: &[u8]) -> (Result<CalcRequest, DecodeError>, Vec<u8>) {
    let mut reader = ByteReader::new(bytes);
    let result = CalcRequest::from_bytes(&mut reader);
    (result, reader.into_rest().to_vec())
}

fn record(ssid: &[u8], password: &[u8], auth: u8) -> Vec<u8> {
    let mut bytes = vec![0u8; 97];
    bytes[..ssid.len()].copy_from_slice(ssid);
    bytes[32..32 + password.len()].copy_from_slice(password);
    bytes[96] = auth;
    bytes
}

fn set_config_frame(ssid: &[u8], password: &[u8], auth: u8) -> Vec<u8> {
    let mut frame = vec![0u8, 8];
    frame.extend(record(ssid, password, auth));
    frame
}

fn config(ssid: &str, password: &str, auth_method: AuthMethod) -> ClientConfiguration {
    ClientConfiguration { ssid: ssid.to_string(), password: password.to_string(), auth_method }
}

fn header(key: &str, value: &str) -> (String, String) {
    (key.to_string(), value.to_string())
}

#[test]
fn radio_actions_without_payload_decode_from_their_tags() {
    let expected = [
        WifiActions::IsStarted,
        WifiActions::IsConnected,
        WifiActions::GetCapabilities,
        WifiActions::Start,
        WifiActions::Stop,
        WifiActions::Scan,
        WifiActions::Connect,
        WifiActions::Disconnect,
    ];
    for (tag, action) in expected.iter().enumerate() {
        let (result, rest) = decode_request(&[0, tag as u8]);
        assert_eq!(result, Ok(CalcRequest::Wifi(action.clone())));
        assert!(rest.is_empty());
        assert_eq!(CalcRequest::Wifi(action.clone()).to_bytes(), vec![0, tag as u8]);
    }
}

#[test]
fn scan_request_decodes_from_radio_tag_and_scan_tag() {
    let (result, rest) = decode_request(&[0, 5]);
    assert_eq!(result, Ok(CalcRequest::Wifi(WifiActions::Scan)));
    assert!(rest.is_empty());
}

#[test]
fn set_configuration_decodes_the_fixed_record() {
    let (result, rest) = decode_request(&set_config_frame(b"home", b"secret123", 3));
    assert_eq!(
        result,
        Ok(CalcRequest::Wifi(WifiActions::SetConfig(config(
            "home",
            "secret123",
            AuthMethod::WPA2Personal
        ))))
    );
    assert!(rest.is_empty());
}

#[test]
fn set_configuration_reads_every_known_auth_code() {
    let methods = [
        AuthMethod::Open,
        AuthMethod::WEP,
        AuthMethod::WPA,
        AuthMethod::WPA2Personal,
        AuthMethod::WPAWPA2Personal,
        AuthMethod::WPA2Enterprise,
        AuthMethod::WPA3Personal,
        AuthMethod::WPA2WPA3Personal,
        AuthMethod::WAPIPersonal,
    ];
    for (code, method) in methods.iter().enumerate() {
        assert_eq!(method.code(), code as u8);
        assert_eq!(AuthMethod::from_code(code as u8), *method);
        let (result, _) = decode_request(&set_config_frame(b"n", b"p", code as u8));
        assert_eq!(
            result,
            Ok(CalcRequest::Wifi(WifiActions::SetConfig(config("n", "p", *method))))
        );
    }
}

#[test]
fn auth_code_out_of_range_falls_back_to_no_auth() {
    for code in [9u8, 10, 100, 255] {
        assert_eq!(AuthMethod::from_code(code), AuthMethod::Open);
        let (result, rest) = decode_request(&set_config_frame(b"cafe", b"", code));
        assert_eq!(
            result,
            Ok(CalcRequest::Wifi(WifiActions::SetConfig(config("cafe", "", AuthMethod::Open))))
        );
        assert!(rest.is_empty());
    }
}

#[test]
fn configuration_with_unreadable_text_falls_back_to_the_default() {
    let (result, rest) = decode_request(&set_config_frame(&[0xff, 0xfe], b"secret", 1));
    assert_eq!(
        result,
        Ok(CalcRequest::Wifi(WifiActions::SetConfig(ClientConfiguration::default())))
    );
    assert!(rest.is_empty());
    let (result, _) = decode_request(&set_config_frame(b"home", &[0xc3], 1));
    assert_eq!(
        result,
        Ok(CalcRequest::Wifi(WifiActions::SetConfig(ClientConfiguration::default())))
    );
    assert_eq!(ClientConfiguration::default(), config("", "", AuthMethod::WPA2Personal));
}

#[test]
fn configuration_fields_use_their_full_width() {
    let ssid = [b's'; 32];
    let password = [b'p'; 64];
    let (result, _) = decode_request(&set_config_frame(&ssid, &password, 6));
    assert_eq!(
        result,
        Ok(CalcRequest::Wifi(WifiActions::SetConfig(config(
            &"s".repeat(32),
            &"p".repeat(64),
            AuthMethod::WPA3Personal
        ))))
    );
}

#[test]
fn configuration_record_is_written_in_97_bytes() {
    let bytes = config("home", "secret123", AuthMethod::WPA2Personal).to_bytes();
    assert_eq!(bytes.len(), 97);
    assert_eq!(bytes, record(b"home", b"secret123", 3));
    let request = CalcRequest::Wifi(WifiActions::SetConfig(config("", "", AuthMethod::Open)));
    assert_eq!(request.to_bytes(), set_config_frame(b"", b"", 0));
}

#[test]
fn truncated_configuration_is_refused() {
    let frame = set_config_frame(b"home", b"secret", 3);
    let (result, rest) = decode_request(&frame[..frame.len() - 1]);
    assert_eq!(result, Err(DecodeError::SizeMismatch { read: 0, expected: 1 }));
    assert!(rest.is_empty());
    let (result, _) = decode_request(&frame[..50]);
    assert_eq!(result, Err(DecodeError::SizeMismatch { read: 16, expected: 64 }));
    let (result, _) = decode_request(&frame[..12]);
    assert_eq!(result, Err(DecodeError::SizeMismatch { read: 10, expected: 32 }));
}

#[test]
fn unknown_radio_tag_is_refused() {
    for tag in [9u8, 10, 200, 255] {
        let (result, rest) = decode_request(&[0, tag, 1, 2]);
        assert_eq!(result, Err(DecodeError::UnknownTag { tag }));
        assert_eq!(rest, vec![1, 2]);
    }
}

#[test]
fn unknown_family_tag_is_refused() {
    for tag in [2u8, 3, 128, 255] {
        let (result, rest) = decode_request(&[tag, 5]);
        assert_eq!(result, Err(DecodeError::UnknownTag { tag }));
        assert_eq!(rest, vec![5]);
    }
}

#[test]
fn empty_input_is_refused() {
    let (result, _) = decode_request(&[]);
    assert_eq!(result, Err(DecodeError::SizeMismatch { read: 0, expected: 1 }));
    let (result, _) = decode_request(&[0]);
    assert_eq!(result, Err(DecodeError::SizeMismatch { read: 0, expected: 1 }));
    let (result, _) = decode_request(&[1]);
    assert_eq!(result, Err(DecodeError::SizeMismatch { read: 0, expected: 4 }));
}

#[test]
fn network_call_with_get_decodes() {
    let (result, rest) = decode_request(&[1, 0, 0, 0, 4, b'h', b't', b't', b'p', 1]);
    assert_eq!(
        result,
        Ok(CalcRequest::Http(HttpReq { url: "http".to_string(), extra: MethodWithArgs::Get }))
    );
    assert!(rest.is_empty());
}

#[test]
fn network_call_with_delete_decodes() {
    let (result, rest) = decode_request(&[1, 0, 0, 0, 4, b'h', b't', b't', b'p', 0]);
    assert_eq!(
        result,
        Ok(CalcRequest::Http(HttpReq { url: "http".to_string(), extra: MethodWithArgs::Delete }))
    );
    assert!(rest.is_empty());
}

#[test]
fn network_call_with_headers_decodes() {
    let mut frame = vec![1u8, 0, 0, 0, 1, b'u', 3, 2];
    frame.extend([0, 0, 0, 1, b'k', 0, 0, 0, 1, b'v']);
    frame.extend([0, 0, 0, 2, b'k', b'2', 0, 0, 0, 0]);
    frame.push(42);
    let (result, rest) = decode_request(&frame);
    assert_eq!(
        result,
        Ok(CalcRequest::Http(HttpReq {
            url: "u".to_string(),
            extra: MethodWithArgs::Post(vec![header("k", "v"), header("k2", "")]),
        }))
    );
    assert_eq!(rest, vec![42]);
}

#[test]
fn each_method_has_its_tag() {
    let headers: Headers = vec![header("a", "b")];
    let list = headers.clone().to_bytes();
    assert_eq!(list, vec![1, 0, 0, 0, 1, b'a', 0, 0, 0, 1, b'b']);
    assert_eq!(MethodWithArgs::Delete.to_bytes(), vec![0]);
    assert_eq!(MethodWithArgs::Get.to_bytes(), vec![1]);
    for (tag, method) in [
        (2u8, MethodWithArgs::Head(headers.clone())),
        (3, MethodWithArgs::Post(headers.clone())),
        (4, MethodWithArgs::Put(headers.clone())),
    ] {
        let mut expected = vec![tag];
        expected.extend(&list);
        assert_eq!(method.clone().to_bytes(), expected);
        let mut reader = ByteReader::new(&expected);
        assert_eq!(MethodWithArgs::from_bytes(&mut reader), Ok(method));
        assert!(reader.is_empty());
    }
}

#[test]
fn unknown_method_tag_is_refused() {
    let (result, _) = decode_request(&[1, 0, 0, 0, 1, b'u', 5]);
    assert_eq!(result, Err(DecodeError::UnknownTag { tag: 5 }));
    let mut reader = ByteReader::new(&[200]);
    assert_eq!(
        MethodWithArgs::from_bytes(&mut reader),
        Err(DecodeError::UnknownTag { tag: 200 })
    );
}

#[test]
fn network_call_with_bad_url_is_refused() {
    let (result, _) = decode_request(&[1, 0, 0, 0, 2, 0xff, 0xff, 1]);
    assert_eq!(result, Err(DecodeError::InvalidUtf8));
    let (result, _) = decode_request(&[1, 0, 0, 0, 9, b'h', b't']);
    assert_eq!(result, Err(DecodeError::SizeMismatch { read: 2, expected: 9 }));
    let (result, _) = decode_request(&[1, 0, 0, 0, 1, b'u']);
    assert_eq!(result, Err(DecodeError::SizeMismatch { read: 0, expected: 1 }));
}

#[test]
fn requests_are_read_back_from_their_frames() {
    let requests = vec![
        CalcRequest::Wifi(WifiActions::IsStarted),
        CalcRequest::Wifi(WifiActions::Scan),
        CalcRequest::Wifi(WifiActions::Disconnect),
        CalcRequest::Wifi(WifiActions::SetConfig(config("home", "pass", AuthMethod::WEP))),
        CalcRequest::Wifi(WifiActions::SetConfig(config("düsseldorf", "", AuthMethod::Open))),
        CalcRequest::Wifi(WifiActions::SetConfig(config(
            &"x".repeat(32),
            &"y".repeat(64),
            AuthMethod::WAPIPersonal,
        ))),
        CalcRequest::Http(HttpReq { url: String::new(), extra: MethodWithArgs::Delete }),
        CalcRequest::Http(HttpReq {
            url: "https://example.org/a?b=c".to_string(),
            extra: MethodWithArgs::Get,
        }),
        CalcRequest::Http(HttpReq {
            url: "http://h".to_string(),
            extra: MethodWithArgs::Head(vec![]),
        }),
        CalcRequest::Http(HttpReq {
            url: "http://h".to_string(),
            extra: MethodWithArgs::Put(vec![header("Accept", "*/*"), header("X", "ÿ")]),
        }),
    ];
    for request in requests {
        let mut frame = request.clone().to_bytes();
        frame.extend([9, 9, 9]);
        let (result, rest) = decode_request(&frame);
        assert_eq!(result, Ok(request));
        assert_eq!(rest, vec![9, 9, 9]);
    }
}

#[test]
fn frames_are_written_back_from_their_requests() {
    let frames: Vec<Vec<u8>> = vec![
        vec![0, 0],
        vec![0, 7],
        set_config_frame(b"home", b"pw", 8),
        vec![1, 0, 0, 0, 0, 0],
        vec![1, 0, 0, 0, 1, b'u', 4, 1, 0, 0, 0, 1, b'k', 0, 0, 0, 1, b'v'],
    ];
    for frame in frames {
        let (result, rest) = decode_request(&frame);
        assert!(rest.is_empty());
        assert_eq!(result.unwrap().to_bytes(), frame);
    }
}

#[test]
fn every_strict_prefix_of_a_frame_is_refused() {
    let request = CalcRequest::Http(HttpReq {
        url: "http://h".to_string(),
        extra: MethodWithArgs::Post(vec![header("k", "v"), header("kk", "vv")]),
    });
    let frame = request.to_bytes();
    for cut in 0..frame.len() {
        let (result, _) = decode_request(&frame[..cut]);
        assert!(matches!(result, Err(DecodeError::SizeMismatch { .. })));
    }
    let frame = set_config_frame(b"home", b"pw", 2);
    for cut in 0..frame.len() {
        let (result, _) = decode_request(&frame[..cut]);
        assert!(matches!(result, Err(DecodeError::SizeMismatch { .. })));
    }
}

#[test]
fn decoder_survives_noise() {
    let mut seed: u32 = 0x1234_5678;
    for round in 0..2000usize {
        let len = round % 40;
        let mut noise = Vec::with_capacity(len);
        for _ in 0..len {
            seed = seed.wrapping_mul(1_664_525).wrapping_add(1_013_904_223);
            noise.push((seed >> 24) as u8);
        }
        let (first, _) = decode_request(&noise);
        if let Ok(request) = first {
            let again = request.clone().to_bytes();
            assert_eq!(decode_request(&again).0, Ok(request));
        }
        let (next, rest) = decode_request(&[0, 5]);
        assert_eq!(next, Ok(CalcRequest::Wifi(WifiActions::Scan)));
        assert!(rest.is_empty());
    }
}

#[test]
fn headers_are_borrowed_in_order() {
    let headers: Headers = vec![header("a", "1"), header("b", "2")];
    assert_eq!(headers.as_full_ref(), vec![("a", "1"), ("b", "2")]);
    let none: Headers = vec![];
    assert!(none.as_full_ref().is_empty());
}

#[test]
fn only_head_post_and_put_carry_headers() {
    let headers: Headers = vec![header("a", "1")];
    assert_eq!(MethodWithArgs::Delete.headers(), None);
    assert_eq!(MethodWithArgs::Get.headers(), None);
    assert_eq!(MethodWithArgs::Head(headers.clone()).headers(), Some(vec![("a", "1")]));
    assert_eq!(MethodWithArgs::Post(headers.clone()).headers(), Some(vec![("a", "1")]));
    assert_eq!(MethodWithArgs::Put(headers.clone()).headers(), Some(vec![("a", "1")]));
    assert_eq!(MethodWithArgs::Put(vec![]).headers(), Some(vec![]));
    assert_eq!(MethodWithArgs::Delete.method(), Method::Delete);
    assert_eq!(MethodWithArgs::Get.method(), Method::Get);
    assert_eq!(MethodWithArgs::Head(vec![]).method(), Method::Head);
    assert_eq!(MethodWithArgs::Post(vec![]).method(), Method::Post);
    assert_eq!(MethodWithArgs::Put(vec![]).method(), Method::Put);
}

#[test]
fn request_plans_the_call_to_make() {
    let get = MethodWithArgs::Get;
    let call = get.request("http://h/x");
    assert_eq!(call.method, Method::Get);
    assert_eq!(call.uri, "http://h/x");
    assert!(call.headers.is_empty());

    let post = MethodWithArgs::Post(vec![header("a", "1"), header("b", "2")]);
    let call = post.request("http://h/y");
    assert_eq!(call.method, Method::Post);
    assert_eq!(call.uri, "http://h/y");
    assert_eq!(call.headers, vec![("a", "1"), ("b", "2")]);
}

#[test]
fn send_plans_the_call_of_the_request() {
    let request = HttpReq {
        url: "http://h/z".to_string(),
        extra: MethodWithArgs::Head(vec![header("k", "v")]),
    };
    let call = request.send();
    assert_eq!(call.method, Method::Head);
    assert_eq!(call.uri, "http://h/z");
    assert_eq!(call.headers, vec![("k", "v")]);

    let request = HttpReq { url: "u".to_string(), extra: MethodWithArgs::Delete };
    let call = request.send();
    assert_eq!(call.method, Method::Delete);
    assert!(call.headers.is_empty());
}

#[test]
fn body_is_what_was_read_into_the_buffer() {
    let buf = [1u8, 2, 3, 4, 5];
    assert_eq!(HttpResp::from_read(&buf, 3).raw, vec![1, 2, 3]);
    assert_eq!(HttpResp::from_read(&buf, 0).raw, Vec::<u8>::new());
    assert_eq!(HttpResp::from_read(&buf, 5).raw, vec![1, 2, 3, 4, 5]);
    assert_eq!(HttpResp::from_read(&buf, 9).raw, vec![1, 2, 3, 4, 5]);
    assert_eq!(RESPONSE_LIMIT, 4096);
    let full = vec![7u8; RESPONSE_LIMIT];
    assert_eq!(HttpResp::from_read(&full, RESPONSE_LIMIT).raw.len(), 4096);
}
