use waysn::codec::{decode_command, decode_response, encode_command, encode_response, frame_length, frame_message};
use waysn::ipc::{IpcCommand, IpcResponse};

fn names(v: &[&str]) -> Vec<String> {
    v.iter().map(|s| s.to_string()).collect()
}

#[test]
fn set_temperature_round_trip() {
    let cmd = IpcCommand::SetTemperature {
        kelvin: 4000,
        gamma_millis: 1000,
        outputs: names(&["eDP-1", "HDMI-A-1"]),
    };
    let bytes = encode_command(&cmd).expect("encodable");
    let back = decode_command(&bytes).expect("decodable");
    assert_eq!(back, cmd);
}

#[test]
fn get_temperature_round_trip() {
    let cmd = IpcCommand::GetTemperature { outputs: names(&[]) };
    let bytes = encode_command(&cmd).expect("encodable");
    let back = decode_command(&bytes).expect("decodable");
    assert_eq!(back, cmd);
}

#[test]
fn kill_round_trip() {
    let cmd = IpcCommand::Kill {};
    let bytes = encode_command(&cmd).expect("encodable");
    assert_eq!(bytes, vec![2u8]);
    let back = decode_command(&bytes).expect("decodable");
    assert_eq!(back, cmd);
}

#[test]
fn command_wire_layout_exact() {
    // tag 1, count 1, length 2, then the UTF-8 bytes of "ab".
    let cmd = IpcCommand::GetTemperature { outputs: names(&["ab"]) };
    let bytes = encode_command(&cmd).expect("encodable");
    assert_eq!(bytes, vec![1u8, 1, 0, 0, 0, 2, 0, 0, 0, 0x61, 0x62]);
}

#[test]
fn non_ascii_name_round_trip() {
    let cmd = IpcCommand::SetTemperature {
        kelvin: 3500,
        gamma_millis: 900,
        outputs: names(&["écran-π"]),
    };
    let bytes = encode_command(&cmd).expect("encodable");
    let back = decode_command(&bytes).expect("decodable");
    assert_eq!(back, cmd);
}

#[test]
fn decode_rejects_malformed() {
    // Empty input.
    assert!(decode_command(&vec![]).is_none());
    // Unknown tag.
    assert!(decode_command(&vec![9u8]).is_none());
    // Truncated count.
    assert!(decode_command(&vec![1u8, 1, 0]).is_none());
    // Count says one string, body holds none.
    assert!(decode_command(&vec![1u8, 1, 0, 0, 0]).is_none());
    // String length runs past the end.
    assert!(decode_command(&vec![1u8, 1, 0, 0, 0, 5, 0, 0, 0, 0x61]).is_none());
    // Trailing garbage after a complete command.
    assert!(decode_command(&vec![2u8, 0]).is_none());
    // Invalid UTF-8 in a name.
    assert!(decode_command(&vec![1u8, 1, 0, 0, 0, 1, 0, 0, 0, 0xff]).is_none());
}

#[test]
fn response_round_trips() {
    let resps = vec![
        IpcResponse::Success,
        IpcResponse::Failure { message: "no such output".to_string() },
        IpcResponse::Temperature {
            temperatures: vec![
                ("eDP-1".to_string(), 4000, 1000),
                ("HDMI-A-1".to_string(), 6600, 1000),
            ],
        },
        IpcResponse::Temperature { temperatures: vec![] },
    ];
    for r in resps {
        let bytes = encode_response(&r).expect("encodable");
        let back = decode_response(&bytes).expect("decodable");
        assert_eq!(back, r);
    }
}

#[test]
fn response_decode_rejects_malformed() {
    assert!(decode_response(&vec![]).is_none());
    assert!(decode_response(&vec![7u8]).is_none());
    assert!(decode_response(&vec![1u8, 0]).is_none());
    assert!(decode_response(&vec![0u8, 1, 0, 0, 0]).is_none());
}

#[test]
fn frame_round_trip() {
    let cmd = IpcCommand::SetTemperature { kelvin: 4000, gamma_millis: 1000, outputs: names(&[]) };
    let payload = encode_command(&cmd).expect("encodable");
    let framed = frame_message(payload.clone()).expect("frameable");
    assert_eq!(framed.len(), payload.len() + 4);
    let header = framed[..4].to_vec();
    assert_eq!(frame_length(&header) as usize, payload.len());
    let body = framed[4..].to_vec();
    assert_eq!(body, payload);
    let back = decode_command(&body).expect("decodable");
    assert_eq!(back, cmd);
}

#[test]
fn frame_length_is_big_endian() {
    let framed = frame_message(vec![0u8; 0x0102]).expect("frameable");
    assert_eq!(&framed[..4], &[0, 0, 1, 2]);
    assert_eq!(frame_length(&framed[..4].to_vec()), 0x0102);
}
