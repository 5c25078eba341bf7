use flesh::lora::{is_ok_response, LoraSettings};

#[test]
fn lora_commands() {
    let s = LoraSettings { spread_factor: 9, frequency_hz: 915_000_000, bandwidth_khz: 10 };
    let c = s.commands();
    assert_eq!(c.len(), 3);
    assert_eq!(c[0], b"AT+SF=9\r\n".to_vec());
    assert_eq!(c[1], b"AT+FREQ=915000000\r\n".to_vec());
    assert_eq!(c[2], b"AT+BW=10\r\n".to_vec());
    let z = LoraSettings { spread_factor: 0, frequency_hz: 0, bandwidth_khz: 0 };
    assert_eq!(z.commands()[1], b"AT+FREQ=0\r\n".to_vec());
}

#[test]
fn ok_response() {
    assert!(is_ok_response(b"OK"));
    assert!(is_ok_response(b"  OK\r\n"));
    assert!(!is_ok_response(b"ERROR"));
    assert!(!is_ok_response(b"O K"));
    assert!(!is_ok_response(b"OKAY"));
    assert!(!is_ok_response(b""));
    assert!(!is_ok_response(b"ok"));
}
