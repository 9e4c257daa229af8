use fofb_server::FOFBMsgType;
use fofb_server::Session;

fn parse(session: &mut Session, line: &str) -> FOFBMsgType {
    session.parse_line(&line.as_bytes().to_vec())
}

/// MSB-first two's-complement decoding of a 32-element logic vector.
fn decode_logic(v: &[u8; 32]) -> i32 {
    let mut u: u32 = 0;
    for &b in v.iter() {
        assert!(b == 2 || b == 3);
        u = (u << 1) | (if b == 3 { 1 } else { 0 });
    }
    u as i32
}

fn coeff_at(session: &Session, index: u32) -> i32 {
    let mut v = [0u8; 32];
    session.read_coeff(index, &mut v);
    decode_logic(&v)
}

fn sp_at(session: &Session, index: u32) -> i32 {
    let mut v = [0u8; 32];
    session.read_sp(index, &mut v);
    decode_logic(&v)
}

fn pos_at(session: &Session, index: u32) -> i32 {
    let mut v = [0u8; 32];
    session.read_bpm_pos(index, &mut v);
    decode_logic(&v)
}

#[test]
fn coefficients_partial_update() {
    let mut s = Session::new(12, 2, 3);
    assert_eq!(parse(&mut s, "coefficients 1.0 2.0"), FOFBMsgType::Coeff);
    assert_eq!(coeff_at(&s, 0), 4);
    assert_eq!(coeff_at(&s, 1), 8);
    for i in 2..512 {
        assert_eq!(coeff_at(&s, i), 0);
    }
}

#[test]
fn gain_parse_error_leaves_gain() {
    let mut s = Session::new(12, 2, 3);
    assert_eq!(parse(&mut s, "gain 2.0"), FOFBMsgType::Gain);
    assert_eq!(s.read_gain(), 8192);
    assert_eq!(parse(&mut s, "gain abc"), FOFBMsgType::ParseErr);
    assert_eq!(s.read_gain(), 8192);
}

#[test]
fn setpoints_stop_at_first_bad_token() {
    let mut s = Session::new(12, 2, 3);
    assert_eq!(parse(&mut s, "bpm_setpoints 9 9 9"), FOFBMsgType::SetPoint);
    assert_eq!(sp_at(&s, 0), 72);
    assert_eq!(sp_at(&s, 1), 72);
    assert_eq!(sp_at(&s, 2), 72);
    assert_eq!(parse(&mut s, "bpm_setpoints 1.0 xyz 3.0"), FOFBMsgType::ParseErr);
    assert_eq!(sp_at(&s, 0), 8);
    assert_eq!(sp_at(&s, 1), 72);
    assert_eq!(sp_at(&s, 2), 72);
}

#[test]
fn positions_update() {
    let mut s = Session::new(12, 2, 3);
    assert_eq!(parse(&mut s, "bpm_positions -0.5 4"), FOFBMsgType::BPMPos);
    assert_eq!(pos_at(&s, 0), -4);
    assert_eq!(pos_at(&s, 1), 32);
    assert_eq!(pos_at(&s, 2), 0);
}

#[test]
fn disconnect_then_reads_and_writes() {
    let mut s = Session::new(12, 2, 3);
    s.attach_connection();
    assert_eq!(s.write_sp_payload(101), Some(b"101\n".to_vec()));
    assert_eq!(parse(&mut s, "disconnect"), FOFBMsgType::Disconnected);
    assert_eq!(s.write_sp_payload(101), None);
    assert_eq!(s.next_message(None), FOFBMsgType::Disconnected);
}

#[test]
fn unknown_verb_is_parse_error() {
    let mut s = Session::new(12, 2, 3);
    assert_eq!(parse(&mut s, "foobar"), FOFBMsgType::ParseErr);
    assert_eq!(parse(&mut s, "Coefficients 1.0"), FOFBMsgType::ParseErr);
    assert_eq!(parse(&mut s, ""), FOFBMsgType::ParseErr);
    assert_eq!(parse(&mut s, "   \r\n"), FOFBMsgType::ParseErr);
    assert_eq!(coeff_at(&s, 0), 0);
}

#[test]
fn doubled_space_yields_empty_token() {
    let mut s = Session::new(12, 2, 3);
    assert_eq!(parse(&mut s, "coefficients 1.0  2.0"), FOFBMsgType::ParseErr);
    assert_eq!(coeff_at(&s, 0), 4);
    assert_eq!(coeff_at(&s, 1), 0);
}

#[test]
fn excess_tokens_are_ignored() {
    let mut s = Session::new(12, 2, 3);
    assert_eq!(parse(&mut s, "gain 1.0 2.0"), FOFBMsgType::Gain);
    assert_eq!(s.read_gain(), 4096);
}

#[test]
fn verbs_without_payload() {
    let mut s = Session::new(12, 2, 3);
    assert_eq!(parse(&mut s, "clear_acc"), FOFBMsgType::ClearACC);
    assert_eq!(parse(&mut s, "debug"), FOFBMsgType::Debug);
    assert_eq!(parse(&mut s, "exit"), FOFBMsgType::Exit);
    assert_eq!(coeff_at(&s, 0), 0);
    assert_eq!(s.read_gain(), 0);
}

#[test]
fn trimming_of_line_endings() {
    let mut s = Session::new(12, 2, 3);
    assert_eq!(parse(&mut s, "  gain 1.0\r\n"), FOFBMsgType::Gain);
    assert_eq!(s.read_gain(), 4096);
}

#[test]
fn out_of_range_read_is_a_no_op() {
    let s = Session::new(12, 2, 3);
    let mut v = [7u8; 32];
    s.read_coeff(512, &mut v);
    assert_eq!(v, [7u8; 32]);
    s.read_sp(4096, &mut v);
    assert_eq!(v, [7u8; 32]);
    s.read_bpm_pos(u32::MAX, &mut v);
    assert_eq!(v, [7u8; 32]);
}

#[test]
fn setpoint_payload_format() {
    let mut s = Session::new(0, 0, 0);
    s.attach_connection();
    assert_eq!(s.write_sp_payload(0), Some(b"0\n".to_vec()));
    assert_eq!(s.write_sp_payload(-123), Some(b"-123\n".to_vec()));
    assert_eq!(s.write_sp_payload(i32::MAX), Some(b"2147483647\n".to_vec()));
    assert_eq!(s.write_sp_payload(i32::MIN), Some(b"-2147483648\n".to_vec()));
}

#[test]
fn next_message_parses_lines() {
    let mut s = Session::new(12, 2, 3);
    let line = b"gain 1.0\n".to_vec();
    assert_eq!(s.next_message(Some(&line)), FOFBMsgType::Gain);
    assert_eq!(s.read_gain(), 4096);
}

#[test]
fn widths_are_applied_per_domain() {
    let mut s = Session::new(4, 8, 16);
    assert_eq!(parse(&mut s, "gain 1.5"), FOFBMsgType::Gain);
    assert_eq!(s.read_gain(), 24);
    assert_eq!(parse(&mut s, "coefficients 1.5"), FOFBMsgType::Coeff);
    assert_eq!(coeff_at(&s, 0), 384);
    assert_eq!(parse(&mut s, "bpm_setpoints 1.5"), FOFBMsgType::SetPoint);
    assert_eq!(sp_at(&s, 0), 98304);
    assert_eq!(parse(&mut s, "bpm_positions -1.5"), FOFBMsgType::BPMPos);
    assert_eq!(pos_at(&s, 0), -98304);
}

#[test]
fn saturation_through_the_parser() {
    let mut s = Session::new(0, 0, 0);
    assert_eq!(parse(&mut s, "coefficients 1e10 -1e10"), FOFBMsgType::Coeff);
    assert_eq!(coeff_at(&s, 0), i32::MAX);
    assert_eq!(coeff_at(&s, 1), i32::MIN);
}
