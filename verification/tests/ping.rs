use glean_core::{PingType, SendError};

#[test]
fn ping_keeps_its_name_and_setting() {
    let ping = PingType::new("baseline".to_string(), true);
    assert_eq!(ping.name, "baseline");
    assert!(ping.include_client_id);
    let ping = PingType::new(String::from("deletion-request"), false);
    assert_eq!(ping.name, "deletion-request");
    assert!(!ping.include_client_id);
}

#[test]
fn ping_send_returns_what_the_engine_answers() {
    let ping = PingType::new("metrics".to_string(), true);
    let submits = |_: &PingType, _: bool| -> Result<bool, SendError> { Ok(true) };
    let skips = |_: &PingType, _: bool| -> Result<bool, SendError> { Ok(false) };
    assert_eq!(ping.send(&submits, false), Ok(true));
    assert_eq!(ping.send(&skips, false), Ok(false));
}

#[test]
fn ping_send_hands_the_ping_and_the_flag_to_the_engine() {
    let ping = PingType::new("events".to_string(), true);
    let engine = |ping: &PingType, log_ping: bool| -> Result<bool, SendError> {
        Ok(ping.name == "events" && ping.include_client_id && log_ping)
    };
    assert_eq!(ping.send(&engine, true), Ok(true));
    assert_eq!(ping.send(&engine, false), Ok(false));
    let other = PingType::new("events".to_string(), false);
    assert_eq!(other.send(&engine, true), Ok(false));
}

#[test]
fn ping_send_passes_failures_on() {
    let ping = PingType::new("metrics".to_string(), false);
    for error in [
        SendError::Assembly,
        SendError::Encoding,
        SendError::Queueing,
        SendError::Transport,
    ] {
        let engine = move |_: &PingType, _: bool| -> Result<bool, SendError> { Err(error) };
        assert_eq!(ping.send(&engine, true), Err(error));
    }
}

#[test]
fn ping_clone_is_the_same_ping() {
    let ping = PingType::new("baseline".to_string(), true);
    let copy = ping.clone();
    assert_eq!(copy.name, ping.name);
    assert_eq!(copy.include_client_id, ping.include_client_id);
}
