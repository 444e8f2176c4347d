use rust_mule::config_check::{validate_settings, ConfigValidationError, SamApiSettings};

fn good() -> SamApiSettings {
    SamApiSettings {
        sam_host: "127.0.0.1".to_string(),
        sam_host_is_ip: true,
        sam_port: 7656,
        udp_forward: true,
        sam_udp_port: 7655,
        session_name: "rust-mule".to_string(),
        forward_host: "127.0.0.1".to_string(),
        forward_host_is_ip: true,
        control_timeout_secs: 120,
        max_concurrent_transfer_streams: 8,
        api_port: 17835,
    }
}

#[test]
fn good_settings_pass() {
    assert_eq!(validate_settings(&good()), Ok(()));
}

#[test]
fn each_check_reports_its_value() {
    let mut s = good();
    s.sam_host = "localhost".to_string();
    s.sam_host_is_ip = false;
    let e = validate_settings(&s).unwrap_err();
    assert_eq!(e, ConfigValidationError::InvalidSamHost("localhost".to_string()));
    assert_eq!(e.to_string(), "Invalid sam.host 'localhost'");

    let mut s = good();
    s.sam_port = 0;
    assert_eq!(validate_settings(&s).unwrap_err(), ConfigValidationError::InvalidSamPort(0));

    let mut s = good();
    s.sam_udp_port = 0;
    assert_eq!(validate_settings(&s).unwrap_err(), ConfigValidationError::InvalidSamUdpPort(0));
    s.udp_forward = false;
    s.forward_host_is_ip = false;
    assert_eq!(validate_settings(&s), Ok(()));

    let mut s = good();
    s.session_name = " \t\u{3000}".to_string();
    let e = validate_settings(&s).unwrap_err();
    assert_eq!(e, ConfigValidationError::InvalidSessionName(" \t\u{3000}".to_string()));
    s.session_name = " x ".to_string();
    assert_eq!(validate_settings(&s), Ok(()));

    let mut s = good();
    s.forward_host_is_ip = false;
    assert_eq!(
        validate_settings(&s).unwrap_err(),
        ConfigValidationError::InvalidForwardHost("127.0.0.1".to_string())
    );

    let mut s = good();
    s.control_timeout_secs = 0;
    let e = validate_settings(&s).unwrap_err();
    assert_eq!(e, ConfigValidationError::InvalidControlTimeout(0));
    assert_eq!(e.to_string(), "Invalid sam.control_timeout_secs '0'");

    let mut s = good();
    s.max_concurrent_transfer_streams = 0;
    assert_eq!(
        validate_settings(&s).unwrap_err(),
        ConfigValidationError::InvalidMaxConcurrentTransferStreams(0)
    );

    let mut s = good();
    s.api_port = 0;
    let e = validate_settings(&s).unwrap_err();
    assert_eq!(e, ConfigValidationError::InvalidApiPort(0));
    assert_eq!(e.to_string(), "Invalid api.port '0'");
}

#[test]
fn the_first_failing_check_wins() {
    let mut s = good();
    s.sam_port = 0;
    s.api_port = 0;
    s.session_name = String::new();
    assert_eq!(validate_settings(&s).unwrap_err(), ConfigValidationError::InvalidSamPort(0));
}
