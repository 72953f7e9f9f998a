use capture_the_ip::run_mode::{exit_code, subsystems, RunMode, Subsystem};
use std::convert::TryFrom;

#[test]
fn run_mode_from_valid_numbers() {
    assert_eq!(RunMode::try_from(0u8), Ok(RunMode::Dual));
    assert_eq!(RunMode::try_from(1u8), Ok(RunMode::Api));
    assert_eq!(RunMode::try_from(2u8), Ok(RunMode::Background));
}

#[test]
fn run_mode_from_invalid_number_is_refused() {
    assert_eq!(
        RunMode::try_from(3u8),
        Err("invalid run mode value selected; allowed: 0, 1, 2")
    );
    assert!(RunMode::try_from(255u8).is_err());
}

#[test]
fn run_mode_round_trips_through_its_number() {
    for mode in [RunMode::Dual, RunMode::Api, RunMode::Background] {
        let n: u8 = u8::from(mode);
        assert_eq!(RunMode::try_from(n), Ok(mode));
    }
    for n in 0u8..3 {
        let mode = RunMode::try_from(n).unwrap();
        assert_eq!(u8::from(mode), n);
    }
}

#[test]
fn subsystems_in_start_order() {
    assert_eq!(
        subsystems(RunMode::Api),
        vec![Subsystem::ShutdownTimer, Subsystem::ClaimWriter, Subsystem::HttpServer]
    );
    assert_eq!(
        subsystems(RunMode::Background),
        vec![Subsystem::ShutdownTimer, Subsystem::Background]
    );
    assert_eq!(
        subsystems(RunMode::Dual),
        vec![
            Subsystem::ShutdownTimer,
            Subsystem::Background,
            Subsystem::ClaimWriter,
            Subsystem::HttpServer
        ]
    );
}

#[test]
fn subsystem_names() {
    let names: Vec<&str> = subsystems(RunMode::Dual).iter().map(|s| s.name()).collect();
    assert_eq!(names, vec!["ST", "BG", "CLAIMS", "API"]);
}

#[test]
fn exit_codes() {
    assert_eq!(exit_code(true), 0);
    assert_eq!(exit_code(false), 1);
}
