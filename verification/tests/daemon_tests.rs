use yaq_r::daemon::BaseDaemonState;
use yaq_r::daemon::DaemonConfig;
use yaq_r::daemon::LogLevel;

#[test]
fn daemon_config_defaults() {
    let d = DaemonConfig::default();
    assert_eq!(d.port, 0);
    assert_eq!(d.serial, None);
    assert_eq!(d.make, None);
    assert_eq!(d.model, None);
    assert!(d.enable);
    assert_eq!(d.log_level, LogLevel::INFO);
    assert!(!d.log_to_file);
}

#[test]
fn base_state_carries_busy() {
    let s = BaseDaemonState { busy: true };
    assert!(s.busy);
    let s = BaseDaemonState { busy: false };
    assert!(!s.busy);
}
