use wrath::error::WrathError;

#[test]
fn test_no_process_on_port_display() {
    let err = WrathError::NoProcessOnPort(3000);
    assert_eq!(err.to_string(), "No process found using port 3000");
}

#[test]
fn test_no_process_with_name_display() {
    let err = WrathError::NoProcessWithName("node".to_string());
    assert_eq!(err.to_string(), "No process found with name 'node'");
}

#[test]
fn test_port_resolution_failed_display() {
    let err = WrathError::PortResolutionFailed(8080, "timeout".to_string());
    assert_eq!(err.to_string(), "Failed to resolve port 8080: timeout");
}

#[test]
fn test_kill_failed_display() {
    let err = WrathError::KillFailed("permission denied".to_string());
    assert_eq!(err.to_string(), "Failed to kill process: permission denied");
}

#[test]
fn test_confirmation_errors_display() {
    assert_eq!(
        WrathError::ConfirmationRequired.to_string(),
        "Not an interactive terminal, use --yes to confirm"
    );
    assert_eq!(
        WrathError::Aborted.to_string(),
        "Aborted, nothing was killed"
    );
}

#[test]
fn test_error_debug() {
    let err = WrathError::NoProcessOnPort(80);
    let debug_str = format!("{err:?}");
    assert!(debug_str.contains("NoProcessOnPort"));
}

#[test]
fn test_error_equality() {
    assert_eq!(
        WrathError::NoProcessOnPort(80),
        WrathError::NoProcessOnPort(80)
    );
    assert_ne!(
        WrathError::NoProcessOnPort(80),
        WrathError::NoProcessOnPort(81)
    );
}

#[test]
fn error_messages_write_large_ports_in_full() {
    assert_eq!(
        WrathError::NoProcessOnPort(65535).to_string(),
        "No process found using port 65535"
    );
    assert_eq!(
        WrathError::PortResolutionFailed(1, String::new()).to_string(),
        "Failed to resolve port 1: "
    );
}
