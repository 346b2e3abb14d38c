use wrath::error::WrathError;
use wrath::port::{
    lookup_command, parse_pid_from_output, parse_unix_lsof, parse_windows_netstat,
    resolve_port_to_pid, Platform,
};

#[test]
fn test_parse_windows_netstat_listening() {
    let output =
        "  TCP    0.0.0.0:3000           0.0.0.0:0              LISTENING       12345\r\n";
    let pid = parse_windows_netstat(output, 3000);
    assert_eq!(pid, Ok(12345));
}

#[test]
fn test_parse_windows_netstat_multiple_lines() {
    let output = "  TCP    0.0.0.0:3000           0.0.0.0:0              ESTABLISHED     99999\r\n\
                   TCP    0.0.0.0:3000           0.0.0.0:0              LISTENING       12345\r\n";
    let pid = parse_windows_netstat(output, 3000);
    assert_eq!(pid, Ok(12345));
}

#[test]
fn test_parse_windows_netstat_no_listening() {
    let output =
        "  TCP    0.0.0.0:3000           0.0.0.0:0              ESTABLISHED     12345\r\n";
    let pid = parse_windows_netstat(output, 3000);
    assert_eq!(pid, Err(WrathError::NoProcessOnPort(3000)));
}

#[test]
fn test_parse_windows_netstat_empty() {
    let pid = parse_windows_netstat("", 3000);
    assert_eq!(pid, Err(WrathError::NoProcessOnPort(3000)));
}

#[test]
fn test_parse_windows_netstat_pid_zero() {
    let output = "  TCP    0.0.0.0:3000           0.0.0.0:0              LISTENING       0\r\n";
    let pid = parse_windows_netstat(output, 3000);
    assert_eq!(pid, Err(WrathError::NoProcessOnPort(3000)));
}

#[test]
fn test_parse_unix_lsof_single_pid() {
    let output = "12345\n";
    let pid = parse_unix_lsof(output, 3000);
    assert_eq!(pid, Ok(12345));
}

#[test]
fn test_parse_unix_lsof_multiple_pids() {
    let output = "12345\n67890\n";
    let pid = parse_unix_lsof(output, 3000);
    assert_eq!(pid, Ok(12345));
}

#[test]
fn test_parse_unix_lsof_empty() {
    let pid = parse_unix_lsof("", 3000);
    assert_eq!(pid, Err(WrathError::NoProcessOnPort(3000)));
}

#[test]
fn test_parse_unix_lsof_invalid_output() {
    let pid = parse_unix_lsof("not_a_number\n", 3000);
    assert_eq!(pid, Err(WrathError::NoProcessOnPort(3000)));
}

#[test]
fn test_parse_unix_lsof_pid_zero() {
    let pid = parse_unix_lsof("0\n", 3000);
    assert_eq!(pid, Err(WrathError::NoProcessOnPort(3000)));
}

#[test]
fn test_parse_pid_from_output_dispatches_correctly() {
    // Each platform reads the output of its own lookup command
    let output =
        "  TCP    0.0.0.0:8080           0.0.0.0:0              LISTENING       5678\r\n";
    assert_eq!(
        parse_pid_from_output(output, 8080, Platform::Windows),
        Ok(5678)
    );
    let output = "5678\n";
    assert_eq!(parse_pid_from_output(output, 8080, Platform::Unix), Ok(5678));
}

#[test]
fn test_parse_windows_netstat_whitespace_variations() {
    let output = "TCP    127.0.0.1:3000    0.0.0.0:0    LISTENING    42\r\n";
    let pid = parse_windows_netstat(output, 3000);
    assert_eq!(pid, Ok(42));
}

#[test]
fn parse_skips_lines_until_one_gives_a_pid() {
    assert_eq!(parse_unix_lsof("\n  \nabc\n0\n 77 \n88\n", 1), Ok(77));
    assert_eq!(
        parse_windows_netstat("LISTENING x\nLISTENING 4294967296\nLISTENING 9", 1),
        Ok(9)
    );
    assert_eq!(
        parse_unix_lsof("4294967295\n", 1),
        Ok(4294967295)
    );
    assert_eq!(
        parse_unix_lsof("4294967296\n", 2),
        Err(WrathError::NoProcessOnPort(2))
    );
}

#[test]
fn parse_on_the_wrong_platform_finds_nothing() {
    let netstat = "  TCP    0.0.0.0:8080    0.0.0.0:0    LISTENING    5678\r\n";
    assert_eq!(
        parse_pid_from_output(netstat, 8080, Platform::Unix),
        Err(WrathError::NoProcessOnPort(8080))
    );
}

#[test]
fn resolve_reports_a_lookup_that_could_not_run() {
    assert_eq!(
        resolve_port_to_pid(3000, Err("no such program".to_string()), Platform::Unix),
        Err(WrathError::PortResolutionFailed(
            3000,
            "no such program".to_string()
        ))
    );
}

#[test]
fn resolve_reports_an_empty_lookup_as_no_process() {
    assert_eq!(
        resolve_port_to_pid(3000, Ok(" \r\n\t".to_string()), Platform::Windows),
        Err(WrathError::NoProcessOnPort(3000))
    );
}

#[test]
fn resolve_reads_the_pid_of_the_lookup() {
    assert_eq!(
        resolve_port_to_pid(3000, Ok("321\n".to_string()), Platform::Unix),
        Ok(321)
    );
    assert_eq!(
        resolve_port_to_pid(3000, Ok("garbage\n".to_string()), Platform::Unix),
        Err(WrathError::NoProcessOnPort(3000))
    );
}

#[test]
fn lookup_command_names_the_port() {
    assert_eq!(
        lookup_command(3000, Platform::Windows),
        vec!["cmd", "/C", "netstat -ano | findstr :3000"]
    );
    assert_eq!(
        lookup_command(80, Platform::Unix),
        vec!["sh", "-c", "lsof -i :80 -t"]
    );
}
