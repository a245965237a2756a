use search_tool::listening_pid;

const NETSTAT: &str = "\r\nActive Connections\r\n\r\n  Proto  Local Address          Foreign Address        State           PID\r\n  TCP    0.0.0.0:135            0.0.0.0:0              LISTENING       1044\r\n  TCP    127.0.0.1:1420         0.0.0.0:0              ESTABLISHED     77\r\n  TCP    127.0.0.1:1420         0.0.0.0:0              LISTENING       abc\r\n  TCP    127.0.0.1:1420         0.0.0.0:0              LISTENING       5120\r\n  TCP    127.0.0.1:1420         0.0.0.0:0              LISTENING       6000\r\n";

#[test]
fn first_listening_process_is_found() {
    assert_eq!(listening_pid(NETSTAT, 1420), Some(5120));
    assert_eq!(listening_pid(NETSTAT, 135), Some(1044));
}

#[test]
fn no_listening_process() {
    assert_eq!(listening_pid(NETSTAT, 8080), None);
    assert_eq!(listening_pid("", 1420), None);
}

#[test]
fn port_label_is_a_substring_match() {
    assert_eq!(listening_pid("TCP 0.0.0.0:14200 LISTENING 9", 1420), Some(9));
    assert_eq!(listening_pid("TCP 0.0.0.0:0 LISTENING 99999999999", 0), None);
    assert_eq!(listening_pid("TCP 0.0.0.0:0 LISTENING 4294967295", 0), Some(4294967295));
}
