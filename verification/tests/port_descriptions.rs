use havn::port_descriptions::PortDescriptions;

#[test]
/// Check that known and unknown ports return the correct &str
fn test_port_descriptions() {
    let values = PortDescriptions::new();

    let response = values.get(43);
    assert_eq!(response, "whois");

    let response = values.get(80);
    assert_eq!(response, "http");

    let response = values.get(443);
    assert_eq!(response, "https");

    let response = values.get(6379);
    assert_eq!(response, "redis");

    let response = values.get(5432);
    assert_eq!(response, "postgresql");

    let response = values.get(50001);
    assert_eq!(response, "unknown");
}

#[test]
/// Lines without a comma or a valid port are skipped, a later line wins, CRLF endings are handled
fn test_port_table_format() {
    let table = PortDescriptions::from_table(
        "alpha,1\r\nno comma here\nbeta,x2\ngamma,2\nname,with,commas,3\ndelta,1\r\n,4\nlast,65535\r",
    );
    assert_eq!(table.get(1), "delta");
    assert_eq!(table.get(2), "gamma");
    assert_eq!(table.get(3), "unknown");
    assert_eq!(table.get(4), "");
    assert_eq!(table.get(65535), "unknown");
    assert_eq!(table.get(7), "unknown");

    let table = PortDescriptions::from_table("last,65535");
    assert_eq!(table.get(65535), "last");

    let table = PortDescriptions::from_table("");
    assert_eq!(table.get(0), "unknown");

    let table = PortDescriptions::from_table("a,+8\n\nb, 9\n");
    assert_eq!(table.get(8), "a");
    assert_eq!(table.get(9), "unknown");
}
