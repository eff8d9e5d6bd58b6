use packet_tracer_generator::allocate;
use packet_tracer_generator::parse_cidr;
use packet_tracer_generator::AppError;

#[test]
fn allocation_skips_network_and_broadcast() {
    let block = parse_cidr("192.168.1.0/24").unwrap();
    let (first, second) = allocate(block).unwrap();
    assert_eq!(first, parse_cidr("192.168.1.1/24").unwrap());
    assert_eq!(second, parse_cidr("192.168.1.2/24").unwrap());
    assert_ne!(first, second);
}

#[test]
fn allocation_is_deterministic() {
    let block = parse_cidr("10.20.30.0/30").unwrap();
    let once = allocate(block).unwrap();
    let twice = allocate(block).unwrap();
    assert_eq!(once, twice);
    assert_eq!(once.0, parse_cidr("10.20.30.1/30").unwrap());
    assert_eq!(once.1, parse_cidr("10.20.30.2/30").unwrap());
}

#[test]
fn allocation_ignores_host_bits_of_the_block() {
    let spelled_as_host = parse_cidr("10.20.30.1/30").unwrap();
    let spelled_as_net = parse_cidr("10.20.30.0/30").unwrap();
    assert_eq!(allocate(spelled_as_host).unwrap(), allocate(spelled_as_net).unwrap());
}

#[test]
fn a_31_bit_block_uses_both_addresses() {
    let block = parse_cidr("10.0.0.6/31").unwrap();
    let (first, second) = allocate(block).unwrap();
    assert_eq!(first, parse_cidr("10.0.0.6/31").unwrap());
    assert_eq!(second, parse_cidr("10.0.0.7/31").unwrap());
}

#[test]
fn blocks_without_two_hosts_are_invalid() {
    assert_eq!(allocate(parse_cidr("10.0.0.1/32").unwrap()), Err(AppError::InvalidBlock));
    assert_eq!(
        allocate(parse_cidr("2001:db8::5/128").unwrap()),
        Err(AppError::InvalidBlock),
    );
}

#[test]
fn v6_allocation_starts_at_the_network_address() {
    let block = parse_cidr("2001:db8:0:1::/64").unwrap();
    let (first, second) = allocate(block).unwrap();
    assert_eq!(first, parse_cidr("2001:db8:0:1::/64").unwrap());
    assert_eq!(second, parse_cidr("2001:db8:0:1::1/64").unwrap());
}

#[test]
fn parsing_rejects_malformed_text() {
    assert_eq!(parse_cidr("10.0.0.0"), None);
    assert_eq!(parse_cidr("10.0.0.0/33"), None);
    assert_eq!(parse_cidr("10.0.0/24"), None);
    assert_eq!(parse_cidr(""), None);
    assert!(parse_cidr("2001:db8::/129").is_none());
}
