use packet_tracer_generator::App;
use packet_tracer_generator::AppError;
use packet_tracer_generator::DeviceBuilder;
use packet_tracer_generator::parse_cidr;

#[test]
fn add_remove_ip() {
    let mut app = App::new();

    let r1 = DeviceBuilder::new("R1").finish(&mut app);
    let r2 = DeviceBuilder::new("R2").finish(&mut app);

    app.link(r1, r2, "10.0.0.0/30", None).unwrap();
    assert_eq!(
        app.get_directed_link(r1, r2).unwrap().unwrap().close_ip,
        parse_cidr("10.0.0.1/30").unwrap(),
    );
    assert_eq!(
        app.get_directed_link(r1, r2).unwrap().unwrap().far_ip,
        parse_cidr("10.0.0.2/30").unwrap(),
    );
    assert_eq!(app.links.len(), 1);

    app.unlink(r1, r2).unwrap();
    assert_eq!(app.links.len(), 0);
    assert_eq!(app.get_directed_link(r1, r2).unwrap(), None);
}

#[test]
fn modify_link() {
    let mut app = App::new();

    let r1 = DeviceBuilder::new("R1").finish(&mut app);
    let r2 = DeviceBuilder::new("R2").finish(&mut app);

    app.link(r1, r2, "10.0.0.0/30", None).unwrap();
    assert_eq!(
        app.get_directed_link(r1, r2).unwrap().unwrap().close_ip,
        parse_cidr("10.0.0.1/30").unwrap(),
    );
    assert_eq!(
        app.get_directed_link(r1, r2).unwrap().unwrap().far_ip,
        parse_cidr("10.0.0.2/30").unwrap(),
    );

    app.link(r2, r1, "10.0.0.4/30", None).unwrap();
    assert_eq!(
        app.get_directed_link(r1, r2).unwrap().unwrap().close_ip,
        parse_cidr("10.0.0.5/30").unwrap(),
    );
    assert_eq!(
        app.get_directed_link(r1, r2).unwrap().unwrap().far_ip,
        parse_cidr("10.0.0.6/30").unwrap(),
    );
}

#[test]
fn relink_keeps_one_record_and_interfaces() {
    let mut app = App::new();
    let r1 = DeviceBuilder::new("R1").finish(&mut app);
    let r2 = DeviceBuilder::new("R2").finish(&mut app);

    app.link(r1, r2, "10.0.0.0/30", None).unwrap();
    assert_eq!(app.links.len(), 1);
    let before = app.get_directed_link(r1, r2).unwrap().unwrap();

    app.link(r1, r2, "10.0.0.8/30", Some(7)).unwrap();
    assert_eq!(app.links.len(), 1);
    let after = app.get_directed_link(r1, r2).unwrap().unwrap();
    assert_eq!(after.close_ip, parse_cidr("10.0.0.9/30").unwrap());
    assert_eq!(after.far_ip, parse_cidr("10.0.0.10/30").unwrap());
    assert_eq!(after.ospf_area, Some(7));
    assert_eq!(after.close_iface, before.close_iface);
}

#[test]
fn link_is_symmetric() {
    let mut one = App::new();
    let a1 = DeviceBuilder::new("R1").finish(&mut one);
    let b1 = DeviceBuilder::new("R2").finish(&mut one);
    one.link(a1, b1, "10.1.2.0/30", Some(3)).unwrap();

    let mut two = App::new();
    let a2 = DeviceBuilder::new("R1").finish(&mut two);
    let b2 = DeviceBuilder::new("R2").finish(&mut two);
    two.link(b2, a2, "10.1.2.0/30", Some(3)).unwrap();

    assert_eq!(one.links, two.links);
}

#[test]
fn unlink_missing_pair_is_noop() {
    let mut app = App::new();
    let r1 = DeviceBuilder::new("R1").finish(&mut app);
    let r2 = DeviceBuilder::new("R2").finish(&mut app);
    let r3 = DeviceBuilder::new("R3").finish(&mut app);

    app.link(r1, r2, "10.0.0.0/30", None).unwrap();
    assert_eq!(app.unlink(r1, r3), Ok(()));
    assert_eq!(app.unlink(r2, r3), Ok(()));
    assert_eq!(app.links.len(), 1);
    assert_eq!(
        app.get_directed_link(r1, r2).unwrap().unwrap().close_ip,
        parse_cidr("10.0.0.1/30").unwrap(),
    );
}

#[test]
fn equal_endpoints_are_rejected() {
    let mut app = App::new();
    let r1 = DeviceBuilder::new("R1").finish(&mut app);
    let _r2 = DeviceBuilder::new("R2").finish(&mut app);

    assert_eq!(app.link(r1, r1, "10.0.0.0/30", None), Err(AppError::DuplicateEndpoint));
    assert_eq!(app.unlink(r1, r1), Err(AppError::DuplicateEndpoint));
    assert_eq!(app.get_directed_link(r1, r1), Err(AppError::DuplicateEndpoint));
    assert_eq!(app.links.len(), 0);
}

#[test]
fn bad_blocks_are_rejected() {
    let mut app = App::new();
    let r1 = DeviceBuilder::new("R1").finish(&mut app);
    let r2 = DeviceBuilder::new("R2").finish(&mut app);

    assert_eq!(app.link(r1, r2, "10.0.0.1/32", None), Err(AppError::InvalidBlock));
    assert_eq!(app.link(r1, r2, "10.0.0.1", None), Err(AppError::InvalidBlock));
    assert_eq!(app.link(r1, r2, "not a block", None), Err(AppError::InvalidBlock));
    assert_eq!(app.links.len(), 0);
}

#[test]
fn get_device_finds_first_by_name() {
    let mut app = App::new();
    let r1 = DeviceBuilder::new("R1").finish(&mut app);
    let r2 = DeviceBuilder::new("R2").finish(&mut app);

    assert_eq!(app.get_device("R1"), Some(r1));
    assert_eq!(app.get_device("R2"), Some(r2));
    assert_eq!(app.get_device("R3"), None);
}

#[test]
fn v6_links_allocate_from_the_network_address() {
    let mut app = App::new();
    let r1 = DeviceBuilder::new("R1").finish(&mut app);
    let r2 = DeviceBuilder::new("R2").finish(&mut app);

    app.link(r1, r2, "2001:db8::/126", None).unwrap();
    let dl = app.get_directed_link(r1, r2).unwrap().unwrap();
    assert_eq!(dl.close_ip, parse_cidr("2001:db8::/126").unwrap());
    assert_eq!(dl.far_ip, parse_cidr("2001:db8::1/126").unwrap());
}
