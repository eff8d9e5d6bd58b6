use packet_tracer_generator::App;
use packet_tracer_generator::DeviceBuilder;

fn config_of(app: &App, name: &str) -> String {
    app.to_commands().into_iter().find(|entry| entry.0 == name).unwrap().1
}

#[test]
fn rip_section_follows_the_enabled_set() {
    let mut app = App::new();
    let r1 = DeviceBuilder::new("R1").finish(&mut app);
    let r2 = DeviceBuilder::new("R2").finish(&mut app);
    app.link(r1, r2, "10.0.0.4/30", None).unwrap();

    app.rip_enabled.push(r2);
    let with_rip = config_of(&app, "R1");
    assert!(with_rip.contains("   network 10.0.0.4\n"));

    app.rip_enabled.clear();
    let without_rip = config_of(&app, "R1");
    assert!(!without_rip.contains("network 10.0.0.4"));
    assert!(without_rip.contains("router rip\n   version 2\nexit\n\n"));
}

#[test]
fn ospf_line_appears_only_with_an_area() {
    let mut app = App::new();
    let r1 = DeviceBuilder::new("R1").finish(&mut app);
    let r2 = DeviceBuilder::new("R2").finish(&mut app);

    app.link(r1, r2, "10.0.0.0/30", Some(0)).unwrap();
    let with_area = config_of(&app, "R1");
    assert!(with_area.contains("   network 10.0.0.0 0.0.0.3 area 0\n"));

    app.link(r1, r2, "10.0.0.0/30", None).unwrap();
    let without_area = config_of(&app, "R1");
    assert!(!without_area.contains(" area "));
}

#[test]
fn whole_config_of_one_device() {
    let mut app = App::new();
    let r1 = DeviceBuilder::new("R1").redistribute_ospf_to_rip(true).finish(&mut app);
    let r2 = DeviceBuilder::new("R2").finish(&mut app);
    app.link(r1, r2, "10.0.0.0/30", Some(10)).unwrap();
    app.rip_enabled.push(r2);

    let expected = "enable\nconfigure terminal\n\n\
        interface GigabitEthernet0/0\n\
        \u{20}\u{20}\u{20}ip address 10.0.0.1 255.255.255.252\n\
        \u{20}\u{20}\u{20}no shutdown\nexit\n\n\
        router rip\n\
        \u{20}\u{20}\u{20}version 2\n\
        \u{20}\u{20}\u{20}network 10.0.0.0\nexit\n\n\
        router ospf 1\n\
        \u{20}\u{20}\u{20}redistribute rip subnets\n\
        \u{20}\u{20}\u{20}network 10.0.0.0 0.0.0.3 area 10\nexit\n\n\
        exit\ndisable\n";
    assert_eq!(config_of(&app, "R1"), expected);

    let far_side = config_of(&app, "R2");
    assert!(far_side.contains("   ip address 10.0.0.2 255.255.255.252\n"));
    assert!(!far_side.contains("redistribute rip subnets"));
    assert!(!far_side.contains("   network 10.0.0.0\nexit"));
}

#[test]
fn output_is_keyed_by_name_in_creation_order() {
    let mut app = App::new();
    let _r1 = DeviceBuilder::new("R1").finish(&mut app);
    let _r2 = DeviceBuilder::new("R2").finish(&mut app);

    let out = app.to_commands();
    assert_eq!(out.len(), 2);
    assert_eq!(out[0].0, "R1");
    assert_eq!(out[1].0, "R2");
    assert!(out[0].1.starts_with("enable\nconfigure terminal\n\n"));
    assert!(out[0].1.ends_with("exit\n\nexit\ndisable\n"));
}

#[test]
fn interfaces_are_emitted_in_interface_order() {
    let mut app = App::new();
    let r1 = DeviceBuilder::new("R1").finish(&mut app);
    let r2 = DeviceBuilder::new("R2").finish(&mut app);
    let r3 = DeviceBuilder::new("R3").finish(&mut app);
    app.link(r1, r2, "10.0.0.0/30", None).unwrap();
    app.link(r1, r3, "10.0.0.4/30", None).unwrap();

    let text = config_of(&app, "R1");
    let first = text.find("interface GigabitEthernet0/0\n").unwrap();
    let second = text.find("interface GigabitEthernet1/0\n").unwrap();
    assert!(first < second);
    assert!(text.contains("   ip address 10.0.0.1 255.255.255.252\n"));
    assert!(text.contains("   ip address 10.0.0.5 255.255.255.252\n"));
}

#[test]
fn v6_addresses_use_canonical_colon_form() {
    let mut app = App::new();
    let r1 = DeviceBuilder::new("R1").finish(&mut app);
    let r2 = DeviceBuilder::new("R2").finish(&mut app);
    app.link(r1, r2, "2001:db8::/126", Some(1)).unwrap();
    app.rip_enabled.push(r2);

    let text = config_of(&app, "R1");
    assert!(text.contains("   ip address 2001:db8:: ffff:ffff:ffff:ffff:ffff:ffff:ffff:fffc\n"));
    assert!(text.contains("   network 2001:db8::\n"));
    assert!(text.contains("   network 2001:db8:: ::3 area 1\n"));
}

#[test]
fn v6_zero_runs_compress_longest_and_leftmost() {
    let mut app = App::new();
    let r1 = DeviceBuilder::new("R1").finish(&mut app);
    let r2 = DeviceBuilder::new("R2").finish(&mut app);

    app.link(r1, r2, "2001:0:0:1:0:0:0:0/127", None).unwrap();
    let text = config_of(&app, "R1");
    assert!(text.contains("   ip address 2001:0:0:1:: "));

    app.link(r1, r2, "2001:db8:1:1:1:1:1:0/112", None).unwrap();
    let single_zero = config_of(&app, "R1");
    assert!(single_zero.contains("   ip address 2001:db8:1:1:1:1:1:0 "));
    assert!(!single_zero.contains("2001:db8:1:1:1:1:1::"));
}
