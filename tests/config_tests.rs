use kinet_bridge::config::{
    mappings_to_destinations, parse_mapping, sort_and_dedup, ConfigError, Configuration,
    KinetDestination, KinetSocketAddr, LogLevel, MappingError, MappingField, UserConfiguration,
};
use std::collections::HashMap;

fn destination(
    network: u16,
    subnet: u8,
    universe: u8,
    port: u8,
    address: &str,
    ip: [u8; 4],
) -> KinetDestination {
    KinetDestination {
        artnet_network: network,
        artnet_subnet: subnet,
        artnet_universe: universe,
        kinet_port: port,
        kinet_address: address.to_string(),
        kinet_socket_addr: KinetSocketAddr { ip, port: 6038 },
    }
}

#[test]
fn test_parse_mappings_basic() {
    let good_cases = vec![
        ("10.0.0.1", 0x0, destination(0, 0, 0, 0, "10.0.0.1", [10, 0, 0, 1])),
        ("10.0.0.1:16", 0x0, destination(0, 0, 0, 16, "10.0.0.1", [10, 0, 0, 1])),
        ("2:1:6:192.168.0.1:4", 0x216, destination(2, 1, 6, 4, "192.168.0.1", [192, 168, 0, 1])),
        ("3:1:6:192.168.0.1", 0x316, destination(3, 1, 6, 0, "192.168.0.1", [192, 168, 0, 1])),
        ("1:0:192.168.1.122:3", 0x010, destination(0, 1, 0, 3, "192.168.1.122", [192, 168, 1, 122])),
        ("1:5:192.168.1.122", 0x015, destination(0, 1, 5, 0, "192.168.1.122", [192, 168, 1, 122])),
        ("7:192.168.4.50:3", 0x007, destination(0, 0, 7, 3, "192.168.4.50", [192, 168, 4, 50])),
        ("9:192.168.4.50", 0x009, destination(0, 0, 9, 0, "192.168.4.50", [192, 168, 4, 50])),
    ];

    let bad_cases = vec![
        "10.0.0.266",
        "10.0.0.1:20",
        "1:0:0:1:10.0.0.2:3",
        "3:192.168.0.1:vzz",
        "ldsf:192.168.0.1",
        "1:%:1:192.168.0.1:0",
        "askldfk:9:1:192.168.0.1:0",
        "3:192.168.0.1:-1",
        "-5:192.168.0.1",
        "1:-2:1:192.168.0.1:0",
        "-33:9:1:192.168.0.1:0",
    ];

    for case in good_cases {
        let dest = mappings_to_destinations(vec![case.0.to_string()]).unwrap();
        let key = &(case.1 as u16);
        assert!(
            dest.contains_key(key),
            "destination key not correct for {}, expected {:#x}, got {:#x}",
            case.0,
            key,
            dest.keys().next().unwrap()
        );
        assert_eq!(dest.len(), 1, "too many destinations created for {}", case.0);
        assert_eq!(dest[key], case.2, "destination did not match for {}", case.0);
    }

    for case in bad_cases {
        mappings_to_destinations(vec![case.to_string()])
            .expect_err(format!("Expected case to fail, but it didn't: {}", case).as_str());
    }
}

#[test]
fn parse_plain_address() {
    let (key, d) = parse_mapping("10.0.0.1").unwrap();
    assert_eq!(key, 0x000);
    assert_eq!(d.kinet_port, 0);
    assert_eq!(d.kinet_address, "10.0.0.1");
    assert_eq!(d.kinet_socket_addr, KinetSocketAddr { ip: [10, 0, 0, 1], port: 6038 });
}

#[test]
fn parse_address_with_port() {
    let (key, d) = parse_mapping("10.0.0.1:16").unwrap();
    assert_eq!(key, 0x000);
    assert_eq!(d.kinet_port, 16);
}

#[test]
fn parse_full_mapping() {
    let (key, d) = parse_mapping("2:1:6:192.168.0.1:4").unwrap();
    assert_eq!(key, 0x216);
    assert_eq!(d, destination(2, 1, 6, 4, "192.168.0.1", [192, 168, 0, 1]));
}

#[test]
fn parse_port_too_large() {
    assert_eq!(parse_mapping("10.0.0.1:20").unwrap_err(), MappingError::PortTooLarge);
    assert_eq!(parse_mapping("10.0.0.1:300").unwrap_err(), MappingError::PortTooLarge);
    assert_eq!(parse_mapping("10.0.0.1:17").unwrap_err(), MappingError::PortTooLarge);
}

#[test]
fn parse_too_many_values() {
    assert_eq!(parse_mapping("1:0:0:1:10.0.0.2:3").unwrap_err(), MappingError::TooManyValues);
}

#[test]
fn parse_not_a_number() {
    assert_eq!(
        parse_mapping("3:192.168.0.1:vzz").unwrap_err(),
        MappingError::NotANumber(MappingField::Port)
    );
    assert_eq!(
        parse_mapping("10.0.0.266").unwrap_err(),
        MappingError::NotANumber(MappingField::Port)
    );
    assert_eq!(
        parse_mapping("ldsf:192.168.0.1").unwrap_err(),
        MappingError::NotANumber(MappingField::Universe)
    );
    assert_eq!(
        parse_mapping("1:%:1:192.168.0.1:0").unwrap_err(),
        MappingError::NotANumber(MappingField::Subnet)
    );
    assert_eq!(
        parse_mapping("askldfk:9:1:192.168.0.1:0").unwrap_err(),
        MappingError::NotANumber(MappingField::Network)
    );
    assert_eq!(
        parse_mapping("256:192.168.0.1").unwrap_err(),
        MappingError::NotANumber(MappingField::Universe)
    );
    assert_eq!(
        parse_mapping("70000:0:0:192.168.0.1").unwrap_err(),
        MappingError::NotANumber(MappingField::Network)
    );
}

#[test]
fn parse_invalid_address() {
    assert_eq!(parse_mapping("3").unwrap_err(), MappingError::InvalidAddress);
    assert_eq!(parse_mapping("1:10.0.0:3").unwrap_err(), MappingError::InvalidAddress);
    assert_eq!(parse_mapping("1:010.0.0.1:3").unwrap_err(), MappingError::InvalidAddress);
    assert_eq!(parse_mapping("1:10.0.0.1.5:3").unwrap_err(), MappingError::InvalidAddress);
}

#[test]
fn parse_edge_values() {
    let (key, d) = parse_mapping("127:15:15:0.0.0.0:1").unwrap();
    assert_eq!(key, 0x7FFF);
    assert_eq!(d.kinet_socket_addr.ip, [0, 0, 0, 0]);
    let (key, d) = parse_mapping("+3:255.255.255.255").unwrap();
    assert_eq!(key, 0x003);
    assert_eq!(d.artnet_universe, 3);
    // values wider than the key keep only the key's bits
    let (key, d) = parse_mapping("200:31:17:10.0.0.1").unwrap();
    assert_eq!(key, ((200 & 0x7F) << 8) | (15 << 4) | 1);
    assert_eq!(d.artnet_network, 200);
    assert_eq!(parse_mapping("").unwrap_err(), MappingError::NotANumber(MappingField::Port));
}

#[test]
fn later_mapping_wins() {
    let table = mappings_to_destinations(vec!["1:10.0.0.1".to_string(), "0:0:1:10.0.0.2".to_string()])
        .unwrap();
    assert_eq!(table.len(), 1);
    assert_eq!(table[&0x001].kinet_address, "10.0.0.2");
    let table = mappings_to_destinations(vec!["0:0:1:10.0.0.2".to_string(), "1:10.0.0.1".to_string()])
        .unwrap();
    assert_eq!(table[&0x001].kinet_address, "10.0.0.1");
}

#[test]
fn build_fails_on_first_bad_mapping() {
    let r = mappings_to_destinations(vec![
        "10.0.0.1".to_string(),
        "x:10.0.0.2".to_string(),
        "10.0.0.1:99".to_string(),
    ]);
    assert_eq!(
        r.unwrap_err(),
        ConfigError::InvalidMapping {
            mapping: "x:10.0.0.2".to_string(),
            reason: MappingError::NotANumber(MappingField::Universe),
        }
    );
    let empty: HashMap<u16, KinetDestination> = mappings_to_destinations(vec![]).unwrap();
    assert!(empty.is_empty());
}

#[test]
fn sort_and_dedup_orders_and_drops_copies() {
    let r = sort_and_dedup(vec!["b".to_string(), "a".to_string(), "b".to_string(), "ab".to_string()]);
    assert_eq!(r, vec!["a".to_string(), "ab".to_string(), "b".to_string()]);
}

fn user(artnet: Option<&str>, kinet: Option<&str>, mappings: Option<Vec<&str>>) -> UserConfiguration {
    UserConfiguration {
        artnet_receive_ip: artnet.map(|s| s.to_string()),
        kinet_send_ip: kinet.map(|s| s.to_string()),
        mappings: mappings.map(|v| v.into_iter().map(|s| s.to_string()).collect()),
        config_file: None,
        verbose: 0,
        quiet: 0,
    }
}

#[test]
fn from_user_configs_missing_values() {
    let r = Configuration::from_user_configs(user(None, Some("1.1.1.1"), Some(vec!["10.0.0.1"])), UserConfiguration::default());
    assert!(matches!(r, Err(ConfigError::NoArtnetAddress)));
    let r = Configuration::from_user_configs(user(Some("1.1.1.1"), None, Some(vec!["10.0.0.1"])), UserConfiguration::default());
    assert!(matches!(r, Err(ConfigError::NoKinetAddress)));
    let r = Configuration::from_user_configs(user(Some("1.1.1.1"), Some("2.2.2.2"), None), user(None, None, Some(vec![])));
    assert!(matches!(r, Err(ConfigError::NoMappings)));
}

#[test]
fn from_user_configs_merges() {
    let mut cli = user(Some("1.1.1.1"), None, Some(vec!["1:10.0.0.2", "10.0.0.9:2"]));
    cli.verbose = 1;
    let mut file = user(Some("3.3.3.3"), Some("2.2.2.2"), Some(vec!["0:0:1:10.0.0.1", "10.0.0.9:2"]));
    file.quiet = 2;
    let c = Configuration::from_user_configs(cli, file).unwrap();
    assert_eq!(c.artnet_receive_ip, "1.1.1.1");
    assert_eq!(c.kinet_send_ip, "2.2.2.2");
    assert_eq!(c.verbosity, 1);
    assert_eq!(c.get_log_level(), Some(LogLevel::Warn));
    assert_eq!(c.kinet_destinations.len(), 2);
    // "0:0:1:10.0.0.1" sorts before "1:10.0.0.2", so the latter is parsed later and wins
    assert_eq!(c.kinet_destinations[&0x001].kinet_address, "10.0.0.2");
    assert_eq!(c.kinet_destinations[&0x000].kinet_port, 2);
}

#[test]
fn from_user_configs_reports_bad_mapping() {
    let r = Configuration::from_user_configs(
        user(Some("1.1.1.1"), Some("2.2.2.2"), Some(vec!["10.0.0.1:20"])),
        UserConfiguration::default(),
    );
    assert_eq!(
        r.err().unwrap(),
        ConfigError::InvalidMapping { mapping: "10.0.0.1:20".to_string(), reason: MappingError::PortTooLarge }
    );
}

#[test]
fn log_levels() {
    let levels = [
        (-3i8, None),
        (-1, None),
        (0, Some(LogLevel::Error)),
        (1, Some(LogLevel::Warn)),
        (2, Some(LogLevel::Info)),
        (3, Some(LogLevel::Debug)),
        (4, Some(LogLevel::Trace)),
        (127, Some(LogLevel::Trace)),
    ];
    for (v, expected) in levels {
        let c = Configuration {
            artnet_receive_ip: String::new(),
            kinet_send_ip: String::new(),
            kinet_destinations: HashMap::new(),
            verbosity: v,
        };
        assert_eq!(c.get_log_level(), expected);
    }
}
