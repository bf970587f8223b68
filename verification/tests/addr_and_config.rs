use vpn_relay::addr::{ipv4_string, net_base, net_size};
use vpn_relay::config::{parse_key_val, ExeUnitsRegistry, ProviderConfig};

#[test]
fn dotted_decimal_rendering() {
    assert_eq!(ipv4_string(0x0A000001), String::from("10.0.0.1"));
    assert_eq!(ipv4_string(0xFFFFFF00), String::from("255.255.255.0"));
    assert_eq!(ipv4_string(0), String::from("0.0.0.0"));
    assert_eq!(ipv4_string(0xFFFFFFFF), String::from("255.255.255.255"));
    assert_eq!(ipv4_string(0xC0A80164), String::from("192.168.1.100"));
}

#[test]
fn network_size_and_base() {
    assert_eq!(net_size(24), 256);
    assert_eq!(net_size(30), 4);
    assert_eq!(net_size(32), 1);
    assert_eq!(net_size(0), 0x100000000);
    assert_eq!(net_base(0x0A0000FE, 24), 0x0A000000);
    assert_eq!(net_base(0x0A000000, 24), 0x0A000000);
    assert_eq!(net_base(0xC0A80164, 16), 0xC0A80000);
}

#[test]
fn key_value_arguments_split_at_first_equals() {
    assert_eq!(
        parse_key_val("cpu=0.1"),
        Ok((String::from("cpu"), String::from("0.1")))
    );
    assert_eq!(
        parse_key_val("a=b=c"),
        Ok((String::from("a"), String::from("b=c")))
    );
    assert_eq!(parse_key_val("=v"), Ok((String::from(""), String::from("v"))));
    assert_eq!(parse_key_val("k="), Ok((String::from("k"), String::from(""))));
    assert!(parse_key_val("no separator").is_err());
    assert!(parse_key_val("").is_err());
}

#[test]
fn registry_registers_and_finds_names() {
    let config = ProviderConfig {
        exe_unit_path: String::from("/usr/lib/yagna/plugins/ya-runtime-*.json"),
        presets_file: String::from("presets.json"),
    };
    let mut reg = config.registry();
    assert!(!reg.contains(&String::from("wasmtime")));
    reg.register_exe_unit(String::from("wasmtime"));
    reg.register_exe_unit(String::from("vm"));
    assert!(reg.contains(&String::from("wasmtime")));
    assert!(reg.contains(&String::from("vm")));
    assert!(!reg.contains(&String::from("docker")));
}
