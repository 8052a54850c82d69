use simple_simple_sync::codec::PeerAddr;
use simple_simple_sync::config::{Options, OptionsPresent};

fn defaults() -> Options {
    Options {
        config_file: None,
        device_id: vec![0xaa; 16],
        set_device_name: b"host".to_vec(),
        port: 11529,
        multicast_ipv4: PeerAddr::from_octets(vec![244, 0, 0, 134]).unwrap(),
        multicast_ipv6: PeerAddr::from_octets(vec![
            0xff, 0x02, 0, 0, 0, 0, 0, 0, 0, 0, 0, 0, 0, 0, 0x01, 0x34,
        ])
        .unwrap(),
        no_config_file: false,
    }
}

fn all_absent() -> OptionsPresent {
    OptionsPresent {
        config_file: false,
        device_id: false,
        set_device_name: false,
        port: false,
        multicast_ipv4: false,
        multicast_ipv6: false,
        no_config_file: false,
    }
}

#[test]
fn empty_text_keeps_the_defaults() {
    let r = Options::from_conf(&Vec::new(), defaults());
    assert_eq!(r.set_device_name, b"host".to_vec());
    assert_eq!(r.port, 11529);
}

#[test]
fn device_name_line_is_read() {
    let text = b"set-device-name = \"workstation\"\n".to_vec();
    let r = Options::from_conf(&text, defaults());
    assert_eq!(r.set_device_name, b"workstation".to_vec());
    assert_eq!(r.port, 11529);
}

#[test]
fn device_name_alias_is_read() {
    let text = b"device_name = \"attic\"".to_vec();
    let r = Options::from_conf(&text, defaults());
    assert_eq!(r.set_device_name, b"attic".to_vec());
}

#[test]
fn port_and_flag_lines_are_read() {
    let text = b"port = 9000\nno-config-file = true\n".to_vec();
    let r = Options::from_conf(&text, defaults());
    assert_eq!(r.port, 9000);
    assert!(r.no_config_file);
}

#[test]
fn device_id_line_is_read() {
    let text = b"device-id = \"00112233-4455-6677-8899-aabbccddeeff\"\n".to_vec();
    let r = Options::from_conf(&text, defaults());
    assert_eq!(
        r.device_id,
        vec![
            0x00, 0x11, 0x22, 0x33, 0x44, 0x55, 0x66, 0x77, 0x88, 0x99, 0xaa, 0xbb, 0xcc, 0xdd,
            0xee, 0xff
        ]
    );
}

#[test]
fn uppercase_uuid_digits_are_accepted() {
    let text = b"device-id = \"00112233-4455-6677-8899-AABBCCDDEEFF\"\n".to_vec();
    let r = Options::from_conf(&text, defaults());
    assert_eq!(r.device_id[10], 0xaa);
    assert_eq!(r.device_id[15], 0xff);
}

#[test]
fn unknown_keys_are_ignored() {
    let text = b"sync-theme = \"dark\"\nport = 8080\n".to_vec();
    let r = Options::from_conf(&text, defaults());
    assert_eq!(r.port, 8080);
    assert_eq!(r.set_device_name, b"host".to_vec());
}

#[test]
fn multicast_group_lines_are_read() {
    let text = b"multicast-ipv4 = \"239.255.0.7\"\nmulticast-ipv6 = \"ff02::134\"\n".to_vec();
    let r = Options::from_conf(&text, defaults());
    assert_eq!(r.multicast_ipv4.octets, vec![239, 255, 0, 7]);
    let mut v6 = vec![0u8; 16];
    v6[0] = 0xff;
    v6[1] = 0x02;
    v6[14] = 0x01;
    v6[15] = 0x34;
    assert_eq!(r.multicast_ipv6.octets, v6);
}

#[test]
fn ipv6_text_forms_parse_exactly() {
    // Full eight-group form.
    let text = b"multicast-ipv6 = \"ff02:0:0:0:0:0:1:2\"\n".to_vec();
    let r = Options::from_conf(&text, defaults());
    assert_eq!(r.multicast_ipv6.octets[0], 0xff);
    assert_eq!(r.multicast_ipv6.octets[13], 0x01);
    assert_eq!(r.multicast_ipv6.octets[15], 0x02);
    // The all-zero address.
    let text = b"multicast-ipv6 = \"::\"\n".to_vec();
    let r = Options::from_conf(&text, defaults());
    assert_eq!(r.multicast_ipv6.octets, vec![0u8; 16]);
    // Compression at the end.
    let text = b"multicast-ipv6 = \"ff02::\"\n".to_vec();
    let r = Options::from_conf(&text, defaults());
    assert_eq!(r.multicast_ipv6.octets[0], 0xff);
    assert_eq!(r.multicast_ipv6.octets[15], 0x00);
}

#[test]
fn bad_addresses_discard_the_whole_file() {
    for text in [
        &b"multicast-ipv4 = \"244.0.0\"\n"[..],        // three octets
        b"multicast-ipv4 = \"244.0.0.300\"\n",         // octet above 255
        b"multicast-ipv4 = \"244.0.0.0.1\"\n",         // five octets
        b"multicast-ipv4 = \"244.00.0.1\"\n",          // leading zero
        b"multicast-ipv6 = \"ff02:::134\"\n",          // triple colon
        b"multicast-ipv6 = \"1::2::3\"\n",             // two compressions
        b"multicast-ipv6 = \"1:2:3:4:5:6:7\"\n",       // seven groups
        b"multicast-ipv6 = \"1:2:3:4:5:6:7:8:9\"\n",   // nine groups
        b"multicast-ipv6 = \"12345::\"\n",             // five-digit group
    ] {
        let r = Options::from_conf(&text.to_vec(), defaults());
        assert_eq!(r.multicast_ipv4.octets, vec![244, 0, 0, 134], "text {:?}", text);
        assert_eq!(r.multicast_ipv6.octets[15], 0x34, "text {:?}", text);
    }
}

#[test]
fn one_bad_line_discards_the_whole_file() {
    let text = b"port = 9000\nthis is not a config line\n".to_vec();
    let r = Options::from_conf(&text, defaults());
    assert_eq!(r.port, 11529);
}

#[test]
fn bad_values_discard_the_whole_file() {
    for text in [
        &b"port = 70000\n"[..],             // above u16
        b"port = 007\n",                    // leading zeros
        b"port = \"9000\"\n",               // wrong type
        b"set-device-name = \"unclosed\n",  // unterminated string
        b"device-id = \"not-a-uuid\"\n",    // malformed id
        b"no-config-file = yes\n",          // not a boolean
    ] {
        let r = Options::from_conf(&text.to_vec(), defaults());
        assert_eq!(r.port, 11529, "text {:?} must fall back", text);
        assert_eq!(r.set_device_name, b"host".to_vec());
        assert_eq!(r.device_id, vec![0xaa; 16]);
        assert!(!r.no_config_file);
    }
}

#[test]
fn later_lines_win() {
    let text = b"port = 9000\nport = 9001\n".to_vec();
    let r = Options::from_conf(&text, defaults());
    assert_eq!(r.port, 9001);
}

#[test]
fn serialize_writes_the_device_name_line() {
    let mut o = defaults();
    o.set_device_name = b"workstation".to_vec();
    let text = o.serialize_options().unwrap();
    assert_eq!(text, b"set-device-name = \"workstation\"\n".to_vec());
}

#[test]
fn serialize_declines_names_it_cannot_quote() {
    let mut o = defaults();
    o.set_device_name = b"a\"b".to_vec();
    assert!(o.serialize_options().is_none());
    o.set_device_name = b"a\\b".to_vec();
    assert!(o.serialize_options().is_none());
    o.set_device_name = b"a\nb".to_vec();
    assert!(o.serialize_options().is_none());
}

#[test]
fn serialized_options_deserialize_back() {
    let mut o = defaults();
    o.set_device_name = b"round trip".to_vec();
    let text = o.serialize_options().unwrap();
    let r = Options::from_conf(&text, defaults());
    assert_eq!(r.set_device_name, b"round trip".to_vec());
}

#[test]
fn no_config_file_flag_keeps_the_command_line() {
    let mut args = defaults();
    args.no_config_file = true;
    args.port = 4000;
    let mut conf = defaults();
    conf.port = 5000;
    let r = Options::from_args_with_conf(args, conf, &all_absent());
    assert_eq!(r.port, 4000);
    assert!(r.no_config_file);
}

#[test]
fn merge_prefers_present_command_line_values() {
    let mut args = defaults();
    args.port = 4000;
    args.set_device_name = b"from-args".to_vec();
    let mut conf = defaults();
    conf.port = 5000;
    conf.set_device_name = b"from-conf".to_vec();

    let mut present = all_absent();
    present.port = true;
    let r = Options::from_args_with_conf(args, conf, &present);
    // The port was given on the command line, the name was not.
    assert_eq!(r.port, 4000);
    assert_eq!(r.set_device_name, b"from-conf".to_vec());
}

#[test]
fn merge_carries_multicast_groups() {
    let mut args = defaults();
    args.multicast_ipv4 = PeerAddr::from_octets(vec![239, 1, 2, 3]).unwrap();
    let conf = defaults();
    let mut present = all_absent();
    present.multicast_ipv4 = true;
    let r = Options::from_args_with_conf(args, conf, &present);
    assert_eq!(r.multicast_ipv4.octets, vec![239, 1, 2, 3]);
    assert_eq!(r.multicast_ipv6.octets.len(), 16);
}
