use vboxhelper::flatmap::FlatMap;
use vboxhelper::nics::{fault_text, get_from_map, MacFault, NICType};
use vboxhelper::Error;

fn flat(pairs: &[(&str, &str)]) -> FlatMap {
    let mut map = FlatMap::new();
    for (key, value) in pairs {
        map.insert(key.to_string(), value.to_string());
    }
    map
}

#[test]
fn bridged_and_internal_adapters_are_read() {
    let nics = get_from_map(&flat(&[
        ("nic1", "bridged"),
        ("bridgeadapter1", "eth0"),
        ("macaddress1", "080027A1B2C3"),
        ("nic2", "intnet"),
        ("intnet2", "lab"),
        ("macaddress2", "08:00:27:00:00:01"),
        ("nic3", "none"),
    ]))
    .unwrap();
    assert_eq!(nics.len(), 2);
    assert_eq!(nics[0].idx, 1);
    assert_eq!(nics[0].mac, [0x08, 0x00, 0x27, 0xa1, 0xb2, 0xc3]);
    match &nics[0].nictype {
        NICType::Bridged(nic) => assert_eq!(nic.adapter, "eth0"),
        NICType::IntNet(_) => panic!("a bridged adapter was expected"),
    }
    assert_eq!(nics[1].idx, 2);
    assert_eq!(nics[1].mac, [0x08, 0x00, 0x27, 0x00, 0x00, 0x01]);
    match &nics[1].nictype {
        NICType::IntNet(nic) => assert_eq!(nic.name, "lab"),
        NICType::Bridged(_) => panic!("an internal adapter was expected"),
    }
}

#[test]
fn adapters_that_lack_something_are_passed_over() {
    let nics = get_from_map(&flat(&[
        ("nic1", "none"),
        ("macaddress1", "080027A1B2C3"),
        ("nic2", "bridged"),
        ("macaddress2", "080027A1B2C3"),
        ("nic3", "intnet"),
        ("macaddress3", "080027A1B2C3"),
        ("nic4", "nat"),
        ("macaddress4", "080027A1B2C3"),
        ("nic5", "bridged"),
        ("bridgeadapter5", "eth0"),
        ("bridgeadapter6", "eth1"),
        ("macaddress6", "080027A1B2C3"),
        ("nic8", "intnet"),
        ("intnet8", "lab"),
        ("macaddress8", "080027A1B2C8"),
        ("nic9", "intnet"),
        ("intnet9", "lab"),
        ("macaddress9", "080027A1B2C9"),
        ("nic0", "intnet"),
        ("intnet0", "lab"),
        ("macaddress0", "080027A1B2C0"),
    ]))
    .unwrap();
    assert_eq!(nics.len(), 1);
    assert_eq!(nics[0].idx, 8);
    assert_eq!(nics[0].mac[5], 0xc8);
}

#[test]
fn an_address_of_the_wrong_length_is_a_bad_format() {
    let r = get_from_map(&flat(&[("nic1", "bridged"), ("bridgeadapter1", "e"), ("macaddress1", "0800")]));
    match r {
        Err(Error::BadFormat(message)) => {
            assert_eq!(message, "Invalid length; expecting 11 to 17 chars, found 4")
        }
        _ => panic!("a bad format was expected"),
    }
}

#[test]
fn an_address_with_too_few_bytes_is_a_bad_format() {
    let r = get_from_map(&flat(&[
        ("nic2", "intnet"),
        ("intnet2", "lab"),
        ("macaddress2", "08:00:27:zz:zz"),
    ]));
    match r {
        Err(Error::BadFormat(message)) => {
            assert_eq!(message, "Invalid byte count; Matched `3` bytes ([8, 0, 39])")
        }
        _ => panic!("a bad format was expected"),
    }
}

#[test]
fn the_first_bad_address_is_reported() {
    let r = get_from_map(&flat(&[
        ("nic1", "bridged"),
        ("bridgeadapter1", "eth0"),
        ("macaddress1", "080027A1B2C3"),
        ("nic2", "bridged"),
        ("bridgeadapter2", "eth1"),
        ("macaddress2", "12"),
        ("nic3", "bridged"),
        ("bridgeadapter3", "eth2"),
        ("macaddress3", "123"),
    ]));
    match r {
        Err(Error::BadFormat(message)) => {
            assert_eq!(message, "Invalid length; expecting 11 to 17 chars, found 2")
        }
        _ => panic!("a bad format was expected"),
    }
}

#[test]
fn fault_messages_agree_with_those_of_the_address_parser() {
    let texts = ["", "0800", "08:00:27:zz:zz", "zzzzzzzzzzzz", "08-00-27-a1-b2", "0123456789abcdef012"];
    for text in texts {
        let fault = eui48::MacAddress::parse_str(text).unwrap_err();
        let ours = match fault {
            eui48::ParseError::InvalidLength(found) => MacFault::InvalidLength(found),
            eui48::ParseError::InvalidByteCount(found, bytes) => {
                MacFault::InvalidByteCount(found, bytes)
            }
        };
        assert_eq!(fault_text(&ours), fault.to_string(), "text {:?}", text);
    }
}

#[test]
fn a_fault_with_more_than_six_bytes_shows_the_six_that_were_kept() {
    let fault = MacFault::InvalidByteCount(8, [1, 2, 3, 4, 5, 6]);
    assert_eq!(fault_text(&fault), "Invalid byte count; Matched `8` bytes ([1, 2, 3, 4, 5, 6])");
    let r = get_from_map(&flat(&[
        ("nic1", "bridged"),
        ("bridgeadapter1", "eth0"),
        ("macaddress1", "0011223344556677"),
    ]));
    match r {
        Err(Error::BadFormat(message)) => assert_eq!(
            message,
            "Invalid byte count; Matched `8` bytes ([0, 17, 34, 51, 68, 85])"
        ),
        _ => panic!("a bad format was expected"),
    }
    assert_eq!(
        fault_text(&MacFault::InvalidByteCount(0, [0; 6])),
        "Invalid byte count; Matched `0` bytes ([])"
    );
}

#[test]
fn the_fields_of_an_adapter_are_looked_up() {
    let map = flat(&[
        ("nic1", "bridged"),
        ("bridgeadapter1", "eth0"),
        ("macaddress1", "not checked here"),
        ("nic2", "intnet"),
        ("intnet2", "lab"),
        ("nic3", "none"),
        ("macaddress3", "080027A1B2C3"),
    ]);
    match vboxhelper::nics::adapter_fields(&map, 1) {
        Some((NICType::Bridged(nic), address)) => {
            assert_eq!(nic.adapter, "eth0");
            assert_eq!(address, "not checked here");
        }
        _ => panic!("a bridged adapter was expected"),
    }
    assert!(vboxhelper::nics::adapter_fields(&map, 2).is_none());
    assert!(vboxhelper::nics::adapter_fields(&map, 3).is_none());
    assert!(vboxhelper::nics::adapter_fields(&map, 4).is_none());
    assert!(vboxhelper::nics::adapter_fields(&map, 0).is_none());
    assert!(vboxhelper::nics::adapter_fields(&map, 255).is_none());
}

#[test]
fn a_fault_becomes_a_bad_format() {
    match vboxhelper::nics::bad_address(&MacFault::InvalidLength(3)) {
        Error::BadFormat(message) => {
            assert_eq!(message, "Invalid length; expecting 11 to 17 chars, found 3")
        }
        _ => panic!("a bad format was expected"),
    }
}
