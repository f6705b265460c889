use evremap::deviceinfo::{event_number_from_path, DeviceError, DeviceInfo};
use evremap::keys::KeyCode;
use evremap::mapping::{key_of_lookup, keys_of_lookups, ConfigError, KeyLookup, MappingConfig};

fn dev(name: &str, path: &str, phys: &str) -> DeviceInfo {
    DeviceInfo { name: name.to_string(), path: path.to_string(), phys: phys.to_string() }
}

#[test]
fn event_numbers() {
    assert_eq!(event_number_from_path("/dev/input/event17"), 17);
    assert_eq!(event_number_from_path("/dev/input/event0"), 0);
    assert_eq!(event_number_from_path("/dev/input/mouse0"), 0);
    assert_eq!(event_number_from_path("event5"), 5);
    assert_eq!(event_number_from_path("/dev/input/event"), 0);
    assert_eq!(event_number_from_path("/dev/eventful/event9"), 9);
    assert_eq!(event_number_from_path("/dev/input/event99999999999999999999"), 0);
    assert_eq!(event_number_from_path(""), 0);
}

#[test]
fn device_selection_by_phys() {
    let devices = vec![
        dev("kbd", "/dev/input/event1", "usb-0000:00:14.0-1/input0"),
        dev("kbd", "/dev/input/event2", "usb-0000:00:14.0-2/input0"),
    ];
    let r = DeviceInfo::with_name("kbd", Some("usb-0000:00:14.0-2/input0"), devices).unwrap();
    assert_eq!(r.len(), 1);
    assert_eq!(r[0].path, "/dev/input/event2");
}

#[test]
fn device_selection_by_name() {
    let devices = vec![
        dev("kbd", "/dev/input/event1", "a"),
        dev("mouse", "/dev/input/event2", "b"),
        dev("kbd", "/dev/input/event3", "c"),
    ];
    let r = DeviceInfo::with_name("kbd", None, devices).unwrap();
    assert_eq!(r.len(), 2);
    assert_eq!(r[0].path, "/dev/input/event1");
    assert_eq!(r[1].path, "/dev/input/event3");
}

#[test]
fn device_selection_errors() {
    let devices = vec![dev("kbd", "/dev/input/event1", "a")];
    assert_eq!(
        DeviceInfo::with_name("kbd", Some("missing"), devices.clone()).unwrap_err(),
        DeviceError::PhysNotFound
    );
    assert_eq!(DeviceInfo::with_name("other", None, devices).unwrap_err(), DeviceError::NameNotFound);
}

#[test]
fn key_lookup_outcomes() {
    assert_eq!(key_of_lookup(KeyLookup::Key(30), "KEY_A"), Ok(KeyCode(30)));
    assert_eq!(
        key_of_lookup(KeyLookup::NonKey, "KEY_ODD"),
        Err(ConfigError::ImpossibleParseKey)
    );
    assert_eq!(
        key_of_lookup(KeyLookup::Unknown, "KEY_NOPE"),
        Err(ConfigError::InvalidKey("KEY_NOPE".to_string()))
    );
}

#[test]
fn key_lookup_lists() {
    let ls = vec![KeyLookup::Key(58), KeyLookup::Key(29)];
    let names = vec!["KEY_CAPSLOCK".to_string(), "KEY_LEFTCTRL".to_string()];
    assert_eq!(keys_of_lookups(&ls, &names).unwrap(), vec![KeyCode(58), KeyCode(29)]);

    let ls = vec![KeyLookup::Key(58), KeyLookup::Unknown, KeyLookup::NonKey];
    let names = vec!["KEY_CAPSLOCK".to_string(), "KEY_TYPO".to_string(), "X".to_string()];
    assert_eq!(
        keys_of_lookups(&ls, &names).unwrap_err(),
        ConfigError::InvalidKey("KEY_TYPO".to_string())
    );
}

#[test]
fn config_holds_its_parts() {
    let cfg = MappingConfig {
        device_name: "kbd".to_string(),
        phys: None,
        mappings: vec![],
    };
    assert_eq!(cfg.device_name, "kbd");
    assert!(cfg.phys.is_none());
    assert!(cfg.mappings.is_empty());
}
