use signaling::devices::{test_get_device_by_name, tests_list_devices, Device, Devices};

#[test]
fn test_list_directories() {}

#[test]
fn registry_round_trips_a_device_by_name() {
    test_get_device_by_name();
}

#[test]
fn registry_lists_devices_in_insertion_order() {
    tests_list_devices();
}

#[test]
fn get_device_by_name_finds_the_first_match() {
    let mut devices = Devices::new();
    devices.add_device(Device {
        ip: "10.0.0.1".to_string(),
        name: "laptop".to_string(),
        offer: "offer-1".to_string(),
    });
    devices.add_device(Device {
        ip: "10.0.0.2".to_string(),
        name: "laptop".to_string(),
        offer: "offer-2".to_string(),
    });
    let found = devices.get_device_by_name("laptop").expect("must be found");
    assert_eq!(found.ip, "10.0.0.1");
    assert_eq!(found.offer, "offer-1");
}

#[test]
fn get_device_by_name_misses_cleanly() {
    let mut devices = Devices::new();
    assert!(devices.get_device_by_name("nobody").is_none());
    devices.add_device(Device {
        ip: "10.0.0.1".to_string(),
        name: "laptop".to_string(),
        offer: String::new(),
    });
    assert!(devices.get_device_by_name("desktop").is_none());
}

#[test]
fn list_devices_returns_everything_added() {
    let mut devices = Devices::new();
    assert_eq!(devices.len(), 0);
    assert!(devices.list_devices().is_empty());
    devices.add_device(Device {
        ip: "10.0.0.1".to_string(),
        name: "one".to_string(),
        offer: String::new(),
    });
    devices.add_device(Device {
        ip: "10.0.0.2".to_string(),
        name: "two".to_string(),
        offer: String::new(),
    });
    let all = devices.list_devices();
    assert_eq!(all.len(), 2);
    assert_eq!(all[0].name, "one");
    assert_eq!(all[1].name, "two");
}

#[test]
fn get_thumbnail_passes_the_encoding_through() {
    assert_eq!(
        signaling::thumbnails::get_thumbnail(Some("aGVsbG8=".to_string())),
        "aGVsbG8="
    );
}

#[test]
fn get_thumbnail_falls_back_on_failure() {
    assert_eq!(
        signaling::thumbnails::get_thumbnail(None),
        "Something# went wrong"
    );
}
