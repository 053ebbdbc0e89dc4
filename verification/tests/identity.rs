use numlock_watch::identity::DeviceIdentity;

#[test]
fn canonical_string_keypad() {
    let id = DeviceIdentity { vendor: 0x04d9, product: 0xa232 };
    assert_eq!(id.canonical_string(), "04d9:a232".to_string());
}

#[test]
fn canonical_string_root_hub() {
    let id = DeviceIdentity { vendor: 0x1d6b, product: 0x0002 };
    assert_eq!(id.canonical_string(), "1d6b:0002".to_string());
}

#[test]
fn canonical_string_zero_padded() {
    let id = DeviceIdentity { vendor: 0x0000, product: 0x000f };
    assert_eq!(id.canonical_string(), "0000:000f".to_string());
}

#[test]
fn canonical_string_all_digits() {
    let id = DeviceIdentity { vendor: 0x0123, product: 0x4567 };
    assert_eq!(id.canonical_string(), "0123:4567".to_string());
    let id = DeviceIdentity { vendor: 0x89ab, product: 0xcdef };
    assert_eq!(id.canonical_string(), "89ab:cdef".to_string());
}

#[test]
fn canonical_string_max() {
    let id = DeviceIdentity { vendor: 0xffff, product: 0xffff };
    assert_eq!(id.canonical_string(), "ffff:ffff".to_string());
}

#[test]
fn identity_equality_is_pairwise() {
    let a = DeviceIdentity { vendor: 0x04d9, product: 0xa232 };
    let b = DeviceIdentity { vendor: 0x04d9, product: 0xa232 };
    let c = DeviceIdentity { vendor: 0xa232, product: 0x04d9 };
    assert_eq!(a, b);
    assert_ne!(a, c);
}
