use dm_core::Id;

#[test]
fn hex_round_trip() {
    let s = "b82551848c644f63b8517a7bdf8be9a992e6f4da";
    let id = Id::from_hex(s).unwrap();
    assert_eq!(id.to_hex().as_str(), s);
}

#[test]
fn from_hex_accepts_upper_case_and_rejects_junk() {
    let upper = "B82551848C644F63B8517A7BDF8BE9A992E6F4DA";
    let lower = "b82551848c644f63b8517a7bdf8be9a992e6f4da";
    assert_eq!(Id::from_hex(upper).unwrap(), Id::from_hex(lower).unwrap());
    assert!(Id::from_hex("too short").is_none());
    assert!(Id::from_hex("g82551848c644f63b8517a7bdf8be9a992e6f4da").is_none());
    assert!(Id::from_hex("").is_none());
}

#[test]
fn zero_id_is_forty_zeros() {
    assert_eq!(Id::zero().to_hex().as_str(), "0000000000000000000000000000000000000000");
}

#[test]
fn equality_is_by_bytes() {
    let mut a = [0u8; 20];
    a[0] = 1;
    assert!(Id(a) == Id(a));
    assert!(Id(a) != Id([0u8; 20]));
}
