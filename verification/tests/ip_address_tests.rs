use btcore::IpAddress;

#[test]
fn test_from_bytes() {
    let input_bytes: [u8; 6] = [0x0a, 0x0a, 0x00, 0x01, 0x00, 0x16];

    let expected_ip = IpAddress { address: [10, 10, 0, 1], port: 22 };

    let actual_ip = IpAddress::from_bytes(&input_bytes);

    assert_eq!(expected_ip, actual_ip);
}

#[test]
fn test_to_bytes() {
    let input_ip = IpAddress { address: [10, 10, 0, 1], port: 22 };

    let expected_bytes: [u8; 6] = [0x0a, 0x0a, 0x00, 0x01, 0x00, 0x16];
    let actual_bytes = input_ip.to_bytes();

    assert_eq!(expected_bytes, actual_bytes);
}

#[test]
fn test_inverse() {
    let input_bytes: [u8; 6] = [0x0a, 0x0a, 0x00, 0x01, 0x00, 0x16];

    let ip = IpAddress::from_bytes(&input_bytes);
    let output_bytes = ip.to_bytes();

    assert_eq!(input_bytes, output_bytes);
}

#[test]
fn test_display_form() {
    let input_bytes: [u8; 6] = [0x0a, 0x0a, 0x00, 0x01, 0x00, 0x16];
    let ip = IpAddress::from_bytes(&input_bytes);
    assert_eq!(ip.to_display(), "10.10.0.1:22");
}
