use voxel_renderer::utils::DynamicBuffer;

#[test]
fn payload_fitting_the_capacity_keeps_it() {
    let mut buf = DynamicBuffer::new(512);
    assert_eq!(buf.capacity_bytes(), 512);
    buf.update(&[7u8; 512]);
    assert_eq!(buf.capacity_bytes(), 512);
    assert_eq!(buf.payload_len(), 512);
    assert_eq!(buf.buffer(), &[7u8; 512][..]);
}

#[test]
fn overflowing_payload_doubles_until_it_fits() {
    let mut buf = DynamicBuffer::new(512);
    buf.update(&[1u8; 600]);
    assert_eq!(buf.capacity_bytes(), 1024);
    buf.update(&[2u8; 100]);
    assert_eq!(buf.capacity_bytes(), 1024);
    buf.update(&[3u8; 5000]);
    assert_eq!(buf.capacity_bytes(), 8192);
    assert_eq!(buf.payload_len(), 5000);
}

#[test]
fn capacity_is_monotone_over_mixed_updates() {
    let mut buf = DynamicBuffer::new(16);
    let sizes = [10usize, 20, 5, 40, 40, 1, 100];
    let mut last_cap = buf.capacity_bytes();
    for (round, n) in sizes.iter().enumerate() {
        let data = vec![round as u8; *n];
        buf.update(&data);
        let cap = buf.capacity_bytes();
        assert!(cap >= last_cap, "capacity shrank");
        assert!(cap >= *n, "capacity below payload");
        assert_eq!(buf.buffer(), &data[..]);
        last_cap = cap;
    }
    assert_eq!(last_cap, 128);
}

#[test]
fn whole_payload_is_rewritten() {
    let mut buf = DynamicBuffer::new(8);
    buf.update(&[9u8; 8]);
    buf.update(&[4u8; 3]);
    assert_eq!(buf.buffer(), &[4u8, 4, 4][..]);
}
