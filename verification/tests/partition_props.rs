use internet_map::partition::{
    address_of, addresses_of, block_count, block_of, block_size, next_block_id, offset_of,
    u16s_to_ipv4,
};

#[test]
fn block_size_and_count() {
    assert_eq!(block_size(0), 1);
    assert_eq!(block_size(8), 256);
    assert_eq!(block_size(16), 65536);
    assert_eq!(block_size(32), 1u64 << 32);
    assert_eq!(block_count(32), 1);
    assert_eq!(block_count(16), 65536);
    assert_eq!(block_count(0), 1u64 << 32);
}

#[test]
fn address_round_trip() {
    // 203.0.113.7 with 8 offset bits: the prefix holds the top three octets.
    let addr: u64 = u32::from_be_bytes([203, 0, 113, 7]) as u64;
    let b = block_of(8, addr);
    let o = offset_of(8, addr);
    assert_eq!(o, 7);
    assert_eq!(address_of(8, b, o), addr);

    // Same address split with 16 offset bits.
    let b16 = block_of(16, addr);
    let o16 = offset_of(16, addr);
    assert_eq!(b16, u16::from_be_bytes([203, 0]) as u64);
    assert_eq!(o16, u16::from_be_bytes([113, 7]) as u64);
    assert_eq!(address_of(16, b16, o16), addr);
}

#[test]
fn addresses_of_covers_block_exactly_once() {
    // Partition totality on a concrete block: 256 ascending addresses,
    // each exactly once, and each maps back to the same block.
    let addr0: u64 = u32::from_be_bytes([203, 0, 113, 0]) as u64;
    let b = block_of(8, addr0);
    let addrs = addresses_of(8, b);
    assert_eq!(addrs.len(), 256);
    for (i, a) in addrs.iter().enumerate() {
        assert_eq!(*a, addr0 + i as u64);
        assert_eq!(block_of(8, *a), b);
        assert_eq!(offset_of(8, *a), i as u64);
    }

    // Adjacent blocks neither overlap nor leave a gap.
    let prev_last = address_of(8, b - 1, 255);
    let next_first = address_of(8, b + 1, 0);
    assert_eq!(prev_last + 1, addrs[0]);
    assert_eq!(addrs[255] + 1, next_first);
}

#[test]
fn next_block_id_signals_exhaustion() {
    assert_eq!(next_block_id(32, 0), Some(0));
    assert_eq!(next_block_id(32, 1), None);
    assert_eq!(next_block_id(16, 65535), Some(65535));
    assert_eq!(next_block_id(16, 65536), None);
}

#[test]
fn u16_halves_make_one_address() {
    let addr = u16s_to_ipv4(u16::from_be_bytes([1, 1]), u16::from_be_bytes([1, 1]));
    assert_eq!(addr, u32::from_be_bytes([1, 1, 1, 1]) as u64);
    assert_eq!(u16s_to_ipv4(0, 0), 0);
    assert_eq!(u16s_to_ipv4(0xffff, 0xffff), 0xffff_ffff);
}
