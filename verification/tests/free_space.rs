use acorn_dfs::free_space::{parse_3_byte_number, EmptyError, FreeSpaceMap, SectorNumber};

#[test]
fn numbers_of_three_bytes() {
    let data = [0x56, 0x34, 0x12, 0xFF, 0xFF];
    let mut input: &[u8] = &data;
    assert_eq!(parse_3_byte_number(&mut input), Ok(0x12_3456));
    assert_eq!(input, &[0xFF, 0xFF]);
    assert_eq!(parse_3_byte_number(&mut input), Err(EmptyError));
    assert_eq!(input, &[0xFF, 0xFF]);
    let mut input: &[u8] = &data;
    assert_eq!(SectorNumber::parse(&mut input), Ok(SectorNumber(0x12_3456)));
    assert_eq!(SectorNumber(0x12_34AB).debug_string(), "SectorNumber(1234ab)");
    assert_eq!(SectorNumber(0).debug_string(), "SectorNumber(0)");
}

#[test]
fn free_space_maps() {
    let mut data = [0u8; 2048];
    for i in 0..82 {
        data[3 * i..3 * i + 3].copy_from_slice(&(1000 + i as u32).to_le_bytes()[..3]);
        data[258 + 3 * i..261 + 3 * i].copy_from_slice(&(7 * i as u32).to_le_bytes()[..3]);
    }
    data[246..249].copy_from_slice(&[1, 2, 3]);
    data[249..254].copy_from_slice(b"odd12");
    data[254..257].copy_from_slice(&[0x80, 0x02, 0]);
    data[257] = 0xAA;
    data[504..507].copy_from_slice(&[4, 5, 6]);
    data[507..512].copy_from_slice(b"even1");
    data[512..514].copy_from_slice(&[0xDE, 0xAD]);
    data[514] = 3;
    data[515] = 246;
    data[516] = 0xBB;
    let map = FreeSpaceMap::from_bytes(&data).unwrap();
    assert_eq!(map.free_space_offsets.len(), 82);
    assert_eq!(map.free_space_offsets[81], SectorNumber(1081));
    assert_eq!(map.free_space_lengths.len(), 82);
    assert_eq!(map.free_space_lengths[81], 567);
    assert_eq!(map.partition1_offset, SectorNumber(0x03_0201));
    assert_eq!(map.partition2_offset, SectorNumber(0x06_0504));
    assert_eq!(map.name_chars, (b"odd12".to_vec(), b"even1".to_vec()));
    assert_eq!(map.number_of_sectors, 640);
    assert_eq!(map.reported_sec0_checksum, 0xAA);
    assert_eq!(map.reported_sec1_checksum, 0xBB);
    assert_eq!(map.disk_id, [0xDE, 0xAD]);
    assert_eq!(map.boot_options, 3);
    assert_eq!(map.ptr_end_free_list, 246);
}
