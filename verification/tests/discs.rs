use acorn_dfs::export::{convert_path_to_os, extract_file, inf_data};
use acorn_dfs::flat_map::{self, LoadFailure};
use acorn_dfs::new_map::allocation::{AllocationMap, FragmentBlock};
use acorn_dfs::new_map::disc_structures::{LeadingMapBlock, MapBlock};
use acorn_dfs::new_map::filesystem::{Attributes, DirEntry, Directory};
use acorn_dfs::new_map::record::AllocationParsingParams;
use acorn_dfs::new_map::sys_structures::{FileObject, FormatE};
use acorn_dfs::new_map::util::{make_input, BitPosition, DiscPosition, FixedLenString};
use acorn_dfs::new_map::{Cause, Defect, Fault, FaultValue, IoError, Path};
use acorn_dfs::LoadErrors;

const SECTOR: usize = 256;
const DISC_SIZE: usize = 64 * SECTOR;
const UNIT: usize = 128;

/// One entry of a directory that is to be written.
#[derive(Clone, Copy)]
struct Entry {
    name: &'static [u8],
    len: u32,
    address: u32,
    attrs: u8,
}

const FILE: u8 = 0x13;
const DIR: u8 = 0x0D;

fn entry(name: &'static [u8], len: u32, address: u32, attrs: u8) -> Entry {
    Entry {
        name,
        len,
        address,
        attrs,
    }
}

/// The check byte, from the description of the format.
fn checksum(directory: &[u8], entries: usize) -> u8 {
    fn word(a: u32, w: &[u8]) -> u32 {
        a.rotate_right(13) ^ u32::from_le_bytes([w[0], w[1], w[2], w[3]])
    }
    fn byte(a: u32, b: &u8) -> u32 {
        a.rotate_right(13) ^ (*b as u32)
    }
    let used = &directory[..5 + 26 * entries];
    let mut words = used.chunks_exact(4);
    let sum = words.by_ref().fold(0, word);
    let sum = words.remainder().iter().fold(sum, byte);
    // The tail without its first byte and its last word: 36 bytes, all whole words.
    let sum = directory[2008..2044].chunks_exact(4).fold(sum, word);
    let [a, b, c, d] = sum.to_le_bytes();
    a ^ b ^ c ^ d
}

fn write_directory(at: &mut [u8], name: &[u8], entries: &[Entry]) {
    at[..2048].fill(0);
    at[0] = 0x42;
    at[1..5].copy_from_slice(b"Hugo");
    for (i, e) in entries.iter().enumerate() {
        let p = 5 + 26 * i;
        at[p..p + 10].fill(b'\r');
        at[p..p + e.name.len()].copy_from_slice(e.name);
        at[p + 10..p + 14].copy_from_slice(&0xFFFF_FD00u32.to_le_bytes());
        at[p + 14..p + 18].copy_from_slice(&0x0000_1A2Bu32.to_le_bytes());
        at[p + 18..p + 22].copy_from_slice(&e.len.to_le_bytes());
        at[p + 22..p + 25].copy_from_slice(&e.address.to_le_bytes()[..3]);
        at[p + 25] = e.attrs;
    }
    at[2010..2013].copy_from_slice(&0x0205u32.to_le_bytes()[..3]);
    at[2013..2018].copy_from_slice(b"Title");
    at[2032..2032 + name.len()].copy_from_slice(name);
    at[2042] = 0x42;
    at[2043..2047].copy_from_slice(b"Nick");
    at[2047] = checksum(at, entries.len());
}

fn set_bit(image: &mut [u8], i: usize) {
    image[i / 8] |= 1 << (i % 8);
}

/// Writes blocks from the beginning of the allocation map on.
fn write_map(image: &mut [u8], blocks: &[(u16, usize)]) {
    image[64..128].fill(0);
    let mut at = 512;
    for (id, length) in blocks {
        for n in 0..15 {
            if (id >> n) & 1 == 1 {
                set_bit(image, at + n);
            }
        }
        set_bit(image, at + length - 1);
        at += length;
    }
}

/// The root directory lies in object 2, a directory in object 3, files in objects 4
/// and 5; the rest is free.
const BLOCKS: [(u16, usize); 5] = [(2, 24), (3, 20), (4, 18), (5, 18), (0, 46)];

const ROOT: usize = 4 * SECTOR;
const SUB: usize = 24 * UNIT;
const HELLO: usize = 44 * UNIT;
const INNER: usize = 62 * UNIT;

fn root_entries() -> Vec<Entry> {
    vec![
        entry(b"Hello", 100, 0x400, FILE),
        entry(b"Sub", 2048, 0x301, DIR),
    ]
}

fn sub_entries() -> Vec<Entry> {
    vec![
        entry(b"Inner", 300, 0x501, FILE),
        entry(b"Lost", 10, 0x6300, FILE),
    ]
}

fn image() -> Vec<u8> {
    let mut image = vec![0u8; DISC_SIZE];
    image[0] = 0x11;
    image[1..3].copy_from_slice(&(0x8000u16 | (592 - 8)).to_le_bytes());
    image[3] = 0x22;
    image[4] = 8; // sectors of 256 bytes
    image[5] = 5;
    image[6] = 2;
    image[7] = 1;
    image[8] = 15; // bits of an object number
    image[9] = 7; // units of 128 bytes
    image[13] = 1; // zones
    image[14..16].copy_from_slice(&32u16.to_le_bytes());
    image[16..20].copy_from_slice(&0x205u32.to_le_bytes());
    image[20..24].copy_from_slice(&(DISC_SIZE as u32).to_le_bytes());
    image[24..26].copy_from_slice(&0xBEEFu16.to_le_bytes());
    image[26..36].copy_from_slice(b"TestDisc\0\0");
    image[36..40].copy_from_slice(&7u32.to_le_bytes());
    write_map(&mut image, &BLOCKS);
    write_directory(&mut image[ROOT..], b"$", &root_entries());
    write_directory(&mut image[SUB..], b"Sub", &sub_entries());
    for (i, b) in image[HELLO..HELLO + 100].iter_mut().enumerate() {
        *b = i as u8;
    }
    for (i, b) in image[INNER..INNER + 300].iter_mut().enumerate() {
        *b = (3 * i) as u8;
    }
    image
}

fn path(text: &str) -> Path {
    Path::try_from_str(text).unwrap()
}

fn texts(paths: &[Path]) -> Vec<String> {
    paths.iter().map(|p| p.to_string()).collect()
}

fn key_texts(disk: &FormatE) -> Vec<String> {
    disk.keys().into_iter().map(|p| p.to_string()).collect()
}

fn get(disk: &mut FormatE, text: &str) -> Result<(DirEntry, Vec<u8>), IoError> {
    disk.get_file(&path(text)).unwrap().0
}

#[test]
fn a_disc_is_loaded() {
    let image = image();
    let disk = FormatE::parse(&image).unwrap();
    assert!(disk.faults.is_empty());
    assert_eq!(disk.image, image);
    assert_eq!(key_texts(&disk), ["$"]);
    let record = disk.map.get_disc_record();
    assert_eq!(record.log2_sec_size, 8);
    assert_eq!(record.secs_per_track, 5);
    assert_eq!(record.heads, 2);
    assert_eq!(record.density, 1);
    assert_eq!(record.idlen, 15);
    assert_eq!(record.log2_bytes_per_mapbit, 7);
    assert_eq!(record.num_zones, 1);
    assert_eq!(record.zone_spare, 32);
    assert_eq!(record.root_dir, DiscPosition(0x205));
    assert_eq!(record.size, DISC_SIZE as u32);
    assert_eq!(record.disc_id, 0xBEEF);
    assert_eq!(record.disc_name.to_string(), "TestDisc");
    assert_eq!(record.disc_type, 7);
    assert_eq!(record.sector_size_in_bytes(), SECTOR);
    assert_eq!(record.zone_size_in_bytes(), DISC_SIZE);
    assert_eq!(record.fragment_block_size(), 7);
    assert_eq!(record.ids_per_zone(), (2048 - 32) / 16);
    let header = disk.map.leading_block.header;
    assert_eq!(
        (header.zone_check, header.free_link, header.cross_check),
        (0x11, 584, 0x22)
    );
    // The map ends in byte 80, and what is left of the sector belongs to it.
    assert_eq!(disk.map.leading_block.unused.len(), SECTOR - 80);
}

#[test]
fn fragments_leave_no_gaps() {
    let disk = FormatE::parse(&image()).unwrap();
    let blocks: Vec<&FragmentBlock> = disk.map.get_allocation(0).blocks_in_order();
    let ids: Vec<(u16, usize, bool)> = blocks
        .iter()
        .map(|b| (b.id, b.map_length, b.free_space))
        .collect();
    assert_eq!(
        ids,
        [
            (2, 24, false),
            (3, 20, false),
            (4, 18, false),
            (5, 18, false),
            (0, 46, true)
        ]
    );
    let mut bit = 512;
    let mut byte = 0;
    for b in blocks {
        assert_eq!(b.position, BitPosition(bit));
        assert_eq!(b.disk_region(), byte..byte + UNIT * b.map_length);
        bit += b.map_length;
        byte += UNIT * b.map_length;
    }
}

#[test]
fn fragments_by_number() {
    let disk = FormatE::parse(&image()).unwrap();
    assert_eq!(disk.map.get_fragment(4).unwrap().position, BitPosition(556));
    assert!(disk.map.get_fragment(99).is_none());
    let regions = &disk.map.get_allocation(0).object_regions;
    assert_eq!(regions.len(), 4);
    assert_eq!(regions[&3], vec![SUB..HELLO]);
    let objects = disk.map.get_allocation(0).objects_in_order();
    let ids: Vec<u16> = objects.iter().map(|o| o.0).collect();
    assert_eq!(ids, [2, 3, 4, 5]);
    assert_eq!(*objects[2].1, vec![HELLO..INNER]);
}

#[test]
fn blocks_that_fill_the_map_exactly() {
    // Three blocks of two bits each: the number 1 in one bit, and a one.
    let params = AllocationParsingParams {
        mapped_space_in_alloc_units: 6,
        fragment_id_length: 1,
        log_bytes_per_alloc: 7,
        sector_size: 256,
        free_link: 0,
        total_disk_size: 0x1000,
        zone_size: 0x1000,
        ids_per_zone: 1,
    };
    let mut data = vec![0u8; 66];
    data[64] = 0xFF;
    data[65] = 0xFF;
    let mut input = make_input(&data);
    input.pos = 64;
    let map = AllocationMap::parse(&mut input, 0, &params).unwrap();
    let blocks: Vec<(usize, usize)> = map
        .blocks_in_order()
        .iter()
        .map(|b| (b.position.0, b.map_length))
        .collect();
    assert_eq!(blocks, [(512, 2), (514, 2), (516, 2)]);
    assert_eq!(input.pos, 65);

    let flat = flat_map::AllocationParsingParams {
        mapped_space_in_alloc_units: 6,
        fragment_id_length: 1,
        log_bytes_per_alloc: 7,
        sector_size: 256,
        free_link: 0,
    };
    let mut input = make_input(&data);
    input.pos = 64;
    let list = flat_map::AllocationBytes::parse(&mut input, 0, &flat).unwrap();
    let lengths: Vec<usize> = list.fragments.iter().map(|b| b.total_length).collect();
    assert_eq!(lengths, [2, 2, 2]);
    assert_eq!(input.pos, 65);
}

#[test]
fn maps_that_fill_their_sector() {
    // 192 bytes of map behind the record, and not one byte more.
    let units = 8 * 192;
    let sample = image();
    let mut image = vec![0u8; 2 * SECTOR];
    image[..64].copy_from_slice(&sample[..64]);
    image[1..3].copy_from_slice(&0x8000u16.to_le_bytes());
    let size = (units * UNIT + SECTOR) as u32;
    image[20..24].copy_from_slice(&size.to_le_bytes());
    set_bit(&mut image, 512 + 1);
    set_bit(&mut image, 512 + units - 1);
    let mut input = make_input(&image);
    let block = LeadingMapBlock::parse(true, &mut input).unwrap();
    assert_eq!(input.pos, SECTOR);
    assert!(block.unused.is_empty());
    assert_eq!(block.get_fragment(2).unwrap().map_length, units);
    let mut input = make_input(&image);
    let block = flat_map::LeadingMapBlock::parse(true, &mut input).unwrap();
    assert_eq!(input.pos, SECTOR);
    assert!(block.unused.is_empty());
    // One byte less, and the sector is filled up.
    let size = ((units - 8) * UNIT + SECTOR) as u32;
    image[20..24].copy_from_slice(&size.to_le_bytes());
    set_bit(&mut image, 512 + units - 9);
    let mut input = make_input(&image);
    let block = LeadingMapBlock::parse(true, &mut input).unwrap();
    assert_eq!(input.pos, SECTOR);
    assert_eq!(block.unused.len(), 1);
}

#[test]
fn free_space_belongs_to_no_object() {
    let mut image = image();
    // The first free fragment, at 556, holds the distance to the one at 592. Object 36
    // begins at 574.
    write_map(
        &mut image,
        &[(2, 24), (3, 20), (36, 18), (36, 18), (0, 46)],
    );
    image[1..3].copy_from_slice(&(0x8000u16 | (556 - 8)).to_le_bytes());
    let mut entries = root_entries();
    entries[0] = entry(b"Hello", 100, 0x2400, FILE);
    write_directory(&mut image[ROOT..], b"$", &entries);
    let mut disk = FormatE::parse(&image).unwrap();
    assert_eq!(
        disk.map.get_fragment(36).unwrap().position,
        BitPosition(574)
    );
    // A number that free space alone has stands for the first block of that.
    let free = disk.map.get_fragment(0).unwrap();
    assert_eq!((free.position, free.free_space), (BitPosition(592), true));
    assert!(disk.map.get_allocation(0).object_regions.get(&0).is_none());
    assert_eq!(
        disk.map.get_allocation(0).object_regions[&36],
        vec![INNER..INNER + 18 * UNIT]
    );
    let (_, contents) = get(&mut disk, "$.Hello").unwrap();
    assert_eq!(contents, &image[INNER..INNER + 100]);
}

#[test]
fn numbers_of_free_space_alone() {
    let mut image = image();
    // The block at 574 holds the distance to the last one, and no object has that number.
    write_map(
        &mut image,
        &[(2, 24), (3, 20), (4, 18), (18, 18), (0, 46)],
    );
    image[1..3].copy_from_slice(&(0x8000u16 | (574 - 8)).to_le_bytes());
    let entries = [
        entry(b"Erased", 100, 0x1202, FILE),
        entry(b"Far", 1, 0x1213, FILE),
        entry(b"None", 1, 0x1300, FILE),
    ];
    let folder = [entry(b"Old", 2048, 0x1200, DIR)];
    write_directory(&mut image[ROOT..], b"$", &entries);
    let mut disk = FormatE::parse(&image).unwrap();
    let block = disk.map.get_fragment(18).unwrap();
    assert_eq!((block.position, block.free_space), (BitPosition(574), true));
    assert!(disk.map.get_object_parts(18).is_empty());
    assert_eq!(disk.map.get_file_parts(18), vec![INNER..INNER + 18 * UNIT]);
    let (entry, contents) = get(&mut disk, "$.Erased").unwrap();
    let start = INNER + SECTOR;
    assert_eq!(contents, &image[start..start + 100]);
    assert_eq!(disk.map.get_file_region(&entry), Some(start..start + 100));
    let error = disk.try_get_file(&path("$.Far")).unwrap_err();
    assert!(matches!(error.cause, Cause::Defect(Defect::OutsideImage)));
    match get(&mut disk, "$.None") {
        Err(IoError::MissingFragment(a)) => assert_eq!(a, DiscPosition(0x1300)),
        other => panic!("{other:?}"),
    }

    // A directory may lie there, too.
    let old = sub_entries();
    write_directory(&mut image[INNER..], b"Sub", &old);
    write_directory(&mut image[ROOT..], b"$", &folder);
    let disk = FormatE::parse(&image).unwrap();
    assert_eq!(
        texts(&disk.entries(None)),
        ["$", "$.Old", "$.Old.Inner", "$.Old.Lost"]
    );
}

#[test]
fn numbers_that_are_not_used() {
    // A zone of no bytes maps nothing, and no number but the sector size matters.
    let mut record = flat_source();
    record[4 + 4] = 200;
    record[20..24].copy_from_slice(&0u32.to_le_bytes());
    let mut input = make_input(&record);
    let block = LeadingMapBlock::parse(false, &mut input).unwrap();
    assert!(block.allocations.fragments.is_empty());
    assert_eq!(input.pos, SECTOR);
    let mut input = make_input(&record);
    let block = flat_map::LeadingMapBlock::parse(false, &mut input).unwrap();
    assert!(block.allocations.fragments.is_empty());

    // No disc object has its home in a zone, or more bits are spare than there are.
    for spare in [2040u16, 2048, 2049, 0xFFFF] {
        let mut image = image();
        image[14..16].copy_from_slice(&spare.to_le_bytes());
        let mut disk = FormatE::load(&image).unwrap();
        let (_, contents) = get(&mut disk, "$.Sub.Inner").unwrap();
        assert_eq!(contents, &image[INNER..INNER + 300]);
        // That tells nothing of the order of two fragments.
        write_map(&mut image, &[(2, 24), (3, 20), (4, 18), (4, 18), (0, 46)]);
        let error = FormatE::load(&image).unwrap_err();
        assert!(matches!(error.cause, Cause::Defect(Defect::Geometry)));
    }

    // Numbers of more than 16 bits cannot be held.
    let mut long = image();
    long[8] = 17;
    let error = FormatE::load(&long).unwrap_err();
    assert!(matches!(error.cause, Cause::Defect(Defect::Geometry)));
    assert_eq!(
        flat_map::FormatE::load(&long).unwrap_err(),
        LoadFailure::Defect(Defect::Geometry)
    );
    long.truncate(66);
    let error = FormatE::load(&long).unwrap_err();
    assert!(matches!(error.cause, Cause::Incomplete));
    assert_eq!(
        flat_map::FormatE::load(&long).unwrap_err(),
        LoadFailure::Incomplete
    );
}

/// The first sector of a disc without free space.
fn flat_source() -> Vec<u8> {
    let mut sector = image()[..SECTOR].to_vec();
    sector[1..3].copy_from_slice(&0x8000u16.to_le_bytes());
    sector
}

#[test]
fn ways_are_read() {
    let mut disk = FormatE::parse(&image()).unwrap();
    for _ in 0..2 {
        assert!(matches!(
            disk.populate_path(&path("$.Sub.Inner")),
            Ok(Ok(()))
        ));
        assert_eq!(
            key_texts(&disk),
            ["$", "$.Hello", "$.Sub", "$.Sub.Inner", "$.Sub.Lost"]
        );
        assert!(disk.faults.is_empty());
    }
    assert!(matches!(
        disk.populate_path(&path("$.Sub.Nope")),
        Ok(Err(IoError::MissingTarget(_)))
    ));
}

#[test]
fn files_in_several_parts() {
    let mut image = image();
    // Object 4 in two parts, with object 5 between them.
    write_map(
        &mut image,
        &[(2, 24), (3, 20), (4, 18), (5, 18), (4, 18), (0, 28)],
    );
    image[1..3].copy_from_slice(&(0x8000u16 | (610 - 8)).to_le_bytes());
    let part = 18 * UNIT;
    let second = 80 * UNIT;
    for (i, b) in image[HELLO..second + part].iter_mut().enumerate() {
        *b = (i % 251) as u8;
    }
    let object = [&image[HELLO..HELLO + part], &image[second..second + part]].concat();
    let length = part as u32 + 200;
    let entries = [
        entry(b"Whole", length, 0x400, FILE),
        entry(b"Later", length - 512, 0x403, FILE),
        entry(b"Second", 50, 0x40C, FILE),
        entry(b"Long", 9000, 0x400, FILE),
        entry(b"Behind", 1, 0x414, FILE),
    ];
    write_directory(&mut image[ROOT..], b"$", &entries);
    let mut disk = FormatE::parse(&image).unwrap();
    assert_eq!(
        disk.map.get_object_parts(4),
        vec![HELLO..HELLO + part, second..second + part]
    );
    let whole = get(&mut disk, "$.Whole").unwrap().1;
    assert_eq!(whole, &object[..part + 200]);
    let later = get(&mut disk, "$.Later").unwrap().1;
    assert_eq!(later, &object[512..part + 200]);
    // Sector 11 of the object lies in its second part.
    let inner = get(&mut disk, "$.Second").unwrap().1;
    assert_eq!(inner, &object[11 * SECTOR..11 * SECTOR + 50]);
    assert_eq!(get(&mut disk, "$.Long").unwrap().1, object);
    let error = disk.try_get_file(&path("$.Behind")).unwrap_err();
    assert!(matches!(error.cause, Cause::Defect(Defect::OutsideImage)));
}

#[test]
fn files_are_read_again() {
    let mut image = image();
    image[SUB + 2047] ^= 0xFF;
    let mut disk = FormatE::parse(&image).unwrap();
    let (_, first) = get(&mut disk, "$.Sub.Inner").unwrap();
    let keys = key_texts(&disk);
    let faults = disk.faults.len();
    let (_, second) = get(&mut disk, "$.Sub.Inner").unwrap();
    assert_eq!(first, second);
    assert_eq!(key_texts(&disk), keys);
    assert_eq!(disk.faults.len(), faults);
}

#[test]
fn faults_in_words() {
    let p = path("$.Sub.Inner");
    let faults = [
        (
            Fault::InvalidFreeLink(0x1F9),
            "Free link value 0x01f9 did not point at valid fragment",
        ),
        (
            Fault::BrokenFreeChain {
                origin: BitPosition(536),
                dest_bit_offset: BitPosition(539),
            },
            "Free fragment block at offset BitPosition { val: 536, bytes: 67, bits: 0 } bits \
             points to offset BitPosition { val: 539, bytes: 67, bits: 3 } bits which does not \
             contain a fragment",
        ),
        (
            Fault::InvalidAttr {
                location: BitPosition(8),
                path: p.clone(),
                attr_value: 0xC8,
            },
            "File $.Sub.Inner has invalid attribute byte: 11001000",
        ),
        (
            Fault::InvalidRoot {
                root_link: DiscPosition(0x205),
                sector_size: SECTOR,
            },
            "Could not retrieve root directory",
        ),
        (
            Fault::InvalidDir { path: p.clone() },
            "Could not retrieve directory $.Sub.Inner",
        ),
        (
            Fault::MagicStringFailure(*b"H\n'o"),
            "Expected 'Nick' or 'Hugo', found H\\n\\'o",
        ),
        (
            Fault::SequenceNumberMismatch {
                path: p.clone(),
                start_seq_num: 0x0A,
                end_seq_num: 0xBC,
            },
            "Directory $.Sub.Inner began with sequence number 0xA but ended with 0xBC",
        ),
        (
            Fault::CheckByteFailure {
                path: p,
                expected: 0x0A,
                actual: 0xBC,
            },
            "Directory $.Sub.Inner gives a check byte of BC, but holds  A",
        ),
        (
            Fault::UnacceptableSectorSize(11),
            "Detected sector size (2048) was too big or small to be plausible",
        ),
        (
            Fault::ZoneCheckFailure {
                expected: 0xFF,
                actual: 7,
            },
            "Calculated a zone check value of  7, but expected FF",
        ),
        (
            Fault::CrossCheckFailure(0xA5),
            "Map had a cross check failure of A5",
        ),
    ];
    for (fault, text) in faults {
        assert_eq!(fault.to_string(), text);
        assert_eq!(fault.clone().to_string(), text);
    }
}

#[test]
fn io_errors_in_words() {
    assert_eq!(
        IoError::MissingFragment(DiscPosition(515)).to_string(),
        "Could not find indirect disc position DiscPosition { val: 515, fragment: 2, sector no: 2 }"
    );
    assert_eq!(
        IoError::MissingTarget(path("$.Nope")).to_string(),
        "No entity with path $.Nope"
    );
    assert_eq!(
        IoError::InvalidTarget(path("$.Sub")).to_string(),
        "Path $.Sub did exist but did not have requested type"
    );
}

#[test]
fn fragments_of_an_object_in_search_order() {
    let mut image = image();
    // Object 3 in three parts, the first of which comes first on the disc.
    write_map(
        &mut image,
        &[(3, 20), (2, 20), (3, 18), (5, 18), (3, 20), (0, 30)],
    );
    let free = 512 + 20 + 20 + 18 + 18 + 20;
    image[1..3].copy_from_slice(&(0x8000u16 | (free - 8)).to_le_bytes());
    let mut input = make_input(&image);
    let block = LeadingMapBlock::parse(true, &mut input).unwrap();
    assert_eq!(
        block.allocations.object_regions[&3],
        vec![0..20 * UNIT, 40 * UNIT..58 * UNIT, 76 * UNIT..96 * UNIT]
    );
    // Object 200 has its home behind the end of the only zone, which is its beginning.
    let record = block.disc_record;
    let params = AllocationParsingParams::new(true, 0, &record);
    assert_eq!(params.search_starting_point(200), DISC_SIZE as u64);
    assert_eq!(params.distance_from_start(200, 0), 0);
    assert_eq!(params.distance_from_start(200, 5), 5);
    assert_eq!(params.distance_from_start(3, DISC_SIZE - 1), DISC_SIZE as u64 - 1);
    assert_eq!(params.mapped_space_in_alloc_units(), 126);
    assert_eq!(params.fragment_id_length(), 15);
    assert_eq!(params.bytes_per_alloc_unit(), UNIT);
    assert_eq!(params.sector_size(), SECTOR);
    assert_eq!(params.free_link(), 0);
    let whole = AllocationParsingParams::new(false, 9, &record);
    assert_eq!(whole.mapped_space_in_alloc_units(), 128);
    assert_eq!(whole.free_link(), 9);
}

#[test]
fn free_fragments_form_a_chain() {
    let mut image = image();
    // From the block at 536 to the one at 574, and from there to the one at 592.
    write_map(
        &mut image,
        &[(2, 24), (38, 20), (4, 18), (18, 18), (0, 46)],
    );
    image[1..3].copy_from_slice(&(0x8000u16 | (536 - 8)).to_le_bytes());
    let mut input = make_input(&image);
    let block = LeadingMapBlock::parse(true, &mut input).unwrap();
    let free: Vec<bool> = block
        .allocations
        .blocks_in_order()
        .iter()
        .map(|b| b.free_space)
        .collect();
    assert_eq!(free, [false, true, false, true, true]);

    let flat = flat_map::FormatE::parse(&image).unwrap();
    let free: Vec<bool> = flat
        .map
        .leading_block
        .allocations
        .fragments
        .iter()
        .map(|b| b.free_space)
        .collect();
    assert_eq!(free, [false, true, false, true, true]);
}

#[test]
fn maps_without_free_space() {
    let mut image = image();
    image[1..3].copy_from_slice(&0x8000u16.to_le_bytes());
    let disk = FormatE::parse(&image).unwrap();
    assert!(disk
        .map
        .get_allocation(0)
        .blocks_in_order()
        .iter()
        .all(|b| !b.free_space));
    let flat = flat_map::FormatE::parse(&image).unwrap();
    let fragments = &flat.map.leading_block.allocations.fragments;
    assert_eq!(fragments.len(), 5);
    assert!(fragments.iter().all(|b| !b.free_space));
}

#[test]
fn files_are_read() {
    let image = image();
    let mut disk = FormatE::parse(&image).unwrap();
    let (entry, contents) = get(&mut disk, "$.Hello").unwrap();
    assert_eq!(entry.obj_name.to_string(), "Hello");
    assert_eq!(entry.load, 0xFFFF_FD00);
    assert_eq!(entry.exec_address, 0x1A2B);
    assert_eq!(entry.len, 100);
    assert_eq!(entry.address, DiscPosition(0x400));
    assert_eq!(entry.attrs.bits(), FILE);
    assert_eq!(contents, &image[HELLO..HELLO + 100]);
    assert_eq!(key_texts(&disk), ["$", "$.Hello"]);

    let (entry, contents) = get(&mut disk, "$.Sub.Inner").unwrap();
    assert_eq!(entry.len, 300);
    assert_eq!(contents, &image[INNER..INNER + 300]);
    assert_eq!(
        key_texts(&disk),
        ["$", "$.Hello", "$.Sub", "$.Sub.Inner", "$.Sub.Lost"]
    );
    assert!(matches!(
        disk.tree.get(&path("$.Sub")),
        Some(FileObject::Dir(_))
    ));
}

#[test]
fn files_are_the_same_whatever_was_read_before() {
    let image = image();
    let asked = ["$.Hello", "$.Sub.Inner", "$.Nope", "$.Sub", "$.Hello.X", "$"];
    for first in asked {
        let mut disk = FormatE::parse(&image).unwrap();
        let _ = disk.get_file(&path(first));
        for second in asked {
            let mut fresh = FormatE::parse(&image).unwrap();
            let got = get(&mut disk, second).ok().map(|f| f.1);
            let expected = get(&mut fresh, second).ok().map(|f| f.1);
            assert_eq!(got, expected, "{first} then {second}");
        }
    }
}

#[test]
fn files_that_are_none() {
    let mut disk = FormatE::parse(&image()).unwrap();
    match get(&mut disk, "$.Nope") {
        Err(IoError::MissingTarget(p)) => assert_eq!(p, path("$.Nope")),
        other => panic!("{other:?}"),
    }
    match get(&mut disk, "$.Nope.More") {
        Err(IoError::MissingTarget(p)) => assert_eq!(p, path("$.Nope")),
        other => panic!("{other:?}"),
    }
    match get(&mut disk, "$") {
        Err(IoError::InvalidTarget(p)) => assert_eq!(p, path("$")),
        other => panic!("{other:?}"),
    }
    match get(&mut disk, "$.Sub") {
        Err(IoError::InvalidTarget(p)) => assert_eq!(p, path("$.Sub")),
        other => panic!("{other:?}"),
    }
    match get(&mut disk, "$.Sub.Lost") {
        Err(IoError::MissingFragment(a)) => assert_eq!(a, DiscPosition(0x6300)),
        other => panic!("{other:?}"),
    }
}

#[test]
fn files_midway_through_a_path() {
    let mut disk = FormatE::parse(&image()).unwrap();
    // The file itself is found at first, and is known from then on.
    match get(&mut disk, "$.Hello.X.Y") {
        Err(IoError::InvalidTarget(p)) => assert_eq!(p, path("$.Hello")),
        other => panic!("{other:?}"),
    }
    match get(&mut disk, "$.Hello.X.Y") {
        Err(IoError::InvalidTarget(p)) => assert_eq!(p, path("$.Hello.X")),
        other => panic!("{other:?}"),
    }
}

#[test]
fn files_inside_their_fragment() {
    let mut image = image();
    let mut entries = root_entries();
    // Longer than its fragment, and behind its beginning by one sector.
    entries[0] = entry(b"Hello", 5000, 0x402, FILE);
    write_directory(&mut image[ROOT..], b"$", &entries);
    let mut disk = FormatE::parse(&image).unwrap();
    let (_, contents) = get(&mut disk, "$.Hello").unwrap();
    assert_eq!(contents, &image[HELLO + SECTOR..INNER]);
    let e = disk.tree.get(&path("$.Hello"));
    let Some(FileObject::File(e)) = e else {
        panic!()
    };
    assert_eq!(disk.map.get_file_region(e), Some(HELLO + SECTOR..INNER));

    // The length of a file counts from where the file begins.
    entries[0] = entry(b"Hello", 100, 0x402, FILE);
    write_directory(&mut image[ROOT..], b"$", &entries);
    let mut disk = FormatE::parse(&image).unwrap();
    let start = HELLO + SECTOR;
    let (_, contents) = get(&mut disk, "$.Hello").unwrap();
    assert_eq!(contents, &image[start..start + 100]);
    let Some(FileObject::File(e)) = disk.tree.get(&path("$.Hello")) else {
        panic!()
    };
    assert_eq!(disk.map.get_file_region(e), Some(start..start + 100));
}

#[test]
fn names_that_occur_twice() {
    let mut image = image();
    let mut entries = root_entries();
    entries.push(entry(b"Hello", 7, 0x500, FILE));
    write_directory(&mut image[ROOT..], b"$", &entries);
    let mut disk = FormatE::parse(&image).unwrap();
    let (entry, contents) = get(&mut disk, "$.Hello").unwrap();
    assert_eq!(entry.len, 7);
    assert_eq!(contents, &image[INNER..INNER + 7]);
}

#[test]
fn paths_by_prefix() {
    let mut disk = FormatE::parse(&image()).unwrap();
    let _ = disk.get_file(&path("$.Sub.Inner"));
    let listed = |prefix: &str| -> Vec<String> {
        let keys = disk.keys_by_prefix(path(prefix));
        keys.into_iter().map(|p| p.to_string()).collect()
    };
    assert_eq!(
        listed("$"),
        ["$", "$.Hello", "$.Sub", "$.Sub.Inner", "$.Sub.Lost"]
    );
    assert_eq!(listed("$.S"), ["$.Sub", "$.Sub.Inner", "$.Sub.Lost"]);
    assert_eq!(listed("$.Sub.I"), ["$.Sub.Inner"]);
    assert_eq!(listed("$.Z"), [] as [&str; 0]);
}

#[test]
fn everything_is_listed() {
    let disk = FormatE::parse(&image()).unwrap();
    assert_eq!(
        texts(&disk.entries(None)),
        ["$", "$.Hello", "$.Sub", "$.Sub.Inner", "$.Sub.Lost"]
    );
    assert_eq!(
        texts(&disk.entries(Some(path("$.Sub")))),
        ["$.Sub", "$.Sub.Inner", "$.Sub.Lost"]
    );
    // Nothing was put into the tree for it.
    assert_eq!(key_texts(&disk), ["$"]);
}

#[test]
fn directories_that_contain_themselves() {
    let mut image = image();
    write_directory(
        &mut image[SUB..],
        b"Sub",
        &[entry(b"Again", 2048, 0x301, DIR)],
    );
    let disk = FormatE::parse(&image).unwrap();
    assert_eq!(
        texts(&disk.entries(None)),
        ["$", "$.Hello", "$.Sub", "$.Sub.Again"]
    );
    // The root, in a directory that lies in it.
    write_directory(
        &mut image[SUB..],
        b"Sub",
        &[entry(b"Up", 2048, 0x205, DIR), entry(b"Inner", 300, 0x501, FILE)],
    );
    let disk = FormatE::parse(&image).unwrap();
    assert_eq!(
        texts(&disk.entries(None)),
        ["$", "$.Hello", "$.Sub", "$.Sub.Inner", "$.Sub.Up"]
    );
}

#[test]
fn directories_under_several_names() {
    let mut image = image();
    let mut entries = root_entries();
    entries.push(entry(b"Twin", 2048, 0x301, DIR));
    write_directory(&mut image[ROOT..], b"$", &entries);
    let disk = FormatE::parse(&image).unwrap();
    assert_eq!(
        texts(&disk.entries(None)),
        [
            "$",
            "$.Hello",
            "$.Sub",
            "$.Sub.Inner",
            "$.Sub.Lost",
            "$.Twin",
            "$.Twin.Inner",
            "$.Twin.Lost"
        ]
    );
}

#[test]
fn discs_are_cloned() {
    let mut disk = FormatE::parse(&image()).unwrap();
    let mut copy = disk.clone();
    let _ = disk.get_file(&path("$.Hello"));
    assert_eq!(key_texts(&copy), ["$"]);
    assert_eq!(
        get(&mut copy, "$.Sub.Inner").unwrap().1,
        get(&mut disk, "$.Sub.Inner").unwrap().1
    );
}

#[test]
fn faults_of_the_root() {
    let mut image = image();
    let mut entries = root_entries();
    entries[1].attrs = 0xC8;
    write_directory(&mut image[ROOT..], b"$", &entries);
    image[ROOT] = 0x43;
    let expected = image[ROOT + 2047];
    let actual = checksum(&image[ROOT..], 2);
    assert_ne!(expected, actual);
    let disk = FormatE::parse(&image).unwrap();
    assert_eq!(disk.faults.len(), 3);
    match &disk.faults[0] {
        Fault::InvalidAttr {
            location,
            path: p,
            attr_value,
        } => {
            assert_eq!(*location, BitPosition(8 * (ROOT + 5 + 26 + 25)));
            assert_eq!(*p, path("$.Sub"));
            assert_eq!(*attr_value, 0xC8);
        }
        other => panic!("{other:?}"),
    }
    match &disk.faults[1] {
        Fault::SequenceNumberMismatch {
            path: p,
            start_seq_num,
            end_seq_num,
        } => {
            assert_eq!(*p, path("$"));
            assert_eq!((*start_seq_num, *end_seq_num), (0x43, 0x42));
        }
        other => panic!("{other:?}"),
    }
    match &disk.faults[2] {
        Fault::CheckByteFailure {
            path: p,
            expected: e,
            actual: a,
        } => {
            // The root calls itself by its symbol.
            assert_eq!(p.to_byte_segments(), vec![b"$".to_vec()]);
            assert_eq!((*e, *a), (expected, actual));
        }
        other => panic!("{other:?}"),
    }
}

#[test]
fn faults_found_on_the_way() {
    let mut image = image();
    image[SUB + 2047] ^= 0xFF;
    let mut disk = FormatE::parse(&image).unwrap();
    assert!(disk.faults.is_empty());
    let FaultValue(file, found) = disk.get_file(&path("$.Sub.Inner")).unwrap();
    assert!(file.is_ok());
    assert_eq!(found.len(), 1);
    assert!(matches!(found[0], Fault::CheckByteFailure { .. }));
    assert_eq!(disk.faults.len(), 1);
    let FaultValue(_, again) = disk.get_file(&path("$.Sub.Inner")).unwrap();
    assert!(again.is_empty());
}

#[test]
fn roots_that_are_none() {
    let mut broken = image();
    broken[ROOT + 1..ROOT + 5].copy_from_slice(b"Hug0");
    let error = FormatE::parse(&broken).unwrap_err();
    match error.cause {
        Cause::Fault(Fault::MagicStringFailure(found)) => assert_eq!(&found, b"Hug0"),
        other => panic!("{other:?}"),
    }
    match error.context {
        Some(Fault::InvalidRoot {
            root_link,
            sector_size,
        }) => {
            assert_eq!(root_link, DiscPosition(0x205));
            assert_eq!(sector_size, SECTOR);
        }
        other => panic!("{other:?}"),
    }

    let mut lost = image();
    lost[16..20].copy_from_slice(&0x7700u32.to_le_bytes());
    let error = FormatE::load(&lost).unwrap_err();
    assert!(matches!(error.cause, Cause::Defect(Defect::LostDirectory)));

    let mut short = image();
    short.truncate(ROOT - 1);
    let error = FormatE::load(&short).unwrap_err();
    assert!(matches!(error.cause, Cause::Defect(Defect::OutsideImage)));

    let mut cut = image();
    cut.truncate(ROOT + 2047);
    let error = FormatE::parse(&cut).unwrap_err();
    assert!(matches!(error.cause, Cause::Truncated));
    assert!(matches!(error.context, Some(Fault::InvalidRoot { .. })));
}

#[test]
fn directories_that_are_none() {
    let mut image = image();
    image[SUB + 2008] = 1;
    let mut disk = FormatE::parse(&image).unwrap();
    let error = disk.get_file(&path("$.Sub.Inner")).unwrap_err();
    assert!(matches!(error.cause, Cause::Mismatch));
    match error.context {
        Some(Fault::InvalidDir { path: p }) => assert_eq!(p, path("$.Sub")),
        other => panic!("{other:?}"),
    }
    // The files beside it can still be read.
    assert!(get(&mut disk, "$.Hello").is_ok());
    assert_eq!(texts(&disk.entries(None)), ["$", "$.Hello"]);
}

#[test]
fn maps_that_are_none() {
    let error = FormatE::parse(&[]).unwrap_err();
    assert!(matches!(error.cause, Cause::Truncated));
    let error = FormatE::parse(&image()[..63]).unwrap_err();
    assert!(matches!(error.cause, Cause::Truncated));
    assert!(error.context.is_none());

    let mut size = image();
    size[4] = 11;
    let error = FormatE::parse(&size).unwrap_err();
    assert!(matches!(
        error.cause,
        Cause::Fault(Fault::UnacceptableSectorSize(11))
    ));
    assert_eq!(
        flat_map::FormatE::parse(&size).unwrap_err(),
        LoadFailure::Mismatch
    );

    let mut link = image();
    link[1..3].copy_from_slice(&(0x8000u16 | 505).to_le_bytes());
    let error = FormatE::parse(&link).unwrap_err();
    assert!(matches!(
        error.cause,
        Cause::Fault(Fault::InvalidFreeLink(505))
    ));
    assert_eq!(
        flat_map::FormatE::parse(&link).unwrap_err(),
        LoadFailure::Load(LoadErrors::InvalidFreeLink(505))
    );

    let mut chain = image();
    chain[1..3].copy_from_slice(&(0x8000u16 | (536 - 8)).to_le_bytes());
    let error = FormatE::parse(&chain).unwrap_err();
    match error.cause {
        Cause::Fault(Fault::BrokenFreeChain {
            origin,
            dest_bit_offset,
        }) => {
            assert_eq!(origin, BitPosition(536));
            assert_eq!(dest_bit_offset, BitPosition(539));
        }
        other => panic!("{other:?}"),
    }
    assert_eq!(
        flat_map::FormatE::parse(&chain).unwrap_err(),
        LoadFailure::Load(LoadErrors::BrokenFreeChain {
            origin: BitPosition(536),
            dest_bit_offset: BitPosition(539),
        })
    );

    let mut cut = image();
    cut.truncate(70);
    let error = FormatE::parse(&cut).unwrap_err();
    assert!(matches!(error.cause, Cause::Incomplete));
    assert_eq!(
        flat_map::FormatE::parse(&cut).unwrap_err(),
        LoadFailure::Incomplete
    );

    let mut sector = image();
    sector.truncate(255);
    let error = FormatE::parse(&sector).unwrap_err();
    assert!(matches!(error.cause, Cause::Truncated));
    assert_eq!(
        flat_map::FormatE::parse(&sector).unwrap_err(),
        LoadFailure::Truncated
    );
}

#[test]
fn discs_that_cannot_be() {
    let mut zones = image();
    zones[13] = 0;
    let error = FormatE::load(&zones).unwrap_err();
    assert!(matches!(error.cause, Cause::Defect(Defect::Geometry)));
    assert_eq!(
        flat_map::FormatE::load(&zones).unwrap_err(),
        LoadFailure::Defect(Defect::Geometry)
    );

    let mut units = image();
    units[9] = 200;
    let error = FormatE::load(&units).unwrap_err();
    assert!(matches!(error.cause, Cause::Defect(Defect::Geometry)));

    // No allocation unit of this size fits into the disc, so there is no fragment.
    let mut large = image();
    large[1..3].copy_from_slice(&0x8000u16.to_le_bytes());
    large[9] = 62;
    large[20..24].copy_from_slice(&u32::MAX.to_le_bytes());
    let error = FormatE::load(&large).unwrap_err();
    assert!(matches!(error.cause, Cause::Defect(Defect::LostDirectory)));
}

#[test]
fn blocks_that_lie_too_far_out() {
    let params = AllocationParsingParams {
        mapped_space_in_alloc_units: 10,
        fragment_id_length: 3,
        log_bytes_per_alloc: 62,
        sector_size: 256,
        free_link: 0,
        total_disk_size: 100,
        zone_size: 100,
        ids_per_zone: 1,
    };
    let mut data = vec![0u8; 66];
    data[64] = 0b1000_0000;
    let mut stream = (make_input(&data), 0);
    stream.0.pos = 64;
    let error = FragmentBlock::parse(&mut stream, &params).unwrap_err();
    assert!(matches!(error.cause, Cause::Defect(Defect::Oversize)));
}

#[test]
fn directories_are_read() {
    let image = image();
    let mut input = make_input(&image);
    input.pos = SUB;
    let FaultValue(directory, faults) = Directory::parse(&mut input).unwrap();
    assert!(faults.is_empty());
    assert_eq!(input.pos, SUB + 2048);
    assert_eq!(directory.header.start_seq_num, 0x42);
    assert_eq!(directory.entries().len(), 2);
    assert_eq!(directory.entries()[1].obj_name.to_string(), "Lost");
    assert_eq!(directory.tail.parent, DiscPosition(0x205));
    assert_eq!(directory.tail.title.valid_range(), b"Title");
    assert_eq!(directory.tail.name.to_string(), "Sub");
    assert_eq!(directory.tail.end_seq_num, 0x42);
    assert_eq!(directory.tail.check_byte, image[SUB + 2047]);
    let copy = directory.clone();
    assert_eq!(copy.entries().len(), 2);
}

#[test]
fn directories_can_be_full() {
    let mut image = image();
    let entries = vec![entry(b"Same", 1, 0x400, FILE); 77];
    write_directory(&mut image[SUB..], b"Sub", &entries);
    let mut input = make_input(&image);
    input.pos = SUB;
    let FaultValue(directory, faults) = Directory::parse(&mut input).unwrap();
    assert!(faults.is_empty());
    assert_eq!(directory.entries().len(), 77);
}

#[test]
fn check_bytes() {
    // One word, one byte; then, of the tail, one byte and one word.
    let start = [1, 0, 0, 0, 2];
    let tail = [9, 4, 8, 0, 0, 0, 7, 7, 7, 7];
    let a = 1u32.rotate_right(13) ^ 2;
    let b = a.rotate_right(13) ^ 4;
    let c = b.rotate_right(13) ^ 8;
    let [w, x, y, z] = c.to_le_bytes();
    assert_eq!(
        Directory::compute_checksum(&start, &[], &tail),
        w ^ x ^ y ^ z
    );
    let split: [&[u8]; 2] = [&[0, 0], &[0, 2]];
    assert_eq!(
        Directory::compute_checksum(&[1], &split, &tail),
        w ^ x ^ y ^ z
    );
}

#[test]
fn attributes() {
    assert!(Attributes::from_bits(0x3F).is_some());
    assert!(Attributes::from_bits(0x40).is_none());
    assert_eq!(Attributes::from_bits_truncate(0xC8).bits(), 0x08);
    assert_eq!(Attributes::from_bits_retain(0xC8).bits(), 0xC8);
    let attrs = Attributes::from_bits_retain(0x0B);
    assert!(attrs.contains(Attributes::READ));
    assert!(attrs.contains(Attributes::WRITE));
    assert!(attrs.contains(Attributes::DIR));
    assert!(!attrs.contains(Attributes::LOCK));
    assert!(!attrs.contains(Attributes::PUBLIC_READ));
    assert!(!attrs.contains(Attributes::PUBLIC_WRITE | Attributes::READ));
}

#[test]
fn further_zones() {
    let image = image();
    let mut input = make_input(&image);
    let leading = LeadingMapBlock::parse(true, &mut input).unwrap();
    assert_eq!(input.pos, SECTOR);
    // A second zone: a header without free space, and one block.
    let mut zone = image[..SECTOR].to_vec();
    zone.resize(2 * SECTOR, 0);
    zone[SECTOR + 1] = 0;
    zone[SECTOR + 2] = 0x80;
    let first = 8 * (SECTOR + 4);
    set_bit(&mut zone, first + 1);
    set_bit(&mut zone, first + 127);
    let mut input = make_input(&zone);
    input.pos = SECTOR;
    let block = MapBlock::parse(&mut input, true, &leading.disc_record).unwrap();
    assert_eq!(input.pos, 2 * SECTOR);
    let fragment = block.get_fragment(2).unwrap();
    assert_eq!(fragment.map_length, 128);
    assert_eq!(
        fragment.disk_region(),
        UNIT * (first - 512)..UNIT * (first - 512 + 128)
    );
    let region = fragment.disk_region();
    let mut map = acorn_dfs::new_map::disc_structures::NewMap {
        leading_block: leading,
        blocks: vec![block],
    };
    assert_eq!(map.get_object_parts(2), vec![0..24 * UNIT, region]);
    // The first zone comes first.
    assert_eq!(map.get_fragment(2).unwrap().map_length, 24);
    assert_eq!(map.get_allocation(1).blocks_in_order().len(), 1);
    map.leading_block.allocations.fragments.clear();
    assert_eq!(map.get_fragment(2).unwrap().map_length, 128);

    let mut input = make_input(&zone);
    input.pos = SECTOR;
    let record = flat_record(&zone);
    let block = flat_map::MapBlock::parse(&mut input, true, &record).unwrap();
    let fragments = &block.allocations.fragments;
    assert_eq!(fragments.len(), 1);
    assert!(!fragments[0].free_space);
}

#[test]
fn parts_from_the_home_zone_on() {
    let mut image = image();
    // Object 200 has its home in the second of two zones: 126 objects have theirs in each.
    write_map(&mut image, &[(200, 24), (3, 20), (4, 18), (5, 18), (0, 46)]);
    let mut input = make_input(&image);
    let leading = LeadingMapBlock::parse(true, &mut input).unwrap();
    let mut zone = image[..SECTOR].to_vec();
    zone.resize(2 * SECTOR, 0);
    zone[SECTOR + 1] = 0;
    zone[SECTOR + 2] = 0x80;
    let first = 8 * (SECTOR + 4);
    for bit in [3, 6, 7, 125] {
        set_bit(&mut zone, first + bit);
    }
    let mut input = make_input(&zone);
    input.pos = SECTOR;
    let block = MapBlock::parse(&mut input, true, &leading.disc_record).unwrap();
    let there = UNIT * (first - 512)..UNIT * (first - 512 + 126);
    let map = acorn_dfs::new_map::disc_structures::NewMap {
        leading_block: leading,
        blocks: vec![block],
    };
    assert_eq!(map.get_object_parts(200), vec![there, 0..24 * UNIT]);
    assert_eq!(map.get_object_parts(3), vec![SUB..HELLO]);
    assert!(map.get_object_parts(7).is_empty());
}

#[test]
fn free_links_count_from_their_zone() {
    let image = image();
    let mut input = make_input(&image);
    let record = LeadingMapBlock::parse(true, &mut input).unwrap().disc_record;
    // A second zone of two blocks. The second one is free, and lies 24 + 64 bits behind
    // byte 1 of the zone.
    let mut zone = image[..SECTOR].to_vec();
    zone.resize(2 * SECTOR, 0);
    zone[SECTOR + 1] = 24 + 64;
    zone[SECTOR + 2] = 0x80;
    let first = 8 * (SECTOR + 4);
    set_bit(&mut zone, first + 1);
    set_bit(&mut zone, first + 63);
    set_bit(&mut zone, first + 125);
    let mut input = make_input(&zone);
    input.pos = SECTOR;
    let block = MapBlock::parse(&mut input, true, &record).unwrap();
    let free: Vec<(usize, bool)> = block
        .allocations
        .blocks_in_order()
        .iter()
        .map(|b| (b.position.0, b.free_space))
        .collect();
    assert_eq!(free, [(first, false), (first + 64, true)]);

    let mut input = make_input(&zone);
    input.pos = SECTOR;
    let block = flat_map::MapBlock::parse(&mut input, true, &flat_record(&zone)).unwrap();
    let free: Vec<bool> = block
        .allocations
        .fragments
        .iter()
        .map(|b| b.free_space)
        .collect();
    assert_eq!(free, [false, true]);

    // No fragment begins one bit further on.
    zone[SECTOR + 1] = 24 + 65;
    let mut input = make_input(&zone);
    input.pos = SECTOR;
    let error = MapBlock::parse(&mut input, true, &record).unwrap_err();
    assert!(matches!(
        error.cause,
        Cause::Fault(Fault::InvalidFreeLink(89))
    ));
}

fn flat_record(image: &[u8]) -> flat_map::DiscRecord {
    let mut input = make_input(image);
    input.pos = 4;
    flat_map::DiscRecord::parse(&mut input).unwrap()
}

#[test]
fn flat_maps() {
    let image = image();
    let disk = flat_map::FormatE::parse(&image).unwrap();
    let block = &disk.map.leading_block;
    assert_eq!(block.header.free_link, 584);
    assert_eq!(block.disc_record.root, 0x205);
    assert_eq!(block.disc_record.size, DISC_SIZE as u32);
    assert_eq!(block.disc_record.sector_size(), SECTOR);
    assert_eq!(block.disc_record.fragment_block_size(), 7);
    assert_eq!(
        block.disc_record.disc_name.debug_string(),
        "FixedString(TestDisc\0\0)"
    );
    assert_eq!(block.unused.len(), SECTOR - 80);
    let fragments = &block.allocations.fragments;
    assert_eq!(fragments.len(), 5);
    let mut bit = 512;
    for (fragment, (id, length)) in fragments.iter().zip(BLOCKS) {
        assert_eq!(fragment.id, id);
        assert_eq!(fragment.total_length, length);
        assert_eq!(fragment.byte_size, UNIT * length);
        assert_eq!(fragment.position, BitPosition(bit));
        assert_eq!(fragment.free_space, id == 0);
        bit += length;
    }
    let params = flat_map::AllocationParsingParams::new(true, 584, &block.disc_record);
    assert_eq!(params.mapped_space_in_alloc_units, 126);
    assert_eq!(params.sector_size(), SECTOR);
}

#[test]
fn files_are_described() {
    let mut disk = FormatE::parse(&image()).unwrap();
    let (entry, _) = get(&mut disk, "$.Hello").unwrap();
    assert_eq!(inf_data(&entry), "\"Hello\" FFFFFD00 1A2B 100 19");
    let plain = DirEntry {
        obj_name: FixedLenString::from_bytes_dynamic(b"a\"b"),
        load: 0,
        exec_address: 10,
        len: 0,
        address: DiscPosition(0),
        attrs: Attributes::from_bits_retain(255),
    };
    assert_eq!(inf_data(&plain), "\"a\\\"b\" 0 A 0 255");
}

#[test]
fn paths_elsewhere() {
    assert_eq!(
        convert_path_to_os(&path("$.!Boot.readme/txt.Plain")),
        Some(vec![
            "$Boot".to_string(),
            "readme.txt".to_string(),
            "Plain".to_string()
        ])
    );
    assert_eq!(convert_path_to_os(&path("$")), Some(vec![]));
    let stray = Path::root_path().append(FixedLenString::from_bytes_dynamic(&[b'a', 0xFF]));
    assert_eq!(convert_path_to_os(&stray), None);
}

#[test]
fn files_are_extracted() {
    let mut image = image();
    let mut entries = root_entries();
    entries.push(entry(b"Far", 9, 0x502, FILE));
    entries.push(entry(b"Gone", 9, 0x5FF, FILE));
    write_directory(&mut image[ROOT..], b"$", &entries);
    let mut disk = FormatE::parse(&image).unwrap();
    let mut extracted = vec![];
    for p in disk.entries(None) {
        match extract_file(&mut disk, &p) {
            Ok(Some((_, contents))) => extracted.push((p.to_string(), contents.len())),
            Ok(None) => {}
            Err(defect) => {
                assert_eq!(p, path("$.Gone"));
                assert_eq!(defect, Defect::OutsideImage);
            }
        }
    }
    assert_eq!(
        extracted,
        [
            ("$.Far".to_string(), 9),
            ("$.Hello".to_string(), 100),
            ("$.Sub.Inner".to_string(), 300)
        ]
    );
}

#[test]
fn load_errors_in_words() {
    assert_eq!(
        LoadErrors::InvalidFreeLink(505).to_string(),
        "Free link value 505 did not point at valid fragment"
    );
    let broken = LoadErrors::BrokenFreeChain {
        origin: BitPosition(536),
        dest_bit_offset: BitPosition(539),
    };
    assert_eq!(
        broken.to_string(),
        "Free fragment block at offset BitPosition { val: 536, bytes: 67, bits: 0 } bits points \
         to offset BitPosition { val: 539, bytes: 67, bits: 3 } bits which does not contain a \
         fragment"
    );
}

#[test]
fn entries_end_at_the_first_without_a_name() {
    let mut image = image();
    let entries = [
        entry(b"One", 1, 0x400, FILE),
        entry(b"\0ne", 1, 0x400, 0xFF),
        entry(b"Two", 1, 0x400, FILE),
    ];
    write_directory(&mut image[SUB..], b"Sub", &entries);
    image[SUB + 2047] = checksum(&image[SUB..], 1);
    let mut input = make_input(&image);
    input.pos = SUB;
    let FaultValue(directory, faults) = Directory::parse(&mut input).unwrap();
    assert!(faults.is_empty());
    assert_eq!(directory.entries().len(), 1);
}

#[test]
fn free_links_mark_only_their_list() {
    let image = image();
    let mut cleared = image.clone();
    cleared[1..3].copy_from_slice(&0x8000u16.to_le_bytes());
    let with = FormatE::parse(&image).unwrap();
    let without = FormatE::parse(&cleared).unwrap();
    let a = with.map.get_allocation(0).blocks_in_order();
    let b = without.map.get_allocation(0).blocks_in_order();
    assert_eq!(a.len(), b.len());
    for (x, y) in a.iter().zip(b) {
        assert_eq!(
            (x.id, x.map_length, x.position, x.disk_region()),
            (y.id, y.map_length, y.position, y.disk_region())
        );
        assert_eq!(x.free_space, x.position == BitPosition(592));
        assert!(!y.free_space);
    }
}

#[test]
fn both_readings_hold_the_same_fragments() {
    let image = image();
    let disk = FormatE::parse(&image).unwrap();
    let flat = flat_map::FormatE::parse(&image).unwrap();
    let places = disk.map.get_allocation(0).blocks_in_order();
    let list = &flat.map.leading_block.allocations.fragments;
    assert_eq!(places.len(), list.len());
    for (a, b) in places.iter().zip(list) {
        assert_eq!(
            (a.id, a.free_space, a.map_length, a.position),
            (b.id, b.free_space, b.total_length, b.position)
        );
    }
}
