use acorn_dfs::new_map::bits::parse_raw_block;
use acorn_dfs::new_map::util::{make_input, take_ls_bit, BitPosition};
use acorn_dfs::new_map::Cause;

#[test]
fn util_test_ls_bit() {
    let mut lsb = (make_input(&[1]), 0);
    let mut msb = (make_input(&[0x80, 0x01]), 0);

    let lsb = &mut lsb;
    let msb = &mut msb;

    assert!(take_ls_bit(lsb).unwrap());
    assert!(!take_ls_bit(msb).unwrap());

    for _ in 0..6 {
        take_ls_bit(msb).unwrap();
    }

    assert!(take_ls_bit(msb).unwrap());
    assert!(take_ls_bit(msb).unwrap());
}

#[test]
fn util_repeat_test() {
    let mut msb = (make_input(&[0xAA, 0xAA]), 0);
    let c = &mut msb;
    let mut outs = vec![];
    for _ in 0..16 {
        outs.push(take_ls_bit(c).unwrap());
    }
    let (t, f): (Vec<_>, _) = outs.into_iter().partition(|m| *m);
    assert_eq!(t.len(), f.len());
}

#[test]
fn lib_test_ls_bit() {
    let mut lsb = (make_input(&[1]), 0);
    let mut msb = (make_input(&[0x80, 0x01]), 0);

    let msb = &mut msb;

    assert!(acorn_dfs::take_ls_bit(&mut lsb).unwrap());
    assert!(!acorn_dfs::take_ls_bit(msb).unwrap());

    for _ in 0..6 {
        acorn_dfs::take_ls_bit(msb).unwrap();
    }

    assert!(acorn_dfs::take_ls_bit(msb).unwrap());
    assert!(acorn_dfs::take_ls_bit(msb).unwrap());
}

#[test]
fn lib_repeat_test() {
    let mut msb = (make_input(&[0xAA, 0xAA]), 0);
    let c = &mut msb;
    let mut outs = vec![];
    for _ in 0..16 {
        outs.push(acorn_dfs::take_ls_bit(c).unwrap());
    }
    let (t, f): (Vec<_>, _) = outs.into_iter().partition(|m| *m);
    assert_eq!(t.len(), f.len());
}

#[test]
fn bits_run_out() {
    let mut stream = (make_input(&[0xFF]), 0);
    for _ in 0..8 {
        assert!(take_ls_bit(&mut stream).unwrap());
    }
    let end = take_ls_bit(&mut stream).unwrap_err();
    assert!(matches!(end.cause, Cause::Incomplete));
    assert!(end.context.is_none());
}

#[test]
fn bits_of_a_byte_are_its_digits() {
    for byte in 0..=255u8 {
        let data = [byte];
        let mut stream = (make_input(&data), 0);
        let mut value = 0;
        for n in 0..8 {
            if take_ls_bit(&mut stream).unwrap() {
                value += 1u32 << n;
            }
        }
        assert_eq!(value, byte as u32);
    }
}

#[test]
fn raw_blocks() {
    // The number 0b101, two zeros and a one; then the number 0b011 and a one.
    let mut stream = (make_input(&[0b1110_0101, 0b0000_0010]), 0);
    assert_eq!(parse_raw_block(&mut stream, 3).unwrap(), (0b101, 6));
    assert_eq!(parse_raw_block(&mut stream, 3).unwrap(), (0b011, 4));
    let end = parse_raw_block(&mut stream, 3).unwrap_err();
    assert!(matches!(end.cause, Cause::Incomplete));
    assert_eq!((stream.0.pos, stream.1), (1, 2));
}

#[test]
fn bit_positions() {
    assert_eq!(BitPosition::from_bytes(64), BitPosition(512));
    assert_eq!(BitPosition(517).split(), (64, 5));
    assert_eq!(BitPosition(500) + BitPosition(17), BitPosition(517));
    assert_eq!(
        BitPosition(517).debug_string(),
        "BitPosition { val: 517, bytes: 64, bits: 5 }"
    );
}
