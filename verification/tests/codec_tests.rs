//! Tests of the square-name and bit-mask codecs.

use chess_fen::position::PositionError;
use chess_fen::position::bit_scan;
use chess_fen::position::bit_to_position;
use chess_fen::position::index_to_position;
use chess_fen::position::position_to_bit;

#[test]
fn round_trip_all_indices() {
    for index in 0..64usize {
        let name = index_to_position(index);
        assert_eq!(position_to_bit(&name), Ok(1u64 << index));
        assert_eq!(bit_to_position(1u64 << index).unwrap(), name);
    }
}

#[test]
fn index_to_position_corners() {
    assert_eq!(index_to_position(0), "a1");
    assert_eq!(index_to_position(7), "h1");
    assert_eq!(index_to_position(28), "e4");
    assert_eq!(index_to_position(56), "a8");
    assert_eq!(index_to_position(63), "h8");
}

#[test]
fn bit_to_position_zero_mask() {
    assert_eq!(bit_to_position(0), Err(PositionError::NoPiecePresent));
}

#[test]
fn bit_to_position_values() {
    assert_eq!(bit_to_position(1).unwrap(), "a1");
    assert_eq!(bit_to_position(1u64 << 63).unwrap(), "h8");
    assert_eq!(bit_to_position(1u64 << 20).unwrap(), "e3");
}

#[test]
fn bit_scan_finds_lowest_set_bit() {
    assert_eq!(bit_scan(1), 0);
    assert_eq!(bit_scan(0b1000), 3);
    assert_eq!(bit_scan(0b1010), 1);
    assert_eq!(bit_scan(1u64 << 63), 63);
    assert_eq!(bit_scan(u64::MAX), 0);
}

#[test]
fn bit_to_position_multi_bit_resolves_lowest() {
    assert_eq!(bit_to_position(0b1010).unwrap(), "b1");
    assert_eq!(bit_to_position(u64::MAX).unwrap(), "a1");
}

#[test]
fn position_to_bit_values() {
    assert_eq!(position_to_bit("a1"), Ok(1u64));
    assert_eq!(position_to_bit("e3"), Ok(1u64 << 20));
    assert_eq!(position_to_bit("h8"), Ok(1u64 << 63));
}

#[test]
fn position_to_bit_invalid_column() {
    assert_eq!(position_to_bit("i1"), Err(PositionError::InvalidColumn));
}

#[test]
fn position_to_bit_invalid_rows() {
    assert_eq!(position_to_bit("a9"), Err(PositionError::InvalidRow));
    assert_eq!(position_to_bit("a0"), Err(PositionError::InvalidRow));
    assert_eq!(position_to_bit("ax"), Err(PositionError::InvalidRow));
}

#[test]
fn position_to_bit_invalid_lengths() {
    assert_eq!(position_to_bit("a"), Err(PositionError::InvalidLength));
    assert_eq!(position_to_bit("a12"), Err(PositionError::InvalidLength));
    assert_eq!(position_to_bit(""), Err(PositionError::InvalidLength));
}
