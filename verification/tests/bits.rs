use lights_out::bits::cell_mask;
use lights_out::bits::clear_cells;
use lights_out::bits::low_cells;
use lights_out::bits::plus_mask;
use lights_out::bits::row_fits;
use lights_out::bits::test_bit;

#[test]
fn test_bit_reads_one_cell() {
    assert!(test_bit(0b0100, 2));
    assert!(!test_bit(0b0100, 1));
    assert!(!test_bit(0b0100, 3));
    assert!(test_bit(1 << 63, 63));
    assert!(!test_bit(u64::MAX >> 1, 63));
}

#[test]
fn cell_mask_lights_one_cell() {
    assert_eq!(cell_mask(0), 1);
    assert_eq!(cell_mask(5), 32);
    assert_eq!(cell_mask(63), 1 << 63);
}

#[test]
fn plus_mask_lights_the_cell_and_its_neighbours() {
    assert_eq!(plus_mask(2, 5), 0b01110);
    assert_eq!(plus_mask(0, 5), 0b00011);
    assert_eq!(plus_mask(4, 5), 0b11000);
    assert_eq!(plus_mask(0, 1), 0b1);
    assert_eq!(plus_mask(1, 2), 0b11);
    assert_eq!(plus_mask(63, 64), 0b11 << 62);
    assert_eq!(plus_mask(62, 64), 0b111 << 61);
}

#[test]
fn clear_cells_turns_the_masked_cells_off() {
    assert_eq!(clear_cells(0b1111, 0b0110), 0b1001);
    assert_eq!(clear_cells(0b1001, 0b0110), 0b1001);
    assert_eq!(clear_cells(u64::MAX, u64::MAX), 0);
    assert_eq!(clear_cells(0b1010, 0), 0b1010);
}

#[test]
fn low_cells_keeps_the_cells_within_the_width() {
    assert_eq!(low_cells(0xff, 4), 0xf);
    assert_eq!(low_cells(0xf0, 4), 0);
    assert_eq!(low_cells(u64::MAX, 0), 0);
    assert_eq!(low_cells(u64::MAX, 63), u64::MAX >> 1);
    assert_eq!(low_cells(u64::MAX, 64), u64::MAX);
    assert_eq!(low_cells(0x1234_5678_9abc_def0, 16), 0xdef0);
}

#[test]
fn row_fits_when_no_cell_beyond_the_width_is_lit() {
    assert!(row_fits(0b111, 3));
    assert!(!row_fits(0b1000, 3));
    assert!(row_fits(0, 0));
    assert!(!row_fits(1, 0));
    assert!(row_fits(u64::MAX, 64));
    assert!(row_fits(u64::MAX, 70));
    assert!(!row_fits(u64::MAX, 63));
    assert!(row_fits(u64::MAX >> 1, 63));
}
