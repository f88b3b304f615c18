use fishdata::Rom;
use fishdata::RomError;
use fishdata::ScoreStats;
use fishdata::Version;

/// Write a little-endian word at a biased table offset, as the decoders
/// read it.
fn put_word(buf: &mut Vec<u8>, off: usize, w: u16) {
    let b = if off < 0x10000 { off + 0x10000 } else { off };
    buf[b] = (w & 0xFF) as u8;
    buf[b + 1] = (w >> 8) as u8;
}

fn blank_image() -> Vec<u8> {
    vec![0u8; 0x20000]
}

fn rom_with_us(us: Vec<u8>) -> Rom {
    Rom::new(us, Vec::new())
}

#[test]
fn version_offsets() {
    assert_eq!(Version::Us.offset(), 0);
    assert_eq!(Version::Jp.offset(), 1);
}

#[test]
fn byte_and_word_reads() {
    let mut us = blank_image();
    us[0x123] = 0xAB;
    put_word(&mut us, 0x100, 0xBEEF);
    let rom = rom_with_us(us);
    assert_eq!(rom.get_u8(0x123), 0xAB);
    assert_eq!(rom.make_u16(0x100), 0xBEEF);
    assert_eq!(rom.try_word(0x100), Some(0xBEEF));
}

#[test]
fn try_word_rejects_reads_past_the_end() {
    let us = vec![0u8; 0x10004];
    let rom = rom_with_us(us);
    assert_eq!(rom.try_word(0x0002), Some(0));
    assert_eq!(rom.try_word(0x0003), None);
}

#[test]
fn set_version_switches_the_active_image() {
    let mut us = blank_image();
    let mut jp = blank_image();
    us[0x10] = 1;
    jp[0x10] = 2;
    let mut rom = Rom::new(us, jp);
    assert_eq!(rom.get_u8(0x10), 1);
    rom.set_version(Version::Jp);
    assert_eq!(rom.get_u8(0x10), 2);
    rom.set_version(Version::Us);
    assert_eq!(rom.get_u8(0x10), 1);
}

#[test]
fn hex_digits_reread_as_decimal() {
    assert_eq!(fishdata::weights::hex_as_decimal(0x1234), Ok(1234));
    assert_eq!(fishdata::weights::hex_as_decimal(0x0000), Ok(0));
    assert_eq!(fishdata::weights::hex_as_decimal(0x9999), Ok(9999));
    assert_eq!(fishdata::weights::hex_as_decimal(0x0190), Ok(190));
}

#[test]
fn hex_digit_above_nine_is_malformed() {
    assert_eq!(
        fishdata::weights::hex_as_decimal(0x00AB),
        Err(RomError::MalformedWeightEncoding)
    );
    assert_eq!(
        fishdata::weights::hex_as_decimal(0x0A00),
        Err(RomError::MalformedWeightEncoding)
    );
    assert_eq!(
        fishdata::weights::hex_as_decimal(0xF000),
        Err(RomError::MalformedWeightEncoding)
    );
}

fn weight_image(base: usize, row_ptr: u16, cell: u16) -> Vec<u8> {
    let mut img = blank_image();
    for day in 0..7 {
        put_word(&mut img, base + day * 2, row_ptr);
    }
    for x in 0..10 {
        put_word(&mut img, row_ptr as usize + x * 2, cell);
    }
    img
}

#[test]
fn decode_weights_rereads_each_word() {
    let us = weight_image(0x17D2, 0x3000, 0x0123);
    let rom = rom_with_us(us);
    let rows = rom.decode_weights().expect("weight table should decode");
    assert_eq!(rows.len(), 7);
    for row in &rows {
        assert_eq!(row, &vec![123u16; 10]);
    }
}

#[test]
fn decode_weights_uses_the_jp_base_for_the_jp_image() {
    let jp = weight_image(0x17CE, 0x3000, 0x0456);
    let mut rom = Rom::new(blank_image(), jp);
    rom.set_version(Version::Jp);
    let rows = rom.decode_weights().expect("weight table should decode");
    assert_eq!(rows.len(), 7);
    assert_eq!(rows[0], vec![456u16; 10]);
}

#[test]
fn decode_weights_reports_reads_past_the_end() {
    let rom = rom_with_us(vec![0u8; 0x1000]);
    assert_eq!(rom.decode_weights(), Err(RomError::OutOfBounds));
}

#[test]
fn decode_weights_reports_malformed_words() {
    let mut us = weight_image(0x17D2, 0x3000, 0x0123);
    put_word(&mut us, 0x3000 + 2 * 4, 0x1A00);
    let rom = rom_with_us(us);
    assert_eq!(
        rom.decode_weights(),
        Err(RomError::MalformedWeightEncoding)
    );
}

#[test]
fn single_day_engine_matches_the_known_scenario() {
    let weights: [u16; 10] = [10, 20, 30, 40, 50, 60, 70, 80, 90, 100];
    let stats = Rom::test_perm(weights, 1);
    assert_eq!(stats.count, 8);
    // Every rotation keeps the row's largest value, 100, somewhere, so each
    // of the eight maxima is 100.
    assert_eq!(stats.sum_of_maxima, 800);
    let avg = (stats.sum_of_maxima as f64 / 100.0 + 0.165 * stats.count as f64)
        / stats.count as f64;
    let expected = (800.0f64 / 100.0 + 0.165 * 8.0) / 8.0;
    assert!((avg - expected).abs() < 1e-12);
    assert!((avg - 1.165).abs() < 1e-9);
}

#[test]
fn engine_counts_every_assignment_once() {
    let weights: [u16; 10] = [5, 5, 5, 5, 5, 5, 5, 5, 5, 5];
    // A constant row makes every fisher total days * 5, whatever the
    // assignment, so the sum of maxima counts the assignments directly.
    let two = Rom::test_perm(weights, 2);
    assert_eq!(two.count, 64);
    assert_eq!(two.sum_of_maxima, 64 * 10);
    let four = Rom::test_perm(weights, 4);
    assert_eq!(four.count, 4096);
    assert_eq!(four.sum_of_maxima, 4096 * 20);
}

#[test]
fn rotating_by_r_then_8_minus_r_restores_a_period_two_row() {
    let row: [u16; 10] = [3, 9, 3, 9, 3, 9, 3, 9, 3, 9];
    let once = Rom::rotate_row(&row, 5);
    let once_arr: [u16; 10] = once.clone().try_into().expect("ten slots");
    let back = Rom::rotate_row(&once_arr, 3);
    assert_eq!(back, row.to_vec());
}

#[test]
fn rotating_by_r_then_8_minus_r_moves_a_general_row_two_slots() {
    let row: [u16; 10] = [10, 20, 30, 40, 50, 60, 70, 80, 90, 100];
    let once = Rom::rotate_row(&row, 5);
    let once_arr: [u16; 10] = once.clone().try_into().expect("ten slots");
    let back = Rom::rotate_row(&once_arr, 3);
    assert_ne!(back, row.to_vec());
    assert_eq!(back, vec![30, 40, 50, 60, 70, 80, 90, 100, 10, 20]);
}

#[test]
fn sub_area_scan_stops_at_the_first_sentinel() {
    let mut us = blank_image();
    put_word(&mut us, 0xE000, 0xE100);
    put_word(&mut us, 0xE002, 0xD801);
    put_word(&mut us, 0xE004, 0xD800);
    put_word(&mut us, 0xE006, 0xFFFF);
    let rom = rom_with_us(us);
    let offs = rom.scan_sub_area(0xE000).expect("scan should stay in range");
    // 0xD801 is just above the floor and accepted; 0xD800 is the sentinel,
    // so the slot after it is never considered.
    assert_eq!(offs, vec![0xE100, 0xD801]);
}

#[test]
fn sub_area_scan_visits_at_most_sixteen_slots() {
    let mut us = blank_image();
    for i in 0..20 {
        put_word(&mut us, 0xE000 + 2 * i, 0xE000);
    }
    let rom = rom_with_us(us);
    let offs = rom.scan_sub_area(0xE000).expect("scan should stay in range");
    assert_eq!(offs.len(), 16);
}

#[test]
fn sub_area_scan_reports_reads_past_the_end() {
    let rom = rom_with_us(vec![0u8; 0x1FF01]);
    assert_eq!(rom.scan_sub_area(0xFF00), Err(RomError::OutOfBounds));
}

#[test]
fn spot_listing_decodes_areas_sub_areas_and_identifiers() {
    let mut us = blank_image();
    // Root pointer, then the area table at 0xE000.  Untouched area entries
    // point at offset 0, whose first slot word is 0: no sub-areas.
    put_word(&mut us, 0xD90B, 0xE000);
    // Area 1 (index 0): two accepted spot offsets, then a sentinel.
    put_word(&mut us, 0xE000, 0xF100);
    put_word(&mut us, 0xF100, 0xE800);
    put_word(&mut us, 0xF102, 0xE806);
    put_word(&mut us, 0xF104, 0x0000);
    put_word(&mut us, 0xE800, 0x1200);
    put_word(&mut us, 0xE802, 0x3400);
    put_word(&mut us, 0xE804, 0x5600);
    // The last sub-area of area 1 ends at the next area's entry, which is
    // 0 here, so exactly one identifier word is still read.
    put_word(&mut us, 0xE806, 0x7800);
    // Area 31 (index 30): one accepted offset; its end is the fixed
    // three-word width, never a read past the area table.
    put_word(&mut us, 0xE000 + 60, 0xF200);
    put_word(&mut us, 0xF200, 0xEA00);
    put_word(&mut us, 0xF202, 0x0000);
    put_word(&mut us, 0xEA00, 0x0100);
    put_word(&mut us, 0xEA02, 0x0200);
    put_word(&mut us, 0xEA04, 0x0300);
    let rom = rom_with_us(us);
    let areas = rom.decode_spots().expect("spot listing should decode");
    assert_eq!(areas.len(), 31);
    assert_eq!(areas[0].len(), 2);
    assert_eq!(areas[0][0], vec![0x12, 0x34, 0x56]);
    assert_eq!(areas[0][1], vec![0x78]);
    for a in 1..30 {
        assert_eq!(areas[a].len(), 0);
    }
    assert_eq!(areas[30].len(), 1);
    assert_eq!(areas[30][0], vec![1, 2, 3]);
}

#[test]
fn spot_listing_is_unsupported_for_the_jp_image() {
    let mut rom = Rom::new(blank_image(), blank_image());
    rom.set_version(Version::Jp);
    assert_eq!(rom.decode_spots(), Err(RomError::UnsupportedVariant));
}

#[test]
fn spot_listing_reports_reads_past_the_end() {
    let rom = rom_with_us(vec![0u8; 0x11000]);
    assert_eq!(rom.decode_spots(), Err(RomError::OutOfBounds));
}

#[test]
fn rating_strides_read_observably_different_cells() {
    let mut us = vec![0u8; 90000];
    for i in 0..us.len() {
        us[i] = (i % 251) as u8;
    }
    let rom = rom_with_us(us);
    let buggy = rom.bait_ratings(false).expect("grid should be in range");
    let fixed = rom.bait_ratings(true).expect("grid should be in range");
    assert_eq!(buggy.len(), 73);
    assert_eq!(fixed.len(), 73);
    for b in 0..73 {
        assert_eq!(buggy[b].len(), 6);
        assert_eq!(fixed[b].len(), 6);
        for x in 0..6 {
            assert_eq!(buggy[b][x], ((0x1571C + (0x71 + b) * 6 + x) % 251) as u8);
            assert_eq!(fixed[b][x], ((0x1571C + (0x71 + b) * 7 + x) % 251) as u8);
        }
    }
    // The discrepancy is observable, not cosmetic: already the second
    // bait's first cell differs between the two strides.
    assert_ne!(buggy[1][0], fixed[1][0]);
}

#[test]
fn rating_grid_is_unsupported_for_the_jp_image() {
    let mut rom = Rom::new(blank_image(), blank_image());
    rom.set_version(Version::Jp);
    assert_eq!(rom.bait_ratings(false), Err(RomError::UnsupportedVariant));
}

#[test]
fn rating_grid_reports_reads_past_the_end() {
    let rom = rom_with_us(vec![0u8; 0x15000]);
    assert_eq!(rom.bait_ratings(false), Err(RomError::OutOfBounds));
}

#[test]
fn winning_average_stats_cover_the_six_computed_periods() {
    let us = weight_image(0x17D2, 0x3000, 0x0123);
    let rom = rom_with_us(us);
    let stats = rom.winning_average_stats().expect("weights should decode");
    assert_eq!(stats.len(), 6);
    let day_counts: [u64; 6] = [1, 2, 2, 3, 3, 3];
    for p in 0..6 {
        let d = day_counts[p];
        let count = 8u64.pow(d as u32);
        // A constant row of 123 makes every winning total d * 123.
        let expected = ScoreStats { sum_of_maxima: count * d * 123, count };
        assert_eq!(stats[p], expected);
    }
}

#[test]
fn winning_average_stats_pass_decode_errors_through() {
    let rom = rom_with_us(vec![0u8; 0x1000]);
    assert_eq!(rom.winning_average_stats(), Err(RomError::OutOfBounds));
    let mut us = weight_image(0x17D2, 0x3000, 0x0123);
    put_word(&mut us, 0x3000, 0xABCD);
    let rom2 = rom_with_us(us);
    assert_eq!(
        rom2.winning_average_stats(),
        Err(RomError::MalformedWeightEncoding)
    );
}
