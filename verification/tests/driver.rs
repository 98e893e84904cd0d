use st7789v_driver::bus::BusOp;
use st7789v_driver::cmd::Commands;
use st7789v_driver::frame::PixelData;
use st7789v_driver::region::{Region, RegionExt};
use st7789v_driver::st7789::{Orientation, ST7789};

fn sent(ops: &[BusOp]) -> Vec<u8> {
    let mut out = Vec::new();
    for op in ops {
        if let BusOp::Write(bytes) = op {
            out.extend_from_slice(bytes);
        }
    }
    out
}

fn write_sizes(ops: &[BusOp]) -> Vec<usize> {
    ops.iter()
        .filter_map(|op| match op {
            BusOp::Write(b) => Some(b.len()),
            _ => None,
        })
        .collect()
}

fn cs_released(ops: &[BusOp]) -> bool {
    let mut cs = true;
    for op in ops {
        if let BusOp::SetCs(level) = op {
            cs = *level;
        }
    }
    cs
}

#[test]
fn opcodes_match_the_datasheet() {
    assert_eq!(Commands::Nop.opcode(), 0x00);
    assert_eq!(Commands::SwReset.opcode(), 0x01);
    assert_eq!(Commands::CaSet.opcode(), 0x2A);
    assert_eq!(Commands::RaSet.opcode(), 0x2B);
    assert_eq!(Commands::RamWr.opcode(), 0x2C);
    assert_eq!(Commands::MadCtl.opcode(), 0x36);
    assert_eq!(Commands::ColMod.opcode(), 0x3A);
    assert_eq!(Commands::RdABCSDR.opcode(), 0x68);
    assert_eq!(Commands::RdId3.opcode(), 0xDC);
}

#[test]
fn orientation_bytes_and_default() {
    assert_eq!(Orientation::default(), Orientation::Portrait);
    assert_eq!(Orientation::Portrait.madctl(), 0x00);
    assert_eq!(Orientation::Landscape.madctl(), 0x60);
    assert_eq!(Orientation::PortraitSwapped.madctl(), 0xC0);
    assert_eq!(Orientation::LandscapeSwapped.madctl(), 0xA0);
}

#[test]
fn region_default_is_empty() {
    assert_eq!(Region::default(), Region { x: 0, y: 0, width: 0, height: 0 });
}

#[test]
fn new_driver_has_no_regions_and_portrait() {
    let d = ST7789::new(true, true, true, 240, 135);
    assert_eq!(d.get_regions(), &[None; 10]);
    assert_eq!(d.orientation(), Orientation::Portrait);
    assert_eq!(d.width(), 240);
    assert_eq!(d.height(), 135);
}

#[test]
fn store_region_takes_first_free_slot_until_full() {
    let mut d = ST7789::new(false, false, true, 240, 135);
    for i in 0..10u16 {
        assert_eq!(d.store_region_from_params(i, i, 1, 1), Ok(()));
    }
    assert_eq!(d.store_region(Region { x: 99, y: 0, width: 1, height: 1 }), Err(()));
    assert_eq!(d.get_regions()[3], Some(Region { x: 3, y: 3, width: 1, height: 1 }));
    d.clear_regions();
    assert_eq!(d.get_regions(), &[None; 10]);
    let r = Region { x: 5, y: 6, width: 7, height: 8 };
    assert_eq!(d.store_region(r), Ok(()));
    assert_eq!(d.get_regions()[0], Some(r));
}

#[test]
fn show_regions_and_clear_clears_only_on_success() {
    let mut d = ST7789::new(false, false, true, 4, 4);
    d.store_region_from_params(0, 0, 1, 1).unwrap();
    assert_eq!(d.show_regions_and_clear(Err(())), Err(()));
    assert!(d.get_regions()[0].is_some());
    assert_eq!(d.show_regions_and_clear(Ok(())), Ok(()));
    assert_eq!(d.get_regions(), &[None; 10]);
}

#[test]
fn set_orientation_takes_effect_only_when_sent() {
    let mut d = ST7789::new(false, false, true, 240, 135);
    let ops = d.set_orientation_ops(Orientation::Landscape);
    assert_eq!(sent(&ops), vec![0x36, 0x60]);
    assert_eq!(d.set_orientation(Orientation::Landscape, Err(())), Err(()));
    assert_eq!(d.orientation(), Orientation::Portrait);
    assert_eq!(d.set_orientation(Orientation::Landscape, Ok(())), Ok(()));
    assert_eq!(d.orientation(), Orientation::Landscape);
}

#[test]
fn address_window_adds_offsets() {
    let mut d = ST7789::new(false, false, true, 240, 135);
    d.set_offset(52, 40);
    let ops = d.set_address_window(1, 2, 3, 4);
    assert_eq!(
        sent(&ops),
        vec![0x2A, 0x00, 53, 0x00, 55, 0x2B, 0x00, 42, 0x00, 44, 0x2C]
    );
    assert!(cs_released(&ops));
}

#[test]
fn address_window_swaps_offsets_in_landscape() {
    let mut d = ST7789::new(false, false, true, 240, 135);
    d.set_offset(52, 40);
    d.set_orientation(Orientation::LandscapeSwapped, Ok(())).unwrap();
    let ops = d.set_address_window(0, 0, 0x100, 0);
    assert_eq!(
        sent(&ops),
        vec![0x2A, 0x00, 40, 0x01, 40, 0x2B, 0x00, 52, 0x00, 52, 0x2C]
    );
}

#[test]
fn command_is_sent_with_dc_low() {
    let d = ST7789::new(false, false, true, 240, 135);
    let ops = d.set_orientation_ops(Orientation::PortraitSwapped);
    assert!(matches!(ops[0], BusOp::SetCs(true)));
    assert!(matches!(ops[1], BusOp::SetDc(false)));
    assert!(matches!(ops[2], BusOp::SetCs(false)));
    assert!(matches!(&ops[3], BusOp::Write(b) if b == &vec![0x36]));
    assert!(matches!(ops[4], BusOp::SetDc(true)));
}

#[test]
fn hard_reset_and_backlight_need_their_lines() {
    let with = ST7789::new(true, true, true, 240, 135);
    let without = ST7789::new(false, false, true, 240, 135);
    assert_eq!(with.hard_reset().len(), 6);
    assert!(without.hard_reset().is_empty());
    let on = with.set_backlight(true);
    assert!(matches!(on[0], BusOp::SetBlk(true)));
    assert!(matches!(on[1], BusOp::DelayUs(10)));
    assert!(without.set_backlight(false).is_empty());
}

#[test]
fn init_sends_the_configuration() {
    let d = ST7789::new(true, true, true, 240, 135);
    let ops = d.init();
    assert_eq!(
        sent(&ops),
        vec![
            0x01, 0x11, 0x20, 0x33, 0, 0, 0x14, 0, 0, 0, 0x36, 0x00, 0x00, 0x3A, 0x55, 0x21, 0x13,
            0x29
        ]
    );
    assert!(matches!(ops[0], BusOp::SetRst(true)));
    assert!(cs_released(&ops));
    // the six-byte scroll definition goes out as a four-byte and a two-byte transfer
    assert!(write_sizes(&ops).windows(2).any(|w| w == [4, 2]));
}

#[test]
fn clear_screen_sends_every_pixel() {
    let d = ST7789::new(false, false, true, 10, 13);
    let ops = d.clear_screen(0xF800);
    let bytes = sent(&ops);
    // window (0,0)-(9,12) covers exactly the screen, memory write twice, then 130 pixels
    assert_eq!(&bytes[..12], &[0x2A, 0, 0, 0, 9, 0x2B, 0, 0, 0, 12, 0x2C, 0x2C]);
    let pixels = &bytes[12..];
    assert_eq!(pixels.len(), 2 * 130);
    assert!(pixels.chunks(2).all(|p| p == [0xF8, 0x00]));
    let full = ST7789::new(false, false, true, 240, 135).clear_screen(0);
    assert_eq!(&sent(&full)[..10], &[0x2A, 0, 0, 0, 239, 0x2B, 0, 0, 0, 134]);
    assert!(write_sizes(&ops).contains(&240));
    assert!(cs_released(&ops));
}

#[test]
fn write_pixel_and_pixels() {
    let d = ST7789::new(false, false, true, 240, 135);
    let ops = d.write_pixel(3, 4, 0xBEEF);
    assert_eq!(
        sent(&ops),
        vec![0x2A, 0, 3, 0, 3, 0x2B, 0, 4, 0, 4, 0x2C, 0x2C, 0xBE, 0xEF]
    );
    let ops = d.write_pixels(0, 0, 1, 0, &[0x0102, 0x0304]);
    assert_eq!(&sent(&ops)[12..], &[1, 2, 3, 4]);
}

#[test]
fn draw_image_sends_image_in_small_pieces() {
    let d = ST7789::new(false, false, true, 4, 2);
    let image: Vec<u8> = (0u8..70).collect();
    let ops = d.draw_image(&image);
    let bytes = sent(&ops);
    assert_eq!(&bytes[..12], &[0x2A, 0, 0, 0, 3, 0x2B, 0, 0, 0, 1, 0x2C, 0x2C]);
    assert_eq!(&bytes[12..], image.as_slice());
    assert!(write_sizes(&ops).iter().all(|n| [1, 2, 3, 4, 8].contains(n)));
}

#[test]
fn show_sends_whole_buffer() {
    let d = ST7789::new(false, false, true, 240, 240);
    let buffer: Vec<u8> = (0..500u32).map(|i| i as u8).collect();
    let ops = d.show(&buffer);
    let bytes = sent(&ops);
    assert_eq!(
        &bytes[..11],
        &[0x2A, 0, 0, 0, 0xEF, 0x2B, 0, 0, 0, 0xEF, 0x2C]
    );
    assert_eq!(&bytes[11..], buffer.as_slice());
    assert!(write_sizes(&ops).iter().all(|n| [1, 2, 3, 4, 8, 240].contains(n)));
}

#[test]
fn show_region_sends_rectangle_rows() {
    let d = ST7789::new(false, false, true, 3, 3);
    let buffer: Vec<u8> = (0u8..18).collect();
    let ops = d.show_region(&buffer, 1, 1, 2, 2);
    let bytes = sent(&ops);
    assert_eq!(&bytes[..12], &[0x2A, 0, 1, 0, 2, 0x2B, 0, 1, 0, 2, 0x2C, 0x2C]);
    assert_eq!(&bytes[12..], &[8, 9, 10, 11, 14, 15, 16, 17]);
}

#[test]
fn show_regions_walks_the_slots() {
    let mut d = ST7789::new(false, false, true, 2, 2);
    let buffer: Vec<u8> = (0u8..8).collect();
    d.store_region_from_params(1, 0, 1, 1).unwrap();
    d.store_region_from_params(0, 1, 1, 1).unwrap();
    let ops = d.show_regions(&buffer);
    let bytes = sent(&ops);
    assert_eq!(
        bytes,
        vec![
            0x2A, 0, 1, 0, 1, 0x2B, 0, 0, 0, 0, 0x2C, 0x2C, 2, 3, 0x2A, 0, 0, 0, 0, 0x2B, 0, 1, 0,
            1, 0x2C, 0x2C, 4, 5
        ]
    );
}

#[test]
fn draw_iter_skips_pixels_off_screen() {
    let d = ST7789::new(false, false, true, 2, 2);
    let pixels = [
        PixelData { x: 5, y: 0, color: 1 },
        PixelData { x: 1, y: 1, color: 0x0A0B },
    ];
    let ops = d.draw_iter(&pixels);
    assert_eq!(
        sent(&ops),
        vec![0x2A, 0, 1, 0, 1, 0x2B, 0, 1, 0, 1, 0x2C, 0x2C, 0x0A, 0x0B]
    );
}

fn sent_in_mode(ops: &[BusOp], data: bool) -> Vec<u8> {
    let mut dc = true;
    let mut out = Vec::new();
    for op in ops {
        match op {
            BusOp::SetDc(level) => dc = *level,
            BusOp::Write(bytes) if dc == data => out.extend_from_slice(bytes),
            _ => {}
        }
    }
    out
}

#[test]
fn opcodes_in_command_mode_parameters_in_data_mode() {
    let mut d = ST7789::new(false, false, true, 240, 135);
    d.set_offset(1, 2);
    let ops = d.write_pixel(10, 20, 0x1234);
    assert_eq!(sent_in_mode(&ops, false), vec![0x2A, 0x2B, 0x2C, 0x2C]);
    assert_eq!(sent_in_mode(&ops, true), vec![0, 11, 0, 11, 0, 22, 0, 22, 0x12, 0x34]);
    let ops = d.clear_screen(0xFFFF);
    assert_eq!(sent_in_mode(&ops, false), vec![0x2A, 0x2B, 0x2C, 0x2C]);
    assert_eq!(sent_in_mode(&ops, true).len(), 8 + 2 * 240 * 135);
}

#[test]
fn every_operation_releases_chip_select() {
    let mut d = ST7789::new(true, true, true, 8, 4);
    d.store_region_from_params(0, 0, 2, 2).unwrap();
    let buffer = vec![0u8; 64];
    assert!(cs_released(&d.init()));
    assert!(cs_released(&d.hard_reset()));
    assert!(cs_released(&d.set_backlight(true)));
    assert!(cs_released(&d.write_pixels(0, 0, 1, 0, &[])));
    assert!(cs_released(&d.draw_image(&buffer)));
    assert!(cs_released(&d.show(&buffer)));
    assert!(cs_released(&d.show_region(&buffer, 1, 1, 3, 2)));
    assert!(cs_released(&d.show_regions(&buffer)));
    assert!(cs_released(&d.draw_iter(&[PixelData { x: 1, y: 1, color: 3 }])));
}

#[test]
fn all_opcodes_are_distinct() {
    let all = [
        Commands::Nop, Commands::SwReset, Commands::RddId, Commands::RddSt, Commands::SlpIn,
        Commands::SlpOut, Commands::PtlOn, Commands::NorOn, Commands::InvOff, Commands::InvOn,
        Commands::GamSet, Commands::DispOff, Commands::DispOn, Commands::CaSet, Commands::RaSet,
        Commands::RamWr, Commands::RamRd, Commands::PtlAr, Commands::VScrDef, Commands::TEOFF,
        Commands::TEON, Commands::MadCtl, Commands::ColMod, Commands::WrMemC, Commands::RdMemC,
        Commands::Ste, Commands::GScan, Commands::WrDisBV, Commands::RdDisBV, Commands::WrCtrLD,
        Commands::RdCtrLD, Commands::WrCACE, Commands::RdCABC, Commands::WrCABCMB,
        Commands::RdCABCMB, Commands::RdABCSDR, Commands::RdId1, Commands::RdId2, Commands::RdId3,
    ];
    for (i, a) in all.iter().enumerate() {
        for b in &all[i + 1..] {
            assert_ne!(a.opcode(), b.opcode());
        }
    }
}

#[test]
fn store_keeps_earlier_regions() {
    let mut d = ST7789::new(false, false, true, 8, 8);
    let a = Region { x: 1, y: 1, width: 1, height: 1 };
    let b = Region { x: 2, y: 2, width: 2, height: 2 };
    d.store_region(a).unwrap();
    d.store_region(b).unwrap();
    assert_eq!(d.get_regions()[0], Some(a));
    assert_eq!(d.get_regions()[1], Some(b));
}

#[test]
fn window_checks_report_overflow() {
    let mut d = ST7789::new(false, false, true, 240, 135);
    d.set_offset(10, 0);
    assert!(d.window_fits(0, 0, 65525, 0));
    assert!(!d.window_fits(0, 0, 65526, 0));
    assert!(d.can_clear_screen());
    assert!(ST7789::new(false, false, true, 1, 0).can_clear_screen());
    assert!(d.can_draw_image());
    assert!(!ST7789::new(false, false, true, 0, 1).can_draw_image());
    assert!(d.region_fits(240 * 135 * 2, 0, 0, 240, 135));
    assert!(!d.region_fits(240 * 135 * 2 - 1, 0, 0, 240, 135));
    assert!(!d.region_fits(100, 0, 0, 0, 1));
    assert!(d.pixel_fits(PixelData { x: -5, y: 0, color: 0 }));
}

fn fill_and_clear<R: RegionExt>(store: &mut R) -> usize {
    let mut stored = 0;
    while store.store_region_from_params(0, 0, 1, 1).is_ok() {
        stored += 1;
    }
    let _ = store.show_regions_and_clear(Ok(()));
    stored
}

#[test]
fn regions_through_the_trait() {
    let mut d = ST7789::new(false, false, true, 4, 4);
    assert_eq!(fill_and_clear(&mut d), 10);
    assert!(d.get_regions().iter().all(|r| r.is_none()));
}

#[test]
fn clear_screen_without_pixels_sends_window_and_memory_write() {
    let mut d = ST7789::new(false, false, true, 0, 10);
    d.set_offset(3, 4);
    assert!(d.can_clear_screen());
    let ops = d.clear_screen(0xFFFF);
    assert_eq!(sent(&ops), vec![0x2A, 0, 3, 0, 3, 0x2B, 0, 4, 0, 14, 0x2C, 0x2C]);
    assert!(cs_released(&ops));
}
