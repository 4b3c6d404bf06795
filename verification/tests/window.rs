use bis_codec::io::compression::lzss::format::LZSS_FILL;
use bis_codec::io::compression::lzss::{fresh_window, lzss_copy_run, lzss_decompression_helper};

#[test]
fn a_fresh_window_holds_the_fill_byte() {
    let w = fresh_window();
    assert_eq!(w.len(), 4096 + 17);
    assert!(w.iter().all(|&b| b == LZSS_FILL));
}

#[test]
fn an_emitted_byte_goes_to_all_four_places() {
    let mut checksum = 10u32;
    let mut dst = vec![1u8];
    let mut window = fresh_window();
    let mut r = 4095u32;
    let mut left = 3usize;
    lzss_decompression_helper(&mut checksum, &mut dst, &mut window, &mut r, &mut left, 0x90, false);
    assert_eq!(checksum, 10 + 0x90);
    assert_eq!(dst, vec![1, 0x90]);
    assert_eq!(window[4095], 0x90);
    assert_eq!(r, 0);
    assert_eq!(left, 2);
    lzss_decompression_helper(&mut checksum, &mut dst, &mut window, &mut r, &mut left, 0x90, true);
    assert_eq!(checksum, 10 + 0x90 + 0x90 - 0x100);
    assert_eq!(r, 1);
}

#[test]
fn the_signed_checksum_wraps_below_zero() {
    let mut checksum = 0u32;
    let mut dst = Vec::new();
    let mut window = fresh_window();
    let mut r = 0u32;
    let mut left = 1usize;
    lzss_decompression_helper(&mut checksum, &mut dst, &mut window, &mut r, &mut left, 0xfe, true);
    assert_eq!(checksum, 0xffff_fffe);
}

#[test]
fn a_run_copies_from_behind_the_cursor() {
    let mut window = fresh_window();
    let mut dst = Vec::new();
    let mut checksum = 0u32;
    let mut r = 4096 - 18;
    let mut left = 100usize;
    for &c in b"ab" {
        lzss_decompression_helper(&mut checksum, &mut dst, &mut window, &mut r, &mut left, c, false);
    }
    lzss_copy_run(&mut checksum, &mut dst, &mut window, &mut r, &mut left, 2, 5, false);
    assert_eq!(dst, b"abababa".to_vec());
    assert_eq!(left, 93);
    assert_eq!(r, 4096 - 18 + 7);
    // an offset of zero reaches a whole window back: into the fill
    lzss_copy_run(&mut checksum, &mut dst, &mut window, &mut r, &mut left, 0, 3, false);
    assert_eq!(dst, b"abababa   ".to_vec());
    let sum: u32 = dst.iter().map(|&c| c as u32).sum();
    assert_eq!(checksum, sum);
}
