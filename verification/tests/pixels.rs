use hdrfix::pixels::PixelBuffer;
use hdrfix::pixels::PixelFormat;

#[test]
fn formats_have_their_pixel_sizes() {
    assert_eq!(PixelFormat::Sdr8bit.bytes_per_pixel(), 3);
    assert_eq!(PixelFormat::Hdr8bit.bytes_per_pixel(), 3);
    assert_eq!(PixelFormat::HdrFloat32.bytes_per_pixel(), 16);
}

#[test]
fn new_buffer_is_zero_filled_and_exactly_sized() {
    let buf = PixelBuffer::new(3, 2, PixelFormat::Sdr8bit);
    assert_eq!(buf.bytes().len(), 3 * 2 * 3);
    assert!(buf.bytes().iter().all(|&b| b == 0));

    let wide = PixelBuffer::new(2, 2, PixelFormat::HdrFloat32);
    assert_eq!(wide.bytes().len(), 2 * 2 * 16);
    assert_eq!(wide.pixel_count(), 4);
}

#[test]
fn write_then_read_round_trips_one_pixel() {
    let mut buf = PixelBuffer::new(2, 2, PixelFormat::Hdr8bit);
    buf.write_pixel_bytes(2, &[7, 8, 9]);
    assert_eq!(buf.read_pixel_bytes(2), vec![7, 8, 9]);
    // neighbours untouched
    assert_eq!(buf.read_pixel_bytes(1), vec![0, 0, 0]);
    assert_eq!(buf.read_pixel_bytes(3), vec![0, 0, 0]);
    // raster placement: pixel 2 of a 2-wide buffer starts at byte 6
    assert_eq!(&buf.bytes()[6..9], &[7, 8, 9]);
}

#[test]
fn fill_pixels_matches_index_for_index() {
    let mut buf = PixelBuffer::new(2, 2, PixelFormat::Sdr8bit);
    let pixels: Vec<Vec<u8>> = vec![
        vec![1, 2, 3],
        vec![4, 5, 6],
        vec![7, 8, 9],
        vec![10, 11, 12],
    ];
    buf.fill_pixels(&pixels);
    for (i, px) in pixels.iter().enumerate() {
        assert_eq!(&buf.read_pixel_bytes(i), px);
    }
    assert_eq!(buf.bytes(), &[1, 2, 3, 4, 5, 6, 7, 8, 9, 10, 11, 12]);
}

#[test]
fn fill_pixels_overwrites_previous_contents() {
    let mut buf = PixelBuffer::new(1, 2, PixelFormat::Sdr8bit);
    buf.write_pixel_bytes(0, &[9, 9, 9]);
    buf.fill_pixels(&vec![vec![1, 1, 1], vec![2, 2, 2]]);
    assert_eq!(buf.bytes(), &[1, 1, 1, 2, 2, 2]);
}
