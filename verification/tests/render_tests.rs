use trinculo::options::Pixels;
use trinculo::baseline::{half_size, pixel_at, pixel_count};
use trinculo::simd_par::{chunk_count, lane_pixel, rest_start, LANES};
use trinculo::utils::{to_image, to_png, write_image, Error};

#[test]
fn to_image_ok() {
    assert!(to_image(8, vec![0u8; 8 * 8]).is_ok());
    assert!(to_image(1024, vec![0u8; 8 * 8]).is_err());
}

#[test]
fn to_image_exact() {
    let bytes: Vec<u8> = (0..20).collect();
    let img = to_image(4, bytes).unwrap();
    assert_eq!(img.width(), 4);
    assert_eq!(img.height(), 4);
    assert_eq!(img.pixels(), &(0..16).collect::<Vec<u8>>()[..]);
    assert!(matches!(to_image(5, vec![0u8; 24]), Err(Error::ImageSize(5))));
    assert!(matches!(to_image(u32::MAX, vec![]), Err(Error::ImageSize(u32::MAX))));
    assert!(to_image(0, vec![]).is_ok());
}

#[test]
fn write_image_ok() {
    assert!(write_image(8, vec![0u8; 8 * 8], "out.png").is_ok());
    assert!(write_image(1024, vec![0u8; 8 * 8], "out.png").is_err());
    assert!(write_image(8, vec![0u8; 8 * 8], "out.definitely_not_a_png").is_err());
}

#[test]
fn write_image_encodes() {
    let png = write_image(8, vec![255u8; 8 * 8], "dir/picture.png").unwrap();
    assert_eq!(&png[..8], &[0x89, b'P', b'N', b'G', b'\r', b'\n', 0x1a, b'\n']);
    let bmp = write_image(4, vec![0u8; 16], "picture.BMP").unwrap();
    assert_eq!(&bmp[..2], b"BM");
    assert!(matches!(write_image(4, vec![0u8; 15], "x.png"), Err(Error::ImageSize(4))));
    assert!(matches!(write_image(4, vec![0u8; 16], "no_extension"), Err(Error::Image(_))));
}

#[test]
fn pixel_layout() {
    assert_eq!(pixel_count(16), 256);
    assert_eq!(pixel_count(0), 0);
    assert_eq!(pixel_count(u16::MAX), 65535 * 65535);
    assert_eq!(half_size(16), 8);
    assert_eq!(half_size(15), 7);
    assert_eq!(pixel_at(16, 0), (0, 0));
    assert_eq!(pixel_at(16, 17), (1, 1));
    assert_eq!(pixel_at(16, 255), (15, 15));
    assert_eq!(pixel_at(10, 42), (2, 4));
}

#[test]
fn simd_chunks() {
    assert_eq!(LANES, 64);
    assert_eq!(chunk_count(16), 4);
    assert_eq!(chunk_count(10), 1);
    assert_eq!(chunk_count(7), 0);
    assert_eq!(lane_pixel(16, 0, 0), 0);
    assert_eq!(lane_pixel(16, 3, 63), 255);
    assert_eq!(lane_pixel(10, 0, 63), 63);
}

#[test]
fn pixel_sizes() {
    assert_eq!(u16::from(Pixels::Small), 256);
    assert_eq!(u16::from(Pixels::Normal), 1024);
    assert_eq!(u16::from(Pixels::Big), 4096);
}

#[test]
fn to_png_ok() {
    let img = to_image(8, vec![0u8; 8 * 8]).unwrap();
    let png = to_png(&img).unwrap();
    assert_eq!(&png[..8], &[0x89, b'P', b'N', b'G', b'\r', b'\n', 0x1a, b'\n']);
    assert_eq!(png, write_image(8, vec![0u8; 8 * 8], "other.png").unwrap());
    // bytes beyond the last pixel are not encoded.
    let longer = to_image(8, vec![0u8; 100]).unwrap();
    assert_eq!(to_png(&longer).unwrap(), png);
}

#[test]
fn simd_chunks_cover() {
    for size in [8u16, 10, 16, 23, 24] {
        let n = pixel_count(size);
        let mut hits = vec![0u32; n];
        for chunk in 0..chunk_count(size) {
            for lane in 0..LANES {
                hits[lane_pixel(size, chunk, lane)] += 1;
            }
        }
        // the pixels after the whole chunks are the ones computed one by one.
        for i in rest_start(size)..n {
            hits[i] += 1;
        }
        assert!(hits.iter().all(|&h| h == 1));
    }
    assert_eq!(rest_start(10), 64);
    assert_eq!(rest_start(16), 256);
    assert_eq!(rest_start(0), 0);
}
