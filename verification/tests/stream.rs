use qoi_parser::{
    parse_image_content, Channels, Colorspace, DecoderError, Header, QoiDecoder,
};

const END: [u8; 8] = [0, 0, 0, 0, 0, 0, 0, 1];

fn rgb(width: u32, height: u32) -> Header {
    Header {
        width,
        height,
        channels: Channels::Rgb,
        colorspace: Colorspace::Srgb,
    }
}

fn rgba(width: u32, height: u32) -> Header {
    Header {
        width,
        height,
        channels: Channels::Rgba,
        colorspace: Colorspace::Srgb,
    }
}

#[test]
fn run_of_one_repeats_the_initial_pixel() {
    assert_eq!(parse_image_content(&[0b11000000], rgb(1, 1)), Ok(vec![0, 0, 0]));
    assert_eq!(
        parse_image_content(&[0b11000000], rgba(1, 1)),
        Ok(vec![0, 0, 0, 255])
    );
}

#[test]
fn run_length_is_one_more_than_its_field() {
    for field in 0..62u8 {
        let pixels = field as u32 + 1;
        let payload = [0xFE, 9, 8, 7, 0b11000000 | field];
        let mut expected = vec![9, 8, 7];
        for _ in 0..pixels {
            expected.extend_from_slice(&[9, 8, 7]);
        }
        assert_eq!(
            parse_image_content(&payload, rgb(pixels + 1, 1)),
            Ok(expected)
        );
        assert_eq!(
            parse_image_content(&payload, rgb(pixels, 1)),
            Err(DecoderError::TooManyPixels)
        );
        assert_eq!(
            parse_image_content(&payload, rgb(pixels + 2, 1)),
            Err(DecoderError::TooFewPixels)
        );
    }
}

#[test]
fn longest_run_is_sixty_two() {
    let decoded = parse_image_content(&[0xFD], rgba(31, 2)).unwrap();
    assert_eq!(decoded.len(), 62 * 4);
    assert!(decoded.chunks(4).all(|pixel| pixel == [0, 0, 0, 255]));
}

#[test]
fn index_finds_the_pixel_by_its_hash() {
    // (127 * 3 + 127 * 5 + 127 * 7 + 255 * 11) % 64 == 38
    let payload = [0xFE, 127, 127, 127, 38];
    assert_eq!(
        parse_image_content(&payload, rgb(2, 1)),
        Ok(vec![127, 127, 127, 127, 127, 127])
    );
    assert_eq!(
        parse_image_content(&payload, rgba(2, 1)),
        Ok(vec![127, 127, 127, 255, 127, 127, 127, 255])
    );
}

#[test]
fn index_of_an_unused_slot_is_the_zero_pixel() {
    let payload = [0xFE, 127, 127, 127, 0b00110001];
    assert_eq!(
        parse_image_content(&payload, rgba(2, 1)),
        Ok(vec![127, 127, 127, 255, 0, 0, 0, 0])
    );
}

#[test]
fn index_returns_the_last_pixel_of_the_slot() {
    // both pixels hash to slot (3 + 10 + 21 + 255 * 11) % 64 == 23
    let first = [1u8, 2, 3];
    let second = [65u8, 2, 3];
    let payload = [
        0xFE, first[0], first[1], first[2], 0xFE, second[0], second[1], second[2], 23,
    ];
    assert_eq!(
        parse_image_content(&payload, rgb(3, 1)),
        Ok(vec![1, 2, 3, 65, 2, 3, 65, 2, 3])
    );
    // a pixel of another slot in between leaves the slot alone
    let payload = [0xFE, 1, 2, 3, 0xFE, 2, 2, 3, 23];
    assert_eq!(
        parse_image_content(&payload, rgb(3, 1)),
        Ok(vec![1, 2, 3, 2, 2, 3, 1, 2, 3])
    );
}

#[test]
fn index_takes_alpha_from_the_cache() {
    // slot of (10, 20, 30, 40): (30 + 100 + 210 + 440) % 64 == 12
    let payload = [0xFF, 10, 20, 30, 40, 0xFE, 1, 1, 1, 12];
    assert_eq!(
        parse_image_content(&payload, rgba(3, 1)),
        Ok(vec![10, 20, 30, 40, 1, 1, 1, 40, 10, 20, 30, 40])
    );
}

#[test]
fn run_records_the_initial_pixel() {
    // slot of (0, 0, 0, 255): (255 * 11) % 64 == 53
    let payload = [0b11000000, 0xFF, 1, 2, 3, 4, 53];
    assert_eq!(
        parse_image_content(&payload, rgba(3, 1)),
        Ok(vec![0, 0, 0, 255, 1, 2, 3, 4, 0, 0, 0, 255])
    );
    // before any pixel the slot holds the zero pixel
    let payload = [53, 0xFF, 1, 2, 3, 4];
    assert_eq!(
        parse_image_content(&payload, rgba(2, 1)),
        Ok(vec![0, 0, 0, 0, 1, 2, 3, 4])
    );
}

#[test]
fn diff_changes_each_channel() {
    // fields 0, 1, 3: changes -2, -1, +1
    let payload = [0xFE, 127, 127, 127, 0b01000111];
    assert_eq!(
        parse_image_content(&payload, rgb(2, 1)),
        Ok(vec![127, 127, 127, 125, 126, 128])
    );
    // all fields 2: no change
    let payload = [0xFE, 5, 6, 7, 0b01101010];
    assert_eq!(
        parse_image_content(&payload, rgb(2, 1)),
        Ok(vec![5, 6, 7, 5, 6, 7])
    );
}

#[test]
fn diff_wraps_around() {
    let payload = [0xFE, 0, 1, 255, 0b01000011];
    assert_eq!(
        parse_image_content(&payload, rgb(2, 1)),
        Ok(vec![0, 1, 255, 254, 255, 0])
    );
}

#[test]
fn luma_changes_each_channel() {
    // green -22, red -22 + 7, blue -22 - 7
    let payload = [0xFE, 127, 127, 127, 0b10001010, 0b11110001];
    assert_eq!(
        parse_image_content(&payload, rgb(2, 1)),
        Ok(vec![127, 127, 127, 112, 105, 98])
    );
}

#[test]
fn luma_wraps_around() {
    // green +3, red +3, blue +3 on 254
    let payload = [0xFE, 254, 254, 254, 0x80 | 35, 0x88];
    assert_eq!(
        parse_image_content(&payload, rgb(2, 1)),
        Ok(vec![254, 254, 254, 1, 1, 1])
    );
    // green -32, red -40, blue -25 on 10
    let payload = [0xFE, 10, 10, 10, 0x80, 0x0F];
    assert_eq!(
        parse_image_content(&payload, rgb(2, 1)),
        Ok(vec![10, 10, 10, 226, 234, 241])
    );
    // green +31, red +38, blue +23 on 250
    let payload = [0xFE, 250, 250, 250, 0xBF, 0xF0];
    assert_eq!(
        parse_image_content(&payload, rgb(2, 1)),
        Ok(vec![250, 250, 250, 32, 25, 17])
    );
}

#[test]
fn rgb_keeps_alpha_and_rgba_sets_it() {
    let payload = [0xFF, 1, 2, 3, 4, 0xFE, 5, 6, 7, 0b01101010, 0xA0, 0x88];
    assert_eq!(
        parse_image_content(&payload, rgba(4, 1)),
        Ok(vec![1, 2, 3, 4, 5, 6, 7, 4, 5, 6, 7, 4, 5, 6, 7, 4])
    );
    assert_eq!(
        parse_image_content(&payload, rgb(4, 1)),
        Ok(vec![1, 2, 3, 5, 6, 7, 5, 6, 7, 5, 6, 7])
    );
}

#[test]
fn buffer_length_is_width_times_height_times_channels() {
    for (width, height) in [(1u32, 1u32), (3, 5), (62, 1), (7, 31), (0, 9), (9, 0)] {
        let pixels = width * height;
        let mut payload = Vec::new();
        for i in 0..pixels {
            payload.extend_from_slice(&[0xFE, i as u8, (i >> 8) as u8, 1]);
        }
        let decoded = parse_image_content(&payload, rgb(width, height)).unwrap();
        assert_eq!(decoded.len() as u32, pixels * 3);
        let decoded = parse_image_content(&payload, rgba(width, height)).unwrap();
        assert_eq!(decoded.len() as u32, pixels * 4);
    }
}

#[test]
fn five_pixels_for_four_are_too_many() {
    // one run of five
    assert_eq!(
        parse_image_content(&[0b11000100], rgb(2, 2)),
        Err(DecoderError::TooManyPixels)
    );
    // a run of four and one pixel more
    assert_eq!(
        parse_image_content(&[0b11000011, 0xFE, 1, 2, 3], rgb(2, 2)),
        Err(DecoderError::TooManyPixels)
    );
    // five literal pixels
    let payload = [
        0xFE, 1, 1, 1, 0xFE, 2, 2, 2, 0xFE, 3, 3, 3, 0xFE, 4, 4, 4, 0xFE, 5, 5, 5,
    ];
    assert_eq!(
        parse_image_content(&payload, rgb(2, 2)),
        Err(DecoderError::TooManyPixels)
    );
    assert_eq!(
        parse_image_content(&payload, rgba(4, 1)),
        Err(DecoderError::TooManyPixels)
    );
    // and the first four alone are the image
    assert_eq!(
        parse_image_content(&payload[..16], rgb(2, 2)),
        Ok(vec![1, 1, 1, 2, 2, 2, 3, 3, 3, 4, 4, 4])
    );
}

#[test]
fn too_many_is_found_after_the_chunk_that_overshoots() {
    // what follows the overshooting run is cut short, and is never reached
    assert_eq!(
        parse_image_content(&[0b11000100, 0xFE, 1], rgb(2, 2)),
        Err(DecoderError::TooManyPixels)
    );
}

#[test]
fn stream_that_ends_early_has_too_few_pixels() {
    assert_eq!(
        parse_image_content(&[], rgb(1, 1)),
        Err(DecoderError::TooFewPixels)
    );
    assert_eq!(
        parse_image_content(&[0b11000010], rgb(2, 2)),
        Err(DecoderError::TooFewPixels)
    );
    assert_eq!(
        parse_image_content(&[0xFE, 1, 2, 3], rgba(1, 2)),
        Err(DecoderError::TooFewPixels)
    );
}

#[test]
fn chunk_that_is_cut_short_has_too_few_pixels() {
    for len in 1..4 {
        assert_eq!(
            parse_image_content(&[0xFE, 1, 2, 3][..len], rgb(1, 1)),
            Err(DecoderError::TooFewPixels)
        );
    }
    for len in 1..5 {
        assert_eq!(
            parse_image_content(&[0xFF, 1, 2, 3, 4][..len], rgba(1, 1)),
            Err(DecoderError::TooFewPixels)
        );
    }
    assert_eq!(
        parse_image_content(&[0x80], rgb(1, 1)),
        Err(DecoderError::TooFewPixels)
    );
    // also behind a complete image
    assert_eq!(
        parse_image_content(&[0xC0, 0xFE, 1], rgb(1, 1)),
        Err(DecoderError::TooFewPixels)
    );
}

#[test]
fn every_byte_opens_a_chunk() {
    for byte in 0..=255u8 {
        let payload = [byte, 0, 0, 0, 0];
        let result = parse_image_content(&payload[..1], rgba(70, 1));
        assert_ne!(result, Err(DecoderError::InvalidPixel), "byte {byte}");
        let result = parse_image_content(&payload, rgba(1, 1));
        assert_ne!(result, Err(DecoderError::InvalidPixel), "byte {byte}");
    }
}

#[test]
fn end_marker_is_optional() {
    let payload = [0xFE, 1, 2, 3, 0b11000000];
    let with_marker = [payload.as_slice(), &END].concat();
    let expected = Ok(vec![1, 2, 3, 1, 2, 3]);
    assert_eq!(parse_image_content(&payload, rgb(2, 1)), expected);
    assert_eq!(parse_image_content(&with_marker, rgb(2, 1)), expected);
}

#[test]
fn end_marker_may_be_repeated() {
    let payload = [[0xC0].as_slice(), &END, &END].concat();
    assert_eq!(parse_image_content(&payload, rgb(1, 1)), Ok(vec![0, 0, 0]));
}

#[test]
fn bytes_behind_the_image_are_still_chunks() {
    // seven bytes fall short of the marker and are index chunks
    let payload = [[0xC0].as_slice(), &END[..7]].concat();
    assert_eq!(
        parse_image_content(&payload, rgb(1, 1)),
        Err(DecoderError::TooManyPixels)
    );
    let payload = [[0xC0].as_slice(), &END, &[0xC0]].concat();
    assert_eq!(
        parse_image_content(&payload, rgb(1, 1)),
        Err(DecoderError::TooManyPixels)
    );
}

#[test]
fn end_marker_stands_for_no_pixel() {
    for header in [rgba(8, 1), rgb(4, 2), rgb(9, 1), rgb(7, 1), rgb(1, 1)] {
        assert_eq!(
            parse_image_content(&END, header),
            Err(DecoderError::TooFewPixels)
        );
    }
}

#[test]
fn too_few_pixels_before_the_end_marker() {
    let payload = [[0xC0].as_slice(), &END].concat();
    assert_eq!(
        parse_image_content(&payload, rgb(3, 3)),
        Err(DecoderError::TooFewPixels)
    );
    assert_eq!(
        parse_image_content(&payload, rgb(2, 1)),
        Err(DecoderError::TooFewPixels)
    );
    assert_eq!(parse_image_content(&payload, rgb(1, 1)), Ok(vec![0, 0, 0]));
    assert_eq!(
        parse_image_content(&payload, rgb(0, 1)),
        Err(DecoderError::TooManyPixels)
    );
}

#[test]
fn end_marker_inside_the_stream_is_passed_over() {
    let payload = [[0xFE, 1, 2, 3].as_slice(), &END, &[0xC0, 38]].concat();
    assert_eq!(
        parse_image_content(&payload, rgb(3, 1)),
        Ok(vec![1, 2, 3, 1, 2, 3, 0, 0, 0])
    );
    // at the very front too, and the state is as it was before
    let payload = [END.as_slice(), &[0xC1]].concat();
    assert_eq!(
        parse_image_content(&payload, rgba(2, 1)),
        Ok(vec![0, 0, 0, 255, 0, 0, 0, 255])
    );
}

#[test]
fn zeros_that_are_not_the_marker_are_index_chunks() {
    // eight zeros: the eighth byte is not one
    assert_eq!(parse_image_content(&[0; 8], rgba(8, 1)), Ok(vec![0; 32]));
    // seven zeros and a two
    assert_eq!(
        parse_image_content(&[0, 0, 0, 0, 0, 0, 0, 2], rgb(8, 1)),
        Ok(vec![0; 24])
    );
    // a zero in front of the marker is one index chunk
    let payload = [[0].as_slice(), &END].concat();
    assert_eq!(parse_image_content(&payload, rgb(1, 1)), Ok(vec![0; 3]));
}

#[test]
fn result_goes_by_the_number_of_pixels() {
    // 1 + 1 + 1 + 1 + 3 + 1 = 8 pixels
    let chunks = [
        0xFEu8, 10, 20, 30, 0xFF, 1, 2, 3, 4, 0x6A, 0xA0, 0x88, 0xC2, 12,
    ];
    let closed = [chunks.as_slice(), &END].concat();
    for payload in [chunks.as_slice(), closed.as_slice()] {
        for (width, height) in [(8u32, 1u32), (1, 8), (2, 4), (4, 2)] {
            let decoded = parse_image_content(payload, rgba(width, height)).unwrap();
            assert_eq!(decoded.len(), 32);
            let decoded = parse_image_content(payload, rgb(width, height)).unwrap();
            assert_eq!(decoded.len(), 24);
        }
        for (width, height) in [(9u32, 1u32), (3, 3), (8, 2), (100, 100)] {
            assert_eq!(
                parse_image_content(payload, rgba(width, height)),
                Err(DecoderError::TooFewPixels)
            );
        }
        for (width, height) in [(7u32, 1u32), (2, 2), (1, 1), (0, 0), (5, 0)] {
            assert_eq!(
                parse_image_content(payload, rgb(width, height)),
                Err(DecoderError::TooManyPixels)
            );
        }
    }
}

#[test]
fn image_without_pixels() {
    assert_eq!(parse_image_content(&[], rgb(0, 0)), Ok(vec![]));
    assert_eq!(parse_image_content(&[], rgba(0, 5)), Ok(vec![]));
    assert_eq!(parse_image_content(&END, rgba(5, 0)), Ok(vec![]));
    assert_eq!(
        parse_image_content(&[0xC0], rgba(5, 0)),
        Err(DecoderError::TooManyPixels)
    );
}

#[test]
fn huge_header_with_short_stream_fails_cleanly() {
    assert_eq!(
        parse_image_content(&[0xFD], rgba(u32::MAX, u32::MAX)),
        Err(DecoderError::TooFewPixels)
    );
}

#[test]
fn colorspace_has_no_effect() {
    let payload = [0xFE, 200, 100, 50, 0b01111111, 0xC1];
    let srgb = Header {
        width: 4,
        height: 1,
        channels: Channels::Rgb,
        colorspace: Colorspace::Srgb,
    };
    let linear = Header {
        colorspace: Colorspace::Linear,
        ..srgb
    };
    assert_eq!(
        parse_image_content(&payload, srgb),
        parse_image_content(&payload, linear)
    );
    assert_eq!(
        parse_image_content(&payload, srgb),
        Ok(vec![200, 100, 50, 201, 101, 51, 201, 101, 51, 201, 101, 51])
    );
}

#[test]
fn whole_file_in_one_go() {
    let file = [
        b"qoif".as_slice(),
        &3u32.to_be_bytes(),
        &1u32.to_be_bytes(),
        &[4, 0],
        &[0xFF, 9, 8, 7, 6, 0xC1],
        &END,
    ]
    .concat();
    let decoder = QoiDecoder::new(&file).unwrap();
    assert_eq!(
        decoder.decode(),
        Ok(vec![9, 8, 7, 6, 9, 8, 7, 6, 9, 8, 7, 6])
    );
}
