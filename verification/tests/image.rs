use raymarch::image::{
    encoded, write_png_image, Color, ColorSink, ImageError, SinkError, MAX_PIXELS,
};

#[test]
fn new_sink_is_black() {
    let sink = ColorSink::new(3, 2).unwrap();
    assert_eq!(sink.get_width(), 3);
    assert_eq!(sink.get_height(), 2);
    assert_eq!(sink.get_data().len(), 6);
    for c in sink.get_data() {
        assert_eq!(*c, Color(0, 0, 0));
    }
}

#[test]
fn new_sink_refuses_zero_size() {
    assert_eq!(ColorSink::new(0, 5).err(), Some(SinkError::ZeroSize));
    assert_eq!(ColorSink::new(5, 0).err(), Some(SinkError::ZeroSize));
    assert_eq!(ColorSink::new(0, 0).err(), Some(SinkError::ZeroSize));
}

#[test]
fn new_sink_refuses_too_many_pixels() {
    assert_eq!(ColorSink::new(MAX_PIXELS, 2).err(), Some(SinkError::TooLarge));
    assert_eq!(ColorSink::new(u32::MAX, u32::MAX).err(), Some(SinkError::TooLarge));
    assert_eq!(ColorSink::new(0x10000, 0x10000).err(), Some(SinkError::TooLarge));
    assert_eq!(ColorSink::new(3, 0x5555_5556).err(), Some(SinkError::TooLarge));
}

#[test]
fn set_pixel_writes_row_major() {
    let mut sink = ColorSink::new(3, 2).unwrap();
    assert_eq!(sink.set_pixel(1, 0, Color(1, 2, 3)), Ok(()));
    assert_eq!(sink.set_pixel(2, 1, Color(4, 5, 6)), Ok(()));
    assert_eq!(sink.get_data()[1], Color(1, 2, 3));
    assert_eq!(sink.get_data()[5], Color(4, 5, 6));
    assert_eq!(sink.get_pixel(1, 0), Ok(Color(1, 2, 3)));
    assert_eq!(sink.get_pixel(2, 1), Ok(Color(4, 5, 6)));
    assert_eq!(sink.get_pixel(0, 0), Ok(Color(0, 0, 0)));
    assert_eq!(sink.get_pixel(1, 1), Ok(Color(0, 0, 0)));
}

#[test]
fn pixel_access_out_of_bounds_is_reported() {
    let mut sink = ColorSink::new(3, 2).unwrap();
    assert_eq!(sink.set_pixel(3, 0, Color(9, 9, 9)), Err(SinkError::OutOfBounds));
    assert_eq!(sink.set_pixel(0, 2, Color(9, 9, 9)), Err(SinkError::OutOfBounds));
    assert_eq!(sink.get_pixel(3, 0), Err(SinkError::OutOfBounds));
    assert_eq!(sink.get_pixel(0, 2), Err(SinkError::OutOfBounds));
    for c in sink.get_data() {
        assert_eq!(*c, Color(0, 0, 0));
    }
}

#[test]
fn set_block_copies_rows() {
    let mut sink = ColorSink::new(2, 3).unwrap();
    let rows = vec![Color(1, 1, 1), Color(2, 2, 2)];
    assert_eq!(sink.set_block(2, &rows), Ok(()));
    assert_eq!(
        *sink.get_data(),
        vec![
            Color(0, 0, 0),
            Color(0, 0, 0),
            Color(1, 1, 1),
            Color(2, 2, 2),
            Color(0, 0, 0),
            Color(0, 0, 0)
        ]
    );
    assert_eq!(sink.set_block(4, &rows), Ok(()));
    assert_eq!(sink.get_pixel(0, 2), Ok(Color(1, 1, 1)));
    assert_eq!(sink.get_pixel(1, 2), Ok(Color(2, 2, 2)));
    assert_eq!(sink.set_block(6, &Vec::new()), Ok(()));
}

#[test]
fn set_block_beyond_the_end_is_reported() {
    let mut sink = ColorSink::new(2, 3).unwrap();
    let rows = vec![Color(1, 1, 1), Color(2, 2, 2)];
    assert_eq!(sink.set_block(5, &rows), Err(SinkError::OutOfBounds));
    assert_eq!(sink.set_block(7, &Vec::new()), Err(SinkError::OutOfBounds));
    assert_eq!(sink.set_block(u32::MAX, &rows), Err(SinkError::OutOfBounds));
    let long = vec![Color(3, 3, 3); 7];
    assert_eq!(sink.set_block(0, &long), Err(SinkError::OutOfBounds));
    for c in sink.get_data() {
        assert_eq!(*c, Color(0, 0, 0));
    }
}

#[test]
fn rgb_bytes_keep_the_low_byte_of_each_channel() {
    let mut sink = ColorSink::new(2, 1).unwrap();
    sink.set_pixel(0, 0, Color(1, 2, 3)).unwrap();
    sink.set_pixel(1, 0, Color(255, 256, 513)).unwrap();
    assert_eq!(sink.to_rgb8(), vec![1, 2, 3, 255, 0, 1]);
}

#[test]
fn png_stream_decodes_to_the_pixels() {
    let mut sink = ColorSink::new(3, 2).unwrap();
    let mut n = 0;
    for y in 0..2 {
        for x in 0..3 {
            sink.set_pixel(x, y, Color(10 * n, 20 * n + 1, 255 - n)).unwrap();
            n += 1;
        }
    }
    let stream = write_png_image(&sink).unwrap();
    assert_eq!(&stream[..8], &[137, 80, 78, 71, 13, 10, 26, 10]);
    assert_ne!(stream, sink.to_rgb8());
    let decoder = png::Decoder::new(std::io::Cursor::new(stream));
    let mut reader = decoder.read_info().unwrap();
    let mut buffer = vec![0u8; 3 * 2 * 3];
    let info = reader.next_frame(&mut buffer).unwrap();
    assert_eq!(info.width, 3);
    assert_eq!(info.height, 2);
    assert_eq!(info.color_type, png::ColorType::Rgb);
    assert_eq!(info.bit_depth, png::BitDepth::Eight);
    assert_eq!(buffer, sink.to_rgb8());
}

#[test]
fn png_stream_is_written_for_every_small_image() {
    for (width, height) in [(1u32, 1u32), (1, 7), (7, 1), (16, 16), (33, 5)] {
        let mut sink = ColorSink::new(width, height).unwrap();
        sink.set_pixel(width - 1, height - 1, Color(300, 2, 1)).unwrap();
        let stream = write_png_image(&sink).unwrap();
        let decoder = png::Decoder::new(std::io::Cursor::new(stream));
        let mut reader = decoder.read_info().unwrap();
        let mut buffer = vec![0u8; (3 * width * height) as usize];
        let info = reader.next_frame(&mut buffer).unwrap();
        assert_eq!((info.width, info.height), (width, height));
        assert_eq!(buffer, sink.to_rgb8());
        assert_eq!(buffer[buffer.len() - 3..], [44, 2, 1]);
    }
}

#[test]
fn png_stream_is_the_same_for_the_same_image() {
    let mut sink = ColorSink::new(4, 4).unwrap();
    sink.set_pixel(2, 3, Color(7, 8, 9)).unwrap();
    let first = write_png_image(&sink).unwrap();
    let second = write_png_image(&sink).unwrap();
    assert_eq!(first, second);
}

#[test]
fn image_error_is_comparable() {
    assert_eq!(ImageError::Encoding, ImageError::Encoding);
}

#[test]
fn encoder_failure_becomes_the_library_error() {
    assert_eq!(encoded(Err(png::EncodingError::LimitsExceeded)), Err(ImageError::Encoding));
    assert_eq!(encoded(Ok(vec![1, 2, 3])), Ok(vec![1, 2, 3]));
}
