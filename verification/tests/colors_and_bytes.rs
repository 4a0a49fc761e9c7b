use life2::color::{alive, be_bytes, color_be, dead, Color565};
use life2::spi_display::{frame_window, ChunkBuffer, DirectInterface};

#[test]
fn game_colours_in_display_bytes() {
    assert_eq!(alive(), Color565 { r: 0, g: 63, b: 0 });
    assert_eq!(dead(), Color565 { r: 0, g: 0, b: 0 });
    assert_eq!(color_be(alive()), [0x07, 0xE0]);
    assert_eq!(color_be(dead()), [0x00, 0x00]);
}

#[test]
fn rgb565_packing() {
    assert_eq!(color_be(Color565 { r: 31, g: 63, b: 31 }), [0xFF, 0xFF]);
    assert_eq!(color_be(Color565 { r: 31, g: 0, b: 0 }), [0xF8, 0x00]);
    assert_eq!(color_be(Color565 { r: 0, g: 0, b: 31 }), [0x00, 0x1F]);
    assert_eq!(color_be(Color565 { r: 1, g: 1, b: 1 }), [0x08, 0x21]);
}

#[test]
fn big_endian_bytes() {
    assert_eq!(be_bytes(0x1234), [0x12, 0x34]);
    assert_eq!(be_bytes(0x00FF), [0x00, 0xFF]);
}

#[test]
fn window_of_a_full_frame() {
    assert_eq!(frame_window((240, 240)), (239, 239));
    assert_eq!(frame_window((1, 320)), (0, 319));
}

#[test]
fn direct_interface_keeps_its_parts() {
    let di = DirectInterface::new(1u8, 2u16, 3u32);
    assert_eq!(di.spi, 1);
    assert_eq!(di.dc, 2);
    assert_eq!(di.cs, 3);
}

#[test]
fn chunk_buffer_fills_and_clears() {
    let mut buf: ChunkBuffer<4> = ChunkBuffer::new();
    assert!(buf.is_empty());
    assert_eq!(buf.room(), 4);
    assert!(!buf.push(1));
    assert!(!buf.push(2));
    assert!(!buf.push(3));
    assert_eq!(buf.bytes(), &[1, 2, 3]);
    assert!(buf.push(4));
    assert!(buf.is_full());
    assert_eq!(buf.bytes(), &[1, 2, 3, 4]);
    buf.clear();
    assert!(buf.is_empty());
    assert_eq!(buf.len(), 0);
    assert!(!buf.push_word_be(0xABCD));
    assert!(buf.push_word_be(0x0102));
    assert_eq!(buf.bytes(), &[0xAB, 0xCD, 0x01, 0x02]);
}

#[test]
fn chunking_a_stream_sends_every_byte_once_in_order() {
    let input: Vec<u8> = (0u8..10).collect();
    let mut sent: Vec<Vec<u8>> = Vec::new();
    let mut buf: ChunkBuffer<4> = ChunkBuffer::new();
    for b in input.iter() {
        if buf.push(*b) {
            sent.push(buf.bytes().to_vec());
            buf.clear();
        }
    }
    assert_eq!(sent, vec![vec![0, 1, 2, 3], vec![4, 5, 6, 7]]);
    assert_eq!(buf.bytes(), &[8, 9]);
}
