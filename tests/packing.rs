use warbler_grass::gpu::{buffer_command, prepare_texture_from_data, BufferUsage, GpuCommand};
use warbler_grass::packer::{floor_sqrt, pack_square};

#[test]
fn floor_sqrt_exact_values() {
    assert_eq!(floor_sqrt(0), 0);
    assert_eq!(floor_sqrt(1), 1);
    assert_eq!(floor_sqrt(3), 1);
    assert_eq!(floor_sqrt(4), 2);
    assert_eq!(floor_sqrt(10_000), 100);
    assert_eq!(floor_sqrt(10_200), 100);
    assert_eq!(floor_sqrt(0xFFFE_0000), 65534);
}

#[test]
fn pack_empty_gives_one_padding_texel() {
    let t = pack_square(&Vec::new());
    assert_eq!(t.side, 1);
    assert_eq!(t.texels, vec![0]);
}

#[test]
fn pack_keeps_order_and_pads() {
    let data = vec![7, 8, 9, 10, 11];
    let t = pack_square(&data);
    assert_eq!(t.side, 3);
    assert_eq!(t.texels, vec![7, 8, 9, 10, 11, 0, 0, 0, 0]);
}

#[test]
fn pack_perfect_square_still_grows() {
    let data: Vec<u32> = (1..=4).collect();
    let t = pack_square(&data);
    assert_eq!(t.side, 3);
    assert_eq!(t.texels.len(), 9);
    assert_eq!(&t.texels[..4], &data[..]);
    assert!(t.texels[4..].iter().all(|&v| v == 0));
}

#[test]
fn pack_side_covers_every_size() {
    for n in 0u32..300 {
        let data: Vec<u32> = (0..n).map(|v| v + 1).collect();
        let t = pack_square(&data);
        let s = t.side as u64;
        assert_eq!(s, ((n as f64).sqrt().floor() as u64) + 1);
        assert!(s * s >= n as u64);
        assert_eq!(&t.texels[..n as usize], &data[..]);
    }
}

#[test]
fn texture_upload_rows_and_bytes() {
    let data: Vec<u32> = (0..10_000).collect();
    match prepare_texture_from_data(42, &data) {
        GpuCommand::Texture { id, side, bytes_per_row, texels, bytes } => {
            assert_eq!(id, 42);
            assert_eq!(side, 101);
            assert_eq!(bytes_per_row, 404);
            assert_eq!(texels.len(), 10_201);
            assert_eq!(bytes.len(), 4 * 10_201);
            assert_eq!(&bytes[4..8], &1u32.to_ne_bytes());
        }
        other => panic!("unexpected command {:?}", other),
    }
}

#[test]
fn buffer_bytes_are_the_words_memory() {
    let words = vec![0x0102_0304u32, 0xA0B0_C0D0];
    match buffer_command(3, BufferUsage::Uniform, words.clone()) {
        GpuCommand::Buffer { id, usage, words: w, bytes } => {
            assert_eq!(id, 3);
            assert_eq!(usage, BufferUsage::Uniform);
            assert_eq!(w, words);
            let mut expected = Vec::new();
            expected.extend_from_slice(&words[0].to_ne_bytes());
            expected.extend_from_slice(&words[1].to_ne_bytes());
            assert_eq!(bytes, expected);
        }
        other => panic!("unexpected command {:?}", other),
    }
}
