use raytracer::scalar::Scalar;
use raytracer::viewer::{pack, to_color};

fn scalar(x: f32) -> Scalar {
    Scalar::from_bits(x.to_bits())
}

#[test]
fn pack_puts_the_channels_behind_full_opacity() {
    assert_eq!(pack(1, 2, 3), 0xFF01_0203);
    assert_eq!(pack(0, 0, 0), 0xFF00_0000);
    assert_eq!(pack(255, 255, 255), 0xFFFF_FFFF);
    assert_eq!(pack(0x12, 0xAB, 0xF0), 0xFF12_ABF0);
}

#[test]
fn pack_agrees_with_big_endian_bytes() {
    for r in [0u8, 1, 127, 128, 255] {
        for g in [0u8, 5, 200, 255] {
            for b in [0u8, 64, 255] {
                assert_eq!(pack(r, g, b), u32::from_be_bytes([255, r, g, b]));
            }
        }
    }
}

#[test]
fn to_u8_drops_what_is_behind_the_point() {
    assert_eq!(scalar(0.0).to_u8(), 0);
    assert_eq!(scalar(0.999).to_u8(), 0);
    assert_eq!(scalar(1.0).to_u8(), 1);
    assert_eq!(scalar(1.999).to_u8(), 1);
    assert_eq!(scalar(2.0).to_u8(), 2);
    assert_eq!(scalar(127.5).to_u8(), 127);
    assert_eq!(scalar(254.99998).to_u8(), 254);
    assert_eq!(scalar(255.0).to_u8(), 255);
}

#[test]
fn to_u8_holds_to_the_range_of_a_channel() {
    assert_eq!(scalar(255.5).to_u8(), 255);
    assert_eq!(scalar(256.0).to_u8(), 255);
    assert_eq!(scalar(1.0e30).to_u8(), 255);
    assert_eq!(scalar(f32::MAX).to_u8(), 255);
    assert_eq!(scalar(f32::INFINITY).to_u8(), 255);
    assert_eq!(scalar(-0.0).to_u8(), 0);
    assert_eq!(scalar(-0.5).to_u8(), 0);
    assert_eq!(scalar(-3.0).to_u8(), 0);
    assert_eq!(scalar(f32::NEG_INFINITY).to_u8(), 0);
    assert_eq!(scalar(f32::NAN).to_u8(), 0);
    assert_eq!(scalar(-f32::NAN).to_u8(), 0);
    assert_eq!(scalar(1.0e-40).to_u8(), 0);
}

#[test]
fn to_u8_agrees_with_the_hardware() {
    let mut bits: u32 = 0;
    loop {
        let x = f32::from_bits(bits);
        assert_eq!(Scalar::from_bits(bits).to_u8(), x as u8, "{:?}", x);
        match bits.checked_add(0x0000_3FF1) {
            Some(next) => bits = next,
            None => break,
        }
    }
    for whole in 0..=300u32 {
        for part in [0.0f32, 0.25, 0.5, 0.75, 0.99] {
            let x = whole as f32 + part;
            assert_eq!(scalar(x).to_u8(), x as u8, "{:?}", x);
            assert_eq!(scalar(-x).to_u8(), (-x) as u8, "{:?}", -x);
        }
    }
}

#[test]
fn to_color_scales_nothing_and_packs() {
    assert_eq!(to_color(scalar(1.0), scalar(2.0), scalar(3.0)), 0xFF01_0203);
    assert_eq!(to_color(scalar(255.0), scalar(0.0), scalar(127.9)), 0xFFFF_007F);
    assert_eq!(to_color(scalar(300.0), scalar(-1.0), scalar(f32::NAN)), 0xFFFF_0000);
}

#[test]
fn to_color_of_unit_channels() {
    for (r, g, b) in [(0.0f32, 0.5f32, 1.0f32), (0.25, 0.75, 0.1), (1.5, -0.5, 0.999)] {
        let expected =
            u32::from_be_bytes([255, (r * 255.0) as u8, (g * 255.0) as u8, (b * 255.0) as u8]);
        assert_eq!(to_color(scalar(r * 255.0), scalar(g * 255.0), scalar(b * 255.0)), expected);
    }
}
