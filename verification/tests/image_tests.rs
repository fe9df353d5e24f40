use micromath::F32Ext;
use tp_led_matrix::gamma::{gamma_correct, GAMMA};
use tp_led_matrix::{Color, Image};

fn rounded(value: f32) -> u8 {
    let r = F32Ext::round(value);
    if r > 255.0 {
        u8::MAX
    } else if r < 0.0 {
        u8::MIN
    } else {
        r as u8
    }
}

fn scaled(color: Color, factor: f32) -> Color {
    Color {
        r: rounded(color.r as f32 * factor),
        g: rounded(color.g as f32 * factor),
        b: rounded(color.b as f32 * factor),
    }
}

#[test]
fn it_works() {
    let result = 2 + 2;
    assert_eq!(result, 4);
}

#[test]
fn gamma_table_ends_and_middle() {
    assert_eq!(gamma_correct(0), 0);
    assert_eq!(gamma_correct(27), 0);
    assert_eq!(gamma_correct(28), 1);
    assert_eq!(gamma_correct(128), 37);
    assert_eq!(gamma_correct(200), 129);
    assert_eq!(gamma_correct(254), 252);
    assert_eq!(gamma_correct(255), 255);
    assert_eq!(GAMMA.len(), 256);
}

#[test]
fn gamma_table_never_decreases() {
    for x in 0..255u8 {
        assert!(gamma_correct(x) <= gamma_correct(x + 1));
    }
}

#[test]
fn gamma_correct_color_maps_each_channel() {
    let c = Color { r: 255, g: 128, b: 28 };
    assert_eq!(c.gamma_correct(), Color { r: 255, g: 37, b: 1 });
    assert_eq!(Color::default().gamma_correct(), Color { r: 0, g: 0, b: 0 });
}

#[test]
fn color_constants() {
    assert_eq!(Color::red(), Color { r: 255, g: 0, b: 0 });
    assert_eq!(Color::green(), Color { r: 0, g: 255, b: 0 });
    assert_eq!(Color::blue(), Color { r: 0, g: 0, b: 255 });
    assert_eq!(Color::default(), Color { r: 0, g: 0, b: 0 });
}

#[test]
fn mul_clamps_at_255() {
    let c = Color { r: 10, g: 100, b: 200 };
    assert_eq!(c.mul(0), Color { r: 0, g: 0, b: 0 });
    assert_eq!(c.mul(1), c);
    assert_eq!(c.mul(2), Color { r: 20, g: 200, b: 255 });
    assert_eq!(c.mul(3), Color { r: 30, g: 255, b: 255 });
    assert_eq!(c.mul(u32::MAX), Color { r: 255, g: 255, b: 255 });
    assert_eq!(Color { r: 0, g: 1, b: 255 }.mul(255), Color { r: 0, g: 255, b: 255 });
}

#[test]
fn mul_agrees_with_float_scaling() {
    for channel in 0..=255u8 {
        for factor in 0..40u32 {
            let c = Color { r: channel, g: 255 - channel, b: channel / 2 };
            assert_eq!(c.mul(factor), scaled(c, factor as f32));
        }
    }
}

#[test]
fn div_rounds_to_nearest() {
    let c = Color { r: 255, g: 100, b: 7 };
    assert_eq!(c.div(1), c);
    assert_eq!(c.div(2), Color { r: 128, g: 50, b: 4 });
    assert_eq!(c.div(3), Color { r: 85, g: 33, b: 2 });
    assert_eq!(c.div(57), Color { r: 4, g: 2, b: 0 });
    assert_eq!(c.div(1000), Color { r: 0, g: 0, b: 0 });
    assert_eq!(c.div(u32::MAX), Color { r: 0, g: 0, b: 0 });
}

#[test]
fn div_by_zero_saturates() {
    assert_eq!(Color { r: 0, g: 1, b: 255 }.div(0), Color { r: 0, g: 255, b: 255 });
}

#[test]
fn div_agrees_with_float_scaling_on_gradient_divisors() {
    for channel in 0..=255u8 {
        for divisor in 1..=57u32 {
            let c = Color { r: channel, g: 255 - channel, b: channel / 3 };
            assert_eq!(c.div(divisor), scaled(c, 1.0 / divisor as f32));
        }
    }
}

#[test]
fn new_solid_fills_every_cell() {
    let c = Color { r: 1, g: 2, b: 3 };
    let image = Image::new_solid(c);
    for row in 0..8 {
        for col in 0..8 {
            assert_eq!(*image.index((row, col)), c);
        }
    }
}

#[test]
fn default_image_is_black() {
    let image = <Image as tp_led_matrix::image::Default>::default();
    for row in 0..8 {
        assert_eq!(image.row(row), &[Color { r: 0, g: 0, b: 0 }; 8][..]);
    }
}

#[test]
fn row_is_eight_cells_left_to_right() {
    let mut image = <Image as tp_led_matrix::image::Default>::default();
    for col in 0..8 {
        *image.index_mut((3, col)) = Color { r: col as u8, g: 30, b: 3 };
    }
    let row = image.row(3);
    assert_eq!(row.len(), 8);
    for col in 0..8 {
        assert_eq!(row[col], Color { r: col as u8, g: 30, b: 3 });
    }
    assert_eq!(image.row(2), &[Color { r: 0, g: 0, b: 0 }; 8][..]);
    assert_eq!(image.row(4), &[Color { r: 0, g: 0, b: 0 }; 8][..]);
}

#[test]
fn gradient_origin_is_the_color() {
    let c = Color { r: 255, g: 100, b: 7 };
    let image = Image::gradient(c);
    assert_eq!(*image.index((0, 0)), c);
}

#[test]
fn gradient_far_corner_is_a_57th() {
    let c = Color { r: 255, g: 100, b: 7 };
    let image = Image::gradient(c);
    assert_eq!(*image.index((7, 7)), Color { r: 4, g: 2, b: 0 });
    assert_eq!(*image.index((7, 7)), scaled(c, 1.0 / 57.0));
    assert_eq!(*image.index((7, 7)), c.div(57));
}

#[test]
fn gradient_decays_faster_along_rows() {
    let image = Image::gradient(Color::blue());
    assert_eq!(*image.index((0, 1)), Color { r: 0, g: 0, b: 128 });
    assert_eq!(*image.index((1, 0)), Color { r: 0, g: 0, b: 128 });
    assert_eq!(*image.index((0, 2)), Color { r: 0, g: 0, b: 85 });
    assert_eq!(*image.index((2, 0)), Color { r: 0, g: 0, b: 51 });
    assert_eq!(*image.index((0, 7)), Color { r: 0, g: 0, b: 32 });
    assert_eq!(*image.index((7, 0)), Color { r: 0, g: 0, b: 5 });
}

#[test]
fn gradient_agrees_with_float_formula_everywhere() {
    for base in [Color::red(), Color { r: 183, g: 91, b: 17 }, Color { r: 1, g: 2, b: 128 }] {
        let image = Image::gradient(base);
        for row in 0..8usize {
            for col in 0..8usize {
                let divisor = (1 + row * row + col) as f32;
                assert_eq!(*image.index((row, col)), scaled(base, 1.0 / divisor));
            }
        }
    }
}

#[test]
fn bytes_are_row_major_rgb() {
    let mut image = <Image as tp_led_matrix::image::Default>::default();
    *image.index_mut((0, 0)) = Color { r: 1, g: 2, b: 3 };
    *image.index_mut((0, 1)) = Color { r: 4, g: 5, b: 6 };
    *image.index_mut((1, 0)) = Color { r: 7, g: 8, b: 9 };
    *image.index_mut((7, 7)) = Color { r: 10, g: 11, b: 12 };
    let bytes = image.bytes();
    assert_eq!(&bytes[0..6], &[1, 2, 3, 4, 5, 6]);
    assert_eq!(&bytes[24..27], &[7, 8, 9]);
    assert_eq!(&bytes[189..192], &[10, 11, 12]);
    assert_eq!(image.byte(25), 8);
}

#[test]
fn bytes_round_trip_through_cells() {
    let mut bytes = [0u8; 192];
    for i in 0..192 {
        bytes[i] = (i as u8).wrapping_mul(7).wrapping_add(3);
    }
    let image = Image::from_bytes(&bytes);
    for row in 0..8usize {
        for col in 0..8usize {
            let at = 3 * (8 * row + col);
            let pixel = *image.index((row, col));
            assert_eq!(pixel, Color { r: bytes[at], g: bytes[at + 1], b: bytes[at + 2] });
        }
    }
    assert_eq!(image.bytes(), bytes);
}

#[test]
fn image_round_trips_through_bytes() {
    let image = Image::gradient(Color { r: 200, g: 100, b: 50 });
    let back = Image::from_bytes(&image.bytes());
    for row in 0..8 {
        assert_eq!(back.row(row), image.row(row));
    }
}

#[test]
fn set_byte_changes_one_channel_of_one_pixel() {
    for i in 0..192usize {
        let mut image = Image::new_solid(Color { r: 9, g: 9, b: 9 });
        image.set_byte(i, 77);
        for p in 0..64usize {
            let pixel = *image.index((p / 8, p % 8));
            let mut expected = Color { r: 9, g: 9, b: 9 };
            if p == i / 3 {
                match i % 3 {
                    0 => expected.r = 77,
                    1 => expected.g = 77,
                    _ => expected.b = 77,
                }
            }
            assert_eq!(pixel, expected);
        }
        assert_eq!(image.byte(i), 77);
    }
}
