use canvas_engine::{BrushOptions, CanvasEngine, CanvasError, FilterType, Touch};

fn red_brush() -> BrushOptions {
    BrushOptions::new(2000, 1000, 1000, 255, 0, 0)
}

fn px(e: &CanvasEngine, x: usize, y: usize) -> [u8; 4] {
    let w = e.width() as usize;
    let b = e.export_pixels();
    let i = (y * w + x) * 4;
    [b[i], b[i + 1], b[i + 2], b[i + 3]]
}

fn filled(w: u32, h: u32, rgba: [u8; 4]) -> CanvasEngine {
    let mut bytes = Vec::new();
    for _ in 0..(w * h) {
        bytes.extend_from_slice(&rgba);
    }
    let mut e = CanvasEngine::new(w, h);
    assert_eq!(e.load_pixels(&bytes, w, h), Ok(()));
    e
}

#[test]
fn new_canvas_is_transparent_black() {
    let e = CanvasEngine::new(3, 2);
    assert_eq!(e.width(), 3);
    assert_eq!(e.height(), 2);
    assert_eq!(e.export_pixels(), vec![0u8; 24]);
}

#[test]
fn load_rejects_wrong_length() {
    let mut e = CanvasEngine::new(2, 2);
    assert_eq!(e.load_pixels(&[1, 2, 3], 2, 2), Err(CanvasError::InvalidDimensions));
    assert_eq!(e.width(), 2);
    assert_eq!(e.export_pixels(), vec![0u8; 16]);
}

#[test]
fn load_replaces_buffer_and_clears_history() {
    let mut e = CanvasEngine::new(2, 2);
    e.clear();
    let data: Vec<u8> = (0..8).collect();
    assert_eq!(e.load_pixels(&data, 1, 2), Ok(()));
    assert_eq!((e.width(), e.height()), (1, 2));
    assert_eq!(e.export_pixels(), data);
    assert!(!e.undo());
    assert!(!e.redo());
}

#[test]
fn stroke_single_dab_paints_center_only() {
    let mut e = CanvasEngine::new(4, 4);
    let dab = [
        Touch { x: 0, y: 0, falloff: 65536 },
        Touch { x: 1, y: 0, falloff: 0 },
        Touch { x: 0, y: 1, falloff: 0 },
    ];
    let mut touches = Vec::new();
    touches.extend_from_slice(&dab);
    touches.extend_from_slice(&dab);
    e.apply_brush(&touches, &red_brush(), false);
    assert_eq!(px(&e, 0, 0), [255, 0, 0, 255]);
    let mut expected = vec![0u8; 64];
    expected[0] = 255;
    expected[3] = 255;
    assert_eq!(e.export_pixels(), expected);
}

#[test]
fn brush_blends_halfway_and_raises_alpha() {
    let mut e = filled(1, 1, [0, 100, 200, 10]);
    let touches = vec![Touch { x: 0, y: 0, falloff: 32768 }];
    e.apply_brush(&touches, &BrushOptions::new(1000, 1000, 1000, 200, 0, 100), false);
    assert_eq!(px(&e, 0, 0), [100, 50, 150, 127]);
}

#[test]
fn brush_touches_off_canvas_are_ignored() {
    let mut e = CanvasEngine::new(2, 2);
    let touches = vec![
        Touch { x: -1, y: 0, falloff: 65536 },
        Touch { x: 2, y: 1, falloff: 65536 },
        Touch { x: 0, y: 5, falloff: 65536 },
    ];
    e.apply_brush(&touches, &red_brush(), false);
    assert_eq!(e.export_pixels(), vec![0u8; 16]);
}

#[test]
fn erase_scales_alpha_down() {
    let mut e = filled(1, 1, [10, 20, 30, 200]);
    let touches = vec![Touch { x: 0, y: 0, falloff: 65536 }];
    e.apply_brush(&touches, &BrushOptions::new(1000, 1000, 250, 0, 0, 0), true);
    assert_eq!(px(&e, 0, 0), [10, 20, 30, 150]);
    e.apply_brush(&touches, &BrushOptions::new(1000, 1000, 1000, 0, 0, 0), true);
    assert_eq!(px(&e, 0, 0), [10, 20, 30, 0]);
}

#[test]
fn painting_never_lowers_alpha() {
    let mut e = filled(1, 1, [0, 0, 0, 250]);
    let touches = vec![Touch { x: 0, y: 0, falloff: 65536 }];
    e.apply_brush(&touches, &BrushOptions::new(1000, 1000, 100, 255, 255, 255), false);
    assert_eq!(px(&e, 0, 0), [25, 25, 25, 250]);
}

#[test]
fn sharpen_keeps_uniform_white() {
    let mut e = filled(3, 3, [255, 255, 255, 255]);
    let before = e.export_pixels();
    e.apply_filter(FilterType::Sharpen, 0);
    assert_eq!(e.export_pixels(), before);
}

#[test]
fn sharpen_changes_only_interior() {
    let mut bytes = vec![50u8; 36];
    bytes[16] = 100;
    let mut e = CanvasEngine::new(3, 3);
    e.load_pixels(&bytes, 3, 3).unwrap();
    e.apply_filter(FilterType::Sharpen, 0);
    let mut expected = bytes.clone();
    expected[16] = 255;
    expected[17] = 50;
    expected[18] = 50;
    assert_eq!(e.export_pixels(), expected);
}

#[test]
fn sharpen_clamps_to_zero() {
    let mut bytes = vec![200u8; 36];
    bytes[16] = 10;
    let mut e = CanvasEngine::new(3, 3);
    e.load_pixels(&bytes, 3, 3).unwrap();
    e.apply_filter(FilterType::Sharpen, 0);
    assert_eq!(px(&e, 1, 1), [0, 200, 200, 200]);
}

#[test]
fn grayscale_uses_rounded_luma() {
    let mut e = filled(1, 1, [255, 0, 0, 7]);
    e.apply_filter(FilterType::Grayscale, 0);
    assert_eq!(px(&e, 0, 0), [76, 76, 76, 7]);
    let mut g = filled(1, 1, [10, 20, 30, 1]);
    g.apply_filter(FilterType::Grayscale, 0);
    assert_eq!(px(&g, 0, 0), [18, 18, 18, 1]);
}

#[test]
fn grayscale_twice_equals_once() {
    let data: Vec<u8> = (0..32).map(|i| (i * 37 % 256) as u8).collect();
    let mut e = CanvasEngine::new(2, 4);
    e.load_pixels(&data, 2, 4).unwrap();
    e.apply_filter(FilterType::Grayscale, 0);
    let once = e.export_pixels();
    e.apply_filter(FilterType::Grayscale, 0);
    assert_eq!(e.export_pixels(), once);
}

#[test]
fn invert_twice_restores() {
    let data: Vec<u8> = (0..16).map(|i| (i * 53 % 256) as u8).collect();
    let mut e = CanvasEngine::new(2, 2);
    e.load_pixels(&data, 2, 2).unwrap();
    e.apply_filter(FilterType::Invert, 0);
    assert_eq!(px(&e, 0, 0), [255, 202, 149, data[3]]);
    e.apply_filter(FilterType::Invert, 0);
    assert_eq!(e.export_pixels(), data);
}

#[test]
fn brightness_zero_is_identity() {
    let data: Vec<u8> = (0..16).map(|i| (i * 29 % 256) as u8).collect();
    let mut e = CanvasEngine::new(2, 2);
    e.load_pixels(&data, 2, 2).unwrap();
    e.apply_filter(FilterType::Brightness, 0);
    assert_eq!(e.export_pixels(), data);
}

#[test]
fn brightness_shifts_and_clamps() {
    let mut e = filled(1, 1, [0, 100, 250, 40]);
    e.apply_filter(FilterType::Brightness, 100);
    assert_eq!(px(&e, 0, 0), [26, 126, 255, 40]);
    e.apply_filter(FilterType::Brightness, -1000);
    assert_eq!(px(&e, 0, 0), [0, 0, 0, 40]);
}

#[test]
fn blur_averages_clipped_window() {
    let data = vec![0, 0, 0, 0, 90, 30, 60, 255, 0, 0, 0, 0];
    let mut e = CanvasEngine::new(3, 1);
    e.load_pixels(&data, 3, 1).unwrap();
    e.apply_filter(FilterType::Blur, 200);
    assert_eq!(e.export_pixels(), vec![45, 15, 30, 127, 30, 10, 20, 85, 45, 15, 30, 127]);
}

#[test]
fn blur_radius_at_least_one_and_scaled() {
    let data = vec![0, 0, 0, 0, 0, 0, 0, 0, 0, 0, 0, 0, 250, 250, 250, 250];
    let mut e = CanvasEngine::new(4, 1);
    e.load_pixels(&data, 4, 1).unwrap();
    e.apply_filter(FilterType::Blur, -500);
    assert_eq!(px(&e, 0, 0), [0, 0, 0, 0]);
    assert_eq!(px(&e, 3, 0), [125, 125, 125, 125]);
    let mut f = CanvasEngine::new(4, 1);
    f.load_pixels(&data, 4, 1).unwrap();
    f.apply_filter(FilterType::Blur, 600);
    assert_eq!(px(&f, 0, 0), [62, 62, 62, 62]);
}

#[test]
fn fill_uniform_buffer_recolours_all() {
    let mut e = filled(5, 4, [9, 9, 9, 9]);
    e.flood_fill(2, 3, &BrushOptions::new(0, 0, 1000, 1, 2, 3));
    assert_eq!(e.export_pixels(), [1u8, 2, 3, 255].repeat(20));
}

#[test]
fn fill_stops_at_other_colours() {
    let mut bytes = [0u8, 0, 0, 0].repeat(9);
    for y in 0..3 {
        let i = (y * 3 + 1) * 4;
        bytes[i..i + 4].copy_from_slice(&[5, 5, 5, 5]);
    }
    let mut e = CanvasEngine::new(3, 3);
    e.load_pixels(&bytes, 3, 3).unwrap();
    e.flood_fill(0, 0, &BrushOptions::new(0, 0, 500, 7, 7, 7));
    for y in 0..3 {
        assert_eq!(px(&e, 0, y), [7, 7, 7, 128]);
        assert_eq!(px(&e, 1, y), [5, 5, 5, 5]);
        assert_eq!(px(&e, 2, y), [0, 0, 0, 0]);
    }
}

#[test]
fn fill_same_colour_is_noop_but_records_history() {
    let mut e = filled(2, 2, [1, 2, 3, 255]);
    let before = e.export_pixels();
    e.flood_fill(1, 1, &BrushOptions::new(0, 0, 1000, 1, 2, 3));
    assert_eq!(e.export_pixels(), before);
    assert!(e.undo());
    assert!(!e.undo());
}

#[test]
fn fill_outside_canvas_does_nothing() {
    let mut e = CanvasEngine::new(2, 2);
    e.flood_fill(2, 0, &red_brush());
    e.flood_fill(0, 9, &red_brush());
    assert_eq!(e.export_pixels(), vec![0u8; 16]);
    assert!(!e.undo());
}

#[test]
fn undo_then_redo_round_trip() {
    let mut e = CanvasEngine::new(2, 2);
    let before = e.export_pixels();
    e.flood_fill(0, 0, &red_brush());
    let after = e.export_pixels();
    assert_ne!(before, after);
    assert!(e.undo());
    assert_eq!(e.export_pixels(), before);
    assert!(e.redo());
    assert_eq!(e.export_pixels(), after);
    assert!(!e.redo());
}

#[test]
fn history_keeps_last_thirty_two() {
    let mut e = CanvasEngine::new(1, 1);
    let mut pre_states = Vec::new();
    for _ in 0..40 {
        pre_states.push(e.export_pixels());
        e.apply_filter(FilterType::Brightness, 4);
    }
    for k in 0..32 {
        assert!(e.undo());
        assert_eq!(e.export_pixels(), pre_states[39 - k]);
    }
    assert!(!e.undo());
    assert_eq!(e.export_pixels(), pre_states[8]);
}

#[test]
fn mutation_clears_redo() {
    let mut e = CanvasEngine::new(1, 1);
    e.apply_filter(FilterType::Invert, 0);
    e.apply_filter(FilterType::Invert, 0);
    assert!(e.undo());
    e.clear();
    assert!(!e.redo());
    assert!(e.undo());
    assert_eq!(e.export_pixels(), vec![255, 255, 255, 0]);
}

#[test]
fn clear_zeroes_and_can_be_undone() {
    let mut e = filled(2, 1, [4, 5, 6, 7]);
    e.clear();
    assert_eq!(e.export_pixels(), vec![0u8; 8]);
    assert!(e.undo());
    assert_eq!(e.export_pixels(), vec![4, 5, 6, 7, 4, 5, 6, 7]);
}
