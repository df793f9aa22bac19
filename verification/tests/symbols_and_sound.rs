use cloth_sim::audio::{generate_ticks, TICK_END, TICK_MIN};
use cloth_sim::cloth::{Stick, Window};
use cloth_sim::mode::Mode;
use cloth_sim::symbols::{Shade, SymbolPixel, SYMBOL_HEIGHT, SYMBOL_WIDTH};

type V = (f32, f32);

fn symbol_pixels(mode: Mode) -> Vec<SymbolPixel> {
    let mut w: Window<V, f32> = Window::new();
    w.set_mode(mode);
    w.render_mode_symbol()
}

fn white(px: &[SymbolPixel]) -> Vec<SymbolPixel> {
    px.iter().copied().filter(|p| p.shade == Shade::White).collect()
}

fn frame(px: &[SymbolPixel]) -> Vec<SymbolPixel> {
    px.iter().copied().filter(|p| p.shade != Shade::White).collect()
}

#[test]
fn symbol_is_nine_by_twelve() {
    assert_eq!(SYMBOL_WIDTH, 9);
    assert_eq!(SYMBOL_HEIGHT, 12);
}

#[test]
fn hand_symbol_pixels() {
    let px = symbol_pixels(Mode::Hand);
    let w = white(&px);
    assert_eq!(w.len(), 66);
    assert_eq!(w[0], SymbolPixel { x: 9, y: 5, shade: Shade::White });
    assert_eq!(w[1], SymbolPixel { x: 7, y: 6, shade: Shade::White });
    assert_eq!(w[65], SymbolPixel { x: 12, y: 16, shade: Shade::White });
    assert_eq!(px.len(), 66 + 116);
}

#[test]
fn cut_place_and_force_symbol_pixels() {
    let cut = white(&symbol_pixels(Mode::Cut));
    assert_eq!(cut.len(), 33);
    assert_eq!((cut[0].x, cut[0].y), (6, 5));
    assert_eq!((cut[1].x, cut[1].y), (12, 5));
    let place = white(&symbol_pixels(Mode::Place));
    assert_eq!(place.len(), 21);
    assert_eq!((place[0].x, place[0].y), (9, 6));
    assert_eq!((place[20].x, place[20].y), (9, 14));
    let force = white(&symbol_pixels(Mode::Force));
    assert_eq!(force.len(), 19);
    assert_eq!((force[0].x, force[0].y), (7, 7));
    assert_eq!((force[18].x, force[18].y), (10, 12));
}

#[test]
fn symbol_comes_before_its_frame() {
    let px = symbol_pixels(Mode::Cut);
    assert!(px[..33].iter().all(|p| p.shade == Shade::White));
    assert!(px[33..].iter().all(|p| p.shade != Shade::White));
}

#[test]
fn frame_is_the_same_for_every_tool() {
    let f = frame(&symbol_pixels(Mode::Hand));
    assert_eq!(f, frame(&symbol_pixels(Mode::Cut)));
    assert_eq!(f, frame(&symbol_pixels(Mode::Place)));
    assert_eq!(f, frame(&symbol_pixels(Mode::Force)));
}

#[test]
fn frame_is_shaded_across_the_diagonal() {
    let f = frame(&symbol_pixels(Mode::Place));
    assert_eq!(f.len(), 116);
    assert_eq!(f.iter().filter(|p| p.shade == Shade::Light).count(), 62);
    assert_eq!(f[0], SymbolPixel { x: 2, y: 2, shade: Shade::Light });
    assert_eq!(f[15], SymbolPixel { x: 2, y: 3, shade: Shade::Dark });
    assert_eq!(f[16], SymbolPixel { x: 3, y: 3, shade: Shade::Light });
    assert_eq!(f[115], SymbolPixel { x: 16, y: 19, shade: Shade::Light });
    assert!(f.iter().all(|p| p.x >= 2 && p.x <= 16 && p.y >= 2 && p.y <= 19));
    assert!(f.iter().all(|p| !(p.x >= 4 && p.x <= 14 && p.y >= 4 && p.y <= 17)));
}

#[test]
fn ticks_spread_over_the_buffer() {
    let mut data = vec![true; 10];
    generate_ticks(&mut data, 2, 3);
    let expected = vec![true, true, true, false, false, true, true, true, false, false];
    assert_eq!(data, expected);
}

#[test]
fn ticks_overlapping_their_neighbours() {
    let mut data = vec![false; 10];
    generate_ticks(&mut data, 4, 3);
    let mut expected = vec![true; 10];
    expected[9] = false;
    assert_eq!(data, expected);
}

#[test]
fn a_long_tick_stops_at_the_end() {
    let mut data = vec![false; 5];
    generate_ticks(&mut data, 1, 10);
    assert_eq!(data, vec![true; 5]);
}

#[test]
fn no_ticks_clears_the_buffer() {
    let mut data = vec![true; 6];
    generate_ticks(&mut data, 0, 4);
    assert_eq!(data, vec![false; 6]);
    let mut data = vec![true; 6];
    generate_ticks(&mut data, 3, 0);
    assert_eq!(data, vec![false; 6]);
}

#[test]
fn more_ticks_than_samples_all_start_at_zero() {
    let mut data = vec![false; 3];
    generate_ticks(&mut data, 5, 1);
    assert_eq!(data, vec![true, false, false]);
}

#[test]
fn an_empty_buffer_without_ticks() {
    let mut data: Vec<bool> = Vec::new();
    generate_ticks(&mut data, 0, 7);
    assert!(data.is_empty());
}

fn window_with_snaps(snaps: usize) -> Window<V, f32> {
    let mut w: Window<V, f32> = Window::new();
    for k in 0..snaps {
        w.spawn_point(true, (k as f32, 0.0));
        w.spawn_point(true, (k as f32, 1.0));
    }
    for k in 0..snaps {
        w.add_stick(Stick { start: 2 * k, end: 2 * k + 1, target_length: 1.0 });
    }
    w.snap_apart_too_long_sticks(vec![true; snaps]);
    w
}

#[test]
fn take_counter_starts_again_from_zero() {
    let mut w = window_with_snaps(3);
    assert_eq!(w.counter(), 3);
    assert_eq!(w.take_counter(), 3);
    assert_eq!(w.counter(), 0);
    assert_eq!(w.take_counter(), 0);
}

#[test]
fn no_orphans_between_tool_calls() {
    let w = window_with_snaps(2);
    assert!(w.orphans().is_empty());
}

#[test]
fn sfx_ticks_one_per_snap() {
    let mut w = window_with_snaps(2);
    let (data, length) = w.sfx_ticks(400);
    assert_eq!(w.counter(), 0);
    assert!(length >= 80 && length < 100);
    assert_eq!(data.len(), 400);
    for k in 0..400 {
        let expected = k < length || (k >= 200 && k < 200 + length);
        assert_eq!(data[k], expected, "sample {}", k);
    }
}

#[test]
fn sfx_ticks_silent_without_snaps() {
    let mut w: Window<V, f32> = Window::new();
    let (data, length) = w.sfx_ticks(50);
    assert!(length >= TICK_MIN && length < TICK_END);
    assert_eq!(data, vec![false; 50]);
}

#[test]
fn sfx_tick_lengths_vary() {
    assert_eq!((TICK_MIN, TICK_END), (80, 100));
    let mut seen = std::collections::BTreeSet::new();
    for _ in 0..200 {
        let mut w = window_with_snaps(1);
        let (data, length) = w.sfx_ticks(300);
        assert!(length >= 80 && length < 100);
        assert_eq!(data.iter().filter(|b| **b).count(), length);
        seen.insert(length);
    }
    assert!(seen.len() > 1);
}
