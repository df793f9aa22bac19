use cloth_sim::cloth::{Point, Stick, Window};
use cloth_sim::mode::Mode;

type V = (f32, f32);

fn dist(a: &V, b: &V) -> f32 {
    ((a.0 - b.0) * (a.0 - b.0) + (a.1 - b.1) * (a.1 - b.1)).sqrt()
}

fn window_with(points: &[V]) -> Window<V, f32> {
    let mut w: Window<V, f32> = Window::new();
    for p in points {
        w.spawn_point(true, *p);
    }
    w
}

fn counts(w: &Window<V, f32>) -> Vec<u32> {
    w.points().iter().map(|p| p.connection_count).collect()
}

fn ends(w: &Window<V, f32>) -> Vec<(usize, usize)> {
    w.sticks().iter().map(|s| (s.start, s.end)).collect()
}

#[test]
fn new_window_is_empty_in_place_mode() {
    let w: Window<V, f32> = Window::new();
    assert_eq!(w.points().len(), 0);
    assert_eq!(w.sticks().len(), 0);
    assert_eq!(w.mode(), Mode::Place);
    assert_eq!(w.closest_point(), None);
    assert_eq!(w.newstickstart(), None);
    assert_eq!(w.newstickend(), None);
    assert_eq!(w.counter(), 0);
}

#[test]
fn spawn_point_only_when_pressed() {
    let mut w: Window<V, f32> = Window::new();
    w.spawn_point(false, (1.0, 2.0));
    assert_eq!(w.points().len(), 0);
    w.spawn_point(true, (1.0, 2.0));
    assert_eq!(w.points().len(), 1);
    let p: Point<V> = w.points()[0];
    assert_eq!(p.pos, (1.0, 2.0));
    assert_eq!(p.prev, (1.0, 2.0));
    assert!(!p.is_static);
    assert_eq!(p.connection_count, 0);
}

#[test]
fn add_stick_counts_both_ends() {
    let mut w = window_with(&[(0.0, 0.0), (3.0, 4.0), (6.0, 8.0)]);
    w.add_stick(Stick { start: 0, end: 1, target_length: 5.0 });
    w.add_stick(Stick { start: 1, end: 2, target_length: 5.0 });
    assert_eq!(counts(&w), vec![1, 2, 1]);
    assert_eq!(ends(&w), vec![(0, 1), (1, 2)]);
}

#[test]
fn remove_stick_moves_last_into_place() {
    let mut w = window_with(&[(0.0, 0.0), (1.0, 0.0), (2.0, 0.0)]);
    w.add_stick(Stick { start: 0, end: 1, target_length: 1.0 });
    w.add_stick(Stick { start: 1, end: 2, target_length: 1.0 });
    w.add_stick(Stick { start: 2, end: 0, target_length: 2.0 });
    let removed = w.remove_stick(0);
    assert_eq!(removed, (0, 1));
    assert_eq!(ends(&w), vec![(2, 0), (1, 2)]);
    assert_eq!(counts(&w), vec![1, 1, 2]);
}

#[test]
fn remove_undoes_add() {
    let mut w = window_with(&[(0.0, 0.0), (1.0, 0.0)]);
    w.add_stick(Stick { start: 0, end: 1, target_length: 1.0 });
    let before_counts = counts(&w);
    let before_ends = ends(&w);
    w.add_stick(Stick { start: 1, end: 0, target_length: 7.0 });
    let last = w.sticks().len() - 1;
    assert_eq!(w.remove_stick(last), (1, 0));
    assert_eq!(counts(&w), before_counts);
    assert_eq!(ends(&w), before_ends);
}

#[test]
fn clear_sticks_keeps_the_counts() {
    let mut w = window_with(&[(0.0, 0.0), (1.0, 0.0)]);
    w.add_stick(Stick { start: 0, end: 1, target_length: 1.0 });
    w.clear_sticks();
    assert_eq!(w.sticks().len(), 0);
    assert_eq!(counts(&w), vec![1, 1]);
}

#[test]
fn clear_all_erases_everything() {
    let mut w = window_with(&[(0.0, 0.0), (1.0, 0.0)]);
    w.add_stick(Stick { start: 0, end: 1, target_length: 1.0 });
    w.set_closest_point(Some(1));
    w.start_connection(Some(0));
    w.clear_all();
    assert_eq!(w.sticks().len(), 0);
    assert_eq!(w.points().len(), 0);
    assert_eq!(w.closest_point(), None);
    assert_eq!(w.newstickstart(), Some(0));
    assert_eq!(w.newstickend(), None);
}

#[test]
fn generate_connections_joins_every_ordered_pair() {
    let mut w = window_with(&[(0.0, 0.0), (3.0, 4.0), (0.0, 1.0)]);
    w.generate_connections(dist);
    assert_eq!(ends(&w), vec![(0, 1), (0, 2), (1, 0), (1, 2), (2, 0), (2, 1)]);
    assert_eq!(counts(&w), vec![4, 4, 4]);
    assert_eq!(w.sticks()[0].target_length, 5.0);
    assert_eq!(w.sticks()[1].target_length, 1.0);
}

#[test]
fn generate_connections_on_one_point_adds_nothing() {
    let mut w = window_with(&[(0.0, 0.0)]);
    w.generate_connections(dist);
    assert_eq!(w.sticks().len(), 0);
}

fn grid_place(step: f32) -> impl Fn(u32, u32) -> V {
    move |i: u32, j: u32| (20.0 + j as f32 * step, 20.0 + i as f32 * step)
}

#[test]
fn generate_grid_of_three() {
    let mut w = window_with(&[(100.0, 100.0)]);
    w.generate_grid(3, grid_place(6.0), dist);
    assert_eq!(w.points().len(), 10);
    assert_eq!(w.points()[1].pos, (20.0, 20.0));
    assert_eq!(w.points()[2].pos, (26.0, 20.0));
    assert_eq!(w.points()[4].pos, (20.0, 26.0));
    let statics: Vec<bool> = w.points().iter().map(|p| p.is_static).collect();
    assert_eq!(statics, vec![false, true, false, true, false, false, false, false, false, false]);
    assert_eq!(
        ends(&w),
        vec![
            (1, 2),
            (1, 4),
            (2, 3),
            (2, 5),
            (4, 5),
            (4, 7),
            (5, 6),
            (5, 8),
            (6, 3),
            (7, 8),
            (9, 6),
            (8, 9),
        ]
    );
    assert_eq!(counts(&w), vec![0, 2, 3, 2, 3, 4, 3, 2, 3, 2]);
    assert!(w.sticks().iter().all(|s| s.target_length == 6.0));
}

#[test]
fn generate_grid_of_one_is_a_lone_pinned_point() {
    let mut w: Window<V, f32> = Window::new();
    w.generate_grid(1, grid_place(6.0), dist);
    assert_eq!(w.points().len(), 1);
    assert!(w.points()[0].is_static);
    assert_eq!(w.sticks().len(), 0);
}

#[test]
fn generate_grid_like_the_g_key() {
    let mut w: Window<V, f32> = Window::new();
    w.generate_grid(64, grid_place(6.0), dist);
    assert_eq!(w.points().len(), 4096);
    assert_eq!(w.sticks().len(), 2 * 63 * 63 + 2 * 63);
    let pinned = w.points().iter().filter(|p| p.is_static).count();
    assert_eq!(pinned, 17);
    assert_eq!(w.points()[64 + 1].connection_count, 4);
    assert_eq!(w.points()[4095].connection_count, 2);
}

#[test]
fn snap_removes_flagged_sticks_only() {
    let mut w = window_with(&[(0.0, 0.0), (1.0, 0.0), (0.0, 1.0), (1.0, 1.0)]);
    w.add_stick(Stick { start: 0, end: 1, target_length: 1.0 });
    w.add_stick(Stick { start: 0, end: 2, target_length: 1.0 });
    w.add_stick(Stick { start: 3, end: 1, target_length: 1.0 });
    w.add_stick(Stick { start: 2, end: 3, target_length: 1.0 });
    w.snap_apart_too_long_sticks(vec![true, false, false, false]);
    assert_eq!(ends(&w), vec![(2, 3), (0, 2), (3, 1)]);
    assert_eq!(w.points().len(), 4);
    assert_eq!(counts(&w), vec![1, 1, 2, 2]);
    assert_eq!(w.counter(), 1);
}

#[test]
fn snap_everything_deletes_the_lonely_points() {
    let mut w = window_with(&[(0.0, 0.0), (1.0, 0.0), (0.0, 1.0), (1.0, 1.0)]);
    w.add_stick(Stick { start: 0, end: 1, target_length: 1.0 });
    w.add_stick(Stick { start: 0, end: 2, target_length: 1.0 });
    w.add_stick(Stick { start: 3, end: 1, target_length: 1.0 });
    w.add_stick(Stick { start: 2, end: 3, target_length: 1.0 });
    w.snap_apart_too_long_sticks(vec![true, true, true, true]);
    assert_eq!(w.sticks().len(), 0);
    assert_eq!(w.points().len(), 0);
    assert_eq!(w.counter(), 4);
}

#[test]
fn snapping_one_stick_keeps_a_free_point_and_renumbers() {
    let mut w = window_with(&[(0.0, 0.0), (1.0, 0.0), (5.0, 5.0), (9.0, 9.0)]);
    w.add_stick(Stick { start: 0, end: 1, target_length: 1.0 });
    w.add_stick(Stick { start: 2, end: 3, target_length: 1.0 });
    w.set_closest_point(Some(3));
    w.snap_apart_too_long_sticks(vec![true, false]);
    assert_eq!(w.points().len(), 2);
    let positions: Vec<V> = w.points().iter().map(|p| p.pos).collect();
    assert_eq!(positions, vec![(9.0, 9.0), (5.0, 5.0)]);
    assert_eq!(ends(&w), vec![(1, 0)]);
    assert_eq!(counts(&w), vec![1, 1]);
    assert_eq!(w.closest_point(), None);
}

#[test]
fn snap_nothing_changes_nothing() {
    let mut w = window_with(&[(0.0, 0.0), (1.0, 0.0)]);
    w.add_stick(Stick { start: 0, end: 1, target_length: 1.0 });
    w.set_closest_point(Some(1));
    w.snap_apart_too_long_sticks(vec![false]);
    assert_eq!(ends(&w), vec![(0, 1)]);
    assert_eq!(w.closest_point(), Some(1));
    assert_eq!(w.counter(), 0);
}

#[test]
fn orphan_deletion_twice_is_deletion_once() {
    let mut w = window_with(&[(0.0, 0.0), (1.0, 0.0), (2.0, 0.0)]);
    w.add_stick(Stick { start: 0, end: 1, target_length: 1.0 });
    w.snap_apart_too_long_sticks(vec![true]);
    let positions: Vec<V> = w.points().iter().map(|p| p.pos).collect();
    w.delete_orphan_points();
    let again: Vec<V> = w.points().iter().map(|p| p.pos).collect();
    assert_eq!(positions, vec![(2.0, 0.0)]);
    assert_eq!(again, positions);
}

#[test]
fn cut_everything_when_held() {
    let mut w = window_with(&[(0.0, 0.0), (1.0, 0.0), (2.0, 0.0)]);
    w.add_stick(Stick { start: 0, end: 1, target_length: 1.0 });
    w.add_stick(Stick { start: 1, end: 2, target_length: 1.0 });
    let cut = |_a: &Point<V>, _b: &Point<V>, _s: &Stick<f32>| -> Option<(V, bool)> { Some(((1.0, 0.0), true)) };
    let shift = |p: &V, d: &V| (p.0 + d.0, p.1 + d.1);
    w.cut_sticks(true, cut, shift);
    assert_eq!(w.sticks().len(), 0);
    assert_eq!(w.points().len(), 0);
    assert_eq!(w.counter(), 2);
}

#[test]
fn cut_nudges_without_cutting() {
    let mut w = window_with(&[(0.0, 0.0), (1.0, 0.0)]);
    w.add_stick(Stick { start: 0, end: 1, target_length: 1.0 });
    let cut = |_a: &Point<V>, _b: &Point<V>, _s: &Stick<f32>| -> Option<(V, bool)> { Some(((0.0, 2.0), false)) };
    let shift = |p: &V, d: &V| (p.0 + d.0, p.1 + d.1);
    w.cut_sticks(true, cut, shift);
    assert_eq!(ends(&w), vec![(0, 1)]);
    assert_eq!(w.points()[0].pos, (0.0, 2.0));
    assert_eq!(w.points()[1].pos, (1.0, 2.0));
    assert_eq!(w.points()[0].prev, (0.0, 0.0));
    assert_eq!(w.counter(), 0);
}

#[test]
fn cut_only_where_the_test_says() {
    let mut w = window_with(&[(0.0, 0.0), (1.0, 0.0), (10.0, 0.0), (11.0, 0.0)]);
    w.add_stick(Stick { start: 0, end: 1, target_length: 1.0 });
    w.add_stick(Stick { start: 2, end: 3, target_length: 1.0 });
    let cut = |a: &Point<V>, _b: &Point<V>, _s: &Stick<f32>| -> Option<(V, bool)> {
        if a.pos.0 > 5.0 {
            Some(((0.0, 0.0), true))
        } else {
            None
        }
    };
    let shift = |p: &V, d: &V| (p.0 + d.0, p.1 + d.1);
    w.cut_sticks(true, cut, shift);
    assert_eq!(ends(&w), vec![(0, 1)]);
    assert_eq!(w.points().len(), 2);
    assert_eq!(w.counter(), 1);
}

#[test]
fn cut_does_nothing_when_not_held() {
    let mut w = window_with(&[(0.0, 0.0), (1.0, 0.0)]);
    w.add_stick(Stick { start: 0, end: 1, target_length: 1.0 });
    let cut = |_a: &Point<V>, _b: &Point<V>, _s: &Stick<f32>| -> Option<(V, bool)> { Some(((1.0, 0.0), true)) };
    let shift = |p: &V, d: &V| (p.0 + d.0, p.1 + d.1);
    w.cut_sticks(false, cut, shift);
    assert_eq!(ends(&w), vec![(0, 1)]);
    assert_eq!(w.points()[0].pos, (0.0, 0.0));
}

fn too_long_flags(w: &Window<V, f32>) -> Vec<bool> {
    w.sticks()
        .iter()
        .map(|s| dist(&w.points()[s.start].pos, &w.points()[s.end].pos) / s.target_length > 3.0)
        .collect()
}

#[test]
fn snapping_twice_is_snapping_once() {
    let mut w = window_with(&[(0.0, 0.0), (1.0, 0.0), (10.0, 0.0), (2.0, 0.0)]);
    w.add_stick(Stick { start: 0, end: 1, target_length: 1.0 });
    w.add_stick(Stick { start: 1, end: 2, target_length: 1.0 });
    w.add_stick(Stick { start: 1, end: 3, target_length: 1.0 });
    let flags = too_long_flags(&w);
    assert_eq!(flags, vec![false, true, false]);
    w.snap_apart_too_long_sticks(flags);
    let positions: Vec<V> = w.points().iter().map(|p| p.pos).collect();
    let sticks = ends(&w);
    let counter = w.counter();
    assert_eq!(positions, vec![(0.0, 0.0), (1.0, 0.0), (2.0, 0.0)]);
    let flags = too_long_flags(&w);
    assert_eq!(flags, vec![false, false]);
    w.snap_apart_too_long_sticks(flags);
    let again: Vec<V> = w.points().iter().map(|p| p.pos).collect();
    assert_eq!(again, positions);
    assert_eq!(ends(&w), sticks);
    assert_eq!(w.counter(), counter);
}

#[test]
fn cutting_never_adds_points() {
    let mut w = window_with(&[(0.0, 0.0), (1.0, 0.0), (2.0, 0.0), (3.0, 0.0)]);
    w.add_stick(Stick { start: 0, end: 1, target_length: 1.0 });
    w.add_stick(Stick { start: 2, end: 3, target_length: 1.0 });
    let cut = |a: &Point<V>, _b: &Point<V>, _s: &Stick<f32>| -> Option<(V, bool)> {
        if a.pos.0 < 1.0 { Some(((0.0, 0.0), true)) } else { None }
    };
    let shift = |p: &V, d: &V| (p.0 + d.0, p.1 + d.1);
    w.cut_sticks(true, cut, shift);
    assert_eq!(w.points().len(), 2);
    assert_eq!(w.sticks().len(), 1);
    assert_eq!(w.counter(), 1);
}
