use cloth_sim::cloth::{Point, Stick, Window};
use cloth_sim::mode::Mode;
use cloth_sim::tools::{Input, InputStep};

type V = (f32, f32);

fn dist(a: &V, b: &V) -> f32 {
    ((a.0 - b.0) * (a.0 - b.0) + (a.1 - b.1) * (a.1 - b.1)).sqrt()
}

fn window_with(points: &[V]) -> Window<V, f32> {
    let mut w: Window<V, f32> = Window::new();
    for p in points {
        w.spawn_point(true, *p);
    }
    w
}

fn quiet() -> Input {
    Input {
        mouse0_held: false,
        mouse1_pressed: false,
        mouse1_released: false,
        mouse1_held: false,
        key_s: false,
        key_d: false,
        key_h: false,
        key_c: false,
        key_p: false,
        key_f: false,
        key_g: false,
        key_q: false,
        key_a: false,
        key_w: false,
        key_t: false,
    }
}

#[test]
fn quiet_frame_picks_and_resets() {
    let w: Window<V, f32> = Window::new();
    let steps = w.handle_input(&quiet());
    assert_eq!(steps, vec![InputStep::PickClosest, InputStep::ResetConnection, InputStep::DrawPreview]);
}

#[test]
fn dragging_by_hand_keeps_the_selection() {
    let mut w: Window<V, f32> = Window::new();
    w.set_mode(Mode::Hand);
    let mut input = quiet();
    input.mouse0_held = true;
    input.mouse1_held = true;
    let steps = w.handle_input(&input);
    assert_eq!(steps, vec![InputStep::DrawPreview]);
}

#[test]
fn mode_keys_follow_their_precedence() {
    let w: Window<V, f32> = Window::new();
    let mut input = quiet();
    input.key_c = true;
    input.key_f = true;
    input.mouse1_held = true;
    let steps = w.handle_input(&input);
    assert_eq!(steps, vec![InputStep::PickClosest, InputStep::SetMode(Mode::Cut), InputStep::DrawPreview]);
    input.key_h = true;
    let steps = w.handle_input(&input);
    assert_eq!(steps, vec![InputStep::PickClosest, InputStep::SetMode(Mode::Hand), InputStep::DrawPreview]);
}

#[test]
fn every_key_in_order() {
    let w: Window<V, f32> = Window::new();
    let mut input = quiet();
    input.key_s = true;
    input.key_d = true;
    input.key_p = true;
    input.key_g = true;
    input.key_q = true;
    input.key_a = true;
    input.key_w = true;
    input.key_t = true;
    input.mouse1_released = true;
    let steps = w.handle_input(&input);
    assert_eq!(
        steps,
        vec![
            InputStep::PickClosest,
            InputStep::PinClosest(true),
            InputStep::SetMode(Mode::Place),
            InputStep::WeaveGrid,
            InputStep::PrintDebug,
            InputStep::DeleteSticks,
            InputStep::DeleteAll,
            InputStep::ConnectAll,
            InputStep::EndConnection,
            InputStep::ResetConnection,
            InputStep::DrawPreview,
        ]
    );
}

#[test]
fn unpin_and_start_a_stick() {
    let w: Window<V, f32> = Window::new();
    let mut input = quiet();
    input.key_d = true;
    input.mouse1_pressed = true;
    let steps = w.handle_input(&input);
    assert_eq!(
        steps,
        vec![
            InputStep::PickClosest,
            InputStep::PinClosest(false),
            InputStep::StartConnection,
            InputStep::DrawPreview,
        ]
    );
}

#[test]
fn pin_closest_only_near_the_mouse() {
    let mut w = window_with(&[(0.0, 0.0), (1.0, 0.0)]);
    w.set_closest_point(Some(1));
    w.pin_closest(true, false);
    assert!(!w.points()[1].is_static);
    w.pin_closest(true, true);
    assert!(w.points()[1].is_static);
    w.pin_closest(false, true);
    assert!(!w.points()[1].is_static);
    assert!(!w.points()[0].is_static);
}

#[test]
fn drawing_a_stick_between_two_points() {
    let mut w = window_with(&[(0.0, 0.0), (3.0, 4.0)]);
    w.start_connection(Some(0));
    assert_eq!(w.newstickstart(), Some(0));
    assert_eq!(w.preview(Some(1)), Some(((0.0, 0.0), (3.0, 4.0))));
    assert_eq!(w.preview(Some(0)), None);
    w.end_connection(Some(1), dist);
    assert_eq!(w.sticks().len(), 1);
    let st: Stick<f32> = w.sticks()[0];
    assert_eq!((st.start, st.end, st.target_length), (0, 1, 5.0));
    assert_eq!(w.newstickstart(), None);
    assert_eq!(w.newstickend(), None);
    assert_eq!(w.points()[0].connection_count, 1);
    assert_eq!(w.points()[1].connection_count, 1);
}

#[test]
fn releasing_on_the_start_point_adds_nothing() {
    let mut w = window_with(&[(0.0, 0.0), (3.0, 4.0)]);
    w.start_connection(Some(1));
    w.end_connection(Some(1), dist);
    assert_eq!(w.sticks().len(), 0);
    assert_eq!(w.newstickstart(), Some(1));
    assert_eq!(w.newstickend(), Some(1));
    w.reset_connection();
    assert_eq!(w.newstickstart(), None);
    assert_eq!(w.newstickend(), None);
}

#[test]
fn releasing_without_a_start_does_nothing() {
    let mut w = window_with(&[(0.0, 0.0), (3.0, 4.0)]);
    w.end_connection(Some(1), dist);
    assert_eq!(w.sticks().len(), 0);
    assert_eq!(w.newstickend(), None);
    assert_eq!(w.preview(Some(1)), None);
}

#[test]
fn debug_info_reports_the_selection() {
    let mut w = window_with(&[(0.0, 0.0), (3.0, 4.0)]);
    w.add_stick(Stick { start: 0, end: 1, target_length: 5.0 });
    w.set_closest_point(Some(1));
    let info = w.debug_info();
    assert_eq!(info.points, 2);
    assert_eq!(info.sticks, 1);
    assert_eq!(info.closest_point, Some(1));
    let p: Point<V> = info.closest.unwrap();
    assert_eq!(p.pos, (3.0, 4.0));
    assert_eq!(p.connection_count, 1);
    w.set_closest_point(None);
    assert!(w.debug_info().closest.is_none());
}

#[test]
fn move_point_follows_the_mouse_while_held() {
    let mut w = window_with(&[(0.0, 0.0), (3.0, 4.0)]);
    w.set_closest_point(Some(0));
    w.move_point(false, (9.0, 9.0));
    assert_eq!(w.points()[0].pos, (0.0, 0.0));
    w.move_point(true, (9.0, 9.0));
    assert_eq!(w.points()[0].pos, (9.0, 9.0));
    assert_eq!(w.points()[0].prev, (0.0, 0.0));
    assert_eq!(w.points()[1].pos, (3.0, 4.0));
}

#[test]
fn force_leaves_pinned_points_alone() {
    let mut w = window_with(&[(0.0, 0.0), (3.0, 4.0)]);
    w.set_closest_point(Some(0));
    w.pin_closest(true, true);
    let push = |p: &V| (p.0 + 1.0, p.1);
    w.apply_force(true, push);
    assert_eq!(w.points()[0].pos, (0.0, 0.0));
    assert_eq!(w.points()[1].pos, (4.0, 4.0));
    w.apply_force(false, push);
    assert_eq!(w.points()[1].pos, (4.0, 4.0));
}

#[test]
fn render_points_highlights_the_closest() {
    let mut w = window_with(&[(0.0, 0.0), (3.0, 4.0)]);
    w.set_closest_point(Some(1));
    assert_eq!(w.render_points(), vec![((0.0, 0.0), false), ((3.0, 4.0), true)]);
    w.set_closest_point(None);
    assert_eq!(w.render_points(), vec![((0.0, 0.0), false), ((3.0, 4.0), false)]);
}

#[test]
fn render_sticks_gives_their_ends() {
    let mut w = window_with(&[(0.0, 0.0), (3.0, 4.0), (1.0, 1.0)]);
    w.add_stick(Stick { start: 2, end: 0, target_length: 1.0 });
    w.add_stick(Stick { start: 0, end: 1, target_length: 5.0 });
    assert_eq!(w.render_sticks(), vec![((1.0, 1.0), (0.0, 0.0)), ((0.0, 0.0), (3.0, 4.0))]);
}

#[test]
fn simulate_without_rounds_integrates_the_free_points() {
    let mut w = window_with(&[(0.0, 0.0), (3.0, 4.0)]);
    w.set_closest_point(Some(0));
    w.pin_closest(true, true);
    let integrate = |p: &Point<V>| ((p.pos.0, p.pos.1 + 1.0), p.pos);
    let relax = |a: &V, b: &V, _l: &f32| (*a, *b);
    let bounce = |p: &Point<V>| (p.pos, p.prev);
    w.simulate(0, &integrate, &relax, &bounce);
    assert_eq!(w.points()[0].pos, (0.0, 0.0));
    assert_eq!(w.points()[1].pos, (3.0, 5.0));
    assert_eq!(w.points()[1].prev, (3.0, 4.0));
}

#[test]
fn simulate_relaxes_free_ends_only() {
    let mut w = window_with(&[(0.0, 0.0), (4.0, 0.0)]);
    w.add_stick(Stick { start: 0, end: 1, target_length: 2.0 });
    w.set_closest_point(Some(0));
    w.pin_closest(true, true);
    let integrate = |p: &Point<V>| (p.pos, p.prev);
    let relax = |a: &V, b: &V, l: &f32| {
        let c = ((a.0 + b.0) / 2.0, (a.1 + b.1) / 2.0);
        ((c.0 - l / 2.0, c.1), (c.0 + l / 2.0, c.1))
    };
    let bounce = |p: &Point<V>| (p.pos, p.prev);
    w.simulate(1, &integrate, &relax, &bounce);
    assert_eq!(w.points()[0].pos, (0.0, 0.0));
    assert_eq!(w.points()[1].pos, (3.0, 0.0));
    assert_eq!(w.sticks().len(), 1);
    assert_eq!(w.points()[1].connection_count, 1);
}

#[test]
fn constrain_points_bounces_every_point() {
    let mut w = window_with(&[(-5.0, 0.0), (3.0, 4.0)]);
    w.set_closest_point(Some(0));
    w.pin_closest(true, true);
    let bounce = |p: &Point<V>| {
        if p.pos.0 < 2.5 {
            ((2.5, p.pos.1), (2.5 - (p.pos.0 - p.prev.0).abs(), p.prev.1))
        } else {
            (p.pos, p.prev)
        }
    };
    w.constrain_points(&bounce);
    assert_eq!(w.points()[0].pos, (2.5, 0.0));
    assert_eq!(w.points()[0].prev, (2.5, 0.0));
    assert!(w.points()[0].is_static);
    assert_eq!(w.points()[1].pos, (3.0, 4.0));
}

#[test]
fn unpinning_undoes_pinning() {
    let mut w = window_with(&[(0.0, 0.0), (1.0, 0.0), (2.0, 0.0)]);
    w.add_stick(Stick { start: 0, end: 2, target_length: 2.0 });
    w.set_closest_point(Some(2));
    let before: Vec<(V, V, u32, bool)> =
        w.points().iter().map(|p| (p.pos, p.prev, p.connection_count, p.is_static)).collect();
    w.pin_closest(true, true);
    w.pin_closest(false, true);
    let after: Vec<(V, V, u32, bool)> =
        w.points().iter().map(|p| (p.pos, p.prev, p.connection_count, p.is_static)).collect();
    assert_eq!(after, before);
    assert_eq!(w.closest_point(), Some(2));
    assert_eq!(w.sticks().len(), 1);
}

fn nearer_to(mouse: V) -> impl Fn(&V, &V) -> bool {
    move |a: &V, b: &V| dist(a, &mouse) < dist(b, &mouse)
}

#[test]
fn closest_point_is_the_nearest_to_the_mouse() {
    let w = window_with(&[(0.0, 0.0), (10.0, 0.0), (4.0, 3.0)]);
    assert_eq!(w.get_closest_point(nearer_to((9.0, 1.0))), Some(1));
    assert_eq!(w.get_closest_point(nearer_to((3.0, 3.0))), Some(2));
    assert_eq!(w.get_closest_point(nearer_to((-1.0, 0.0))), Some(0));
}

#[test]
fn closest_point_ties_go_to_the_first() {
    let w = window_with(&[(0.0, 0.0), (2.0, 0.0), (2.0, 0.0)]);
    assert_eq!(w.get_closest_point(nearer_to((1.0, 0.0))), Some(0));
    assert_eq!(w.get_closest_point(nearer_to((3.0, 0.0))), Some(1));
}

#[test]
fn no_closest_point_without_points() {
    let w: Window<V, f32> = Window::new();
    assert_eq!(w.get_closest_point(nearer_to((1.0, 0.0))), None);
}

#[test]
fn deleting_everything_clears_the_selection() {
    let mut w = window_with(&[(0.0, 0.0), (3.0, 4.0)]);
    let mut input = quiet();
    input.key_w = true;
    let closest = w.get_closest_point(nearer_to((3.0, 3.0)));
    for step in w.handle_input(&input) {
        match step {
            InputStep::PickClosest => w.set_closest_point(closest),
            InputStep::DeleteAll => w.clear_all(),
            InputStep::ResetConnection => w.reset_connection(),
            _ => {}
        }
    }
    assert_eq!(w.points().len(), 0);
    assert_eq!(w.closest_point(), None);
}
