use cosmic_time::chain::{Chain, ChainError, Keyframes, Repeat};
use cosmic_time::ease::{Cubic, Ease, Linear, SCALE};
use cosmic_time::frame::{interpolate, resolve, Frame, Movement, MovementType};
use cosmic_time::id::Id;
use cosmic_time::timeline::{Polling, Timeline};
use cosmic_time::toggler::Toggler;

const LINEAR: Ease = Ease::Linear(Linear::InOut);

fn eager(value: i64, duration: u64) -> Frame {
    Frame::eager(MovementType::absolute(value, duration), LINEAR)
}

fn chain(name: &str, repeat: Repeat, frames: Vec<Frame>) -> Chain {
    match Chain::new(Id::new(name), repeat, frames) {
        Ok(c) => c,
        Err(_) => panic!("chain refused"),
    }
}

fn started(c: Chain) -> Timeline {
    let mut tl = Timeline::new();
    let id = c.id().copy();
    tl.set_chain(c);
    assert!(tl.start(&id));
    tl
}

#[test]
fn every_curve_keeps_its_endpoints() {
    let curves = [
        Ease::Linear(Linear::In),
        Ease::Linear(Linear::Out),
        Ease::Linear(Linear::InOut),
        Ease::Cubic(Cubic::In),
        Ease::Cubic(Cubic::Out),
        Ease::Cubic(Cubic::InOut),
    ];
    for e in curves.iter() {
        assert_eq!(e.evaluate(0), 0);
        assert_eq!(e.evaluate(SCALE), SCALE);
    }
}

#[test]
fn cubic_curves_at_known_points() {
    assert_eq!(Ease::Cubic(Cubic::In).evaluate(500), 125);
    assert_eq!(Ease::Cubic(Cubic::Out).evaluate(500), 875);
    assert_eq!(Ease::Cubic(Cubic::InOut).evaluate(250), 60);
    assert_eq!(Ease::Cubic(Cubic::InOut).evaluate(750), 940);
    assert_eq!(Ease::Linear(Linear::In).evaluate(321), 321);
    assert_eq!(Ease::from(Cubic::In), Ease::Cubic(Cubic::In));
}

#[test]
fn two_frame_chain_blends_then_holds() {
    let mut tl = started(chain("a", Repeat::Never, vec![eager(10, 0), eager(30, 2000)]));
    let id = Id::new("a");
    assert_eq!(tl.get(&id, 0), Some(10));
    tl.now(1000);
    assert_eq!(tl.get(&id, 0), Some(20));
    tl.now(2000);
    assert_eq!(tl.get(&id, 0), Some(30));
    tl.now(7000);
    assert_eq!(tl.get(&id, 0), Some(30));
    tl.now(7000);
    assert_eq!(tl.get(&id, 0), Some(30));
    assert_eq!(tl.polling(), Polling::Idle);
}

#[test]
fn eased_blend_uses_the_curve() {
    let b = Frame::eager(MovementType::absolute(1000, 2000), Ease::Cubic(Cubic::In));
    let mut tl = started(chain("e", Repeat::Never, vec![eager(0, 0), b]));
    tl.now(1000);
    assert_eq!(tl.get(&Id::new("e"), 0), Some(125));
}

#[test]
fn replacing_a_chain_discards_progress() {
    let mut tl = started(chain("r", Repeat::Never, vec![eager(0, 0), eager(100, 1000)]));
    let id = Id::new("r");
    tl.now(500);
    assert_eq!(tl.get(&id, 0), Some(50));
    tl.set_chain(chain("r", Repeat::Never, vec![eager(7, 0), eager(9, 1000)]));
    assert_eq!(tl.get(&id, 0), None);
    assert!(tl.start(&id));
    assert_eq!(tl.get(&id, 0), Some(7));
    tl.now(1000);
    assert_eq!(tl.get(&id, 0), Some(8));
}

#[test]
fn forever_chain_is_periodic() {
    let frames = vec![eager(0, 0), eager(100, 1000), eager(0, 1000)];
    let mut tl = started(chain("f", Repeat::Forever, frames));
    let id = Id::new("f");
    tl.now(500);
    let early = tl.get(&id, 0);
    assert_eq!(early, Some(50));
    tl.now(2500);
    assert_eq!(tl.get(&id, 0), early);
    tl.now(1500);
    assert_eq!(tl.get(&id, 0), early);
    assert_eq!(tl.polling(), Polling::EveryFrame);
}

#[test]
fn times_chain_finishes_after_its_passes() {
    let mut tl = started(chain("t", Repeat::Times(3), vec![eager(0, 0), eager(100, 2000)]));
    let id = Id::new("t");
    tl.now(5999);
    assert_eq!(tl.get(&id, 0), Some(99));
    assert_eq!(tl.polling(), Polling::EveryFrame);
    tl.now(6000);
    assert_eq!(tl.get(&id, 0), Some(100));
    assert_eq!(tl.polling(), Polling::Idle);
    tl.now(9000);
    assert_eq!(tl.get(&id, 0), Some(100));
}

#[test]
fn lazy_frame_moves_only_when_pushed() {
    let lazy = Frame::lazy(MovementType::absolute(1000, 300), 0, LINEAR);
    let mut tl = started(chain("l", Repeat::Never, vec![eager(0, 0), lazy]));
    let id = Id::new("l");
    assert_eq!(tl.get(&id, 0), Some(0));
    tl.now(5000);
    assert_eq!(tl.get(&id, 0), Some(0));
    assert!(tl.set_percent(&id, 500));
    assert_eq!(tl.get(&id, 0), Some(500));
    tl.now(9000);
    assert_eq!(tl.get(&id, 0), Some(500));
    assert!(tl.set_percent(&id, 5000));
    assert_eq!(tl.get(&id, 0), Some(1000));
    assert_eq!(tl.polling(), Polling::Idle);
}

#[test]
fn polling_follows_animation_state() {
    let mut tl = Timeline::new();
    assert_eq!(tl.polling(), Polling::Idle);
    let id = Id::new("p");
    tl.set_chain(chain("p", Repeat::Never, vec![eager(0, 0), eager(10, 100)]));
    assert_eq!(tl.polling(), Polling::Idle);
    assert!(tl.start(&id));
    assert_eq!(tl.polling(), Polling::EveryFrame);
    tl.now(99);
    assert_eq!(tl.polling(), Polling::EveryFrame);
    tl.now(100);
    assert_eq!(tl.polling(), Polling::Idle);
    let lazy = Frame::lazy(MovementType::absolute(1, 0), 0, LINEAR);
    tl.set_chain(chain("q", Repeat::Never, vec![lazy]));
    assert!(tl.start(&Id::new("q")));
    assert_eq!(tl.polling(), Polling::Idle);
}

#[test]
fn resolution_round_trip() {
    assert_eq!(resolve(Movement::Absolute(5), 100), 5);
    assert_eq!(resolve(Movement::Absolute(5), -8), 5);
    assert_eq!(resolve(Movement::RelativeToPrevious(3), 100), 103);
    assert_eq!(resolve(Movement::RelativeToPrevious(-3), 1), -2);
    assert_eq!(resolve(Movement::RelativeToPrevious(1), i64::MAX), i64::MAX);
}

#[test]
fn relative_frames_build_on_the_previous_value() {
    let step = Frame::eager(MovementType::relative(5, 1000), LINEAR);
    let mut tl = started(chain("rel", Repeat::Never, vec![eager(10, 0), step, step]));
    tl.now(3000);
    assert_eq!(tl.get(&Id::new("rel"), 0), Some(20));
}

#[test]
fn interpolation_rounds_toward_start() {
    assert_eq!(interpolate(100, 0, 250), 75);
    assert_eq!(interpolate(0, 3, 500), 1);
    assert_eq!(interpolate(i64::MIN, i64::MAX, SCALE), i64::MAX);
    assert_eq!(interpolate(i64::MAX, i64::MIN, 0), i64::MAX);
}

#[test]
fn frame_boundary_belongs_to_next_frame() {
    let c = chain("b", Repeat::Never, vec![eager(0, 0), eager(100, 1000), eager(0, 1000)]);
    assert_eq!(c.value(0, 999), Some(99));
    assert_eq!(c.value(0, 1000), Some(100));
    assert_eq!(c.value(0, 1010), Some(99));
    assert_eq!(c.value(1, 1010), None);
    assert_eq!(c.keyframes(0).total_duration(), 2000);
}

#[test]
fn empty_chain_is_refused() {
    let r = Chain::new(Id::new("x"), Repeat::Never, Vec::new());
    assert!(matches!(r, Err(ChainError::Empty)));
    let r = Id::new("x").into_chain().into_timeline_chain();
    assert!(matches!(r, Err(ChainError::Empty)));
}

#[test]
fn unknown_identity_has_no_value() {
    let mut tl = Timeline::new();
    assert_eq!(tl.get(&Id::new("nobody"), 0), None);
    assert!(!tl.start(&Id::new("nobody")));
    assert!(!tl.set_percent(&Id::new("nobody"), 3));
}

#[test]
fn stale_instants_are_ignored() {
    let mut tl = Timeline::new();
    tl.now(50);
    tl.now(20);
    assert_eq!(tl.instant(), 50);
}

#[test]
fn identities_compare_by_value() {
    assert!(Id::new("a").same(&Id::new("a")));
    assert!(!Id::new("a").same(&Id::new("b")));
    assert!(!Id::new("ab").same(&Id::new("a")));
    let mut tl = Timeline::new();
    let u = tl.unique_id();
    let v = tl.unique_id();
    assert!(!u.same(&v));
    assert!(u.same(&u.copy()));
    assert!(!u.same(&Id::new("a")));
}

#[test]
fn toggler_chain_drives_the_switch() {
    let c = Id::new("tg")
        .into_chain()
        .link(Toggler::new(0).percent(0))
        .link(Toggler::new(500).ease(Ease::Linear(Linear::Out)));
    let c = match c.into_timeline_chain() {
        Ok(c) => c,
        Err(_) => panic!("chain refused"),
    };
    assert_eq!(c.dimensions(), 1);
    assert_eq!(c.keyframes(0).len(), 2);
    let id = Id::new("tg");
    let mut tl = Timeline::new();
    assert_eq!(Toggler::current_percent(&id, &tl, true), SCALE as i64);
    assert_eq!(Toggler::current_percent(&id, &tl, false), 0);
    tl.set_chain(c);
    tl.start(&id);
    tl.now(250);
    assert_eq!(Toggler::current_percent(&id, &tl, false), 500);
    tl.now(600);
    assert_eq!(Toggler::current_percent(&id, &tl, false), 1000);
}

#[test]
fn lazy_toggler_follows_pushed_progress() {
    let children = vec![Toggler::new(0).percent(0), Toggler::lazy(200)];
    let c = Id::new("lz").into_chain_with_children(children).loop_forever();
    let c = match c.into_timeline_chain() {
        Ok(c) => c,
        Err(_) => panic!("chain refused"),
    };
    assert_eq!(c.repeat(), Repeat::Forever);
    let id = Id::new("lz");
    let mut tl = Timeline::new();
    tl.set_chain(c);
    tl.start(&id);
    assert_eq!(Toggler::current_percent(&id, &tl, true), 0);
    tl.set_percent(&id, SCALE);
    assert_eq!(Toggler::current_percent(&id, &tl, true), 1000);
}

#[test]
fn toggler_builders_set_fields() {
    let t = Toggler::lazy(40).percent(300).ease(Ease::Cubic(Cubic::Out));
    assert_eq!(t.duration, 40);
    assert_eq!(t.percent, 300);
    assert!(!t.is_eager);
    let f = t.to_frame();
    assert_eq!(f.at, MovementType::absolute(300, 40));
    assert_eq!(f.percent, 0);
    let c = Id::new("b").into_chain().loop_forever().loop_once().repeat_times(2);
    assert!(matches!(c.into_timeline_chain(), Err(ChainError::Empty)));
}

#[test]
fn dimensions_animate_on_one_clock() {
    let dims = vec![vec![eager(0, 0), eager(100, 1000)], vec![eager(50, 0)], vec![eager(-10, 0), eager(10, 4000)]];
    let c = match Chain::with_dimensions(Id::new("d"), Repeat::Never, dims) {
        Ok(c) => c,
        Err(_) => panic!("chain refused"),
    };
    assert_eq!(c.dimensions(), 3);
    let mut tl = started(c);
    let id = Id::new("d");
    tl.now(500);
    assert_eq!(tl.get(&id, 0), Some(50));
    assert_eq!(tl.get(&id, 1), Some(50));
    assert_eq!(tl.get(&id, 2), Some(-8));
    assert_eq!(tl.get(&id, 3), None);
    tl.now(2000);
    assert_eq!(tl.get(&id, 0), Some(100));
    assert_eq!(tl.polling(), Polling::EveryFrame);
    tl.now(4000);
    assert_eq!(tl.get(&id, 2), Some(10));
    assert_eq!(tl.polling(), Polling::Idle);
}

#[test]
fn dimension_without_keyframes_is_refused() {
    let r = Chain::with_dimensions(Id::new("d"), Repeat::Never, vec![vec![eager(0, 0)], Vec::new()]);
    assert!(matches!(r, Err(ChainError::Empty)));
    let r = Chain::with_dimensions(Id::new("d"), Repeat::Never, Vec::new());
    assert!(matches!(r, Err(ChainError::Empty)));
}

#[test]
fn keyframes_report_lazy_frames() {
    let k = Keyframes::new(vec![eager(0, 10), Frame::lazy(MovementType::absolute(5, 0), 0, LINEAR)]);
    assert!(k.has_lazy_frame());
    assert_eq!(k.total_duration(), 10);
    assert!(k.is_stalled_at(10));
    assert!(!k.is_stalled_at(9));
    assert!(!Keyframes::new(vec![eager(0, 10)]).has_lazy_frame());
}
