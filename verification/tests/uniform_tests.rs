use shader_sandbox::uniforms::Event;
use shader_sandbox::uniforms::Pass;
use shader_sandbox::uniforms::Provider;
use shader_sandbox::uniforms::State;
use shader_sandbox::uniforms::SyncVals;
use shader_sandbox::uniforms::UniformName;
use shader_sandbox::uniforms::UniformValue;
use shader_sandbox::uniforms::combine_uniforms;

#[test]
fn fresh_state_reports_initial_viewport() {
    let s = State::new((320, 200));
    let pairs = s.pairs();
    assert_eq!(pairs.len(), 3);
    assert_eq!(pairs[0], (UniformName::Resolution, UniformValue::Int3(320, 200, 1)));
    assert_eq!(pairs[1], (UniformName::Mouse, UniformValue::Int2(0, 200)));
    assert_eq!(pairs[2], (UniformName::Time, UniformValue::TimeMs(0)));
}

#[test]
fn resize_updates_the_resolution_pair() {
    let mut s = State::new((100, 100));
    s.handle_event(Event::Resized(640, 480));
    let pairs = s.pairs();
    assert_eq!(pairs[0], (UniformName::Resolution, UniformValue::Int3(640, 480, 1)));
}

#[test]
fn pointer_motion_is_y_flipped_against_the_viewport() {
    let mut s = State::new((100, 100));
    s.handle_event(Event::Resized(640, 480));
    s.handle_event(Event::PointerMoved(10, 20));
    let pairs = s.pairs();
    assert_eq!(pairs[1], (UniformName::Mouse, UniformValue::Int2(10, 460)));
}

#[test]
fn close_request_changes_nothing() {
    let mut s = State::new((640, 480));
    s.handle_event(Event::PointerMoved(5, 7));
    let before = s.pairs();
    s.handle_event(Event::CloseRequested);
    assert_eq!(s.pairs(), before);
}

#[test]
fn elapsed_time_is_reported_as_sampled() {
    let mut s = State::new((640, 480));
    s.set_time(1500);
    let pairs = s.pairs();
    assert_eq!(pairs[2], (UniformName::Time, UniformValue::TimeMs(1500)));
}

#[test]
fn channel_pairs_are_indexed_in_order() {
    let p = Pass { program: 7, channels: vec![3, 5] };
    let pairs = p.pairs();
    assert_eq!(
        pairs,
        vec![
            (UniformName::Channel(0), UniformValue::Texture(3)),
            (UniformName::Channel(1), UniformValue::Texture(5)),
        ]
    );
}

#[test]
fn sync_pairs_carry_float_bits_in_track_order() {
    let r = 0.25f32.to_bits();
    let g = 1.0f32.to_bits();
    let b = (-2.5f32).to_bits();
    let sync = SyncVals { values: vec![r, g, b] };
    let pairs = sync.pairs();
    assert_eq!(
        pairs,
        vec![
            (UniformName::Track(0), UniformValue::Bits(r)),
            (UniformName::Track(1), UniformValue::Bits(g)),
            (UniformName::Track(2), UniformValue::Bits(b)),
        ]
    );
    match pairs[2].1 {
        UniformValue::Bits(x) => assert_eq!(f32::from_bits(x), -2.5f32),
        _ => panic!("expected a float bit pattern"),
    }
}

#[test]
fn combined_visit_is_first_then_second() {
    let s = State::new((640, 480));
    let p = Pass { program: 1, channels: vec![9] };
    let expected: Vec<(UniformName, UniformValue)> =
        s.pairs().into_iter().chain(p.pairs().into_iter()).collect();
    let c = combine_uniforms(Provider::Frame(s), Provider::Channels(p));
    assert_eq!(c.pairs(), expected);
}

#[test]
fn combination_order_ignores_nesting_shape() {
    let s = State::new((640, 480));
    let pass = Pass { program: 1, channels: vec![4, 8] };
    let sync = SyncVals { values: vec![0.5f32.to_bits()] };
    let flat: Vec<(UniformName, UniformValue)> = s
        .pairs()
        .into_iter()
        .chain(pass.pairs().into_iter())
        .chain(sync.pairs().into_iter())
        .collect();

    let left = combine_uniforms(
        combine_uniforms(
            Provider::Frame(State::new((640, 480))),
            Provider::Channels(Pass { program: 1, channels: vec![4, 8] }),
        ),
        Provider::Tracks(SyncVals { values: vec![0.5f32.to_bits()] }),
    );
    let right = combine_uniforms(
        Provider::Frame(State::new((640, 480))),
        combine_uniforms(
            Provider::Channels(Pass { program: 1, channels: vec![4, 8] }),
            Provider::Tracks(SyncVals { values: vec![0.5f32.to_bits()] }),
        ),
    );
    assert_eq!(left.pairs(), flat);
    assert_eq!(right.pairs(), flat);
}
