use shader_sandbox::commands::Action;
use shader_sandbox::commands::Command;
use shader_sandbox::commands::Rgba;
use shader_sandbox::commands::Target;
use shader_sandbox::commands::plan_frame;
use shader_sandbox::uniforms::Pass;
use shader_sandbox::uniforms::State;
use shader_sandbox::uniforms::SyncVals;
use shader_sandbox::uniforms::UniformName;
use shader_sandbox::uniforms::UniformValue;

fn black() -> Rgba {
    Rgba { r: 0.0f32.to_bits(), g: 0.0f32.to_bits(), b: 0.0f32.to_bits(), a: 1.0f32.to_bits() }
}

#[test]
fn clears_pass_through_unchanged() {
    let commands = vec![
        Command::Clear(Target::Screen, black()),
        Command::Clear(Target::OffScreen(3), black()),
    ];
    let frame = State::new((640, 480));
    let sync = SyncVals { values: Vec::new() };
    let actions = plan_frame(&commands, &frame, &sync);
    assert_eq!(actions.len(), 2);
    match &actions[0] {
        Action::Clear(t, c) => {
            assert_eq!(*t, Target::Screen);
            assert_eq!(*c, black());
        },
        _ => panic!("expected a clear action"),
    }
    match &actions[1] {
        Action::Clear(t, _) => assert_eq!(*t, Target::OffScreen(3)),
        _ => panic!("expected a clear action"),
    }
}

#[test]
fn draw_composes_frame_channels_then_sync() {
    let frame = State::new((640, 480));
    let sync = SyncVals { values: vec![0.75f32.to_bits()] };
    let commands = vec![Command::Draw(Target::OffScreen(2), Pass { program: 11, channels: vec![4] })];
    let actions = plan_frame(&commands, &frame, &sync);
    assert_eq!(actions.len(), 1);
    let expected: Vec<(UniformName, UniformValue)> = frame
        .pairs()
        .into_iter()
        .chain(Pass { program: 11, channels: vec![4] }.pairs().into_iter())
        .chain(sync.pairs().into_iter())
        .collect();
    match &actions[0] {
        Action::Draw(t, program, uniforms) => {
            assert_eq!(*t, Target::OffScreen(2));
            assert_eq!(*program, 11);
            assert_eq!(*uniforms, expected);
        },
        _ => panic!("expected a draw action"),
    }
}

#[test]
fn command_order_is_preserved() {
    // the original frame list: clear the screen, clear the off-screen
    // target, draw into the off-screen target, draw its texture to screen
    let commands = vec![
        Command::Clear(Target::Screen, black()),
        Command::Clear(Target::OffScreen(0), black()),
        Command::Draw(Target::OffScreen(0), Pass { program: 1, channels: vec![] }),
        Command::Draw(Target::Screen, Pass { program: 2, channels: vec![0] }),
    ];
    let frame = State::new((800, 500));
    let sync = SyncVals { values: Vec::new() };
    let actions = plan_frame(&commands, &frame, &sync);
    assert_eq!(actions.len(), 4);
    assert!(matches!(actions[0], Action::Clear(Target::Screen, _)));
    assert!(matches!(actions[1], Action::Clear(Target::OffScreen(0), _)));
    assert!(matches!(actions[2], Action::Draw(Target::OffScreen(0), 1, _)));
    assert!(matches!(actions[3], Action::Draw(Target::Screen, 2, _)));
}
