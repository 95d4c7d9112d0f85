use graphics::input::{input_for_key, plan_input, AppData, AppInput, CameraAction, Direction, Key};

#[test]
fn keys_map_to_inputs() {
    assert_eq!(input_for_key(Key::Escape), AppInput::Quit);
    assert_eq!(input_for_key(Key::Char('z')), AppInput::ToggleWireframe);
    assert_eq!(input_for_key(Key::Char('w')), AppInput::MoveForward);
    assert_eq!(input_for_key(Key::Char('a')), AppInput::MoveLeft);
    assert_eq!(input_for_key(Key::Char('s')), AppInput::MoveBack);
    assert_eq!(input_for_key(Key::Char('d')), AppInput::MoveRight);
    assert_eq!(input_for_key(Key::Char('q')), AppInput::MoveUp);
    assert_eq!(input_for_key(Key::Char('e')), AppInput::MoveDown);
    assert_eq!(input_for_key(Key::Left), AppInput::RotateLeft);
    assert_eq!(input_for_key(Key::Right), AppInput::RotateRight);
    assert_eq!(input_for_key(Key::Up), AppInput::RotateUp);
    assert_eq!(input_for_key(Key::Down), AppInput::RotateDown);
    assert_eq!(input_for_key(Key::Char('x')), AppInput::Nothing);
    assert_eq!(input_for_key(Key::Char('W')), AppInput::Nothing);
    assert_eq!(input_for_key(Key::Other), AppInput::Nothing);
}

#[test]
fn only_quit_stops() {
    assert!(!plan_input(AppInput::Quit).keep_running);
    assert!(plan_input(AppInput::Nothing).keep_running);
    assert!(plan_input(AppInput::MoveUp).keep_running);
}

#[test]
fn camera_moves_and_turns() {
    assert_eq!(plan_input(AppInput::MoveForward).camera, Some(CameraAction::Move(Direction::NegLocalZ)));
    assert_eq!(plan_input(AppInput::MoveBack).camera, Some(CameraAction::Move(Direction::LocalZ)));
    assert_eq!(plan_input(AppInput::MoveLeft).camera, Some(CameraAction::Move(Direction::NegLocalX)));
    assert_eq!(plan_input(AppInput::MoveRight).camera, Some(CameraAction::Move(Direction::LocalX)));
    assert_eq!(plan_input(AppInput::MoveUp).camera, Some(CameraAction::Move(Direction::WorldY)));
    assert_eq!(plan_input(AppInput::MoveDown).camera, Some(CameraAction::Move(Direction::NegWorldY)));
    assert_eq!(plan_input(AppInput::RotateLeft).camera, Some(CameraAction::Turn(Direction::WorldY)));
    assert_eq!(plan_input(AppInput::RotateRight).camera, Some(CameraAction::Turn(Direction::NegWorldY)));
    assert_eq!(plan_input(AppInput::RotateUp).camera, Some(CameraAction::Turn(Direction::LocalX)));
    assert_eq!(plan_input(AppInput::RotateDown).camera, Some(CameraAction::Turn(Direction::NegLocalX)));
    assert_eq!(plan_input(AppInput::ToggleWireframe).camera, None);
}

#[test]
fn wireframe_toggles_back_and_forth() {
    let mut data = AppData::new(42);
    assert!(!data.is_wireframe);
    assert!(data.apply_plan(plan_input(AppInput::ToggleWireframe)));
    assert!(data.is_wireframe);
    data.toggle_wireframe();
    assert!(!data.is_wireframe);
    assert!(!data.apply_plan(plan_input(AppInput::Quit)));
    assert!(!data.is_wireframe);
    assert_eq!(data.example_mesh, 42);
}
