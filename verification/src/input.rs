//! What the viewer does with a key press: the key's input, and what that
//! input asks of the application and of the active camera.

use vstd::prelude::*;
use crate::scene::NodeId;

verus! {

/// A key, as far as the viewer tells keys apart.
#[derive(Clone, Copy, PartialEq, Eq, Structural, Debug)]
pub enum Key {
    Escape,
    Char(char),
    Left,
    Right,
    Up,
    Down,
    Other,
}

/// What the user asks for.
#[derive(Clone, Copy, PartialEq, Eq, Structural, Debug)]
pub enum AppInput {
    Nothing,
    Quit,
    ToggleWireframe,
    MoveForward,
    MoveLeft,
    MoveRight,
    MoveBack,
    MoveUp,
    MoveDown,
    RotateLeft,
    RotateRight,
    RotateUp,
    RotateDown,
}

/// The input a key gives: Esc quits, `z` toggles wireframes, `w` `a` `s` `d`
/// move forward, left, back and right, `q` and `e` move up and down, and the
/// arrow keys turn the camera; any other key gives nothing.
pub open spec fn input_of(key: Key) -> AppInput {
    match key {
        Key::Escape => AppInput::Quit,
        Key::Char(c) => if c == 'z' {
            AppInput::ToggleWireframe
        } else if c == 'w' {
            AppInput::MoveForward
        } else if c == 'a' {
            AppInput::MoveLeft
        } else if c == 's' {
            AppInput::MoveBack
        } else if c == 'd' {
            AppInput::MoveRight
        } else if c == 'q' {
            AppInput::MoveUp
        } else if c == 'e' {
            AppInput::MoveDown
        } else {
            AppInput::Nothing
        },
        Key::Left => AppInput::RotateLeft,
        Key::Right => AppInput::RotateRight,
        Key::Up => AppInput::RotateUp,
        Key::Down => AppInput::RotateDown,
        Key::Other => AppInput::Nothing,
    }
}

/// The input a key gives, as `input_of` says.
pub fn input_for_key(key: Key) -> (r: AppInput)
    ensures
        r == input_of(key),
{
    match key {
        Key::Escape => AppInput::Quit,
        Key::Char(c) => {
            if c == 'z' {
                AppInput::ToggleWireframe
            } else if c == 'w' {
                AppInput::MoveForward
            } else if c == 'a' {
                AppInput::MoveLeft
            } else if c == 's' {
                AppInput::MoveBack
            } else if c == 'd' {
                AppInput::MoveRight
            } else if c == 'q' {
                AppInput::MoveUp
            } else if c == 'e' {
                AppInput::MoveDown
            } else {
                AppInput::Nothing
            }
        },
        Key::Left => AppInput::RotateLeft,
        Key::Right => AppInput::RotateRight,
        Key::Up => AppInput::RotateUp,
        Key::Down => AppInput::RotateDown,
        Key::Other => AppInput::Nothing,
    }
}

/// A direction: one of the camera's own X and Z axes, or the world's Y axis,
/// taken forwards or backwards.
#[derive(Clone, Copy, PartialEq, Eq, Structural, Debug)]
pub enum Direction {
    LocalX,
    NegLocalX,
    LocalZ,
    NegLocalZ,
    WorldY,
    NegWorldY,
}

/// What an input asks of the active camera: to move along a direction, or
/// to turn about one.
#[derive(Clone, Copy, PartialEq, Eq, Structural, Debug)]
pub enum CameraAction {
    Move(Direction),
    Turn(Direction),
}

/// What an input asks: whether the application keeps running, whether it
/// toggles wireframes, and what the active camera does, if there is one.
#[derive(Clone, Copy, PartialEq, Eq, Structural, Debug)]
pub struct InputPlan {
    pub keep_running: bool,
    pub toggle_wireframe: bool,
    pub camera: Option<CameraAction>,
}

/// The plan for an input. Only `Quit` stops the application. Moving forward
/// goes against the camera's Z axis and back along it; left goes against its
/// X axis and right along it; up and down go along and against the world's Y
/// axis. Turning left and right is about the world's Y axis, forwards and
/// backwards; turning up and down is about the camera's X axis, forwards and
/// backwards.
pub open spec fn plan_of(input: AppInput) -> InputPlan {
    let run = |camera: Option<CameraAction>| InputPlan { keep_running: true, toggle_wireframe: false, camera };
    match input {
        AppInput::Nothing => run(None),
        AppInput::Quit => InputPlan { keep_running: false, toggle_wireframe: false, camera: None },
        AppInput::ToggleWireframe => InputPlan { keep_running: true, toggle_wireframe: true, camera: None },
        AppInput::MoveForward => run(Some(CameraAction::Move(Direction::NegLocalZ))),
        AppInput::MoveLeft => run(Some(CameraAction::Move(Direction::NegLocalX))),
        AppInput::MoveBack => run(Some(CameraAction::Move(Direction::LocalZ))),
        AppInput::MoveRight => run(Some(CameraAction::Move(Direction::LocalX))),
        AppInput::MoveUp => run(Some(CameraAction::Move(Direction::WorldY))),
        AppInput::MoveDown => run(Some(CameraAction::Move(Direction::NegWorldY))),
        AppInput::RotateLeft => run(Some(CameraAction::Turn(Direction::WorldY))),
        AppInput::RotateRight => run(Some(CameraAction::Turn(Direction::NegWorldY))),
        AppInput::RotateUp => run(Some(CameraAction::Turn(Direction::LocalX))),
        AppInput::RotateDown => run(Some(CameraAction::Turn(Direction::NegLocalX))),
    }
}

/// Only `Quit` stops the application; only `ToggleWireframe` toggles
/// wireframes; exactly the moves and turns ask something of the camera.
pub proof fn lemma_plan_of_each_input(input: AppInput)
    ensures
        plan_of(input).keep_running == (input != AppInput::Quit),
        plan_of(input).toggle_wireframe == (input == AppInput::ToggleWireframe),
        (plan_of(input).camera is None) == (input == AppInput::Nothing || input == AppInput::Quit || input
            == AppInput::ToggleWireframe),
        (input == AppInput::MoveForward || input == AppInput::MoveBack || input == AppInput::MoveLeft || input
            == AppInput::MoveRight || input == AppInput::MoveUp || input == AppInput::MoveDown) ==> plan_of(
            input,
        ).camera matches Some(CameraAction::Move(_)),
        (input == AppInput::RotateLeft || input == AppInput::RotateRight || input == AppInput::RotateUp || input
            == AppInput::RotateDown) ==> plan_of(input).camera matches Some(CameraAction::Turn(_)),
{
}

/// The direction along the same axis, the other way.
pub open spec fn reversed(d: Direction) -> Direction {
    match d {
        Direction::LocalX => Direction::NegLocalX,
        Direction::NegLocalX => Direction::LocalX,
        Direction::LocalZ => Direction::NegLocalZ,
        Direction::NegLocalZ => Direction::LocalZ,
        Direction::WorldY => Direction::NegWorldY,
        Direction::NegWorldY => Direction::WorldY,
    }
}

/// The inputs come in opposite pairs: forward and back, left and right, up
/// and down move the camera along one axis the two ways, and the turns left
/// and right, up and down turn it about one axis the two ways. Forward and back
/// go along the camera's Z axis, left and right along its X axis, up and down
/// along the world's Y axis; left and right turn about the world's Y axis, up
/// and down about the camera's X axis.
pub proof fn lemma_inputs_come_in_opposite_pairs()
    ensures
        plan_of(AppInput::MoveForward).camera matches Some(CameraAction::Move(d)) && plan_of(AppInput::MoveBack).camera
            == Some(CameraAction::Move(reversed(d))) && (d == Direction::LocalZ || d == Direction::NegLocalZ),
        plan_of(AppInput::MoveLeft).camera matches Some(CameraAction::Move(d)) && plan_of(AppInput::MoveRight).camera
            == Some(CameraAction::Move(reversed(d))) && (d == Direction::LocalX || d == Direction::NegLocalX),
        plan_of(AppInput::MoveUp).camera matches Some(CameraAction::Move(d)) && plan_of(AppInput::MoveDown).camera
            == Some(CameraAction::Move(reversed(d))) && (d == Direction::WorldY || d == Direction::NegWorldY),
        plan_of(AppInput::RotateLeft).camera matches Some(CameraAction::Turn(d)) && plan_of(
            AppInput::RotateRight,
        ).camera == Some(CameraAction::Turn(reversed(d))) && (d == Direction::WorldY || d == Direction::NegWorldY),
        plan_of(AppInput::RotateUp).camera matches Some(CameraAction::Turn(d)) && plan_of(AppInput::RotateDown).camera
            == Some(CameraAction::Turn(reversed(d))) && (d == Direction::LocalX || d == Direction::NegLocalX),
{
}

fn running(camera: Option<CameraAction>) -> (r: InputPlan)
    ensures
        r == (InputPlan { keep_running: true, toggle_wireframe: false, camera }),
{
    InputPlan { keep_running: true, toggle_wireframe: false, camera }
}

/// The plan for an input, as `plan_of` says.
pub fn plan_input(input: AppInput) -> (r: InputPlan)
    ensures
        r == plan_of(input),
{
    match input {
        AppInput::Nothing => running(None),
        AppInput::Quit => InputPlan { keep_running: false, toggle_wireframe: false, camera: None },
        AppInput::ToggleWireframe => InputPlan { keep_running: true, toggle_wireframe: true, camera: None },
        AppInput::MoveForward => running(Some(CameraAction::Move(Direction::NegLocalZ))),
        AppInput::MoveLeft => running(Some(CameraAction::Move(Direction::NegLocalX))),
        AppInput::MoveBack => running(Some(CameraAction::Move(Direction::LocalZ))),
        AppInput::MoveRight => running(Some(CameraAction::Move(Direction::LocalX))),
        AppInput::MoveUp => running(Some(CameraAction::Move(Direction::WorldY))),
        AppInput::MoveDown => running(Some(CameraAction::Move(Direction::NegWorldY))),
        AppInput::RotateLeft => running(Some(CameraAction::Turn(Direction::WorldY))),
        AppInput::RotateRight => running(Some(CameraAction::Turn(Direction::NegWorldY))),
        AppInput::RotateUp => running(Some(CameraAction::Turn(Direction::LocalX))),
        AppInput::RotateDown => running(Some(CameraAction::Turn(Direction::NegLocalX))),
    }
}

/// The viewer's own state: the mesh node it spins, and whether it draws
/// wireframes.
pub struct AppData {
    pub example_mesh: NodeId,
    pub is_wireframe: bool,
}

impl AppData {
    /// State for the mesh node `example_mesh`, drawing filled triangles.
    pub fn new(example_mesh: NodeId) -> (r: Self)
        ensures
            r.example_mesh == example_mesh,
            !r.is_wireframe,
    {
        Self { example_mesh, is_wireframe: false }
    }

    /// Switches between wireframes and filled triangles.
    pub fn toggle_wireframe(&mut self)
        ensures
            final(self).is_wireframe == !old(self).is_wireframe,
            final(self).example_mesh == old(self).example_mesh,
    {
        self.is_wireframe = !self.is_wireframe;
    }

    /// Carries out the part of `plan` that concerns this state, and says
    /// whether the application keeps running.
    pub fn apply_plan(&mut self, plan: InputPlan) -> (r: bool)
        ensures
            r == plan.keep_running,
            final(self).is_wireframe == (old(self).is_wireframe != plan.toggle_wireframe),
            final(self).example_mesh == old(self).example_mesh,
    {
        if plan.toggle_wireframe {
            self.toggle_wireframe();
        }
        plan.keep_running
    }
}

} // verus!
