//! The bindings of a virtual gamepad: which keys and mouse buttons stand
//! for each of its buttons and sticks, and which of them are held down.

use vstd::prelude::*;
use crate::sequences::lemma_filter_items;

verus! {

/// A button of the virtual gamepad.
#[derive(Debug, Clone, Copy, Hash, PartialEq, Eq, Structural)]
pub enum VirtualGamepadButton {
    South,
    East,
    North,
    West,
    Left,
    LeftTrigger,
    Right,
    RightTrigger,
    Select,
    Start,
    Mode,
    LeftStick,
    RightStick,
    DPadUp,
    DPadDown,
    DPadLeft,
    DPadRight,
}

/// A stick of the virtual gamepad.
#[derive(Debug, Clone, Copy, PartialEq, Eq, Structural)]
pub enum VirtualGamepadStick {
    Left,
    Right,
}

/// A key or button of a real device: a key of the keyboard, by its code, a
/// button of the mouse, by its number, or a turn of the mouse wheel.
#[derive(Debug, Clone, Copy, Hash, PartialEq, Eq, Structural)]
pub enum RealInput {
    KeyboardKey(u32),
    MouseButton(u32),
    MouseWheelUp,
    MouseWheelDown,
}

/// What moves a stick: four keys, or the mouse.
#[derive(Debug, Clone, Copy, PartialEq, Eq, Structural)]
pub enum StickBinding {
    Key { left: RealInput, up: RealInput, right: RealInput, down: RealInput },
    Mouse,
}

/// The number of buttons of the virtual gamepad.
pub const BUTTON_COUNT: usize = 17;

/// The place of a button among the buttons.
pub open spec fn button_index(button: VirtualGamepadButton) -> int {
    match button {
        VirtualGamepadButton::South => 0,
        VirtualGamepadButton::East => 1,
        VirtualGamepadButton::North => 2,
        VirtualGamepadButton::West => 3,
        VirtualGamepadButton::Left => 4,
        VirtualGamepadButton::LeftTrigger => 5,
        VirtualGamepadButton::Right => 6,
        VirtualGamepadButton::RightTrigger => 7,
        VirtualGamepadButton::Select => 8,
        VirtualGamepadButton::Start => 9,
        VirtualGamepadButton::Mode => 10,
        VirtualGamepadButton::LeftStick => 11,
        VirtualGamepadButton::RightStick => 12,
        VirtualGamepadButton::DPadUp => 13,
        VirtualGamepadButton::DPadDown => 14,
        VirtualGamepadButton::DPadLeft => 15,
        VirtualGamepadButton::DPadRight => 16,
    }
}

/// The place of a button among the buttons.
fn index_of_button(button: VirtualGamepadButton) -> (r: usize)
    ensures
        r == button_index(button),
        r < BUTTON_COUNT,
{
    match button {
        VirtualGamepadButton::South => 0,
        VirtualGamepadButton::East => 1,
        VirtualGamepadButton::North => 2,
        VirtualGamepadButton::West => 3,
        VirtualGamepadButton::Left => 4,
        VirtualGamepadButton::LeftTrigger => 5,
        VirtualGamepadButton::Right => 6,
        VirtualGamepadButton::RightTrigger => 7,
        VirtualGamepadButton::Select => 8,
        VirtualGamepadButton::Start => 9,
        VirtualGamepadButton::Mode => 10,
        VirtualGamepadButton::LeftStick => 11,
        VirtualGamepadButton::RightStick => 12,
        VirtualGamepadButton::DPadUp => 13,
        VirtualGamepadButton::DPadDown => 14,
        VirtualGamepadButton::DPadLeft => 15,
        VirtualGamepadButton::DPadRight => 16,
    }
}

/// The bindings of a gamepad and the inputs that are held down.
pub struct GamepadBindings {
    left_stick_bindings: Vec<StickBinding>,
    right_stick_bindings: Vec<StickBinding>,
    // The inputs of each button, at the button's place, and the inputs held
    // down. Vectors, and no hash map or hash set: vstd says nothing of one
    // whose keys are values of an enum with a derived `Hash`.
    button_bindings: Vec<Vec<RealInput>>,
    currently_pressed: Vec<RealInput>,
}

/// What a `GamepadBindings` stands for in contracts.
pub struct GamepadView {
    /// The bindings of the left stick, in the order in which they were
    /// made.
    pub left_stick: Seq<StickBinding>,
    /// The bindings of the right stick.
    pub right_stick: Seq<StickBinding>,
    /// The inputs bound to each button, at the button's place.
    pub buttons: Seq<Seq<RealInput>>,
    /// The inputs that are held down.
    pub pressed: Set<RealInput>,
}

impl GamepadView {
    /// The bindings of `stick`.
    pub open spec fn stick(self, stick: VirtualGamepadStick) -> Seq<StickBinding> {
        match stick {
            VirtualGamepadStick::Left => self.left_stick,
            VirtualGamepadStick::Right => self.right_stick,
        }
    }

    /// The inputs bound to `button`.
    pub open spec fn button(self, button: VirtualGamepadButton) -> Seq<RealInput> {
        self.buttons[button_index(button)]
    }

    /// Whether one of the inputs bound to `button` is held down.
    pub open spec fn is_pressed(self, button: VirtualGamepadButton) -> bool {
        exists|i: int|
            0 <= i < self.button(button).len() && self.pressed.contains(
                #[trigger] self.button(button)[i],
            )
    }

    /// These bindings with `bindings` as those of `stick`.
    pub open spec fn with_stick(
        self,
        stick: VirtualGamepadStick,
        bindings: Seq<StickBinding>,
    ) -> GamepadView {
        match stick {
            VirtualGamepadStick::Left => GamepadView { left_stick: bindings, ..self },
            VirtualGamepadStick::Right => GamepadView { right_stick: bindings, ..self },
        }
    }

    /// These bindings with `inputs` as those of `button`.
    pub open spec fn with_button(
        self,
        button: VirtualGamepadButton,
        inputs: Seq<RealInput>,
    ) -> GamepadView {
        GamepadView { buttons: self.buttons.update(button_index(button), inputs), ..self }
    }
}

/// `1` where `held` is true, `0` where it is not.
pub open spec fn one_if(held: bool) -> int {
    if held {
        1
    } else {
        0
    }
}

/// Where the four keys of a stick point together, before the length is set
/// to one: right less left, and up less down.
pub open spec fn key_direction(
    pressed: Set<RealInput>,
    left: RealInput,
    up: RealInput,
    right: RealInput,
    down: RealInput,
) -> (int, int) {
    (
        one_if(pressed.contains(right)) - one_if(pressed.contains(left)),
        one_if(pressed.contains(up)) - one_if(pressed.contains(down)),
    )
}

impl View for GamepadBindings {
    type V = GamepadView;

    closed spec fn view(&self) -> GamepadView {
        GamepadView {
            left_stick: self.left_stick_bindings@,
            right_stick: self.right_stick_bindings@,
            buttons: Seq::new(self.button_bindings.len() as nat, |i: int| self.button_bindings[i]@),
            pressed: self.currently_pressed@.to_set(),
        }
    }
}

impl GamepadBindings {
    /// Every button has its place.
    pub closed spec fn well_formed(&self) -> bool {
        self.button_bindings.len() == BUTTON_COUNT
    }

    /// A gamepad with nothing bound and nothing held down.
    pub fn new() -> (r: GamepadBindings)
        ensures
            r.well_formed(),
            r@ == (GamepadView {
                left_stick: Seq::empty(),
                right_stick: Seq::empty(),
                buttons: Seq::new(BUTTON_COUNT as nat, |i: int| Seq::empty()),
                pressed: Set::empty(),
            }),
    {
        let mut button_bindings: Vec<Vec<RealInput>> = Vec::new();
        let mut i: usize = 0;
        while i < BUTTON_COUNT
            invariant
                i <= BUTTON_COUNT,
                button_bindings.len() == i,
                forall|j: int| 0 <= j < i ==> button_bindings[j]@ == Seq::<RealInput>::empty(),
            decreases BUTTON_COUNT - i,
        {
            button_bindings.push(Vec::new());
            i += 1;
        }
        let r = GamepadBindings {
            left_stick_bindings: Vec::new(),
            right_stick_bindings: Vec::new(),
            button_bindings,
            currently_pressed: Vec::new(),
        };
        assert(r@.buttons =~= Seq::new(BUTTON_COUNT as nat, |i: int| Seq::<RealInput>::empty()));
        assert(r@.pressed =~= Set::<RealInput>::empty());
        r
    }

    /// The inputs bound to `button`.
    pub fn borrow_button_binding(&self, button: VirtualGamepadButton) -> (r: &Vec<RealInput>)
        requires
            self.well_formed(),
        ensures
            r@ == self@.button(button),
    {
        &self.button_bindings[index_of_button(button)]
    }

    /// The bindings of `stick`.
    pub fn borrow_stick_binding(&self, stick: VirtualGamepadStick) -> (r: &Vec<StickBinding>)
        ensures
            r@ == self@.stick(stick),
    {
        match stick {
            VirtualGamepadStick::Left => &self.left_stick_bindings,
            VirtualGamepadStick::Right => &self.right_stick_bindings,
        }
    }

    /// Adds `binding` to the bindings of `stick`.
    pub fn bind_stick(&mut self, stick: VirtualGamepadStick, binding: StickBinding)
        requires
            old(self).well_formed(),
        ensures
            final(self).well_formed(),
            final(self)@ == old(self)@.with_stick(stick, old(self)@.stick(stick).push(binding)),
    {
        match stick {
            VirtualGamepadStick::Left => self.left_stick_bindings.push(binding),
            VirtualGamepadStick::Right => self.right_stick_bindings.push(binding),
        }
        assert(self@.buttons =~= old(self)@.buttons);
    }

    /// Adds `input` to the inputs bound to `button`.
    pub fn bind_button(&mut self, button: VirtualGamepadButton, input: RealInput)
        requires
            old(self).well_formed(),
        ensures
            final(self).well_formed(),
            final(self)@ == old(self)@.with_button(button, old(self)@.button(button).push(input)),
    {
        let i = index_of_button(button);
        self.button_bindings[i].push(input);
        assert(self@.buttons =~= old(self)@.buttons.update(
            i as int,
            old(self)@.button(button).push(input),
        ));
    }

    /// Takes every binding from `stick`.
    pub fn clear_stick_binding(&mut self, stick: VirtualGamepadStick)
        requires
            old(self).well_formed(),
        ensures
            final(self).well_formed(),
            final(self)@ == old(self)@.with_stick(stick, Seq::empty()),
    {
        match stick {
            VirtualGamepadStick::Left => self.left_stick_bindings.clear(),
            VirtualGamepadStick::Right => self.right_stick_bindings.clear(),
        }
        assert(self@.buttons =~= old(self)@.buttons);
    }

    /// Takes every input from `button`.
    pub fn clear_button_binding(&mut self, button: VirtualGamepadButton)
        requires
            old(self).well_formed(),
        ensures
            final(self).well_formed(),
            final(self)@ == old(self)@.with_button(button, Seq::empty()),
    {
        let i = index_of_button(button);
        self.button_bindings[i].clear();
        assert(self@.buttons =~= old(self)@.buttons.update(i as int, Seq::empty()));
    }

    /// Takes every input from every button. The sticks keep theirs.
    pub fn clear_all_buttons_bindings(&mut self)
        requires
            old(self).well_formed(),
        ensures
            final(self).well_formed(),
            final(self)@ == (GamepadView {
                buttons: Seq::new(BUTTON_COUNT as nat, |i: int| Seq::empty()),
                ..old(self)@
            }),
    {
        let mut i: usize = 0;
        while i < BUTTON_COUNT
            invariant
                i <= BUTTON_COUNT,
                self.button_bindings.len() == BUTTON_COUNT,
                self.left_stick_bindings == old(self).left_stick_bindings,
                self.right_stick_bindings == old(self).right_stick_bindings,
                self.currently_pressed == old(self).currently_pressed,
                forall|j: int| 0 <= j < i ==> self.button_bindings[j]@ == Seq::<RealInput>::empty(),
            decreases BUTTON_COUNT - i,
        {
            self.button_bindings[i].clear();
            i += 1;
        }
        assert(self@.buttons =~= Seq::new(
            BUTTON_COUNT as nat,
            |i: int| Seq::<RealInput>::empty(),
        ));
    }

    /// Whether `input` is held down.
    pub fn is_input_pressed(&self, input: &RealInput) -> (r: bool)
        ensures
            r == self@.pressed.contains(*input),
    {
        let mut i: usize = 0;
        while i < self.currently_pressed.len()
            invariant
                i <= self.currently_pressed.len(),
                forall|j: int| 0 <= j < i ==> self.currently_pressed[j] != *input,
            decreases self.currently_pressed.len() - i,
        {
            if self.currently_pressed[i] == *input {
                assert(self.currently_pressed@.contains(*input));
                return true;
            }
            i += 1;
        }
        false
    }

    /// Notes that `input` is held down.
    pub fn press(&mut self, input: RealInput)
        requires
            old(self).well_formed(),
        ensures
            final(self).well_formed(),
            final(self)@ == (GamepadView {
                pressed: old(self)@.pressed.insert(input),
                ..old(self)@
            }),
    {
        if !self.is_input_pressed(&input) {
            self.currently_pressed.push(input);
            proof {
                old(self).currently_pressed@.lemma_push_to_set_commute(input);
            }
        }
        assert(self@.buttons =~= old(self)@.buttons);
        assert(self@.pressed =~= old(self)@.pressed.insert(input));
    }

    /// Notes that `input` is held down no more.
    pub fn release(&mut self, input: RealInput)
        requires
            old(self).well_formed(),
        ensures
            final(self).well_formed(),
            final(self)@ == (GamepadView {
                pressed: old(self)@.pressed.remove(input),
                ..old(self)@
            }),
    {
        let ghost others = |held: RealInput| held != input;
        let mut kept: Vec<RealInput> = Vec::new();
        let mut i: usize = 0;
        proof {
            lemma_filter_items(self.currently_pressed@.take(0), others);
        }
        while i < self.currently_pressed.len()
            invariant
                i <= self.currently_pressed.len(),
                others == |held: RealInput| held != input,
                kept@ == self.currently_pressed@.take(i as int).filter(others),
            decreases self.currently_pressed.len() - i,
        {
            let held = self.currently_pressed[i];
            proof {
                let seen = self.currently_pressed@.take(i as int);
                assert(self.currently_pressed@.take(i + 1) =~= seen.push(held));
                seen.lemma_filter_push(held, others);
            }
            if held != input {
                kept.push(held);
            }
            i += 1;
        }
        proof {
            assert(self.currently_pressed@.take(self.currently_pressed.len() as int)
                =~= self.currently_pressed@);
            lemma_filter_items(self.currently_pressed@, others);
        }
        self.currently_pressed = kept;
        assert(self@.buttons =~= old(self)@.buttons);
        assert(self@.pressed =~= old(self)@.pressed.remove(input));
    }

    /// Notes that the mouse wheel turns no more, as at the end of every
    /// frame.
    pub fn release_wheel(&mut self)
        requires
            old(self).well_formed(),
        ensures
            final(self).well_formed(),
            final(self)@ == (GamepadView {
                pressed: old(self)@.pressed.remove(RealInput::MouseWheelUp).remove(
                    RealInput::MouseWheelDown,
                ),
                ..old(self)@
            }),
    {
        self.release(RealInput::MouseWheelUp);
        self.release(RealInput::MouseWheelDown);
    }

    /// Whether one of the inputs bound to `button` is held down.
    pub fn is_pressed(&self, button: VirtualGamepadButton) -> (r: bool)
        requires
            self.well_formed(),
        ensures
            r == self@.is_pressed(button),
    {
        let bindings = self.borrow_button_binding(button);
        let mut i: usize = 0;
        while i < bindings.len()
            invariant
                i <= bindings.len(),
                bindings@ == self@.button(button),
                forall|j: int| 0 <= j < i ==> !self@.pressed.contains(#[trigger] bindings@[j]),
            decreases bindings.len() - i,
        {
            if self.is_input_pressed(&bindings[i]) {
                return true;
            }
            i += 1;
        }
        false
    }

    /// Where the keys of `binding` point together: `1`, `0` or `-1` to the
    /// right and upwards. A binding to the mouse has no keys.
    pub fn stick_key_direction(&self, binding: &StickBinding) -> (r: Option<(i8, i8)>)
        ensures
            match *binding {
                StickBinding::Key { left, up, right, down } => r matches Some(direction) && (
                direction.0 as int, direction.1 as int) == key_direction(
                    self@.pressed,
                    left,
                    up,
                    right,
                    down,
                ),
                StickBinding::Mouse => r is None,
            },
    {
        match binding {
            StickBinding::Key { left, up, right, down } => {
                let mut x: i8 = 0;
                let mut y: i8 = 0;
                if self.is_input_pressed(left) {
                    x = x - 1;
                }
                if self.is_input_pressed(up) {
                    y = y + 1;
                }
                if self.is_input_pressed(right) {
                    x = x + 1;
                }
                if self.is_input_pressed(down) {
                    y = y - 1;
                }
                Some((x, y))
            },
            StickBinding::Mouse => None,
        }
    }
}

} // verus!
