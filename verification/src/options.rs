use vstd::prelude::*;

verus! {

/// SDL keycodes do not serialize, but they convert to and from `i32`s; this
/// is the form they take throughout the options.
pub type KeycodeIndex = i32;

/// Where per-user files (options, saves) live.
pub fn get_user_directory() -> (r: &'static str)
    ensures
        r@ == "user/"@,
{
    "user/"
}

/// Where the game's bundled assets live.
pub fn get_resource_directory() -> (r: &'static str)
    ensures
        r@ == "res/"@,
{
    "res/"
}

/// The user-editable configuration.
#[derive(Debug)]
pub struct Options {
    pub ui: UserInterface,
    pub controls: Controls,
}

impl Default for Options {
    fn default() -> (r: Self)
        ensures
            r.ui == UserInterface::default_spec(),
            r.controls@ == Controls::default_view(),
    {
        Options { ui: UserInterface::default(), controls: Controls::default() }
    }
}

/// Pixel measurements of the interface's fixed chrome.
#[derive(Clone, Copy, Debug, PartialEq, Eq, Structural)]
pub struct UserInterface {
    pub pamphlet_width: u32,
    pub console_height: u32,
    pub left_pamphlet_width: u32,
    pub font_size: u16,
    pub padding: u32,
    pub tile_size: u32,
}

impl UserInterface {
    pub open spec fn default_spec() -> UserInterface {
        UserInterface {
            pamphlet_width: 400,
            console_height: 200,
            font_size: 18,
            left_pamphlet_width: 200,
            padding: 10,
            tile_size: 32,
        }
    }
}

impl Default for UserInterface {
    fn default() -> (r: Self)
        ensures
            r == UserInterface::default_spec(),
    {
        UserInterface {
            pamphlet_width: 400,
            console_height: 200,
            font_size: 18,
            left_pamphlet_width: 200,
            padding: 10,
            tile_size: 32,
        }
    }
}

/// Which keycodes drive each movement direction.
#[derive(Debug)]
pub struct Controls {
    pub left: Vec<KeycodeIndex>,
    pub right: Vec<KeycodeIndex>,
    pub up: Vec<KeycodeIndex>,
    pub down: Vec<KeycodeIndex>,
}

/// Mathematical image of `Controls`.
#[verifier::ext_equal]
pub struct ControlsView {
    pub left: Seq<KeycodeIndex>,
    pub right: Seq<KeycodeIndex>,
    pub up: Seq<KeycodeIndex>,
    pub down: Seq<KeycodeIndex>,
}

impl View for Controls {
    type V = ControlsView;

    open spec fn view(&self) -> ControlsView {
        ControlsView { left: self.left@, right: self.right@, up: self.up@, down: self.down@ }
    }
}

impl Controls {
    /// The stock bindings: `hjkl`, the arrow keys, and the numeric keypad,
    /// each written as the SDL keycode's integer value.
    pub open spec fn default_view() -> ControlsView {
        ControlsView {
            left: seq![104, 1073741904, 1073741916],
            right: seq![108, 1073741903, 1073741918],
            up: seq![107, 1073741906, 1073741920],
            down: seq![106, 1073741905, 1073741914],
        }
    }
}

impl Default for Controls {
    fn default() -> (r: Self)
        ensures
            r@ == Controls::default_view(),
    {
        let mut left: Vec<KeycodeIndex> = Vec::new();
        left.push(104);
        left.push(1073741904);
        left.push(1073741916);
        let mut right: Vec<KeycodeIndex> = Vec::new();
        right.push(108);
        right.push(1073741903);
        right.push(1073741918);
        let mut up: Vec<KeycodeIndex> = Vec::new();
        up.push(107);
        up.push(1073741906);
        up.push(1073741920);
        let mut down: Vec<KeycodeIndex> = Vec::new();
        down.push(106);
        down.push(1073741905);
        down.push(1073741914);
        let r = Controls { left, right, up, down };
        proof {
            assert(r@.left =~= Controls::default_view().left);
            assert(r@.right =~= Controls::default_view().right);
            assert(r@.up =~= Controls::default_view().up);
            assert(r@.down =~= Controls::default_view().down);
            assert(r@ =~= Controls::default_view());
        }
        r
    }
}

} // verus!
