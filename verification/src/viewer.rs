//! The viewer's decisions: what each key does, which variable is shown, the
//! index ranges a screen cell covers, and the help overlay's layout and text.
use vstd::prelude::*;

use crate::colormap::{colormap_at, ordinal, ColormapType};

verus! {

/// A key the viewer reacts to.
#[derive(Debug, Clone, Copy, PartialEq, Eq)]
pub enum ViewerKey {
    Escape,
    Left,
    Right,
    Up,
    Down,
    Char(char),
    Other,
}

/// Direction in which the view pans.
#[derive(Debug, Clone, Copy, PartialEq, Eq, Structural)]
pub enum PanDirection {
    North,
    South,
    East,
    West,
}

/// What the caller does after a key press.
#[derive(Debug, Clone, Copy, PartialEq, Eq, Structural)]
pub enum ViewerAction {
    Nothing,
    ZoomIn,
    ZoomOut,
    ResetView,
    Pan(PanDirection),
    /// Open the variable at this index of the variable list and show it.
    SwitchVariable(usize),
}

/// The viewer state that keys change.
#[derive(Debug, Clone, Copy, PartialEq, Eq, Structural)]
pub struct ViewerState {
    pub should_quit: bool,
    pub show_help: bool,
    pub colormap: ColormapType,
    /// Index of the variable shown, in the list of data variables.
    pub variable_index: usize,
}

/// Index of the variable after `index` in a list of `count`, wrapping around.
pub open spec fn next_variable(index: usize, count: usize) -> usize {
    ((index + 1) % (count as int)) as usize
}

/// Index of the variable before `index` in a list of `count`, wrapping around.
pub open spec fn prev_variable(index: usize, count: usize) -> usize {
    ((index + count - 1) % (count as int)) as usize
}

impl ViewerState {
    /// The state at start-up: showing the first variable with the viridis colormap.
    pub fn new() -> (s: Self)
        ensures
            s == (ViewerState { should_quit: false, show_help: false, colormap: ColormapType::Viridis, variable_index: 0 }),
    {
        ViewerState { should_quit: false, show_help: false, colormap: ColormapType::Viridis, variable_index: 0 }
    }

    /// Reacts to a key: `q` or Escape quits; `+`/`=` and `-` zoom; `r` resets the
    /// view; the arrow keys and `hjkl` pan; `?` toggles the help; `c`/`C` cycle
    /// the colormap forwards/backwards; `]`/`[` switch to the next/previous
    /// variable of `variable_count`, wrapping around (nothing when there is none).
    pub fn handle_key(self, key: ViewerKey, variable_count: usize) -> (r: (ViewerState, ViewerAction))
        requires
            variable_count == 0 || self.variable_index < variable_count,
            self.variable_index + variable_count <= usize::MAX,
        ensures
            match key {
                ViewerKey::Escape | ViewerKey::Char('q') => r == (ViewerState { should_quit: true, ..self }, ViewerAction::Nothing),
                ViewerKey::Char('+') | ViewerKey::Char('=') => r == (self, ViewerAction::ZoomIn),
                ViewerKey::Char('-') => r == (self, ViewerAction::ZoomOut),
                ViewerKey::Char('r') => r == (self, ViewerAction::ResetView),
                ViewerKey::Left | ViewerKey::Char('h') => r == (self, ViewerAction::Pan(PanDirection::West)),
                ViewerKey::Right | ViewerKey::Char('l') => r == (self, ViewerAction::Pan(PanDirection::East)),
                ViewerKey::Up | ViewerKey::Char('k') => r == (self, ViewerAction::Pan(PanDirection::North)),
                ViewerKey::Down | ViewerKey::Char('j') => r == (self, ViewerAction::Pan(PanDirection::South)),
                ViewerKey::Char('?') => r == (ViewerState { show_help: !self.show_help, ..self }, ViewerAction::Nothing),
                ViewerKey::Char('c') => r == (ViewerState { colormap: colormap_at(((ordinal(self.colormap) + 1) % 7) as nat), ..self }, ViewerAction::Nothing),
                ViewerKey::Char('C') => r == (ViewerState { colormap: colormap_at(((ordinal(self.colormap) + 6) % 7) as nat), ..self }, ViewerAction::Nothing),
                ViewerKey::Char('[') => if variable_count == 0 {
                    r == (self, ViewerAction::Nothing)
                } else {
                    r == (ViewerState { variable_index: prev_variable(self.variable_index, variable_count), ..self },
                        ViewerAction::SwitchVariable(prev_variable(self.variable_index, variable_count)))
                },
                ViewerKey::Char(']') => if variable_count == 0 {
                    r == (self, ViewerAction::Nothing)
                } else {
                    r == (ViewerState { variable_index: next_variable(self.variable_index, variable_count), ..self },
                        ViewerAction::SwitchVariable(next_variable(self.variable_index, variable_count)))
                },
                _ => r == (self, ViewerAction::Nothing),
            },
    {
        match key {
            ViewerKey::Escape | ViewerKey::Char('q') => (ViewerState { should_quit: true, ..self }, ViewerAction::Nothing),
            ViewerKey::Char('+') | ViewerKey::Char('=') => (self, ViewerAction::ZoomIn),
            ViewerKey::Char('-') => (self, ViewerAction::ZoomOut),
            ViewerKey::Char('r') => (self, ViewerAction::ResetView),
            ViewerKey::Left | ViewerKey::Char('h') => (self, ViewerAction::Pan(PanDirection::West)),
            ViewerKey::Right | ViewerKey::Char('l') => (self, ViewerAction::Pan(PanDirection::East)),
            ViewerKey::Up | ViewerKey::Char('k') => (self, ViewerAction::Pan(PanDirection::North)),
            ViewerKey::Down | ViewerKey::Char('j') => (self, ViewerAction::Pan(PanDirection::South)),
            ViewerKey::Char('?') => (ViewerState { show_help: !self.show_help, ..self }, ViewerAction::Nothing),
            ViewerKey::Char('c') => (ViewerState { colormap: self.colormap.next(), ..self }, ViewerAction::Nothing),
            ViewerKey::Char('C') => (ViewerState { colormap: self.colormap.prev(), ..self }, ViewerAction::Nothing),
            ViewerKey::Char('[') => {
                if variable_count == 0 {
                    (self, ViewerAction::Nothing)
                } else {
                    let index = (self.variable_index + variable_count - 1) % variable_count;
                    (ViewerState { variable_index: index, ..self }, ViewerAction::SwitchVariable(index))
                }
            },
            ViewerKey::Char(']') => {
                if variable_count == 0 {
                    (self, ViewerAction::Nothing)
                } else {
                    let index = (self.variable_index + 1) % variable_count;
                    (ViewerState { variable_index: index, ..self }, ViewerAction::SwitchVariable(index))
                }
            },
            _ => (self, ViewerAction::Nothing),
        }
    }
}

/// Law: `]` then `[` (or `[` then `]`) shows the variable shown before, and a
/// shown variable index stays within the list.
pub proof fn law_variable_cycle(index: usize, count: usize)
    requires
        index < count,
    ensures
        next_variable(index, count) < count,
        prev_variable(index, count) < count,
        prev_variable(next_variable(index, count), count) == index,
        next_variable(prev_variable(index, count), count) == index,
{
    if index + 1 == count {
        assert(next_variable(index, count) == 0) by {
            vstd::arithmetic::div_mod::lemma_mod_self_0(count as int);
        }
        assert(prev_variable(0, count) == index) by {
            vstd::arithmetic::div_mod::lemma_small_mod((count - 1) as nat, count as nat);
        }
    } else {
        assert(next_variable(index, count) == index + 1) by {
            vstd::arithmetic::div_mod::lemma_small_mod((index + 1) as nat, count as nat);
        }
        assert(prev_variable((index + 1) as usize, count) == index) by {
            vstd::arithmetic::div_mod::lemma_mod_add_multiples_vanish(index as int, count as int);
            vstd::arithmetic::div_mod::lemma_small_mod(index as nat, count as nat);
        }
    }
    if index == 0 {
        assert(prev_variable(0, count) == count - 1) by {
            vstd::arithmetic::div_mod::lemma_small_mod((count - 1) as nat, count as nat);
        }
        assert(next_variable((count - 1) as usize, count) == 0) by {
            vstd::arithmetic::div_mod::lemma_mod_self_0(count as int);
        }
    } else {
        assert(prev_variable(index, count) == index - 1) by {
            vstd::arithmetic::div_mod::lemma_mod_add_multiples_vanish((index - 1) as int, count as int);
            vstd::arithmetic::div_mod::lemma_small_mod((index - 1) as nat, count as nat);
        }
        assert(next_variable((index - 1) as usize, count) == index) by {
            vstd::arithmetic::div_mod::lemma_small_mod(index as nat, count as nat);
        }
    }
}

/// A rectangle of terminal cells.
#[derive(Debug, Clone, Copy, PartialEq, Eq, Structural)]
pub struct Area {
    pub x: u16,
    pub y: u16,
    pub width: u16,
    pub height: u16,
}

/// The help overlay.
pub struct HelpOverlay;

impl Default for HelpOverlay {
    fn default() -> (r: Self)
        ensures
            r == HelpOverlay,
    {
        HelpOverlay
    }
}

/// The lines of the help overlay: (key, description); a line with a key and no
/// description is a heading, an empty line separates groups.
pub open spec fn keybinding_table() -> Seq<(Seq<char>, Seq<char>)> {
    seq![
        ("Navigation"@, ""@),
        ("  Arrow keys / hjkl"@, "Pan view"@),
        ("  + / ="@, "Zoom in"@),
        ("  -"@, "Zoom out"@),
        ("  r"@, "Reset view"@),
        (""@, ""@),
        ("Data"@, ""@),
        ("  [  /  ]"@, "Previous / next variable"@),
        ("  c  /  C"@, "Next / previous colormap"@),
        (""@, ""@),
        ("Display"@, ""@),
        ("  ?"@, "Toggle this help"@),
        ("  q"@, "Quit"@),
    ]
}

/// `a - b`, or 0 when `b > a`.
pub open spec fn saturating_diff(a: u16, b: u16) -> u16 {
    if a >= b {
        (a - b) as u16
    } else {
        0
    }
}

/// A rectangle of `percent_x` % of the width and `percent_y` % of the height of
/// `area`, centred in it.
pub open spec fn centered(percent_x: u16, percent_y: u16, area: Area) -> Area {
    let width = (area.width * percent_x / 100) as u16;
    let height = (area.height * percent_y / 100) as u16;
    Area {
        x: (area.x + saturating_diff(area.width, width) / 2) as u16,
        y: (area.y + saturating_diff(area.height, height) / 2) as u16,
        width,
        height,
    }
}

impl HelpOverlay {
    /// The lines of the overlay.
    pub fn keybindings() -> (r: Vec<(&'static str, &'static str)>)
        ensures
            r@.map_values(|line: (&str, &str)| (line.0@, line.1@)) == keybinding_table(),
    {
        let r = vec![
            ("Navigation", ""),
            ("  Arrow keys / hjkl", "Pan view"),
            ("  + / =", "Zoom in"),
            ("  -", "Zoom out"),
            ("  r", "Reset view"),
            ("", ""),
            ("Data", ""),
            ("  [  /  ]", "Previous / next variable"),
            ("  c  /  C", "Next / previous colormap"),
            ("", ""),
            ("Display", ""),
            ("  ?", "Toggle this help"),
            ("  q", "Quit"),
        ];
        assert(r@.map_values(|line: (&str, &str)| (line.0@, line.1@)) =~= keybinding_table());
        r
    }

    /// The overlay's rectangle: the given percentages of `area`, centred in it.
    pub fn centered_rect(percent_x: u16, percent_y: u16, area: Area) -> (r: Area)
        requires
            area.width * percent_x <= u16::MAX,
            area.height * percent_y <= u16::MAX,
            area.x + saturating_diff(area.width, (area.width * percent_x / 100) as u16) / 2 <= u16::MAX,
            area.y + saturating_diff(area.height, (area.height * percent_y / 100) as u16) / 2 <= u16::MAX,
        ensures
            r == centered(percent_x, percent_y, area),
    {
        let popup_width = area.width * percent_x / 100;
        let popup_height = area.height * percent_y / 100;
        let spare_x = if area.width >= popup_width { area.width - popup_width } else { 0 };
        let spare_y = if area.height >= popup_height { area.height - popup_height } else { 0 };
        Area { x: area.x + spare_x / 2, y: area.y + spare_y / 2, width: popup_width, height: popup_height }
    }
}

/// `Some(min(a, b)..max(a, b) + 1)` when both indices are present.
pub open spec fn covering_range(a: Option<usize>, b: Option<usize>) -> Option<(usize, usize)> {
    match (a, b) {
        (Some(a), Some(b)) => Some((if a <= b { a } else { b }, ((if a <= b { b } else { a }) + 1) as usize)),
        _ => None,
    }
}

/// Law: the ranges do not depend on the order of the two corners, so descending
/// coordinates give the same ranges as ascending ones.
pub proof fn law_covering_range_symmetric(a: Option<usize>, b: Option<usize>)
    ensures
        covering_range(a, b) == covering_range(b, a),
{
}

/// The index ranges (exclusive ends) a screen cell covers, given the array indices
/// nearest to its two corners on each axis, in either order (coordinates may
/// descend); `None` when a corner falls outside the data.
pub fn pixel_index_ranges(
    lat_idx_a: Option<usize>,
    lat_idx_b: Option<usize>,
    lon_idx_a: Option<usize>,
    lon_idx_b: Option<usize>,
) -> (r: Option<((usize, usize), (usize, usize))>)
    requires
        lat_idx_a matches Some(i) ==> i < usize::MAX,
        lat_idx_b matches Some(i) ==> i < usize::MAX,
        lon_idx_a matches Some(i) ==> i < usize::MAX,
        lon_idx_b matches Some(i) ==> i < usize::MAX,
    ensures
        match (covering_range(lat_idx_a, lat_idx_b), covering_range(lon_idx_a, lon_idx_b)) {
            (Some(lat), Some(lon)) => r == Some((lat, lon)),
            _ => r is None,
        },
{
    match (lat_idx_a, lat_idx_b, lon_idx_a, lon_idx_b) {
        (Some(la), Some(lb), Some(oa), Some(ob)) => {
            let lat = if la <= lb { (la, lb + 1) } else { (lb, la + 1) };
            let lon = if oa <= ob { (oa, ob + 1) } else { (ob, oa + 1) };
            Some((lat, lon))
        },
        _ => None,
    }
}

} // verus!
