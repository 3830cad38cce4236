//! Dropdown selection control state: a list of options (optionally with
//! separate stored values), a selected index, and the open/cancel/confirm
//! state machine.

use crate::strutil::str_eq;
use vstd::prelude::*;

verus! {

/// Focus state of an interactive control.
#[derive(Debug, Clone, Copy, PartialEq, Eq, Structural)]
pub enum FocusState {
    Normal,
    Focused,
    Hovered,
    Disabled,
}

/// State for a dropdown control.
#[derive(Debug)]
pub struct DropdownState {
    /// Currently selected index.
    pub selected: usize,
    /// Display names for the options, shown in the UI.
    pub options: Vec<String>,
    /// Stored values for the options; when empty, the display names are
    /// the values.
    pub values: Vec<String>,
    /// Label displayed before the dropdown.
    pub label: String,
    /// Whether the dropdown is currently open.
    pub open: bool,
    /// Focus state.
    pub focus: FocusState,
    /// The selection remembered when the dropdown was opened, restored on
    /// cancel.
    pub original_selected: Option<usize>,
}

impl DropdownState {
    /// The remembered selection to restore on cancel.
    pub open spec fn original_selected_spec(&self) -> Option<usize> {
        self.original_selected
    }

    /// A new dropdown whose display names are also its values.
    pub fn new(options: Vec<String>, label: String) -> (r: DropdownState)
        ensures
            r.selected == 0,
            r.options == options,
            r.values@.len() == 0,
            r.label == label,
            !r.open,
            r.focus == FocusState::Normal,
            r.original_selected_spec() is None,
    {
        DropdownState {
            selected: 0,
            options,
            values: Vec::new(),
            label,
            open: false,
            focus: FocusState::Normal,
            original_selected: None,
        }
    }

    /// A dropdown with separate display names and stored values.
    pub fn with_values(options: Vec<String>, values: Vec<String>, label: String) -> (r:
        DropdownState)
        ensures
            r.selected == 0,
            r.options == options,
            r.values == values,
            r.label == label,
            !r.open,
            r.focus == FocusState::Normal,
            r.original_selected_spec() is None,
    {
        DropdownState {
            selected: 0,
            options,
            values,
            label,
            open: false,
            focus: FocusState::Normal,
            original_selected: None,
        }
    }

    /// The same dropdown with the selection set, when the index is valid.
    pub fn with_selected(self, index: usize) -> (r: DropdownState)
        ensures
            index < self.options@.len() ==> r == (DropdownState { selected: index, ..self }),
            index >= self.options@.len() ==> r == self,
    {
        if index < self.options.len() {
            DropdownState { selected: index, ..self }
        } else {
            self
        }
    }

    /// The same dropdown with the focus state set.
    pub fn with_focus(self, focus: FocusState) -> (r: DropdownState)
        ensures
            r == (DropdownState { focus, ..self }),
    {
        DropdownState { focus, ..self }
    }

    /// True unless the control is disabled.
    pub fn is_enabled(&self) -> (r: bool)
        ensures
            r == (self.focus != FocusState::Disabled),
    {
        match self.focus {
            FocusState::Disabled => false,
            _ => true,
        }
    }

    /// The stored value of the selected option: from `values` when those
    /// are separate, else from the display names.
    pub fn selected_value(&self) -> (r: Option<&str>)
        ensures
            ({
                let source = if self.values@.len() == 0 {
                    self.options@
                } else {
                    self.values@
                };
                match r {
                    Some(v) => self.selected < source.len() && v@ == source[self.selected as int]@,
                    None => self.selected >= source.len(),
                }
            }),
    {
        if self.values.len() == 0 {
            if self.selected < self.options.len() {
                Some(self.options[self.selected].as_str())
            } else {
                None
            }
        } else {
            if self.selected < self.values.len() {
                Some(self.values[self.selected].as_str())
            } else {
                None
            }
        }
    }

    /// The display name of the selected option.
    pub fn selected_option(&self) -> (r: Option<&str>)
        ensures
            match r {
                Some(v) => self.selected < self.options@.len() && v@ == self.options@[self.selected
                    as int]@,
                None => self.selected >= self.options@.len(),
            },
    {
        if self.selected < self.options.len() {
            Some(self.options[self.selected].as_str())
        } else {
            None
        }
    }

    /// The index of the option with this stored value, searching `values`
    /// when those are separate, else the display names.
    pub fn index_of_value(&self, value: &str) -> (r: Option<usize>)
        ensures
            self.values@.len() == 0 ==> match r {
                Some(i) => i < self.options@.len() && self.options@[i as int]@ == value@ && (
                forall|j: int| 0 <= j < i ==> (#[trigger] self.options@[j])@ != value@),
                None => forall|j: int|
                    0 <= j < self.options@.len() ==> (#[trigger] self.options@[j])@ != value@,
            },
            self.values@.len() > 0 ==> match r {
                Some(i) => i < self.values@.len() && self.values@[i as int]@ == value@ && (
                forall|j: int| 0 <= j < i ==> (#[trigger] self.values@[j])@ != value@),
                None => forall|j: int|
                    0 <= j < self.values@.len() ==> (#[trigger] self.values@[j])@ != value@,
            },
    {
        if self.values.len() == 0 {
            let n = self.options.len();
            let mut i: usize = 0;
            while i < n
                invariant
                    i <= n == self.options@.len(),
                    self.values@.len() == 0,
                    forall|j: int| 0 <= j < i ==> (#[trigger] self.options@[j])@ != value@,
                decreases n - i,
            {
                if str_eq(self.options[i].as_str(), value) {
                    return Some(i);
                }
                i = i + 1;
            }
            None
        } else {
            let n = self.values.len();
            let mut i: usize = 0;
            while i < n
                invariant
                    i <= n == self.values@.len(),
                    forall|j: int| 0 <= j < i ==> (#[trigger] self.values@[j])@ != value@,
                decreases n - i,
            {
                if str_eq(self.values[i].as_str(), value) {
                    return Some(i);
                }
                i = i + 1;
            }
            None
        }
    }

    /// Toggle the dropdown open or closed; opening remembers the current
    /// selection for cancel.  Disabled controls ignore this.
    pub fn toggle_open(&mut self)
        ensures
            old(self).focus == FocusState::Disabled ==> *final(self) == *old(self),
            old(self).focus != FocusState::Disabled ==> {
                &&& final(self).open == !old(self).open
                &&& final(self).selected == old(self).selected
                &&& final(self).options == old(self).options
                &&& final(self).values == old(self).values
                &&& final(self).label == old(self).label
                &&& final(self).focus == old(self).focus
                &&& final(self).original_selected_spec() == (if !old(self).open {
                    Some(old(self).selected)
                } else {
                    None::<usize>
                })
            },
    {
        if self.is_enabled() {
            if !self.open {
                self.original_selected = Some(self.selected);
            } else {
                self.original_selected = None;
            }
            self.open = !self.open;
        }
    }

    /// Close the dropdown, restoring the selection remembered when it was
    /// opened.
    pub fn cancel(&mut self)
        ensures
            !final(self).open,
            final(self).original_selected_spec() is None,
            final(self).selected == (match old(self).original_selected_spec() {
                Some(orig) => orig,
                None => old(self).selected,
            }),
            final(self).options == old(self).options,
            final(self).values == old(self).values,
            final(self).label == old(self).label,
            final(self).focus == old(self).focus,
    {
        match self.original_selected {
            Some(original) => {
                self.selected = original;
                self.original_selected = None;
            },
            None => {},
        }
        self.open = false;
    }

    /// Close the dropdown, keeping the current selection.
    pub fn confirm(&mut self)
        ensures
            !final(self).open,
            final(self).original_selected_spec() is None,
            final(self).selected == old(self).selected,
            final(self).options == old(self).options,
            final(self).values == old(self).values,
            final(self).label == old(self).label,
            final(self).focus == old(self).focus,
    {
        self.original_selected = None;
        self.open = false;
    }

    /// Select the next option, wrapping at the end.  Disabled or empty
    /// controls ignore this.
    pub fn select_next(&mut self)
        ensures
            (old(self).focus == FocusState::Disabled || old(self).options@.len() == 0) ==> *final(self) == *old(self),
            (old(self).focus != FocusState::Disabled && old(self).options@.len() > 0) ==> *final(self) == (DropdownState {
                selected: (if old(self).selected + 1 < old(self).options@.len() {
                    (old(self).selected + 1) as usize
                } else {
                    0
                }),
                ..*old(self)
            }),
    {
        if self.is_enabled() && self.options.len() > 0 {
            self.selected = if self.selected < self.options.len() - 1 {
                self.selected + 1
            } else {
                0
            };
        }
    }

    /// Select the previous option, wrapping at the start.  Disabled or
    /// empty controls ignore this.
    pub fn select_prev(&mut self)
        ensures
            (old(self).focus == FocusState::Disabled || old(self).options@.len() == 0) ==> *final(self) == *old(self),
            (old(self).focus != FocusState::Disabled && old(self).options@.len() > 0) ==> *final(self) == (DropdownState {
                selected: (if old(self).selected == 0 {
                    (old(self).options@.len() - 1) as usize
                } else {
                    (old(self).selected - 1) as usize
                }),
                ..*old(self)
            }),
    {
        if self.is_enabled() && self.options.len() > 0 {
            self.selected = if self.selected == 0 {
                self.options.len() - 1
            } else {
                self.selected - 1
            };
        }
    }

    /// Select the option at `index` and close the dropdown.  Disabled
    /// controls and out-of-range indices ignore this.
    pub fn select(&mut self, index: usize)
        ensures
            (old(self).focus == FocusState::Disabled || index >= old(self).options@.len())
                ==> *final(self) == *old(self),
            (old(self).focus != FocusState::Disabled && index < old(self).options@.len())
                ==> {
                &&& final(self).selected == index
                &&& !final(self).open
                &&& final(self).original_selected_spec() is None
                &&& final(self).options == old(self).options
                &&& final(self).values == old(self).values
                &&& final(self).label == old(self).label
                &&& final(self).focus == old(self).focus
            },
    {
        if self.is_enabled() && index < self.options.len() {
            self.selected = index;
            self.original_selected = None;
            self.open = false;
        }
    }
}

/// A rectangle on the terminal grid, in cells.
#[derive(Debug, Clone, Copy, PartialEq, Eq, Structural)]
pub struct CellRect {
    pub x: u16,
    pub y: u16,
    pub width: u16,
    pub height: u16,
}

/// Whether the point `(x, y)` lies inside `r`.
pub open spec fn rect_contains(r: CellRect, x: u16, y: u16) -> bool {
    &&& r.x <= x < r.x + r.width
    &&& r.y <= y < r.y + r.height
}

impl CellRect {
    /// An empty rectangle at the origin.
    pub fn zero() -> (r: CellRect)
        ensures
            r == (CellRect { x: 0, y: 0, width: 0, height: 0 }),
    {
        CellRect { x: 0, y: 0, width: 0, height: 0 }
    }

    /// True when the point `(x, y)` lies inside this rectangle.
    pub fn contains_point(&self, x: u16, y: u16) -> (r: bool)
        ensures
            r == rect_contains(*self, x, y),
    {
        let xe = self.x as u32 + self.width as u32;
        let ye = self.y as u32 + self.height as u32;
        x >= self.x && (x as u32) < xe && y >= self.y && (y as u32) < ye
    }
}

/// Layout information a dropdown renderer reports back, for hit testing.
#[derive(Debug, Clone)]
pub struct DropdownLayout {
    /// The main dropdown button area.
    pub button_area: CellRect,
    /// Areas of the options while open (empty when closed).
    pub option_areas: Vec<CellRect>,
    /// The full control area.
    pub full_area: CellRect,
}

impl DropdownLayout {
    /// An empty layout.
    pub fn new() -> (r: DropdownLayout)
        ensures
            r.button_area == (CellRect { x: 0, y: 0, width: 0, height: 0 }),
            r.option_areas@.len() == 0,
            r.full_area == (CellRect { x: 0, y: 0, width: 0, height: 0 }),
    {
        DropdownLayout {
            button_area: CellRect::zero(),
            option_areas: Vec::new(),
            full_area: CellRect::zero(),
        }
    }

    /// True when the point is on the dropdown button.
    pub fn is_button(&self, x: u16, y: u16) -> (r: bool)
        ensures
            r == rect_contains(self.button_area, x, y),
    {
        self.button_area.contains_point(x, y)
    }

    /// The index of the option under the point, if any; the first match
    /// wins.
    pub fn option_at(&self, x: u16, y: u16) -> (r: Option<usize>)
        ensures
            match r {
                Some(i) => i < self.option_areas@.len() && rect_contains(
                    self.option_areas@[i as int],
                    x,
                    y,
                ) && (forall|j: int|
                    0 <= j < i ==> !rect_contains(#[trigger] self.option_areas@[j], x, y)),
                None => forall|j: int|
                    0 <= j < self.option_areas@.len() ==> !rect_contains(
                        #[trigger] self.option_areas@[j],
                        x,
                        y,
                    ),
            },
    {
        let n = self.option_areas.len();
        let mut i: usize = 0;
        while i < n
            invariant
                i <= n == self.option_areas@.len(),
                forall|j: int|
                    0 <= j < i ==> !rect_contains(#[trigger] self.option_areas@[j], x, y),
            decreases n - i,
        {
            if self.option_areas[i].contains_point(x, y) {
                return Some(i);
            }
            i = i + 1;
        }
        None
    }

    /// True when the point is anywhere within the control.
    pub fn contains(&self, x: u16, y: u16) -> (r: bool)
        ensures
            r == rect_contains(self.full_area, x, y),
    {
        self.full_area.contains_point(x, y)
    }
}

} // verus!
