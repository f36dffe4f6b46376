//! What the painter decides before it puts anything on the screen.

use vstd::prelude::*;

use crate::model::ElemId;
use crate::text::{chars_of, extend_chars, int_decimal, int_decimal_chars, string_of};

verus! {

/// Something the pointer is over or the user has selected.
#[derive(Debug, Clone, Copy, PartialEq, Eq, Structural)]
pub enum Pick {
    Bus(i32),
    Element(ElemId),
}

pub struct Options {
    pub show_grid: bool,
    pub show_labels: bool,
    pub selected: Option<Pick>,
    pub hovered: Option<Pick>,
}

/// How a picked thing stands out: the selection over the hover.
#[derive(Debug, Clone, Copy, PartialEq, Eq, Structural)]
pub enum Highlight {
    Selected,
    Hovered,
}

/// Whether `pick` is drawn selected, hovered or plain.
pub fn highlight_for(options: &Options, pick: Pick) -> (h: Option<Highlight>)
    ensures
        h == if options.selected == Some(pick) {
            Some(Highlight::Selected)
        } else if options.hovered == Some(pick) {
            Some(Highlight::Hovered)
        } else {
            None::<Highlight>
        },
{
    let selected = match options.selected {
        Some(p) => p == pick,
        None => false,
    };
    if selected {
        return Some(Highlight::Selected);
    }
    let hovered = match options.hovered {
        Some(p) => p == pick,
        None => false,
    };
    if hovered {
        Some(Highlight::Hovered)
    } else {
        None
    }
}

/// The caption of a bus bar: its number, then its name where it has one.
pub open spec fn caption_spec(bus: i32, name: Seq<char>) -> Seq<char> {
    if name.len() == 0 {
        int_decimal(bus as int)
    } else {
        int_decimal(bus as int) + seq![' '] + name
    }
}

/// The text written beside a bus bar to identify it.
pub fn bus_caption(bus: i32, name: &str) -> (s: String)
    ensures
        s@ == caption_spec(bus, name@),
{
    let mut v = int_decimal_chars(bus as i64);
    let n = chars_of(name);
    if n.len() > 0 {
        v.push(' ');
        extend_chars(&mut v, n.as_slice());
    }
    string_of(v.as_slice())
}

} // verus!
