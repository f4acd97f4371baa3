//! Persisted settings: what the window should look like when it opens, and
//! the handful of preferences that have an argument behind them rather than a
//! taste.

use vstd::prelude::*;

verus! {

/// The smallest text size that is still text rather than a texture.
pub const MINIMUM_TEXT_SIZE: u16 = 9;

/// Above this a document stops being a document and becomes a slide.
pub const MAXIMUM_TEXT_SIZE: u16 = 32;

/// How the caret is drawn, as a setting rather than a type, so the value
/// persists across a version that adds a shape.
#[derive(Clone, Copy, Debug, PartialEq, Eq, Structural)]
pub enum CaretShape {
    Line,
    Bar,
    Block,
    Underline,
}

/// The position of a shape in [`CaretShape::all`], which is what a shape is
/// on disk.
pub open spec fn caret_index(shape: CaretShape) -> u16 {
    match shape {
        CaretShape::Line => 0,
        CaretShape::Bar => 1,
        CaretShape::Block => 2,
        CaretShape::Underline => 3,
    }
}

/// The shape stored at an index; anything past the last shape reads back as
/// the default, a line.
pub open spec fn caret_at(index: u16) -> CaretShape {
    if index == 1 {
        CaretShape::Bar
    } else if index == 2 {
        CaretShape::Block
    } else if index == 3 {
        CaretShape::Underline
    } else {
        CaretShape::Line
    }
}

impl CaretShape {
    /// Every shape, in the order the settings list them.
    pub fn all() -> (shapes: [CaretShape; 4])
        ensures
            shapes@ == seq![CaretShape::Line, CaretShape::Bar, CaretShape::Block, CaretShape::Underline],
    {
        [CaretShape::Line, CaretShape::Bar, CaretShape::Block, CaretShape::Underline]
    }
}

impl Default for CaretShape {
    fn default() -> (shape: CaretShape)
        ensures
            shape == CaretShape::Line,
    {
        CaretShape::Line
    }
}

impl CaretShape {
    /// The identifier of the message that names this shape in the settings;
    /// the words themselves come from the desktop's language.
    pub fn label(self) -> (id: String)
        ensures
            id@ == label_id(self),
    {
        match self {
            CaretShape::Line => {
                proof {
                    reveal_strlit("caret-line");
                }
                "caret-line".to_owned()
            },
            CaretShape::Bar => {
                proof {
                    reveal_strlit("caret-bar");
                }
                "caret-bar".to_owned()
            },
            CaretShape::Block => {
                proof {
                    reveal_strlit("caret-block");
                }
                "caret-block".to_owned()
            },
            CaretShape::Underline => {
                proof {
                    reveal_strlit("caret-underline");
                }
                "caret-underline".to_owned()
            },
        }
    }
}

/// The identifiers of the messages that name each shape.
pub open spec fn label_id(shape: CaretShape) -> Seq<char> {
    match shape {
        CaretShape::Line => seq!['c', 'a', 'r', 'e', 't', '-', 'l', 'i', 'n', 'e'],
        CaretShape::Bar => seq!['c', 'a', 'r', 'e', 't', '-', 'b', 'a', 'r'],
        CaretShape::Block => seq!['c', 'a', 'r', 'e', 't', '-', 'b', 'l', 'o', 'c', 'k'],
        CaretShape::Underline => seq![
            'c',
            'a',
            'r',
            'e',
            't',
            '-',
            'u',
            'n',
            'd',
            'e',
            'r',
            'l',
            'i',
            'n',
            'e',
        ],
    }
}

/// A shape as it is stored: its index in [`CaretShape::all`].
impl From<CaretShape> for u16 {
    fn from(shape: CaretShape) -> (index: u16) {
        match shape {
            CaretShape::Line => 0,
            CaretShape::Bar => 1,
            CaretShape::Block => 2,
            CaretShape::Underline => 3,
        }
    }
}

impl vstd::std_specs::convert::FromSpecImpl<CaretShape> for u16 {
    open spec fn obeys_from_spec() -> bool {
        true
    }

    open spec fn from_spec(shape: CaretShape) -> u16 {
        caret_index(shape)
    }
}

/// A stored index read back as a shape; anything past the last shape is the
/// default, so a setting written by a later version still opens.
impl From<u16> for CaretShape {
    fn from(index: u16) -> (shape: CaretShape) {
        if index == 1 {
            CaretShape::Bar
        } else if index == 2 {
            CaretShape::Block
        } else if index == 3 {
            CaretShape::Underline
        } else {
            CaretShape::Line
        }
    }
}

impl vstd::std_specs::convert::FromSpecImpl<u16> for CaretShape {
    open spec fn obeys_from_spec() -> bool {
        true
    }

    open spec fn from_spec(index: u16) -> CaretShape {
        caret_at(index)
    }
}

/// A shape stored and read back is the same shape.
pub proof fn law_caret_round_trip(shape: CaretShape)
    ensures
        caret_at(caret_index(shape)) == shape,
{
}

/// An index read as a shape and stored again is the same index when it names
/// a shape, and the default's index otherwise.
pub proof fn law_caret_index_round_trip(index: u16)
    ensures
        caret_index(caret_at(index)) == (if index < 4 {
            index
        } else {
            0
        }),
{
}

/// The size text is drawn at: the setting, held between the smallest size
/// that is still text and the largest that is still a document.
pub open spec fn clamped_text_size(size: u16) -> u16 {
    if size < MINIMUM_TEXT_SIZE {
        MINIMUM_TEXT_SIZE
    } else if size > MAXIMUM_TEXT_SIZE {
        MAXIMUM_TEXT_SIZE
    } else {
        size
    }
}

/// Holds a text size between [`MINIMUM_TEXT_SIZE`] and
/// [`MAXIMUM_TEXT_SIZE`].
pub fn clamp_text_size(size: u16) -> (r: u16)
    ensures
        r == clamped_text_size(size),
        MINIMUM_TEXT_SIZE <= r <= MAXIMUM_TEXT_SIZE,
{
    if size < MINIMUM_TEXT_SIZE {
        MINIMUM_TEXT_SIZE
    } else if size > MAXIMUM_TEXT_SIZE {
        MAXIMUM_TEXT_SIZE
    } else {
        size
    }
}

/// The settings a window opens with.
#[derive(Clone, Copy, Debug, PartialEq, Eq, Structural)]
pub struct Config {
    /// The body text size, in points.
    pub text_size: u16,
    /// Which caret shape, by its index in [`CaretShape::all`].
    pub caret: u16,
    /// Whether the caret blinks. Off for anyone who finds it distracting,
    /// and for anyone recording their screen.
    pub caret_blinks: bool,
    /// Whether the caret glides between positions rather than jumping.
    pub caret_glides: bool,
    /// Whether the outline sidebar is showing.
    pub outline: bool,
    /// The width the text column is held to, in characters. Zero is the full
    /// width of the window: a line of prose past about eighty characters is
    /// one the eye loses its place returning from.
    pub measure: u16,
}

impl Default for Config {
    fn default() -> (c: Config)
        ensures
            c == (Config {
                text_size: 15,
                caret: 0,
                caret_blinks: true,
                caret_glides: true,
                outline: true,
                measure: 78,
            }),
    {
        Config {
            text_size: 15,
            caret: 0,
            caret_blinks: true,
            caret_glides: true,
            outline: true,
            measure: 78,
        }
    }
}

impl Config {
    /// The caret shape the settings name.
    pub fn caret_shape(&self) -> (shape: CaretShape)
        ensures
            shape == caret_at(self.caret),
    {
        CaretShape::from(self.caret)
    }

    /// The text size the settings name, held within bounds.
    pub fn text_size(&self) -> (size: u16)
        ensures
            size == clamped_text_size(self.text_size),
    {
        clamp_text_size(self.text_size)
    }

    /// Whether the text column is held to a measure rather than the window's
    /// width.
    pub fn has_measure(&self) -> (r: bool)
        ensures
            r == (self.measure > 0),
    {
        self.measure > 0
    }
}

} // verus!
