//! A verified model of an ANSI art editor: text-mode buffers made of layers of
//! DOS characters, the SAUCE metadata record, readers and writers for the
//! classic BBS art formats, and editing operations with undo.

mod position;
pub use position::{Position, Rectangle, Size};

mod text_attribute;
pub use text_attribute::{BufferType, TextAttribute};

mod dos_char;
pub use dos_char::DosChar;

mod layer;
pub use layer::{Layer, Line};

mod overlay_layer;
pub use overlay_layer::{OverlayLayer, OverlayLine};

mod palette;
pub use palette::{Color, Palette};

mod color_names;
pub use color_names::get_color;

mod cp437;

mod sauce_string;
pub use sauce_string::SauceString;

mod undo;
pub use undo::UndoOperation;

mod caret;
pub use caret::Caret;

mod editor;
pub use editor::{Cursor, Editor, Event, Selection, Shape};

mod tdf_font;
pub use tdf_font::{TheDrawFont, TheDrawFontType};

mod buffer;
pub use buffer::{BitFont, Buffer};

mod sauce;
pub use sauce::{sauce_readable_exec, SauceDataType, SauceError, SauceFileType};

mod parse_states;
pub use parse_states::{AvtReadState, ParseStates};

mod ansi;
pub use ansi::{ans_colors_fit, convert_to_ans, display_ans};

mod pcboard;
pub use pcboard::{convert_to_pcb, display_PCBoard, get_save_sauce_default_pcb, pcb_colors_fit};

mod avatar;
pub use avatar::{convert_to_avt, display_avt, AvtError};

mod save_options;
pub use save_options::{SaveOptions, ScreenPreperation};

mod load_error;
pub use load_error::LoadError;

mod bin;
pub use bin::{convert_to_binary, get_save_sauce_default_binary, read_binary};


mod loader;
pub use loader::{file_ext, FileExt, LoadPlan, StreamKind};

mod xbinary;
pub use xbinary::read_xb;

mod xb_save;
pub use xb_save::convert_to_xb;

mod tnd_save;
pub use tnd_save::convert_to_tnd;

mod save;
pub use save::SaveError;

mod artworx;
pub use artworx::{convert_to_adf, read_adf};

mod ice_draw;
pub use ice_draw::{convert_to_idf, read_idf};

mod tundra;
pub use tundra::read_tnd;

mod ascii;
pub use ascii::{convert_to_asc, get_save_sauce_default_asc};

mod mystic_draw;
pub use mystic_draw::{convert_to_mdf, lemma_mdf_roundtrip, read_mdf};

