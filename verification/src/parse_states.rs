use vstd::prelude::*;

use crate::position::Position;
use crate::text_attribute::TextAttribute;

verus! {

/// Where the Avatar reader is inside a command.
#[derive(Clone, Copy, Debug, PartialEq, Eq, Structural)]
pub enum AvtReadState {
    Chars,
    RepeatChars,
    ReadCommand,
    MoveCursor,
    ReadColor,
}

/// The state of the stream readers (ANSI, PCBoard and Avatar) between two
/// input bytes: the cursor, the current attribute and where each reader is
/// inside an escape sequence.
pub struct ParseStates {
    pub screen_width: i32,
    pub cur_input_pos: Position,
    pub ans_esc: bool,
    pub ans_code: bool,
    pub cur_pos: Position,
    pub saved_pos: Position,
    pub text_attr: TextAttribute,
    pub ans_numbers: Vec<i32>,
    pub pcb_code: bool,
    pub pcb_color: bool,
    pub pcb_value: u8,
    pub pcb_pos: i32,
    pub avt_state: AvtReadState,
    pub avatar_state: i32,
    pub avt_repeat_char: u8,
    pub avt_repeat_count: i32,
}

/// The reader state as a value: the same fields, the parameter list of an
/// open control sequence as a sequence.
#[verifier::ext_equal]
pub struct ReaderModel {
    pub screen_width: i32,
    pub cur_input_pos: Position,
    pub ans_esc: bool,
    pub ans_code: bool,
    pub cur_pos: Position,
    pub saved_pos: Position,
    pub text_attr: TextAttribute,
    pub ans_numbers: Seq<i32>,
    pub pcb_code: bool,
    pub pcb_color: bool,
    pub pcb_value: u8,
    pub pcb_pos: i32,
    pub avt_state: AvtReadState,
    pub avatar_state: i32,
    pub avt_repeat_char: u8,
    pub avt_repeat_count: i32,
}

impl View for ParseStates {
    type V = ReaderModel;

    open spec fn view(&self) -> ReaderModel {
        ReaderModel {
            screen_width: self.screen_width,
            cur_input_pos: self.cur_input_pos,
            ans_esc: self.ans_esc,
            ans_code: self.ans_code,
            cur_pos: self.cur_pos,
            saved_pos: self.saved_pos,
            text_attr: self.text_attr,
            ans_numbers: self.ans_numbers@,
            pcb_code: self.pcb_code,
            pcb_color: self.pcb_color,
            pcb_value: self.pcb_value,
            pcb_pos: self.pcb_pos,
            avt_state: self.avt_state,
            avatar_state: self.avatar_state,
            avt_repeat_char: self.avt_repeat_char,
            avt_repeat_count: self.avt_repeat_count,
        }
    }
}

/// `v` clamped to the range of `i32`.
pub open spec fn sat_i32(v: int) -> i32 {
    if v > i32::MAX {
        i32::MAX
    } else if v < i32::MIN {
        i32::MIN
    } else {
        v as i32
    }
}

/// Adds two `i32` values, saturating at the bounds of the type.
pub fn sat_add(a: i32, b: i32) -> (r: i32)
    ensures
        r == sat_i32(a + b),
{
    let v: i64 = a as i64 + b as i64;
    if v > i32::MAX as i64 {
        i32::MAX
    } else if v < i32::MIN as i64 {
        i32::MIN
    } else {
        v as i32
    }
}

/// Subtracts two `i32` values, saturating at the bounds of the type.
pub fn sat_sub(a: i32, b: i32) -> (r: i32)
    ensures
        r == sat_i32(a - b),
{
    let v: i64 = a as i64 - b as i64;
    if v > i32::MAX as i64 {
        i32::MAX
    } else if v < i32::MIN as i64 {
        i32::MIN
    } else {
        v as i32
    }
}

/// The reader state at the start of a file: 80 columns, cursor at the top
/// left, default attribute, no sequence open.
pub open spec fn start_model() -> ReaderModel {
    ReaderModel {
        screen_width: 80,
        cur_input_pos: Position { x: 1, y: 1 },
        ans_esc: false,
        ans_code: false,
        cur_pos: Position { x: 0, y: 0 },
        saved_pos: Position { x: 0, y: 0 },
        text_attr: TextAttribute::spec_default(),
        ans_numbers: Seq::empty(),
        pcb_code: false,
        pcb_color: false,
        pcb_value: 0,
        pcb_pos: 0,
        avt_state: AvtReadState::Chars,
        avatar_state: 0,
        avt_repeat_char: 0,
        avt_repeat_count: 0,
    }
}

impl ParseStates {
    pub fn new() -> (s: Self)
        ensures
            s@ == start_model(),
    {
        ParseStates {
            screen_width: 80,
            cur_input_pos: Position::from(1, 1),
            ans_esc: false,
            ans_code: false,
            cur_pos: Position::new(),
            saved_pos: Position::new(),
            text_attr: TextAttribute::default_attribute(),
            ans_numbers: Vec::new(),
            pcb_code: false,
            pcb_color: false,
            pcb_value: 0,
            pcb_pos: 0,
            avt_state: AvtReadState::Chars,
            avatar_state: 0,
            avt_repeat_char: 0,
            avt_repeat_count: 0,
        }
    }
}

} // verus!
