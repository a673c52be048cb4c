use vstd::prelude::*;

verus! {

/// What a stream file does to the screen before the picture.
#[derive(Clone, Copy, Debug, PartialEq, Eq, Structural)]
pub enum ScreenPreperation {
    NoChange,
    ClearScreen,
    Home,
}

/// How a picture is written: with or without a SAUCE record, and how the
/// screen is prepared.
#[derive(Clone, Copy, Debug)]
pub struct SaveOptions {
    pub save_sauce: bool,
    pub screen_preparation: ScreenPreperation,
}

impl SaveOptions {
    pub fn new() -> (o: Self)
        ensures
            !o.save_sauce,
            o.screen_preparation == ScreenPreperation::NoChange,
    {
        SaveOptions { save_sauce: false, screen_preparation: ScreenPreperation::NoChange }
    }
}

} // verus!
