use vstd::prelude::*;

verus! {

/// The name of a text mode color.
pub fn get_color(color: u8) -> (r: &'static str)
    ensures
        color == 0 ==> r@ == "Black"@,
        color == 1 ==> r@ == "Blue"@,
        color == 2 ==> r@ == "Green"@,
        color == 3 ==> r@ == "Aqua"@,
        color == 4 ==> r@ == "Red"@,
        color == 5 ==> r@ == "Purple"@,
        color == 6 ==> r@ == "Brown"@,
        color == 7 ==> r@ == "Light Gray"@,
        color == 8 ==> r@ == "Gray"@,
        color == 9 ==> r@ == "Light Blue"@,
        color == 10 ==> r@ == "Light Green"@,
        color == 11 ==> r@ == "Light Aqua"@,
        color == 12 ==> r@ == "Light Red"@,
        color == 13 ==> r@ == "Light Purple"@,
        color == 14 ==> r@ == "Light Yelllow"@,
        color == 15 ==> r@ == "White"@,
        color > 15 ==> r@ == "Unknown"@,
{
    match color {
        0 => "Black",
        1 => "Blue",
        2 => "Green",
        3 => "Aqua",
        4 => "Red",
        5 => "Purple",
        6 => "Brown",
        7 => "Light Gray",
        8 => "Gray",
        9 => "Light Blue",
        10 => "Light Green",
        11 => "Light Aqua",
        12 => "Light Red",
        13 => "Light Purple",
        14 => "Light Yelllow",
        15 => "White",
        _ => "Unknown",
    }
}

} // verus!
