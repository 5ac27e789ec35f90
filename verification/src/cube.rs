//! The cube plugin's answer to the keyboard: the arrow keys move the cube
//! by a fixed step.
use vstd::prelude::*;

use crate::text::same_text;

verus! {

/// How far a press of `key` moves the cube along x and y, ten pixels
/// for an arrow key, the y axis pointing down; none for another key.
pub open spec fn key_move(key: Seq<char>) -> Option<(i32, i32)> {
    if key == "Left"@ {
        Some((-10i32, 0i32))
    } else if key == "Right"@ {
        Some((10i32, 0i32))
    } else if key == "Up"@ {
        Some((0i32, -10i32))
    } else if key == "Down"@ {
        Some((0i32, 10i32))
    } else {
        None
    }
}

/// How far a press of `key` moves the cube (see `key_move`).
pub fn key_offset(key: &str) -> (offset: Option<(i32, i32)>)
    ensures
        offset == key_move(key@),
{
    if same_text(key, "Left") {
        Some((-10, 0))
    } else if same_text(key, "Right") {
        Some((10, 0))
    } else if same_text(key, "Up") {
        Some((0, -10))
    } else if same_text(key, "Down") {
        Some((0, 10))
    } else {
        None
    }
}

/// Pressing an arrow key and then the opposite one leaves the cube where
/// it was.
pub proof fn lemma_opposite_keys_cancel()
    ensures
        key_move("Left"@).unwrap().0 + key_move("Right"@).unwrap().0 == 0,
        key_move("Left"@).unwrap().1 + key_move("Right"@).unwrap().1 == 0,
        key_move("Up"@).unwrap().0 + key_move("Down"@).unwrap().0 == 0,
        key_move("Up"@).unwrap().1 + key_move("Down"@).unwrap().1 == 0,
{
    reveal_strlit("Left");
    reveal_strlit("Right");
    reveal_strlit("Up");
    reveal_strlit("Down");
    assert("Right"@.len() != "Left"@.len());
    assert("Down"@[0] != "Left"@[0]);
    assert("Down"@.len() != "Right"@.len());
    assert("Down"@.len() != "Up"@.len());
    assert("Up"@.len() != "Left"@.len());
    assert("Up"@.len() != "Right"@.len());
}

} // verus!
