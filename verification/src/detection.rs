use vstd::prelude::*;

verus! {

/// COCO class id of a person.
pub const COCO_PERSON: u32 = 0;

/// COCO class id of a sports ball.
pub const COCO_SPORTS_BALL: u32 = 32;

/// Whether a detector class matters for football analysis (players and the ball).
pub fn is_football_relevant(class_id: u32) -> (r: bool)
    ensures
        r == (class_id == COCO_PERSON || class_id == COCO_SPORTS_BALL),
{
    class_id == COCO_PERSON || class_id == COCO_SPORTS_BALL
}

/// Display name of a football-relevant class.
pub fn football_class_name(class_id: u32) -> (r: &'static str)
    ensures
        class_id == COCO_PERSON ==> r@ == "Player"@,
        class_id == COCO_SPORTS_BALL ==> r@ == "Ball"@,
        class_id != COCO_PERSON && class_id != COCO_SPORTS_BALL ==> r@ == "Unknown"@,
{
    if class_id == COCO_PERSON {
        "Player"
    } else if class_id == COCO_SPORTS_BALL {
        "Ball"
    } else {
        "Unknown"
    }
}

} // verus!
