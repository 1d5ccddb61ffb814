//! The profile data model: a named configuration holding a platform/position
//! table and a button layout of up to two layers, each a fixed set of twenty
//! named button slots.

use vstd::prelude::*;

verus! {

/// The closed set of target platforms. `Unspecified` is the sentinel that no
/// `platform_config` entry may carry; the remaining variants carry a fixed
/// rank (lower rank = higher priority) that never depends on input order.
#[derive(Clone, Copy, Debug, PartialEq, Eq, Structural)]
pub enum Platform {
    Unspecified,
    Pc,
    N64,
    Gamecube,
    Switch,
}

impl Platform {
    /// Fixed rank of this platform among the closed set; stable for the whole
    /// system.
    pub open spec fn spec_priority(self) -> u8 {
        match self {
            Platform::Unspecified => 0,
            Platform::Pc => 1,
            Platform::N64 => 2,
            Platform::Gamecube => 3,
            Platform::Switch => 4,
        }
    }

    pub fn priority(&self) -> (r: u8)
        ensures
            r == self.spec_priority(),
    {
        match self {
            Platform::Unspecified => 0,
            Platform::Pc => 1,
            Platform::N64 => 2,
            Platform::Gamecube => 3,
            Platform::Switch => 4,
        }
    }
}

/// One platform/position entry of a profile: on `platform`, this profile
/// occupies slot `position` (admissible range 0 through 255).
#[derive(Clone, Copy, Debug, PartialEq, Eq, Structural)]
pub struct PlatformConfig {
    pub platform: Platform,
    pub position: i32,
}

/// An identifier plus a signed magnitude; when `id` is zero the action has no
/// distinct analog identity and encodes exactly like a digital action.
#[derive(Clone, Copy, Debug, PartialEq, Eq, Structural)]
pub struct AnalogAction {
    pub id: i32,
    pub value: i32,
}

/// The two kinds of button action.
#[derive(Clone, Copy, Debug, PartialEq, Eq, Structural)]
pub enum ActionType {
    Digital(i32),
    Analog(AnalogAction),
}

/// A button action; `action_type` of `None` means the action carries neither
/// variant, which the codec rejects as malformed.
#[derive(Clone, Copy, Debug, PartialEq, Eq, Structural)]
pub struct Action {
    pub action_type: Option<ActionType>,
}

/// One full assignment of actions to the twenty canonical button slots.
/// An absent slot encodes as the no-op digital action.
#[derive(Clone, Copy, Debug, PartialEq, Eq, Structural)]
pub struct Layer {
    pub thumb_top: Option<Action>,
    pub thumb_middle: Option<Action>,
    pub thumb_bottom: Option<Action>,
    pub index_top: Option<Action>,
    pub index_middle: Option<Action>,
    pub middle_top: Option<Action>,
    pub middle_middle: Option<Action>,
    pub middle_bottom: Option<Action>,
    pub ring_top: Option<Action>,
    pub ring_middle: Option<Action>,
    pub ring_bottom: Option<Action>,
    pub pinky_top: Option<Action>,
    pub pinky_middle: Option<Action>,
    pub pinky_bottom: Option<Action>,
    pub left_index_extra: Option<Action>,
    pub left_middle_extra: Option<Action>,
    pub left_ring_extra: Option<Action>,
    pub right_index_extra: Option<Action>,
    pub right_middle_extra: Option<Action>,
    pub right_ring_extra: Option<Action>,
}

/// A button layout: a required base layer, an optional modifier layer, and
/// the joystick threshold percentage (0 through 100).
#[derive(Clone, Copy, Debug, PartialEq, Eq, Structural)]
pub struct Layout {
    pub joystick_threshold: i32,
    pub base: Option<Layer>,
    pub mod_layer: Option<Layer>,
}

/// One named configuration.
#[derive(Clone, Debug, PartialEq)]
pub struct Profile {
    pub name: String,
    pub platform_config: Vec<PlatformConfig>,
    pub layout: Option<Layout>,
}

/// The number of canonical button slots in a layer.
pub const SLOT_COUNT: usize = 20;

/// The canonical slot order of a layer, the order in which slots are encoded.
pub open spec fn spec_slots(l: Layer) -> Seq<Option<Action>> {
    seq![
        l.thumb_top,
        l.thumb_middle,
        l.thumb_bottom,
        l.index_top,
        l.index_middle,
        l.middle_top,
        l.middle_middle,
        l.middle_bottom,
        l.ring_top,
        l.ring_middle,
        l.ring_bottom,
        l.pinky_top,
        l.pinky_middle,
        l.pinky_bottom,
        l.left_index_extra,
        l.left_middle_extra,
        l.left_ring_extra,
        l.right_index_extra,
        l.right_middle_extra,
        l.right_ring_extra,
    ]
}

/// The canonical slots of a layer as a vector, in encoding order.
pub fn layer_slots(l: &Layer) -> (r: Vec<Option<Action>>)
    ensures
        r@ == spec_slots(*l),
{
    let mut r: Vec<Option<Action>> = Vec::new();
    r.push(l.thumb_top);
    r.push(l.thumb_middle);
    r.push(l.thumb_bottom);
    r.push(l.index_top);
    r.push(l.index_middle);
    r.push(l.middle_top);
    r.push(l.middle_middle);
    r.push(l.middle_bottom);
    r.push(l.ring_top);
    r.push(l.ring_middle);
    r.push(l.ring_bottom);
    r.push(l.pinky_top);
    r.push(l.pinky_middle);
    r.push(l.pinky_bottom);
    r.push(l.left_index_extra);
    r.push(l.left_middle_extra);
    r.push(l.left_ring_extra);
    r.push(l.right_index_extra);
    r.push(l.right_middle_extra);
    r.push(l.right_ring_extra);
    proof {
        assert(r@ =~= spec_slots(*l));
    }
    r
}

/// A layer whose slots are all populated, in encoding order.
pub fn layer_from_actions(actions: &Vec<ActionType>) -> (r: Layer)
    requires
        actions@.len() == SLOT_COUNT,
    ensures
        spec_slots(r) == actions@.map_values(
            |t: ActionType| Some(Action { action_type: Some(t) }),
        ),
{
    let r = Layer {
        thumb_top: Some(Action { action_type: Some(actions[0]) }),
        thumb_middle: Some(Action { action_type: Some(actions[1]) }),
        thumb_bottom: Some(Action { action_type: Some(actions[2]) }),
        index_top: Some(Action { action_type: Some(actions[3]) }),
        index_middle: Some(Action { action_type: Some(actions[4]) }),
        middle_top: Some(Action { action_type: Some(actions[5]) }),
        middle_middle: Some(Action { action_type: Some(actions[6]) }),
        middle_bottom: Some(Action { action_type: Some(actions[7]) }),
        ring_top: Some(Action { action_type: Some(actions[8]) }),
        ring_middle: Some(Action { action_type: Some(actions[9]) }),
        ring_bottom: Some(Action { action_type: Some(actions[10]) }),
        pinky_top: Some(Action { action_type: Some(actions[11]) }),
        pinky_middle: Some(Action { action_type: Some(actions[12]) }),
        pinky_bottom: Some(Action { action_type: Some(actions[13]) }),
        left_index_extra: Some(Action { action_type: Some(actions[14]) }),
        left_middle_extra: Some(Action { action_type: Some(actions[15]) }),
        left_ring_extra: Some(Action { action_type: Some(actions[16]) }),
        right_index_extra: Some(Action { action_type: Some(actions[17]) }),
        right_middle_extra: Some(Action { action_type: Some(actions[18]) }),
        right_ring_extra: Some(Action { action_type: Some(actions[19]) }),
    };
    proof {
        assert(spec_slots(r) =~= actions@.map_values(
            |t: ActionType| Some(Action { action_type: Some(t) }),
        ));
    }
    r
}

} // verus!
