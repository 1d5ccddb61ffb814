//! Lookup over a loaded profile sequence.

use vstd::prelude::*;
use crate::profile::Profile;

verus! {

/// The index of the first profile with the given name, if any.
pub fn find(profiles: &Vec<Profile>, name: &str) -> (r: Option<usize>)
    ensures
        r matches Some(i) ==> i < profiles@.len() && profiles@[i as int].name@ == name@ && (forall|
            j: int,
        |
            0 <= j < i ==> profiles@[j].name@ != name@),
        r is None ==> forall|j: int| 0 <= j < profiles@.len() ==> profiles@[j].name@ != name@,
{
    let target: String = name.to_owned();
    let mut i: usize = 0;
    while i < profiles.len()
        invariant
            i <= profiles@.len(),
            target@ == name@,
            forall|j: int| 0 <= j < i ==> profiles@[j].name@ != name@,
        decreases profiles@.len() - i,
    {
        if profiles[i].name == target {
            return Some(i);
        }
        i = i + 1;
    }
    None
}

} // verus!
