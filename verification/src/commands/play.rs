use vstd::prelude::*;

verus! {

/// The position of the first clip whose file stem is `name`.
pub fn find_clip(stems: &Vec<String>, name: &String) -> (r: Option<usize>)
    ensures
        match r {
            Some(i) => i < stems@.len() && stems@[i as int]@ == name@ && forall|j: int|
                0 <= j < i ==> #[trigger] stems@[j]@ != name@,
            None => forall|j: int| 0 <= j < stems@.len() ==> #[trigger] stems@[j]@ != name@,
        },
{
    let mut i: usize = 0;
    while i < stems.len()
        invariant
            i <= stems@.len(),
            forall|j: int| 0 <= j < i ==> #[trigger] stems@[j]@ != name@,
        decreases stems@.len() - i,
    {
        if stems[i] == *name {
            return Some(i);
        }
        i = i + 1;
    }
    None
}

} // verus!
