use vstd::prelude::*;

verus! {

/// Name of the map-size class offered at a position of the size chooser:
/// `0` is `"small"`, `1` is `"medium"`, every other position is `""`.
pub fn get_file_chooser_string(index: u32) -> (s: String)
    ensures
        index == 0 ==> s@ == "small"@,
        index == 1 ==> s@ == "medium"@,
        index > 1 ==> s@ == Seq::<char>::empty(),
{
    if index == 0 {
        String::from_str("small")
    } else if index == 1 {
        String::from_str("medium")
    } else {
        String::new()
    }
}

/// The part of a file name before its first `_`, if it has one.
pub open spec fn name_class(name: Seq<char>) -> Option<Seq<char>> {
    if exists|i: int| 0 <= i < name.len() && name[i] == '_' {
        let i = choose|i: int| 0 <= i < name.len() && name[i] == '_' && forall|j: int| 0 <= j < i ==> name[j] != '_';
        Some(name.take(i))
    } else {
        None
    }
}

/// Whether the configuration file `name` belongs to the class `starts_with`:
/// the part of its name before the first `_` is exactly `starts_with`.
pub fn config_name_matches(name: &Vec<char>, starts_with: &Vec<char>) -> (b: bool)
    ensures
        b == (name_class(name@) == Some(starts_with@)),
{
    let mut i: usize = 0;
    while i < name.len()
        invariant
            i <= name@.len(),
            forall|j: int| 0 <= j < i ==> name@[j] != '_',
        decreases name@.len() - i,
    {
        if name[i] == '_' {
            proof {
                let c = choose|c: int| 0 <= c < name@.len() && name@[c] == '_' && forall|j: int| 0 <= j < c ==> name@[j] != '_';
                assert(c == i as int);
                assert(name_class(name@) == Some(name@.take(i as int)));
            }
            if i != starts_with.len() {
                return false;
            }
            let mut k: usize = 0;
            while k < i
                invariant
                    k <= i,
                    i == starts_with@.len(),
                    i < name@.len(),
                    name_class(name@) == Some(name@.take(i as int)),
                    forall|j: int| 0 <= j < k ==> name@[j] == starts_with@[j],
                decreases i - k,
            {
                if name[k] != starts_with[k] {
                    assert(name@.take(i as int)[k as int] != starts_with@[k as int]);
                    assert(name@.take(i as int) != starts_with@);
                    return false;
                }
                k += 1;
            }
            assert(name@.take(i as int) =~= starts_with@);
            return true;
        }
        i += 1;
    }
    false
}

} // verus!
