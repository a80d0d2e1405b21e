//! Named, colored, weighted discrete cell states, identified by a small
//! integer id, and name/id resolution against a registry of them.

use vstd::prelude::*;

verus! {

/// An RGB display color.
#[derive(Clone, Copy, PartialEq, Eq, Structural, Debug)]
pub struct Rgb {
    pub r: u8,
    pub g: u8,
    pub b: u8,
}

/// A cell state: a display name, a color, and a sampling weight used only
/// for weighted-random grid initialization.
#[derive(Clone, Debug, PartialEq)]
pub struct CAState {
    pub id: u8,
    pub name: Vec<u8>,
    pub color: Rgb,
    pub weight: u8,
}

/// The mathematical model of a [`CAState`].
pub ghost struct StateModel {
    pub id: u8,
    pub name: Seq<u8>,
    pub color: Rgb,
    pub weight: u8,
}

impl View for CAState {
    type V = StateModel;

    open spec fn view(&self) -> StateModel {
        StateModel {
            id: self.id,
            name: self.name@,
            color: self.color,
            weight: self.weight,
        }
    }
}

/// The models of a whole registry, in registry order.
pub open spec fn registry_model(states: Seq<CAState>) -> Seq<StateModel> {
    states.map_values(|s: CAState| s@)
}

/// The id of the first state named `name`, in registry order.
pub open spec fn spec_lookup_name(states: Seq<StateModel>, name: Seq<u8>) -> Option<u8>
    decreases states.len(),
{
    if states.len() == 0 {
        None
    } else if states[0].name == name {
        Some(states[0].id)
    } else {
        spec_lookup_name(states.drop_first(), name)
    }
}

/// The name of the first state with id `id`, in registry order.
pub open spec fn spec_name_of_id(states: Seq<StateModel>, id: u8) -> Option<Seq<u8>>
    decreases states.len(),
{
    if states.len() == 0 {
        None
    } else if states[0].id == id {
        Some(states[0].name)
    } else {
        spec_name_of_id(states.drop_first(), id)
    }
}

/// Byte-string equality.
pub fn bytes_eq(a: &[u8], b: &[u8]) -> (r: bool)
    ensures
        r == (a@ == b@),
{
    if a.len() != b.len() {
        proof {
            assert(a@.len() != b@.len());
        }
        return false;
    }
    let n = a.len();
    let mut i: usize = 0;
    while i < n
        invariant
            n == a@.len() == b@.len(),
            i <= n,
            forall|j: int| 0 <= j < i ==> a@[j] == b@[j],
        decreases n - i,
    {
        if a[i] != b[i] {
            return false;
        }
        i += 1;
    }
    proof {
        assert(a@ =~= b@);
    }
    true
}

/// Resolve a state name to its id: the first match in registry order.
pub fn find_state_id_by_name(states: &Vec<CAState>, name: &[u8]) -> (r: Option<u8>)
    ensures
        r == spec_lookup_name(registry_model(states@), name@),
{
    let n = states.len();
    let mut i: usize = 0;
    proof {
        assert(registry_model(states@).skip(0) =~= registry_model(states@));
    }
    while i < n
        invariant
            n == states@.len(),
            i <= n,
            spec_lookup_name(registry_model(states@), name@) == spec_lookup_name(
                registry_model(states@).skip(i as int),
                name@,
            ),
        decreases n - i,
    {
        if bytes_eq(states[i].name.as_slice(), name) {
            proof {
                assert(registry_model(states@).skip(i as int)[0] == states@[i as int]@);
            }
            return Some(states[i].id);
        }
        proof {
            assert(registry_model(states@).skip(i as int).drop_first() =~= registry_model(
                states@,
            ).skip(i + 1));
            assert(registry_model(states@).skip(i as int)[0] == states@[i as int]@);
        }
        i += 1;
    }
    proof {
        assert(registry_model(states@).skip(n as int) =~= Seq::<StateModel>::empty());
    }
    None
}

/// Resolve a state id to its name: the first match in registry order.
pub fn find_state_name_by_id(states: &Vec<CAState>, id: u8) -> (r: Option<Vec<u8>>)
    ensures
        match r {
            Some(name) => spec_name_of_id(registry_model(states@), id) == Some(name@),
            None => spec_name_of_id(registry_model(states@), id) is None,
        },
{
    let n = states.len();
    let mut i: usize = 0;
    proof {
        assert(registry_model(states@).skip(0) =~= registry_model(states@));
    }
    while i < n
        invariant
            n == states@.len(),
            i <= n,
            spec_name_of_id(registry_model(states@), id) == spec_name_of_id(
                registry_model(states@).skip(i as int),
                id,
            ),
        decreases n - i,
    {
        if states[i].id == id {
            proof {
                assert(registry_model(states@).skip(i as int)[0] == states@[i as int]@);
            }
            let mut name: Vec<u8> = Vec::new();
            let src = &states[i].name;
            let m = src.len();
            let mut j: usize = 0;
            while j < m
                invariant
                    m == src@.len(),
                    j <= m,
                    name@ == src@.take(j as int),
                decreases m - j,
            {
                name.push(src[j]);
                proof {
                    assert(name@ =~= src@.take(j + 1));
                }
                j += 1;
            }
            proof {
                assert(src@.take(m as int) =~= src@);
            }
            return Some(name);
        }
        proof {
            assert(registry_model(states@).skip(i as int).drop_first() =~= registry_model(
                states@,
            ).skip(i + 1));
            assert(registry_model(states@).skip(i as int)[0] == states@[i as int]@);
        }
        i += 1;
    }
    proof {
        assert(registry_model(states@).skip(n as int) =~= Seq::<StateModel>::empty());
    }
    None
}

} // verus!
