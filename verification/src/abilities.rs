//! The abilities an actor may use.

use vstd::prelude::*;
use crate::text::str_eq;

verus! {

/// The names of the abilities an actor has, each once.
pub struct Abilities(Vec<String>);

/// The texts of a list of names.
pub open spec fn names_of(v: Seq<String>) -> Seq<Seq<char>> {
    v.map_values(|s: String| s@)
}

/// No name occurs twice.
pub open spec fn distinct_names(v: Seq<Seq<char>>) -> bool {
    forall|i: int, j: int| 0 <= i < j < v.len() ==> v[i] != v[j]
}

impl View for Abilities {
    type V = Seq<Seq<char>>;

    closed spec fn view(&self) -> Seq<Seq<char>> {
        names_of(self.0@)
    }
}

/// Whether `ability` is among the names in `v`.
fn names_contain(v: &Vec<String>, ability: &str) -> (r: bool)
    ensures
        r == names_of(v@).contains(ability@),
{
    let mut i: usize = 0;
    while i < v.len()
        invariant
            i <= v@.len(),
            forall|j: int| 0 <= j < i ==> v@[j]@ != ability@,
        decreases v@.len() - i,
    {
        if str_eq(v[i].as_str(), ability) {
            proof {
                assert(names_of(v@)[i as int] == ability@);
            }
            return true;
        }
        i = i + 1;
    }
    proof {
        if names_of(v@).contains(ability@) {
            let j = choose|j: int| 0 <= j < names_of(v@).len() && names_of(v@)[j] == ability@;
            assert(v@[j]@ == ability@);
        }
    }
    false
}

/// The ability every actor starts with, in order: walking, jumping, punching.
pub open spec fn default_abilities() -> Seq<Seq<char>> {
    seq!["Walk"@, "Jump"@, "Punch"@]
}

/// The descriptions of the known abilities, by name.
pub open spec fn ability_descriptions() -> Seq<(Seq<char>, Seq<char>)> {
    seq![("Walk"@, "Walk dummy!"@), ("Jump"@, "Jump dummy!"@), ("Punch"@, "Punch a target!"@)]
}

impl Abilities {
    /// The names are distinct.
    #[verifier::type_invariant]
    spec fn distinct(self) -> bool {
        distinct_names(names_of(self.0@))
    }

    /// Each known ability's name with its description.
    pub fn get_map() -> (r: Vec<(String, String)>)
        ensures
            r@.len() == 3,
            forall|i: int| 0 <= i < 3 ==> (#[trigger] r@[i]).0@ == ability_descriptions()[i].0 && r@[i].1@
                == ability_descriptions()[i].1,
    {
        let mut r: Vec<(String, String)> = Vec::new();
        r.push((String::from_str("Walk"), String::from_str("Walk dummy!")));
        r.push((String::from_str("Jump"), String::from_str("Jump dummy!")));
        r.push((String::from_str("Punch"), String::from_str("Punch a target!")));
        r
    }

    /// The names, in the order they are held.
    pub fn get_keys(&self) -> (r: Vec<String>)
        ensures
            r@.map_values(|s: String| s@) == self@,
            distinct_names(self@),
    {
        proof {
            use_type_invariant(self);
        }
        let mut r: Vec<String> = Vec::new();
        let mut i: usize = 0;
        while i < self.0.len()
            invariant
                i <= self.0@.len(),
                r@.len() == i,
                forall|j: int| 0 <= j < i ==> (#[trigger] r@[j])@ == self.0@[j]@,
            decreases self.0@.len() - i,
        {
            r.push(self.0[i].clone());
            i = i + 1;
        }
        proof {
            assert(r@.map_values(|s: String| s@) =~= self@);
        }
        r
    }

    /// Whether the actor has the ability named `ability`.
    pub fn contains(&self, ability: &str) -> (r: bool)
        ensures
            r == self@.contains(ability@),
    {
        names_contain(&self.0, ability)
    }

    /// The abilities named in `names`, each kept once, in the order of
    /// their first appearance.
    pub fn from_names(names: Vec<String>) -> (r: Self)
        ensures
            forall|s: Seq<char>| r@.contains(s) <==> names@.map_values(|n: String| n@).contains(s),
            forall|i: int, j: int| 0 <= i < j < r@.len() ==> r@[i] != r@[j],
    {
        let mut kept: Vec<String> = Vec::new();
        let mut i: usize = 0;
        while i < names.len()
            invariant
                i <= names@.len(),
                forall|s: Seq<char>| names_of(kept@).contains(s) <==> names@.subrange(0, i as int).map_values(|n: String| n@).contains(s),
                forall|a: int, b: int| 0 <= a < b < names_of(kept@).len() ==> names_of(kept@)[a] != names_of(kept@)[b],
            decreases names@.len() - i,
        {
            let ghost before = names_of(kept@);
            let ghost prefix = names@.subrange(0, i as int).map_values(|n: String| n@);
            let ghost next = names@.subrange(0, i as int + 1).map_values(|n: String| n@);
            proof {
                assert(next =~= prefix.push(names@[i as int]@));
            }
            let present = names_contain(&kept, names[i].as_str());
            if !present {
                kept.push(names[i].clone());
                proof {
                    assert(names_of(kept@) =~= before.push(names@[i as int]@));
                }
            }
            proof {
                assert(forall|s: Seq<char>| before.contains(s) ==> names_of(kept@).contains(s)) by {
                    assert forall|s: Seq<char>| before.contains(s) implies names_of(kept@).contains(s) by {
                        let k = choose|k: int| 0 <= k < before.len() && before[k] == s;
                        assert(names_of(kept@)[k] == s);
                    }
                }
                assert(names_of(kept@).contains(names@[i as int]@)) by {
                    if !present {
                        assert(names_of(kept@)[before.len() as int] == names@[i as int]@);
                    }
                }
                assert forall|s: Seq<char>| names_of(kept@).contains(s) <==> next.contains(s) by {
                    if next.contains(s) {
                        let k = choose|k: int| 0 <= k < next.len() && next[k] == s;
                        if k < prefix.len() {
                            assert(prefix[k] == s);
                            assert(prefix.contains(s));
                            assert(before.contains(s));
                            assert(names_of(kept@).contains(s));
                        } else {
                            assert(s == names@[i as int]@);
                            assert(names_of(kept@).contains(s));
                        }
                    }
                    if names_of(kept@).contains(s) {
                        if before.contains(s) {
                            assert(prefix.contains(s));
                            let k = choose|k: int| 0 <= k < prefix.len() && prefix[k] == s;
                            assert(next[k] == s);
                        } else {
                            let k = choose|k: int| 0 <= k < names_of(kept@).len() && names_of(kept@)[k] == s;
                            assert(k == before.len());
                            assert(s == names@[i as int]@);
                            assert(next[i as int] == s);
                        }
                    }
                }
            }
            i = i + 1;
        }
        proof {
            assert(names@.subrange(0, names@.len() as int) =~= names@);
        }
        Abilities(kept)
    }
}

impl Default for Abilities {
    fn default() -> (r: Self)
        ensures
            r@ == default_abilities(),
    {
        let mut v: Vec<String> = Vec::new();
        v.push(String::from_str("Walk"));
        v.push(String::from_str("Jump"));
        v.push(String::from_str("Punch"));
        proof {
            reveal_strlit("Walk");
            reveal_strlit("Jump");
            reveal_strlit("Punch");
            assert(names_of(v@) =~= default_abilities());
            assert("Walk"@[0] != "Jump"@[0] && "Walk"@[0] != "Punch"@[0] && "Jump"@[0] != "Punch"@[0]);
        }
        let r = Abilities(v);
        proof {
            assert(r@ =~= default_abilities());
        }
        r
    }
}

} // verus!
