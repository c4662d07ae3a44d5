//! The objects of an edited scene, as plain values.
use vstd::prelude::*;

verus! {

/// An object of the edited scene: the entity that carries it (by its
/// 64-bit identity), its display name, its numeric id and its script.
pub struct GameObject {
    pub ent: u64,
    pub name: String,
    pub id: u32,
    pub code: String,
}

/// The mathematical value of a [`GameObject`].
pub struct GameObjectModel {
    pub ent: u64,
    pub name: Seq<char>,
    pub id: u32,
    pub code: Seq<char>,
}

impl View for GameObject {
    type V = GameObjectModel;

    open spec fn view(&self) -> GameObjectModel {
        GameObjectModel { ent: self.ent, name: self.name@, id: self.id, code: self.code@ }
    }
}

/// The objects of a vector, each taken by its view.
pub open spec fn objects_view(v: Seq<GameObject>) -> Seq<GameObjectModel> {
    v.map_values(|o: GameObject| o@)
}

impl GameObject {
    /// Field-by-field equality of two objects.
    pub fn same_as(&self, other: &GameObject) -> (r: bool)
        ensures
            r == (self@ == other@),
    {
        self.ent == other.ent && self.id == other.id && self.name == other.name && self.code
            == other.code
    }

    /// A copy of the object.
    pub fn duplicate(&self) -> (o: GameObject)
        ensures
            o@ == self@,
    {
        GameObject {
            ent: self.ent,
            name: self.name.clone(),
            id: self.id,
            code: self.code.clone(),
        }
    }
}

} // verus!
