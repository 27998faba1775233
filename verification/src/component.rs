//! Path components: the syntactic segments a path parses into.

use vstd::prelude::*;

verus! {

/// One syntactic segment of a path: the root marker `/`, the
/// current-directory marker `.`, the parent-directory marker `..`,
/// or a named segment.
pub enum Component {
    RootDir,
    CurDir,
    ParentDir,
    Normal(String),
}

/// The mathematical model of a component: a named segment is modelled
/// by its character sequence.
pub enum CompModel {
    RootDir,
    CurDir,
    ParentDir,
    Normal(Seq<char>),
}

impl View for Component {
    type V = CompModel;

    open spec fn view(&self) -> CompModel {
        match self {
            Component::RootDir => CompModel::RootDir,
            Component::CurDir => CompModel::CurDir,
            Component::ParentDir => CompModel::ParentDir,
            Component::Normal(s) => CompModel::Normal(s@),
        }
    }
}

/// The models of a sequence of components.
pub open spec fn models_of(s: Seq<Component>) -> Seq<CompModel> {
    s.map_values(|c: Component| c@)
}

pub proof fn lemma_models_of_push(s: Seq<Component>, c: Component)
    ensures
        models_of(s.push(c)) == models_of(s).push(c@),
{
    assert(models_of(s.push(c)) =~= models_of(s).push(c@));
}

impl Component {
    /// Whether this component is a named segment.
    pub fn is_normal(&self) -> (r: bool)
        ensures
            r == (self@ is Normal),
    {
        match self {
            Component::Normal(_) => true,
            _ => false,
        }
    }

    /// The characters of a named segment, or `None` for a marker component.
    pub fn normal_text(&self) -> (r: Option<&String>)
        ensures
            match r {
                Option::Some(s) => self@ == CompModel::Normal(s@),
                Option::None => !(self@ is Normal),
            },
    {
        match self {
            Component::Normal(s) => Option::Some(s),
            _ => Option::None,
        }
    }

    /// Whether two components are the same segment, comparing named
    /// segments character by character.
    pub fn same_as(&self, other: &Component) -> (r: bool)
        ensures
            r == (self@ == other@),
    {
        match (self, other) {
            (Component::RootDir, Component::RootDir) => true,
            (Component::CurDir, Component::CurDir) => true,
            (Component::ParentDir, Component::ParentDir) => true,
            (Component::Normal(a), Component::Normal(b)) => a.eq(b),
            _ => false,
        }
    }
}

} // verus!
