//! The contents of a package.json file.
use vstd::prelude::*;

use crate::strmap::{StrMap, ViewClone};

verus! {

/// Represents a parsed package.json file
pub struct Manifest {
    pub name: Option<String>,
    pub version: Option<String>,
    pub dependencies: StrMap<String>,
    pub dev_dependencies: StrMap<String>,
    pub peer_dependencies: StrMap<String>,
    pub optional_dependencies: StrMap<String>,
    pub bin: Option<BinField>,
    pub scripts: StrMap<String>,
    pub workspaces: Option<Vec<String>>,
}

/// The `bin` field: one path, or a map from command names to paths.
pub enum BinField {
    Path(String),
    Mapping(StrMap<String>),
}

/// The value of a [`BinField`].
pub enum BinModel {
    Path(Seq<char>),
    Mapping(Map<Seq<char>, Seq<char>>),
}

impl View for BinField {
    type V = BinModel;

    open spec fn view(&self) -> BinModel {
        match self {
            BinField::Path(p) => BinModel::Path(p@),
            BinField::Mapping(m) => BinModel::Mapping(m@),
        }
    }
}

impl ViewClone for BinField {
    fn view_clone(&self) -> (r: BinField) {
        match self {
            BinField::Path(p) => BinField::Path(p.view_clone()),
            BinField::Mapping(m) => BinField::Mapping(m.view_clone()),
        }
    }
}

/// `Option::cloned` for views.
pub fn clone_opt<T: ViewClone>(o: &Option<T>) -> (r: Option<T>)
    ensures
        r is Some <==> o is Some,
        r matches Some(v) ==> v@ == o->0@,
{
    match o {
        Some(v) => Some(v.view_clone()),
        None => None,
    }
}

/// A copy of a list of strings.
pub fn clone_strings(v: &Vec<String>) -> (r: Vec<String>)
    ensures
        r@.len() == v@.len(),
        forall|i: int| 0 <= i < v@.len() ==> #[trigger] r@[i]@ == v@[i]@,
{
    let mut r: Vec<String> = Vec::new();
    let mut i: usize = 0;
    while i < v.len()
        invariant
            i <= v@.len(),
            r@.len() == i,
            forall|j: int| 0 <= j < i ==> #[trigger] r@[j]@ == v@[j]@,
        decreases v@.len() - i,
    {
        r.push(v[i].view_clone());
        i = i + 1;
    }
    r
}

impl Manifest {
    /// A manifest with no field set.
    pub fn empty() -> (m: Manifest)
        ensures
            m.name is None,
            m.version is None,
            m.dependencies@ == Map::<Seq<char>, Seq<char>>::empty(),
            m.dev_dependencies@ == Map::<Seq<char>, Seq<char>>::empty(),
            m.peer_dependencies@ == Map::<Seq<char>, Seq<char>>::empty(),
            m.optional_dependencies@ == Map::<Seq<char>, Seq<char>>::empty(),
            m.bin is None,
            m.scripts@ == Map::<Seq<char>, Seq<char>>::empty(),
            m.workspaces is None,
    {
        Manifest {
            name: None,
            version: None,
            dependencies: StrMap::new(),
            dev_dependencies: StrMap::new(),
            peer_dependencies: StrMap::new(),
            optional_dependencies: StrMap::new(),
            bin: None,
            scripts: StrMap::new(),
            workspaces: None,
        }
    }

    /// All production dependencies (dependencies + optionalDependencies)
    pub fn prod_dependencies(&self) -> (deps: StrMap<String>)
        ensures
            deps@ == self.dependencies@.union_prefer_right(self.optional_dependencies@),
    {
        let mut deps = self.dependencies.view_clone();
        deps.extend_from(&self.optional_dependencies);
        deps
    }

    /// All dependencies including devDependencies
    pub fn all_dependencies(&self) -> (deps: StrMap<String>)
        ensures
            deps@ == self.dependencies@.union_prefer_right(
                self.optional_dependencies@,
            ).union_prefer_right(self.dev_dependencies@),
    {
        let mut deps = self.prod_dependencies();
        deps.extend_from(&self.dev_dependencies);
        deps
    }
}

} // verus!
