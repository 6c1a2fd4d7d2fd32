//! Files of the project.

use vstd::prelude::*;
#[allow(unused_imports)]
use vstd::std_specs::cmp::PartialEqSpec;

use crate::path::same_path;
#[allow(unused_imports)]
use crate::path::path_components;

verus! {

/// A folder or file that is open in the project.
#[derive(Clone, Copy, Debug, PartialEq, Eq, Structural)]
pub struct WorktreeId(pub usize);

impl WorktreeId {
    pub fn from_usize(id: usize) -> (worktree_id: WorktreeId)
        ensures
            worktree_id.0 == id,
    {
        WorktreeId(id)
    }
}

/// A file of the project: its worktree, and its path inside that as its bytes.
#[derive(Debug)]
pub struct ProjectPath {
    pub worktree_id: WorktreeId,
    pub path: Vec<u8>,
}

/// What a file of the project is.
#[verifier::ext_equal]
pub struct ProjectPathView {
    pub worktree_id: usize,
    pub path: Seq<u8>,
}

impl View for ProjectPath {
    type V = ProjectPathView;

    open spec fn view(&self) -> ProjectPathView {
        ProjectPathView { worktree_id: self.worktree_id.0, path: self.path@ }
    }
}

/// Two names for one file: the same worktree, and paths with the same components.
pub open spec fn same_file(a: ProjectPathView, b: ProjectPathView) -> bool {
    &&& a.worktree_id == b.worktree_id
    &&& path_components(a.path) == path_components(b.path)
}

/// A file is seen with its worktree and its path, and is another file where either
/// differs. Paths do not differ where their components do not.
pub proof fn law_same_file(a: ProjectPath, b: ProjectPath)
    ensures
        a@.worktree_id == a.worktree_id.0,
        a@.path == a.path@,
        same_file(a@, b@) <==> a.worktree_id.0 == b.worktree_id.0 && path_components(a.path@)
            == path_components(b.path@),
        a.eq_spec(&b) <==> a.worktree_id.0 == b.worktree_id.0 && path_components(a.path@)
            == path_components(b.path@),
{
}

impl Clone for ProjectPath {
    fn clone(&self) -> (copy: Self)
        ensures
            copy@ == self@,
    {
        let path: Vec<u8> = self.path.clone();
        assert(path@ =~= self.path@);
        ProjectPath { worktree_id: self.worktree_id, path }
    }
}

impl PartialEq for ProjectPath {
    fn eq(&self, other: &Self) -> (equal: bool) {
        self.worktree_id.0 == other.worktree_id.0 && same_path(&self.path, &other.path)
    }
}

impl vstd::std_specs::cmp::PartialEqSpecImpl for ProjectPath {
    open spec fn obeys_eq_spec() -> bool {
        true
    }

    open spec fn eq_spec(&self, other: &Self) -> bool {
        same_file(self@, other@)
    }
}

/// What the finder tells its surroundings.
#[derive(Debug)]
pub enum Event {
    Selected(ProjectPath),
    Dismissed,
}

} // verus!
