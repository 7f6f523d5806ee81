use vstd::prelude::*;

verus! {

/// The nodes of a branch: by tag name, and those without a tag; and the
/// branches whose nodes it takes in as well.
pub struct Branch {
    /// Each tag name with the indices of its nodes, in the order added.
    pub tags: Vec<(String, Vec<usize>)>,
    pub non_tags: Vec<usize>,
    pub branch_inserts: Vec<String>,
    pub branch_name: Option<String>,
}

impl Branch {
    pub fn new(branch_name: Option<String>) -> (b: Self)
        ensures
            b.tags@.len() == 0,
            b.non_tags@.len() == 0,
            b.branch_inserts@.len() == 0,
            b.branch_name == branch_name,
    {
        Branch { tags: Vec::new(), non_tags: Vec::new(), branch_inserts: Vec::new(), branch_name }
    }
}

} // verus!
