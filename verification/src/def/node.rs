use vstd::prelude::*;

verus! {

/// How adjacent parameter groups share values: not at all, or with the left or
/// right ones taking what is left over first.
#[derive(Debug, Clone, Copy, PartialEq, Eq, Structural)]
pub enum GroupSimilar {
    Neither,
    Left,
    Right,
}

/// A group of parameters of a node.
pub struct ParamGroup {
    /// The whole group may be left out.
    pub optional: bool,
    /// The parameters from this index on may be left out.
    pub param_optional: Option<usize>,
    /// The group may take its parameters several times over.
    pub repeat: bool,
    pub name: Option<String>,
    /// Each parameter: the index of its parser in the definition, or `None` for any value.
    pub params: Vec<Option<usize>>,
    /// The length of the shortest repeating pattern of parameter kinds.
    pub pattern_len: usize,
    /// How many times that pattern repeats.
    pub patterns_num: usize,
    pub similar: GroupSimilar,
}

/// What a node takes below it: nothing, records of a branch, or a body of text.
pub enum NodeChildren {
    Empty,
    Branch(String),
    Body(Option<String>),
}

/// A kind of record that a branch accepts.
pub struct Node {
    pub param_groups: Vec<ParamGroup>,
    pub has_tag: bool,
    pub node_label: Option<String>,
    pub children: NodeChildren,
    pub branch_ind: usize,
    pub tag_once: bool,
}

/// A parameter group as first added, with the given sharing.
pub open spec fn fresh_group(g: ParamGroup, similar: GroupSimilar) -> bool {
    &&& !g.optional
    &&& g.param_optional is None
    &&& !g.repeat
    &&& g.name is None
    &&& g.params@.len() == 0
    &&& g.pattern_len == 0
    &&& g.patterns_num == 0
    &&& g.similar == similar
}

/// A node as first added.
pub open spec fn fresh_node(n: Node, branch_ind: int, has_tag: bool, tag_once: bool) -> bool {
    &&& n.param_groups@.len() == 0
    &&& n.has_tag == has_tag
    &&& n.node_label is None
    &&& n.children is Empty
    &&& n.branch_ind == branch_ind
    &&& n.tag_once == tag_once
}

impl ParamGroup {
    /// A group with no parameters.
    pub fn new(similar: GroupSimilar) -> (g: Self)
        ensures
            fresh_group(g, similar),
    {
        ParamGroup {
            optional: false,
            param_optional: None,
            repeat: false,
            name: None,
            params: Vec::new(),
            pattern_len: 0,
            patterns_num: 0,
            similar,
        }
    }
}

impl Node {
    /// A node of branch `branch_ind` with no parameters, label or children.
    pub fn new(branch_ind: usize, has_tag: bool, tag_once: bool) -> (n: Self)
        ensures
            fresh_node(n, branch_ind as int, has_tag, tag_once),
    {
        Node {
            param_groups: Vec::new(),
            has_tag,
            node_label: None,
            children: NodeChildren::Empty,
            branch_ind,
            tag_once,
        }
    }
}

} // verus!
