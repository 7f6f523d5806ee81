use conf_lang::def::node::GroupSimilar;
use conf_lang::def::Def;

type Parser = Box<dyn Fn(&str) -> Option<i64>>;

fn p() -> Parser {
    Box::new(|s: &str| s.parse::<i64>().ok())
}

fn labels_for_tag(def: &Def<Parser>, branch: &str, tag: &str) -> Vec<String> {
    let b = def.get_branch(branch);
    let mut it = b.get_tag_nodes(tag);
    let mut v = Vec::new();
    while let Some(n) = it.next() {
        v.push(n.label().unwrap_or("_").to_string());
    }
    v
}

#[test]
fn repeating_types_form_a_pattern() {
    let def: Def<Parser> = Def::new()
        .tags(&["t"])
        .entry()
        .group_right()
        .param_func(1, p())
        .param_func(2, p())
        .param_func(1, p())
        .param_func(2, p());
    let node = def.get_root_branch().get_tag_nodes("t").next().unwrap();
    let g = node.param_group(0).unwrap();
    assert_eq!(g.params_num(), 4);
    assert_eq!(g.params_pattern_len(), 2);
    assert_eq!(g.params_patterns_num(), 2);
    assert!(matches!(g.similar(), GroupSimilar::Right));
    assert_eq!(g.param_type_id(0), Some(1));
    assert_eq!(g.param_type_id(3), Some(2));
}

#[test]
fn odd_types_have_no_shorter_pattern() {
    let def: Def<Parser> = Def::new()
        .tags(&["t"])
        .entry()
        .group_left()
        .param_func(1, p())
        .param_func(2, p())
        .param_func(1, p());
    let node = def.get_root_branch().get_tag_nodes("t").next().unwrap();
    let g = node.param_group(0).unwrap();
    assert_eq!(g.params_pattern_len(), 3);
    assert_eq!(g.params_patterns_num(), 1);
}

#[test]
fn any_params_repeat_as_one() {
    let def: Def<Parser> = Def::new().tags(&["t"]).entry().group_right().param_any().param_any().param_any();
    let g = def.get_root_branch().get_tag_nodes("t").next().unwrap().param_group(0).unwrap();
    assert_eq!(g.params_pattern_len(), 1);
    assert_eq!(g.params_patterns_num(), 3);
    assert_eq!(g.param_type_id(0), None);
}

#[test]
fn plain_groups_have_no_pattern() {
    let def: Def<Parser> = Def::new().tags(&["t"]).entry().group().param_func(1, p()).param_func(1, p());
    let g = def.get_root_branch().get_tag_nodes("t").next().unwrap().param_group(0).unwrap();
    assert_eq!(g.params_pattern_len(), 0);
    assert_eq!(g.params_patterns_num(), 0);
    assert!(matches!(g.similar(), GroupSimilar::Neither));
}

#[test]
fn group_settings_are_kept() {
    let def: Def<Parser> = Def::new()
        .tags(&["t"])
        .entry()
        .group()
        .glabel("g")
        .grepeat()
        .goptional()
        .param_any()
        .param_optional()
        .param_any();
    let g = def.get_root_branch().get_tag_nodes("t").next().unwrap().param_group(0).unwrap();
    assert_eq!(g.name(), Some("g"));
    assert!(g.repeat());
    assert!(g.optional());
    assert_eq!(g.param_optional(), Some(1));
    assert_eq!(g.params_num(), 2);
}

#[test]
fn inserted_branches_are_searched_last_first() {
    let def: Def<Parser> = Def::new()
        .branch("a")
        .insert_branches(&["b", "c"])
        .tags(&["x"])
        .entry()
        .elabel("from a")
        .branch("b")
        .tags(&["x"])
        .entry()
        .elabel("from b")
        .branch("c")
        .tags(&["x"])
        .entry()
        .elabel("from c");
    assert_eq!(labels_for_tag(&def, "a", "x"), vec!["from a", "from c", "from b"]);
    assert_eq!(labels_for_tag(&def, "b", "x"), vec!["from b"]);
    assert!(labels_for_tag(&def, "a", "y").is_empty());
}

#[test]
fn branches_taking_each_other_in_are_visited_once() {
    let def: Def<Parser> = Def::new()
        .branch("a")
        .insert_branches(&["b"])
        .tags(&["x"])
        .entry()
        .elabel("1")
        .branch("b")
        .insert_branches(&["a", "missing"])
        .tags(&["x"])
        .entry()
        .elabel("2");
    assert_eq!(labels_for_tag(&def, "a", "x"), vec!["1", "2"]);
    assert_eq!(labels_for_tag(&def, "b", "x"), vec!["2", "1"]);
}

#[test]
fn nodes_know_their_branch_and_tags() {
    let def: Def<Parser> = Def::new()
        .branch("main")
        .tags_once(&["one", "two"])
        .entry_children("main")
        .elabel("lbl")
        .tagless()
        .entry_text();
    let b = def.get_branch("main");
    assert_eq!(b.name(), Some("main"));
    let n = b.get_tag_nodes("two").next().unwrap();
    assert!(n.has_tag());
    assert!(n.tag_once());
    assert_eq!(n.label(), Some("lbl"));
    assert_eq!(n.branch().name(), Some("main"));
    assert_eq!(n.param_groups_num(), 0);
    let t = b.get_tagless_nodes().next().unwrap();
    assert!(!t.has_tag());
    assert!(t.children().is_body());
    assert_ne!(t.node_ind(), n.node_ind());
}
