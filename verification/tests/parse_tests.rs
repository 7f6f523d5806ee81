use conf_lang::def::Def;
use conf_lang::conf::Conf;
use conf_lang::conf::container::record::ParamGroupIndex;
use conf_lang::parser::error::ParseErrorType;

type Parser = Box<dyn Fn(&str) -> Option<i64>>;

fn int_parser() -> Parser {
    Box::new(|s: &str| s.parse::<i64>().ok())
}

fn parse(def: &Def<Parser>, src: &str) -> Result<Conf<i64>, ParseErrorType> {
    def.get_root_branch().parse(src, true, None).map_err(|e| e.error_type)
}

fn hello_def() -> Def<Parser> {
    Def::new().tags(&["hello"]).entry().param_any()
}

#[test]
fn tagged_record_takes_its_value() {
    let def = hello_def();
    let conf = parse(&def, "hello world\n").unwrap();
    let root = conf.root();
    assert_eq!(root.children_num(), 1);
    let rec = root.child(0);
    assert_eq!(rec.tag(), Some("hello"));
    assert_eq!(rec.values_num(), 1);
    assert_eq!(rec.value(0).str(), "world");
    assert!(rec.value(1).is_empty());
    assert_eq!(rec.parent().record_index(), 0);
    assert_eq!(conf.src(), Some("hello world\n"));
    assert!(conf.path().is_none());
}

#[test]
fn record_without_a_node_is_an_error() {
    let def = hello_def();
    match parse(&def, "goodbye world\n") {
        Err(ParseErrorType::NoDefForRecord) => {}
        _ => panic!("expected NoDefForRecord"),
    }
}

#[test]
fn wrong_number_of_values_is_an_error() {
    let def = hello_def();
    assert!(matches!(parse(&def, "hello a b\n"), Err(ParseErrorType::NoDefForRecord)));
}

#[test]
fn repeated_group_parses_each_value() {
    let def: Def<Parser> = Def::new().tagless().entry().elabel("nums").group().grepeat().param_func(1, int_parser());
    let conf = parse(&def, "1 2 3\n").unwrap();
    let rec = conf.root().child(0);
    assert_eq!(rec.node_label(), Some("nums"));
    assert_eq!(rec.values_num(), 3);
    let mut it = rec.values().parsed();
    assert_eq!(it.next(), Some(&1));
    assert_eq!(it.next_back(), Some(&3));
    assert_eq!(it.next(), Some(&2));
    assert_eq!(it.next(), None);
    assert!(matches!(parse(&def, "1 x 3\n"), Err(ParseErrorType::NoDefForRecord)));
}

#[test]
fn children_follow_their_parent() {
    let def: Def<Parser> = Def::new()
        .branch("main")
        .tags(&["node"])
        .entry_children("main")
        .param_any();
    let conf = parse(&def, "node a\n    node b\n    node c\nnode d\n").unwrap();
    let root = conf.root();
    assert_eq!(root.children_num(), 2);
    let a = root.child(0);
    assert_eq!(a.value(0).str(), "a");
    assert_eq!(a.children_num(), 2);
    assert_eq!(a.child(0).value(0).str(), "b");
    assert_eq!(a.child(1).value(0).str(), "c");
    assert_eq!(a.child(1).parent().value(0).str(), "a");
    assert_eq!(root.child(1).value(0).str(), "d");
    assert_eq!(a.branch_name(), Some("main"));
    let mut kids = a.children();
    assert_eq!(kids.next().map(|r| r.record_index()), Some(a.child(0).record_index()));
    assert_eq!(kids.next_back().map(|r| r.record_index()), Some(a.child(1).record_index()));
    assert!(kids.next().is_none());
}

#[test]
fn children_without_a_branch_are_an_error() {
    let def = hello_def();
    assert!(matches!(parse(&def, "hello a\n    hello b\n"), Err(ParseErrorType::DefNoChildren)));
}

#[test]
fn children_of_a_missing_branch_are_an_error() {
    let def: Def<Parser> = Def::new().tags(&["x"]).entry_children("nowhere").param_any();
    match parse(&def, "x a\n    x b\n") {
        Err(ParseErrorType::DefChildrenBranchNotFound(name)) => assert_eq!(name, "nowhere"),
        _ => panic!("expected DefChildrenBranchNotFound"),
    }
}

#[test]
fn body_text_keeps_extra_indent() {
    let def: Def<Parser> = Def::new().tags(&["text"]).entry_text();
    let conf = parse(&def, "text\n    line one\n      line two\n").unwrap();
    let rec = conf.root().child(0);
    assert!(rec.has_text());
    assert!(rec.is_children_text());
    assert!(!rec.has_children());
    let lines: Vec<&str> = {
        let mut it = rec.text_values().str();
        let mut v = Vec::new();
        while let Some(s) = it.next() {
            v.push(s);
        }
        v
    };
    assert_eq!(lines, vec!["line one", "  line two"]);
}

#[test]
fn tag_once_rejects_a_second_use() {
    let def: Def<Parser> = Def::new().tags_once(&["only"]).entry().param_any();
    assert!(parse(&def, "only a\n").is_ok());
    match parse(&def, "only a\nonly b\n") {
        Err(ParseErrorType::TagOnce(t)) => assert_eq!(t, "only"),
        _ => panic!("expected TagOnce"),
    }
}

#[test]
fn comments_and_blank_lines_are_skipped() {
    let def = hello_def();
    let conf = parse(&def, "# a comment\n\n#! a long\ncomment !#\nhello there\n   \n").unwrap();
    assert_eq!(conf.root().children_num(), 1);
    assert_eq!(conf.root().child(0).value(0).str(), "there");
}

#[test]
fn quoted_values_keep_spaces() {
    let def = hello_def();
    let conf = parse(&def, "hello \"big world\"\n").unwrap();
    assert_eq!(conf.root().child(0).value(0).str(), "big world");
    let conf = parse(&def, "hello a\\ b\n").unwrap();
    assert_eq!(conf.root().child(0).value(0).str(), "a b");
}

#[test]
fn unclosed_quote_is_an_error() {
    let def = hello_def();
    match parse(&def, "hello \"oops\n") {
        Err(ParseErrorType::NoClosingQuote(q)) => assert_eq!(q, "\""),
        _ => panic!("expected NoClosingQuote"),
    }
}

#[test]
fn bad_indents_are_errors() {
    let def: Def<Parser> = Def::new().branch("main").tags(&["n"]).entry_children("main").param_any();
    assert!(matches!(parse(&def, "n a\n  n b\n"), Err(ParseErrorType::InvalidIndentIncrement)));
    assert!(matches!(parse(&def, "n a\n        n b\n"), Err(ParseErrorType::InvalidIndent)));
}

#[test]
fn named_groups_are_found_by_name() {
    let def: Def<Parser> = Def::new()
        .tags(&["pt"])
        .entry()
        .group()
        .glabel("x")
        .param_func(1, int_parser())
        .group()
        .glabel("y")
        .param_func(1, int_parser());
    let conf = parse(&def, "pt 3 4\n").unwrap();
    let rec = conf.root().child(0);
    assert_eq!(rec.param_groups_num(), 2);
    let y = rec.param_group(ParamGroupIndex::Name("y"));
    assert_eq!(y.name(), Some("y"));
    assert_eq!(y.values_num(), 1);
    assert_eq!(y.value(0).str(), "4");
    assert_eq!(y.value(0).parsed(), Some(&4));
    let x = rec.param_group(ParamGroupIndex::Index(0));
    assert_eq!(x.first().str(), "3");
    assert!(rec.param_group(ParamGroupIndex::Name("z")).is_empty());
    assert!(rec.param_group(ParamGroupIndex::Index(2)).is_empty());
}

#[test]
fn optional_group_may_be_left_out() {
    let def: Def<Parser> = Def::new()
        .tags(&["v"])
        .entry()
        .group()
        .param_any()
        .group()
        .goptional()
        .param_func(1, int_parser());
    let conf = parse(&def, "v a\nv b 5\n").unwrap();
    let root = conf.root();
    assert_eq!(root.child(0).param_group(ParamGroupIndex::Index(1)).values_num(), 0);
    assert_eq!(root.child(1).param_group(ParamGroupIndex::Index(1)).value(0).parsed(), Some(&5));
}

#[test]
fn shared_groups_deal_out_values_from_the_right() {
    let def: Def<Parser> = Def::new()
        .tagless()
        .entry()
        .group_right()
        .glabel("opt")
        .goptional()
        .param_func(1, int_parser())
        .group_right()
        .glabel("req")
        .param_func(1, int_parser());
    let conf = parse(&def, "7\n").unwrap();
    let rec = conf.root().child(0);
    assert_eq!(rec.param_group(ParamGroupIndex::Name("opt")).values_num(), 0);
    assert_eq!(rec.param_group(ParamGroupIndex::Name("req")).value(0).str(), "7");
    let conf = parse(&def, "7 8\n").unwrap();
    let rec = conf.root().child(0);
    assert_eq!(rec.param_group(ParamGroupIndex::Name("opt")).value(0).str(), "7");
    assert_eq!(rec.param_group(ParamGroupIndex::Name("req")).value(0).str(), "8");
}

#[test]
fn ancestors_skip_the_root() {
    let def: Def<Parser> = Def::new().branch("main").tags(&["n"]).entry_children("main").param_any();
    let conf = parse(&def, "n a\n    n b\n        n c\n").unwrap();
    let c = conf.root().child(0).child(0).child(0);
    assert_eq!(c.value(0).str(), "c");
    assert_eq!(c.ancestor(0).value(0).str(), "b");
    assert_eq!(c.ancestor(1).value(0).str(), "a");
    assert!(c.ancestor(2).is_empty());
    let mut it = c.ancestors();
    let a_ind = c.parent().parent().record_index();
    assert_eq!(it.next().map(|r| r.record_index()), Some(a_ind));
    assert_eq!(it.next().map(|r| r.record_index()), Some(a_ind));
}

#[test]
fn empty_source_gives_only_the_root() {
    let def = hello_def();
    let conf = parse(&def, "").unwrap();
    assert_eq!(conf.root().children_num(), 0);
    assert!(!conf.root().has_parent());
    assert!(conf.root().parent().is_empty());
}

#[test]
fn ancestors_from_the_second_are_the_parents() {
    let def: Def<Parser> = Def::new().branch("main").tags(&["n"]).entry_children("main").param_any();
    let conf = parse(&def, "n a\n    n b\n        n c\n            n d\n").unwrap();
    let d = conf.root().child(0).child(0).child(0).child(0);
    let p = d.parent();
    for k in 0..3 {
        assert_eq!(d.ancestor(k + 1).is_empty(), p.ancestor(k).is_empty());
        if !p.ancestor(k).is_empty() {
            assert_eq!(d.ancestor(k + 1).record_index(), p.ancestor(k).record_index());
        }
    }
    assert_eq!(d.ancestor(0).record_index(), p.record_index());
    let root = conf.root();
    for k in 0..root.children_num() {
        assert_eq!(root.child(k).parent().record_index(), root.record_index());
    }
}

#[test]
fn values_carry_where_they_stand() {
    let def = hello_def();
    let conf = parse(&def, "# note\nhello  world\n").unwrap();
    let rec = conf.root().child(0);
    let v = rec.value(0);
    assert_eq!(v.str(), "world");
    let s = v.start_loc();
    assert_eq!((s.pos, s.row, s.col, s.byte_pos), (14, 2, 8, 14));
    let e = v.end_loc();
    assert_eq!((e.pos, e.row, e.col, e.byte_pos), (19, 2, 13, 19));
    let t = rec.start_loc();
    assert_eq!((t.pos, t.row, t.col), (7, 2, 1));
    assert_eq!(rec.end_loc().pos, 19);
}

#[test]
fn body_resumed_after_a_comment_keeps_the_last_lines() {
    let def: Def<Parser> = Def::new().tags(&["text"]).entry_text().tags(&["hello"]).entry().param_any();
    let conf = parse(&def, "text\n    one\n# between\n    two\nhello x\n").unwrap();
    let root = conf.root();
    assert_eq!(root.children_num(), 2);
    let t = root.child(0);
    let mut it = t.text_values().str();
    let mut lines = Vec::new();
    while let Some(s) = it.next() {
        lines.push(s);
    }
    assert_eq!(lines, vec!["two"]);
    assert_eq!(root.child(1).value(0).str(), "x");
}

#[test]
fn tag_once_counts_only_siblings() {
    let def: Def<Parser> = Def::new()
        .tags(&["group"])
        .entry_children("inner")
        .param_any()
        .branch("inner")
        .tags_once(&["item"])
        .entry()
        .param_any();
    let conf = parse(&def, "group g1\n    item a\ngroup g2\n    item b\n").unwrap();
    let root = conf.root();
    assert_eq!(root.children_num(), 2);
    assert_eq!(root.child(0).child(0).value(0).str(), "a");
    assert_eq!(root.child(1).child(0).value(0).str(), "b");
    match parse(&def, "group g1\n    item a\n    item b\n") {
        Err(ParseErrorType::TagOnce(t)) => assert_eq!(t, "item"),
        _ => panic!("expected TagOnce"),
    }
}

#[test]
fn tag_once_looks_only_at_the_later_node() {
    let def: Def<Parser> = Def::new()
        .tags(&["x"])
        .entry()
        .param_any()
        .param_any()
        .tags_once(&["x"])
        .entry()
        .param_any();
    let conf = parse(&def, "x c\nx a b\n").unwrap();
    assert_eq!(conf.root().children_num(), 2);
    assert_eq!(conf.root().child(1).values_num(), 2);
    match parse(&def, "x a b\nx c\n") {
        Err(ParseErrorType::TagOnce(t)) => assert_eq!(t, "x"),
        _ => panic!("expected TagOnce"),
    }
}

#[test]
fn a_shallower_line_returns_to_the_matching_ancestor() {
    let def: Def<Parser> = Def::new().branch("main").tags(&["n"]).entry_children("main").param_any();
    let conf = parse(&def, "n a\n    n b\n        n c\n    n d\nn e\n").unwrap();
    let root = conf.root();
    assert_eq!(root.children_num(), 2);
    let a = root.child(0);
    assert_eq!(a.children_num(), 2);
    assert_eq!(a.child(0).child(0).value(0).str(), "c");
    assert_eq!(a.child(1).value(0).str(), "d");
    assert_eq!(a.child(1).parent().value(0).str(), "a");
    assert_eq!(root.child(1).value(0).str(), "e");
    assert_eq!(root.child(1).children_num(), 0);
}

#[test]
fn tag_once_error_points_at_the_second_use() {
    let def: Def<Parser> = Def::new().tags_once(&["x"]).entry().param_any();
    let e = match def.get_root_branch().parse::<i64>("x 1\nx 2\n", false, None) {
        Err(e) => e,
        Ok(_) => panic!("a second use of a tag that may stand once must fail"),
    };
    assert!(matches!(e.error_type, ParseErrorType::TagOnce(ref t) if t == "x"));
    assert_eq!(e.loc.row, 2);
    assert_eq!(e.loc.col, 1);
}

#[test]
fn the_first_node_that_fits_is_taken() {
    let def: Def<Parser> = Def::new()
        .tags(&["t"])
        .entry()
        .elabel("tagged")
        .param_any()
        .tagless()
        .entry()
        .elabel("untagged")
        .group()
        .grepeat()
        .param_any();
    let conf = parse(&def, "t a\n").unwrap();
    let rec = conf.root().child(0);
    assert_eq!(rec.node_label(), Some("tagged"));
    assert_eq!(rec.tag(), Some("t"));
    assert_eq!(rec.values_num(), 1);
}

#[test]
fn a_node_whose_values_do_not_parse_is_passed_over() {
    let def: Def<Parser> = Def::new()
        .tagless()
        .entry()
        .elabel("num")
        .param_func(1, int_parser())
        .tagless()
        .entry()
        .elabel("any")
        .param_any();
    let conf = parse(&def, "12\nab\n").unwrap();
    assert_eq!(conf.root().child(0).node_label(), Some("num"));
    assert_eq!(conf.root().child(1).node_label(), Some("any"));
}

#[test]
fn an_error_comes_at_the_first_line_that_fails() {
    let def: Def<Parser> = Def::new().tags(&["a"]).entry().param_any();
    let e = match def.get_root_branch().parse::<i64>("a 1\n# c\nb 2\na 3\n", false, None) {
        Err(e) => e,
        Ok(_) => panic!("a line that fits no node must fail"),
    };
    assert!(matches!(e.error_type, ParseErrorType::NoDefForRecord));
    assert_eq!(e.loc.row, 3);
}

#[test]
fn a_repeating_group_takes_what_the_first_leaves() {
    let def: Def<Parser> = Def::new()
        .tagless()
        .entry()
        .group()
        .glabel("first")
        .param_any()
        .group()
        .glabel("rest")
        .grepeat()
        .param_func(1, int_parser());
    let conf = parse(&def, "x 1 2\n").unwrap();
    let rec = conf.root().child(0);
    assert_eq!(rec.param_groups_num(), 2);
    assert_eq!(rec.param_group(ParamGroupIndex::Name("first")).values_num(), 1);
    assert_eq!(rec.param_group(ParamGroupIndex::Name("first")).value(0).str(), "x");
    let rest = rec.param_group(ParamGroupIndex::Name("rest"));
    assert_eq!(rest.values_num(), 2);
    assert_eq!(rest.value(0).str(), "1");
    assert_eq!(rest.value(1).parsed(), Some(&2));
}

#[test]
fn a_repeating_group_leaves_nothing_for_the_next() {
    let def: Def<Parser> = Def::new()
        .tagless()
        .entry()
        .group()
        .grepeat()
        .param_func(1, int_parser())
        .group()
        .param_func(1, int_parser());
    assert!(matches!(parse(&def, "1 2\n"), Err(ParseErrorType::NoDefForRecord)));
}

#[test]
fn values_left_over_after_the_last_group_do_not_fit() {
    let def: Def<Parser> = Def::new()
        .tags(&["v"])
        .entry()
        .group()
        .param_any()
        .group()
        .goptional()
        .param_func(1, int_parser());
    assert!(matches!(parse(&def, "v a 1 2\n"), Err(ParseErrorType::NoDefForRecord)));
    let conf = parse(&def, "v a 1\n").unwrap();
    assert_eq!(conf.root().child(0).param_group(ParamGroupIndex::Index(1)).values_num(), 1);
}
