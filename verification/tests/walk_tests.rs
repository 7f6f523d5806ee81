use conf_lang::conf::container::record::RecordContainer;
use conf_lang::conf::Conf;
use conf_lang::def::Def;
use conf_lang::lexer::Loc;
use conf_lang::walk::error::{WalkError, WalkErrorType};
use conf_lang::walk::{Traversal, Walk};

type Parser = Box<dyn Fn(&str) -> Option<i64>>;

fn traverse<'a, N: Clone, E>(
    root: RecordContainer<'a, i64>,
    mut callback: impl FnMut(&mut Walk<'a, i64, N>) -> Result<(), WalkError<E>>,
) -> Result<(), WalkError<E>> {
    let mut t: Traversal<'a, i64, N> = Traversal::new(root);
    while let Some(mut w) = t.next_walk() {
        callback(&mut w)?;
        t.apply(w)?;
    }
    Ok(())
}

fn tree_def() -> Def<Parser> {
    Def::new().branch("main").tags(&["n"]).entry_children("main").param_any()
}

fn parse(def: &Def<Parser>, src: &str) -> Conf<i64> {
    match def.get_root_branch().parse(src, false, None) {
        Ok(c) => c,
        Err(_) => panic!("parse failed"),
    }
}

fn name<'a>(r: RecordContainer<'a, i64>) -> &'a str {
    r.value(0).str()
}

#[test]
fn visits_depth_first_entering_and_leaving() {
    let def = tree_def();
    let conf = parse(&def, "n a\n    n b\nn c\n");
    let mut seen: Vec<(bool, String, usize, usize, usize, usize)> = Vec::new();
    let r: Result<(), WalkError<()>> = traverse::<(), ()>(conf.root(), |w| {
        w.have_exit();
        seen.push((w.is_enter(), name(w.record()).to_string(), w.depth(), w.order(), w.breadth(), w.ancestors_num()));
        Ok(())
    });
    assert!(r.is_ok());
    let expect = vec![
        (true, "a".to_string(), 0, 0, 0, 0),
        (true, "b".to_string(), 1, 1, 0, 1),
        (false, "b".to_string(), 1, 1, 0, 1),
        (false, "a".to_string(), 0, 0, 0, 0),
        (true, "c".to_string(), 0, 2, 1, 0),
        (false, "c".to_string(), 0, 2, 1, 0),
    ];
    assert_eq!(seen, expect);
}

#[test]
fn parent_and_notes_pass_down() {
    let def = tree_def();
    let conf = parse(&def, "n a\n    n b\n        n c\n");
    let mut parents: Vec<(String, Option<String>, Option<String>)> = Vec::new();
    let r: Result<(), WalkError<()>> = traverse::<String, ()>(conf.root(), |w| {
        let me = name(w.record()).to_string();
        let parent = w.get_parent().map(|p| name(p.record()).to_string());
        let note = w.parent().get_note().cloned();
        parents.push((me.clone(), parent, note));
        w.set_note(format!("from {me}"));
        assert_eq!(w.get_note().map(|s| s.as_str()), Some(format!("from {me}").as_str()));
        assert!(w.has_parent() == (w.depth() > 0));
        Ok(())
    });
    assert!(r.is_ok());
    assert_eq!(
        parents,
        vec![
            ("a".to_string(), None, None),
            ("b".to_string(), Some("a".to_string()), Some("from a".to_string())),
            ("c".to_string(), Some("b".to_string()), Some("from b".to_string())),
        ]
    );
}

#[test]
fn skipped_children_are_not_visited() {
    let def = tree_def();
    let conf = parse(&def, "n a\n    n b\nn c\n");
    let mut seen = Vec::new();
    let r: Result<(), WalkError<()>> = traverse::<(), ()>(conf.root(), |w| {
        seen.push(name(w.record()).to_string());
        w.skip_children();
        Ok(())
    });
    assert!(r.is_ok());
    assert_eq!(seen, vec!["a", "c"]);
}

#[test]
fn extended_records_come_right_after() {
    let def = tree_def();
    let conf = parse(&def, "n a\nn c\n");
    let other = parse(&def, "n x\n    n y\n");
    let x = other.root().child(0);
    let mut seen = Vec::new();
    let r: Result<(), WalkError<()>> = traverse::<(), ()>(conf.root(), |w| {
        seen.push((name(w.record()).to_string(), w.depth()));
        if name(w.record()) == "a" {
            w.extend(&[x]);
        }
        if name(w.record()) == "c" {
            w.extend_children(&[x]);
        }
        Ok(())
    });
    assert!(r.is_ok());
    let expect: Vec<(String, usize)> = vec![
        ("a".into(), 0),
        ("x".into(), 0),
        ("y".into(), 1),
        ("c".into(), 0),
        ("x".into(), 1),
        ("y".into(), 2),
    ];
    assert_eq!(seen, expect);
}

#[test]
fn taking_a_record_in_twice_is_an_error() {
    let def = tree_def();
    let conf = parse(&def, "n a\nn c\n");
    let mut visits = 0;
    let r: Result<(), WalkError<()>> = traverse::<(), ()>(conf.root(), |w| {
        if name(w.record()) == "a" {
            visits += 1;
            let me = w.record();
            w.extend(&[me]);
        }
        Ok(())
    });
    assert_eq!(visits, 2);
    match r {
        Err(e) => {
            assert!(matches!(e.error_type, WalkErrorType::RecursiveInclude));
            assert_eq!(e.loc.row, 1);
            assert!(e.path.is_none());
        }
        Ok(()) => panic!("expected an error"),
    }
}

#[test]
fn a_callback_error_stops_the_walk() {
    let def = tree_def();
    let conf = parse(&def, "n a\nn c\n");
    let mut seen = Vec::new();
    let r = traverse::<(), &str>(conf.root(), |w| {
        seen.push(name(w.record()).to_string());
        if name(w.record()) == "c" {
            return Err(w.error("bad"));
        }
        Ok(())
    });
    assert_eq!(seen, vec!["a", "c"]);
    match r {
        Err(e) => {
            assert!(matches!(e.error_type, WalkErrorType::Custom("bad")));
            assert_eq!(e.loc.row, 2);
            assert_eq!(e.loc.col, 1);
            assert_eq!(e.loc.pos, 4);
        }
        Ok(()) => panic!("expected an error"),
    }
}

#[test]
fn walk_error_new_keeps_what_it_is_given() {
    let e = WalkError::new(None, Loc::one(), 5u8);
    assert!(e.path.is_none());
    assert_eq!(e.loc.row, 1);
    assert_eq!(e.loc.col, 1);
    assert_eq!(e.loc.pos, 0);
    assert!(matches!(e.error_type, WalkErrorType::Custom(5)));
}

#[test]
fn first_child_comes_right_after_its_parent() {
    let def = tree_def();
    let conf = parse(&def, "n a\n    n b\n    n c\n        n d\nn e\n");
    let mut seen: Vec<(String, usize)> = Vec::new();
    let r: Result<(), WalkError<()>> = traverse::<(), ()>(conf.root(), |w| {
        seen.push((name(w.record()).to_string(), w.depth()));
        Ok(())
    });
    assert!(r.is_ok());
    let expect = vec![
        ("a".to_string(), 0),
        ("b".to_string(), 1),
        ("c".to_string(), 1),
        ("d".to_string(), 2),
        ("e".to_string(), 0),
    ];
    assert_eq!(seen, expect);
}

#[test]
fn taking_the_root_in_again_from_a_file_is_an_error() {
    let def = tree_def();
    let path = std::path::Path::new("tree.conf");
    let conf = match def.get_root_branch().parse("n a\nn c\n", false, Some(path)) {
        Ok(c) => c,
        Err(_) => panic!("parse failed"),
    };
    let root = conf.root();
    let again = root.clone();
    let mut calls = 0;
    let r: Result<(), WalkError<()>> = traverse::<(), ()>(root.clone(), |w| {
        calls += 1;
        if calls == 1 {
            w.extend(&[again.clone()]);
        }
        Ok(())
    });
    assert_eq!(calls, 1);
    match r {
        Err(e) => {
            assert!(matches!(e.error_type, WalkErrorType::RecursiveInclude));
            assert_eq!(e.loc, root.child(0).start_loc());
            assert_eq!(e.path.as_deref(), Some(path));
        }
        Ok(()) => panic!("expected an error"),
    }
}
