use conf_lang::def::Def;
use conf_lang::writer::Writer;

type Parser = Box<dyn Fn(&str) -> Option<i64>>;

#[test]
fn params_are_spaced_and_escaped() {
    let mut w = Writer::new();
    w.record(0).param("hello").param("a b");
    assert_eq!(w.to_string(), "hello a\\ b");
    w.record(1).param("x");
    assert_eq!(w.to_string(), "hello a\\ b\n    x");
}

#[test]
fn plain_param_escapes_each_special_char() {
    let mut w = Writer::new();
    w.param("a\nb\rc d\te\"f'g`h");
    assert_eq!(w.to_string(), "a\\nb\\rc\\ d\\te\\\"f\\'g\\`h");
}

#[test]
fn comment_starts_a_fresh_line() {
    let mut w = Writer::new();
    w.param("x").comment(0, "hi\nthere");
    assert_eq!(w.to_string(), "x\n#hi\\nthere\n");
    w.comment(1, "a\rb");
    assert_eq!(w.to_string(), "x\n#hi\\nthere\n    #a\\rb\n");
}

#[test]
fn text_indents_each_line_and_drops_returns() {
    let mut w = Writer::new();
    w.text(1, "l1\nl2\r");
    assert_eq!(w.to_string(), "    l1\n    l2\n");
}

#[test]
fn newline_writes_an_indented_empty_line() {
    let mut w = Writer::new();
    w.newline(2);
    assert_eq!(w.to_string(), "        \n");
    w.param("p").newline(0);
    assert_eq!(w.to_string(), "        \np\n\n");
}

#[test]
fn quoted_params_escape_the_quote() {
    let mut w = Writer::new();
    w.param_dquote(false, "say \"hi\"");
    assert_eq!(w.to_string(), "\"say \\\"hi\\\"\"");
    let mut w = Writer::new();
    w.param_squote(true, "a'''b");
    assert_eq!(w.to_string(), "'''a\\'''b'''");
    let mut w = Writer::new();
    w.param_bquotes(false, &["x", "y`"]);
    assert_eq!(w.to_string(), "`x` `y\\``");
    let mut w = Writer::new();
    w.param_squotes(false, &["a b"]).param_dquotes(true, &["c"]).param_bquote(true, "d");
    assert_eq!(w.to_string(), "'a b' \"\"\"c\"\"\" ```d```");
}

#[test]
fn clear_empties_the_writer() {
    let mut w = Writer::new();
    w.params(&["a", "b"]);
    assert_eq!(w.to_string(), "a b");
    w.clear();
    assert_eq!(w.to_string(), "");
    w.param("c");
    assert_eq!(w.to_string(), "c");
}

#[test]
fn written_record_reads_back() {
    let def: Def<Parser> = Def::new().tags(&["hello"]).entry().group().grepeat().param_any();
    let mut w = Writer::new();
    w.record(0).params(&["hello", "big world", "say \"hi\"", "it's", "`x`"]);
    w.newline(0);
    let text = w.to_string();
    assert_eq!(text, "hello big\\ world say\\ \\\"hi\\\" it\\'s \\`x\\`\n\n");
    let conf = match def.get_root_branch().parse(text.as_str(), false, None) {
        Ok(c) => c,
        Err(_) => panic!("the written text should parse"),
    };
    let rec = conf.root().child(0);
    assert_eq!(rec.tag(), Some("hello"));
    let vals: Vec<&str> = (0..rec.values_num()).map(|i| rec.value(i).str()).collect();
    assert_eq!(vals, vec!["big world", "say \"hi\"", "it's", "`x`"]);
}
