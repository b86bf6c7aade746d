use psenv::env_handler::{EnvError, EnvHandler, Strategy};
use psenv::envmap::EnvMap;

fn map_of(pairs: &[(&str, &str)]) -> EnvMap {
    let mut m = EnvMap::new();
    for (k, v) in pairs {
        m.insert(k.to_string(), v.to_string());
    }
    m
}

#[test]
fn test_write_env_file() {
    let handler = EnvHandler::new();
    let values = map_of(&[("KEY1", "value1"), ("KEY2", "value2")]);

    let content = handler.write_env_file(&values);

    assert!(content.contains("KEY1=value1"));
    assert!(content.contains("KEY2=value2"));
}

#[test]
fn test_overwrite_env_file() {
    let handler = EnvHandler::new();
    let initial_content = "EXISTING_KEY=existing_value\nANOTHER_KEY=another_value\n";
    let new_values = map_of(&[("NEW_KEY", "new_value"), ("EXISTING_KEY", "overwritten_value")]);

    let content = handler.overwrite_env_file(initial_content, &new_values);

    assert!(content.contains("EXISTING_KEY=overwritten_value"));
    assert!(content.contains("NEW_KEY=new_value"));
    assert!(content.contains("ANOTHER_KEY=another_value"));
}

#[test]
fn fresh_destination_is_created() {
    let r = EnvHandler::new().handle_env_file(None, &map_of(&[("A", "1")]), Strategy::Error);
    assert_eq!(r, Ok("A=1\n".to_string()));
}

#[test]
fn update_keeps_structure_and_appends_in_order() {
    let values = map_of(&[("A", "new"), ("C", "x")]);
    let r = EnvHandler::new().handle_env_file(Some("# cfg\nA=old\nB=keep\n"), &values, Strategy::Update);
    assert_eq!(r, Ok("# cfg\nA=new\nB=keep\nC=x\n".to_string()));
}

#[test]
fn existing_destination_is_refused() {
    let values = map_of(&[("A", "1")]);
    let r = EnvHandler::new().handle_env_file(Some("A=old\n"), &values, Strategy::Error);
    assert_eq!(r, Err(EnvError::DestinationExists));
}

#[test]
fn overwrite_and_update_agree() {
    let values = map_of(&[("A", "new"), ("Z", "z"), ("M", "m")]);
    let existing = "X=1\n#A=commented\n  M = old # note\n";
    let h = EnvHandler::new();
    let u = h.handle_env_file(Some(existing), &values, Strategy::Update);
    let o = h.handle_env_file(Some(existing), &values, Strategy::Overwrite);
    assert_eq!(u, o);
    assert_eq!(u, Ok("X=1\nA=new\nM=m\nZ=z\n".to_string()));
}

#[test]
fn every_matching_line_is_replaced() {
    let values = map_of(&[("A", "2")]);
    let out = EnvHandler::new().overwrite_env_file("A=0\nA=1\n", &values);
    assert_eq!(out, "A=2\nA=2\n");
}

#[test]
fn line_endings_are_normalised() {
    let values = map_of(&[("B", "b")]);
    let out = EnvHandler::new().overwrite_env_file("x\r\n\r\nlast", &values);
    assert_eq!(out, "x\n\nlast\nB=b\n");
}

#[test]
fn empty_mapping_writes_empty_document() {
    assert_eq!(EnvHandler::new().write_env_file(&EnvMap::new()), "");
    assert_eq!(EnvHandler::new().overwrite_env_file("", &EnvMap::new()), "");
}

#[test]
fn reconciling_twice_changes_nothing() {
    let values = map_of(&[("A", "new"), ("C", "x"), ("B", "b")]);
    let h = EnvHandler::new();
    let once = h.overwrite_env_file("# cfg\nA=old\n#B=\nkeep me\n", &values);
    let twice = h.overwrite_env_file(&once, &values);
    assert_eq!(once, twice);
    assert_eq!(once, "# cfg\nA=new\nB=b\nkeep me\nC=x\n");
}

#[test]
fn written_mapping_reads_back() {
    let values = map_of(&[("B", "two words"), ("A", ""), ("C", "x=y")]);
    let h = EnvHandler::new();
    let text = h.write_env_file(&values);
    assert_eq!(text, "A=\nB=two words\nC=x=y\n");
    let back = h.parse_env_content(&text);
    assert_eq!(back.keys(), values.keys());
    for k in ["A", "B", "C"] {
        assert_eq!(back.get(k), values.get(k));
    }
    let declared = psenv::template::TemplateParser::new().parse_template(&text);
    assert_eq!(declared, values.keys());
}

#[test]
fn parse_env_content_reads_assignments() {
    let h = EnvHandler::new();
    let m = h.parse_env_content("# c\n\n K = v \nnoequals\n=empty\nK=later\nX=a=b\n#Y=1\n");
    assert_eq!(m.keys(), vec!["K", "X"]);
    assert_eq!(h.parse_env_content(" K = v \n").get("K"), Some(" v ".to_string()));
    assert_eq!(m.get("K"), Some("later".to_string()));
    assert_eq!(m.get("X"), Some("a=b".to_string()));
    assert_eq!(m.get("Y"), None);
    assert_eq!(m.len(), 2);
}

#[test]
fn map_insert_replaces_and_sorts() {
    let mut m = map_of(&[("b", "1"), ("a", "2")]);
    m.insert("b".to_string(), "3".to_string());
    assert_eq!(m.keys(), vec!["a", "b"]);
    assert_eq!(m.get("b"), Some("3".to_string()));
    assert_eq!(m.find("a"), Some(0));
    assert_eq!(m.find("zz"), None);
    assert_eq!(m.key_at(1), "b");
    assert_eq!(m.value_at(0), "2");
}

#[test]
fn changes_are_counted() {
    let values = map_of(&[("A", "new"), ("C", "x"), ("D", "d")]);
    let h = EnvHandler::new();
    assert_eq!(h.count_changes("# cfg\nA=old\n#A=2\nB=keep\n", &values), (2, 2));
    assert_eq!(h.count_changes("", &values), (0, 3));
    assert_eq!(h.count_changes("A=1\nC=2\nD=3\n", &values), (3, 0));
}

#[test]
fn written_document_reconciles_to_itself() {
    let values = map_of(&[("B", "2"), ("A", "1\r")]);
    let h = EnvHandler::new();
    let first = h.handle_env_file(None, &values, Strategy::Update).unwrap();
    let second = h.handle_env_file(Some(&first), &values, Strategy::Update).unwrap();
    assert_eq!(first, second);
    assert_eq!(h.count_changes(&first, &values), (2, 0));
}

#[test]
fn unicode_whitespace_is_trimmed() {
    let h = EnvHandler::new();
    let m = h.parse_env_content("\u{3000}K\u{a0}=\tv\u{2003}\n");
    assert_eq!(m.get("K"), Some("\tv\u{2003}".to_string()));
    let out = h.overwrite_env_file("\u{3000}#\u{2028}K\u{a0}= old\n", &map_of(&[("K", "n")]));
    assert_eq!(out, "K=n\n");
}

#[test]
fn kept_lines_lose_final_carriage_returns() {
    let h = EnvHandler::new();
    let empty = EnvMap::new();
    let once = h.handle_env_file(Some("\r"), &empty, Strategy::Update).unwrap();
    assert_eq!(once, "\n");
    assert_eq!(h.handle_env_file(Some(&once), &empty, Strategy::Update).unwrap(), once);
    let values = map_of(&[("A", "1")]);
    let once = h.overwrite_env_file("x\r\r\n#A=0\r\r\ny\r", &values);
    assert_eq!(once, "x\nA=1\ny\n");
    assert_eq!(h.overwrite_env_file(&once, &values), once);
}

#[test]
fn untrimmed_values_read_back_exactly() {
    let values = map_of(&[("A", " a"), ("B", "b\t "), ("C", " ")]);
    let h = EnvHandler::new();
    let text = h.write_env_file(&values);
    let back = h.parse_env_content(&text);
    assert_eq!(back.keys(), values.keys());
    for k in ["A", "B", "C"] {
        assert_eq!(back.get(k), values.get(k));
    }
}
