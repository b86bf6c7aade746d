use psenv::template::TemplateParser;

#[test]
fn test_parse_template() {
    let parser = TemplateParser::new();

    let template_content = r#"
# Database configuration
DB_HOST=localhost
DB_PORT=5432
DB_NAME=myapp

# API Keys
API_KEY=
SECRET_KEY=supersecret

# Comments and empty lines

# This is just a comment
ANOTHER_KEY=value
"#;

    let keys = parser.parse_template(template_content);

    let expected_keys = vec![
        "ANOTHER_KEY",
        "API_KEY",
        "DB_HOST",
        "DB_NAME",
        "DB_PORT",
        "SECRET_KEY",
    ];

    assert_eq!(keys, expected_keys);
}

#[test]
fn test_parse_template_with_commented_vars() {
    let parser = TemplateParser::new();

    let template_content = r#"
DB_HOST=localhost
# DB_PORT=5432
#API_KEY=commented_out
"#;

    let keys = parser.parse_template(template_content);

    let expected_keys = vec!["API_KEY", "DB_HOST", "DB_PORT"];

    assert_eq!(keys, expected_keys);
}

#[test]
fn commented_key_is_declared() {
    let keys = TemplateParser::new().parse_template("#SECRET=\nHOST=localhost\n");
    assert_eq!(keys, vec!["HOST", "SECRET"]);
}

#[test]
fn repeated_key_is_listed_once() {
    let keys = TemplateParser::new().parse_template("KEY=1\nOTHER=x\nKEY=2\n#KEY=\n");
    assert_eq!(keys, vec!["KEY", "OTHER"]);
}

#[test]
fn lines_that_are_not_assignments_are_ignored() {
    let text = "\n   \n# just prose\nlower=1\n1ABC=2\nA-B=3\nNO_EQUALS\n  SPACED  =  v\n#\t TABBED =\r\n";
    let keys = TemplateParser::new().parse_template(text);
    assert_eq!(keys, vec!["SPACED", "TABBED"]);
}

#[test]
fn empty_template_declares_nothing() {
    let keys = TemplateParser::new().parse_template("");
    assert!(keys.is_empty());
}

#[test]
fn keys_are_sorted_by_code_point() {
    let keys = TemplateParser::new().parse_template("Z=1\n_A=2\nA1=3\nA=4\n");
    assert_eq!(keys, vec!["A", "A1", "Z", "_A"]);
}
