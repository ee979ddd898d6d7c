//! Templates of suggestion commands.

use peanutbutter::command_template::{
    parse_command_template, referenced_names, render, shell_single_quote, Fragment, ParseError,
    RenderError,
};
use peanutbutter::text_map::TextMap;

fn lit(s: &str) -> Fragment {
    Fragment::Literal(s.to_string())
}
fn r(name: &str) -> Fragment {
    Fragment::Ref {
        name: name.to_string(),
        raw: false,
    }
}
fn rraw(name: &str) -> Fragment {
    Fragment::Ref {
        name: name.to_string(),
        raw: true,
    }
}

#[test]
fn parses_literal_only() {
    let t = parse_command_template("echo hi").unwrap();
    assert_eq!(t, vec![lit("echo hi")]);
}

#[test]
fn parses_simple_ref() {
    let t = parse_command_template("aws s3 ls s3://<#bucket>/").unwrap();
    assert_eq!(t, vec![lit("aws s3 ls s3://"), r("bucket"), lit("/")]);
}

#[test]
fn parses_raw_ref() {
    let t = parse_command_template("kubectl <#verb:raw> -o name").unwrap();
    assert_eq!(t, vec![lit("kubectl "), rraw("verb"), lit(" -o name")]);
}

#[test]
fn escaped_opener_is_literal() {
    let t = parse_command_template(r"echo \<#bucket>").unwrap();
    assert_eq!(t, vec![lit("echo <#bucket>")]);
    assert!(referenced_names(&t).len() == 0);
}

#[test]
fn unterminated_ref_errors() {
    assert!(matches!(
        parse_command_template("echo <#bucket"),
        Err(ParseError::UnterminatedRef)
    ));
}

#[test]
fn unknown_modifier_errors() {
    assert!(matches!(
        parse_command_template("echo <#x:nope>"),
        Err(ParseError::UnknownModifier(_))
    ));
}

#[test]
fn invalid_name_errors() {
    assert!(matches!(
        parse_command_template("echo <#>"),
        Err(ParseError::InvalidName(_))
    ));
    assert!(matches!(
        parse_command_template("echo <#bad name>"),
        Err(ParseError::InvalidName(_))
    ));
}

#[test]
fn shell_single_quote_escapes_apostrophe() {
    assert_eq!(shell_single_quote("foo"), "'foo'");
    assert_eq!(shell_single_quote(""), "''");
    assert_eq!(shell_single_quote("O'Brien"), "'O'\\''Brien'");
    assert_eq!(shell_single_quote("a 'b' c"), "'a '\\''b'\\'' c'");
}

#[test]
fn render_quotes_default_form() {
    let template = parse_command_template("ls <#bucket>").unwrap();
    let mut values: TextMap<String> = TextMap::new();
    values.insert("bucket".to_string(), "foo".to_string());
    assert_eq!(render(&template, &values).unwrap(), "ls 'foo'");

    values.insert("bucket".to_string(), "O'Brien's".to_string());
    assert_eq!(
        render(&template, &values).unwrap(),
        "ls 'O'\\''Brien'\\''s'"
    );
}

#[test]
fn render_raw_is_verbatim() {
    let template = parse_command_template("kubectl <#verb:raw> -o name").unwrap();
    let mut values: TextMap<String> = TextMap::new();
    values.insert("verb".to_string(), "get pods".to_string());
    assert_eq!(
        render(&template, &values).unwrap(),
        "kubectl get pods -o name"
    );
}

#[test]
fn render_missing_value_errors() {
    let template = parse_command_template("ls <#bucket>").unwrap();
    let values: TextMap<String> = TextMap::new();
    assert!(matches!(
        render(&template, &values),
        Err(RenderError::MissingConfirmed(name)) if name == "bucket"
    ));
}

#[test]
fn escaped_literal_not_in_referenced_names() {
    let template = parse_command_template(r"echo \<#bucket>").unwrap();
    assert!(referenced_names(&template).len() == 0);
}

#[test]
fn referenced_names_collects_unique() {
    let t = parse_command_template("<#a> <#b> <#a:raw>").unwrap();
    let names = referenced_names(&t);
    assert!(names.contains("a"));
    assert!(names.contains("b"));
    assert_eq!(names.len(), 2);
}

#[test]
fn quotes_value_with_spaces_and_metas() {
    let template = parse_command_template("echo <#x>").unwrap();
    let mut values: TextMap<String> = TextMap::new();
    values.insert("x".to_string(), "a $b; `c`".to_string());
    assert_eq!(render(&template, &values).unwrap(), "echo 'a $b; `c`'");
}

#[test]
fn template_errors_have_messages() {
    let err = parse_command_template("echo <#x:nope>").unwrap_err();
    assert!(err.message().contains("nope"), "{}", err.message());
    let template = parse_command_template("ls <#bucket>").unwrap();
    let values: TextMap<String> = TextMap::new();
    let err = render(&template, &values).unwrap_err();
    assert!(err.message().contains("bucket"), "{}", err.message());
}
