use toml_export::ArrayValue;
use toml_export::ConfigValue;
use toml_export::Entry;
use toml_export::Var;
use toml_export::flatten_text;
use toml_export::format_posix;
use toml_export::format_vars;
use toml_export::walk;

#[test]
fn test_format_posix() {
    let var = Var {
        key: vec!["pipenv".to_string(), "venv_in_project".to_string()],
        value: "1".to_string(),
    };
    let actual = format_posix(&var);
    let expected = "PIPENV_VENV_IN_PROJECT=1; export PIPENV_VENV_IN_PROJECT";
    assert_eq!(expected, actual);
}

#[test]
fn test_array_value_display() {
    let arr = ArrayValue {
        sep: "X".to_string(),
        elems: vec![
            "/bin".to_string(),
            "/usr/bin".to_string(),
            "/usr/local/bin".to_string(),
        ],
    };
    let actual = arr.render();
    let expected = "/binX/usr/binX/usr/local/bin";
    assert_eq!(expected, actual);
}

#[test]
fn test_array_value_from_array() {
    let array = vec![
        ConfigValue::Str("/bin".to_string()),
        ConfigValue::Str("/usr/bin".to_string()),
        ConfigValue::Str("/usr/local/bin".to_string()),
    ];
    let actual = ArrayValue::from_array(&array, ":").unwrap();
    let expected = ArrayValue {
        sep: ":".to_string(),
        elems: vec![
            "/bin".to_string(),
            "/usr/bin".to_string(),
            "/usr/local/bin".to_string(),
        ],
    };
    assert_eq!(expected, actual);
}

#[test]
fn test() {
    let toml_str = r#"somefloatvar = 1.2
someintvar = 1
someboolval = true
somearrayval = ["abc","def"]
[section]
pipeseperatedarrayval = ["abc","def"]
_pipeseperatedarrayval_separator = "|"
nestedvar = "value2"
[section.nested]
doublynestedvar = "value3"
[section2]
nestedvar = "value4"
"#;
    let formatted = flatten_text(toml_str).unwrap();
    assert_eq!(
        formatted,
        [
            "SOMEARRAYVAL=abc:def; export SOMEARRAYVAL",
            "SOMEBOOLVAL=true; export SOMEBOOLVAL",
            "SOMEFLOATVAR=1.2; export SOMEFLOATVAR",
            "SOMEINTVAR=1; export SOMEINTVAR",
            "SECTION2_NESTEDVAR=value4; export SECTION2_NESTEDVAR",
            "SECTION_NESTEDVAR=value2; export SECTION_NESTEDVAR",
            "SECTION_PIPESEPERATEDARRAYVAL=abc|def; export SECTION_PIPESEPERATEDARRAYVAL",
            "SECTION_NESTED_DOUBLYNESTEDVAR=value3; export SECTION_NESTED_DOUBLYNESTEDVAR",
        ]
    );
}

#[test]
fn scalar_leaves_one_line_each_sorted() {
    let formatted = flatten_text("b = \"two\"\na = \"one\"\nc = \"three\"\n").unwrap();
    assert_eq!(
        formatted,
        ["A=one; export A", "B=two; export B", "C=three; export C"]
    );
}

#[test]
fn nested_path_joins_in_order() {
    let formatted = flatten_text("[a.b]\nc = \"v\"\n").unwrap();
    assert_eq!(formatted, ["A_B_C=v; export A_B_C"]);
}

#[test]
fn formatting_twice_is_identical() {
    let text = "x = [\"p\",\"q\"]\n[s]\ny = 3\n";
    let first = flatten_text(text).unwrap();
    let second = flatten_text(text).unwrap();
    assert_eq!(first, second);
}

#[test]
fn array_default_separator() {
    let formatted = flatten_text("key = [\"abc\",\"def\"]\n").unwrap();
    assert_eq!(formatted, ["KEY=abc:def; export KEY"]);
}

#[test]
fn array_override_separator() {
    let formatted = flatten_text("key = [\"abc\",\"def\"]\n_key_separator = \"|\"\n").unwrap();
    assert_eq!(formatted, ["KEY=abc|def; export KEY"]);
}

#[test]
fn underscore_key_emits_no_line() {
    let formatted = flatten_text("_hidden = \"x\"\nshown = \"y\"\n").unwrap();
    assert_eq!(formatted, ["SHOWN=y; export SHOWN"]);
}

#[test]
fn underscore_table_is_not_traversed() {
    let formatted = flatten_text("[_hidden]\nx = 1\n[shown]\ny = 2\n").unwrap();
    assert_eq!(formatted, ["SHOWN_Y=2; export SHOWN_Y"]);
}

#[test]
fn empty_array_emits_no_line() {
    let formatted = flatten_text("empty = []\nother = 1\n").unwrap();
    assert_eq!(formatted, ["OTHER=1; export OTHER"]);
}

#[test]
fn non_string_array_emits_no_line() {
    let formatted = flatten_text("nums = [1, 2]\nother = 1\n").unwrap();
    assert_eq!(formatted, ["OTHER=1; export OTHER"]);
}

#[test]
fn mixed_array_emits_no_line() {
    let formatted = flatten_text("mixed = [\"a\", 1]\nother = 1\n").unwrap();
    assert_eq!(formatted, ["OTHER=1; export OTHER"]);
}

#[test]
fn datetime_emits_no_line_and_no_error() {
    let formatted = flatten_text("when = 1979-05-27\nother = 1\n").unwrap();
    assert_eq!(formatted, ["OTHER=1; export OTHER"]);
}

#[test]
fn negative_integer_renders_in_decimal() {
    let formatted = flatten_text("n = -5\n").unwrap();
    assert_eq!(formatted, ["N=-5; export N"]);
}

#[test]
fn boolean_renders_as_literal() {
    let formatted = flatten_text("off = false\n").unwrap();
    assert_eq!(formatted, ["OFF=false; export OFF"]);
}

#[test]
fn non_ascii_key_passes_through_unchanged() {
    let formatted = flatten_text("\"caf\u{e9}\" = \"x\"\n").unwrap();
    assert_eq!(formatted, ["CAF\u{e9}=x; export CAF\u{e9}"]);
}

#[test]
fn malformed_input_yields_error() {
    assert!(flatten_text("[unterminated\n").is_err());
    assert!(flatten_text("a = \n").is_err());
}

#[test]
fn walk_emits_scalars_then_subtables_latest_first() {
    let config = vec![
        Entry {
            key: "outer".to_string(),
            value: ConfigValue::Table(vec![Entry {
                key: "inner".to_string(),
                value: ConfigValue::Str("deep".to_string()),
            }]),
        },
        Entry {
            key: "second".to_string(),
            value: ConfigValue::Table(vec![Entry {
                key: "leaf".to_string(),
                value: ConfigValue::Integer(7),
            }]),
        },
        Entry {
            key: "top".to_string(),
            value: ConfigValue::Boolean(true),
        },
    ];
    let vars = walk(&config);
    let formatted = format_vars(&vars);
    assert_eq!(
        formatted,
        [
            "TOP=true; export TOP",
            "SECOND_LEAF=7; export SECOND_LEAF",
            "OUTER_INNER=deep; export OUTER_INNER",
        ]
    );
}

#[test]
fn separator_override_is_table_local() {
    let formatted =
        flatten_text("_key_separator = \"|\"\n[sub]\nkey = [\"a\",\"b\"]\n").unwrap();
    assert_eq!(formatted, ["SUB_KEY=a:b; export SUB_KEY"]);
}

#[test]
fn override_must_be_a_string_to_apply() {
    let formatted = flatten_text("key = [\"a\",\"b\"]\n_key_separator = 5\n").unwrap();
    assert_eq!(formatted, ["KEY=a:b; export KEY"]);
}
