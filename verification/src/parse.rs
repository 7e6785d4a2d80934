//! The boundary to the external parser, and the whole pipeline from
//! configuration text to export lines.
//!
//! Parsing is the one step this library does not do itself: the `toml`
//! crate turns the text into its value tree, and the tree is carried over
//! into [`ConfigValue`], the model every verified function works on.

use vstd::prelude::*;

use crate::emit::export_lines;
use crate::emit::format_vars;
use crate::flatten::walk;
use crate::value::ConfigValue;
use crate::value::Entry;
use crate::value::entries_wf;

verus! {

/// The input text is not valid configuration syntax.  The message is the
/// parser's human-readable cause.
#[derive(Debug)]
pub struct ParseError {
    pub message: String,
}

#[verifier::external_type_specification]
#[verifier::external_body]
pub struct ExTomlValue(toml::Value);

/// What the parser yields for a text: the entries of the document's top
/// table, carried into the library's model, or nothing when the text is
/// not valid configuration syntax.  The result depends on the text alone.
pub uninterp spec fn parsed_table(text: Seq<char>) -> Option<Seq<Entry>>;

/// Relies on the shape of `toml::Value`: each variant is carried over to
/// the matching [`ConfigValue`] variant, element by element and entry by
/// entry, a float as its decimal text, a datetime as `Other`.  Table
/// entries come out of `toml::map::Map`'s iterator, which hands them over
/// sorted strictly by key.
#[verifier::external_body]
fn convert_value(v: toml::Value) -> ConfigValue {
    match v {
        toml::Value::String(s) => ConfigValue::Str(s),
        toml::Value::Integer(i) => ConfigValue::Integer(i),
        toml::Value::Float(f) => ConfigValue::Float(f.to_string()),
        toml::Value::Boolean(b) => ConfigValue::Boolean(b),
        toml::Value::Datetime(_) => ConfigValue::Other,
        toml::Value::Array(a) => ConfigValue::Array(a.into_iter().map(convert_value).collect()),
        toml::Value::Table(t) => ConfigValue::Table(
            t.into_iter().map(|(k, v)| Entry { key: k, value: convert_value(v) }).collect(),
        ),
    }
}

/// Relies on `str::parse::<toml::Table>`: a valid document parses to the
/// table of its top level, an invalid one to an error that displays its
/// cause, and the outcome depends on the text alone — which is what
/// `parsed_table` names.  The tree comes over entry by entry through
/// `convert_value`, so every table of it holds its entries sorted strictly
/// by key, the order of `toml::map::Map`'s `BTreeMap`.
#[verifier::external_body]
fn parse_config(text: &str) -> (r: Result<Vec<Entry>, ParseError>)
    ensures
        r is Ok <==> parsed_table(text@) is Some,
        r matches Ok(entries) ==> entries@ == parsed_table(text@)->Some_0 && entries_wf(entries@),
{
    match text.parse::<toml::Table>() {
        Ok(t) => Ok(t.into_iter().map(|(k, v)| Entry { key: k, value: convert_value(v) }).collect()),
        Err(e) => Err(ParseError { message: e.to_string() }),
    }
}

/// Parses a configuration text and renders its export lines: one
/// `KEY=value; export KEY` line per qualifying leaf of the document, in
/// emission order.  Exactly the texts the parser accepts yield lines —
/// the lines of the parsed table, and no others; a malformed text yields
/// the parser's error instead, and no lines.
pub fn flatten_text(text: &str) -> (r: Result<Vec<String>, ParseError>)
    ensures
        r is Ok <==> parsed_table(text@) is Some,
        r matches Ok(lines) ==> lines.deep_view() == export_lines(parsed_table(text@)->Some_0),
        r is Ok ==> entries_wf(parsed_table(text@)->Some_0),
{
    match parse_config(text) {
        Ok(entries) => {
            let vars = walk(&entries);
            Ok(format_vars(vars.as_slice()))
        },
        Err(e) => Err(e),
    }
}

} // verus!
