//! The configuration data model: a tree of tagged values.

use vstd::prelude::*;

verus! {

/// One value of a parsed configuration document.
///
/// A table holds its entries as a vector sorted strictly by key, which is
/// the order in which the parser's map hands them out.  A float arrives
/// already rendered to its decimal text, since the flattener only ever
/// prints it.  `Other` stands for every value kind the flattener does not
/// render (such as a datetime).
pub enum ConfigValue {
    Str(String),
    Integer(i64),
    Float(String),
    Boolean(bool),
    Array(Vec<ConfigValue>),
    Table(Vec<Entry>),
    Other,
}

/// One key/value pair of a table.
pub struct Entry {
    pub key: String,
    pub value: ConfigValue,
}

/// Strict lexicographic order on character sequences, by code point.
/// This matches the byte order of the UTF-8 encodings, which is the order
/// the parser's map keeps its keys in.
pub open spec fn lex_lt(a: Seq<char>, b: Seq<char>) -> bool
    decreases a.len(),
{
    if b.len() == 0 {
        false
    } else if a.len() == 0 {
        true
    } else if a[0] != b[0] {
        (a[0] as u32) < (b[0] as u32)
    } else {
        lex_lt(a.drop_first(), b.drop_first())
    }
}

/// The order is strict: no sequence is below itself.
pub proof fn lemma_lex_lt_irreflexive(a: Seq<char>)
    ensures
        !lex_lt(a, a),
    decreases a.len(),
{
    if a.len() > 0 {
        lemma_lex_lt_irreflexive(a.drop_first());
    }
}

/// The entries of one table are strictly sorted by key; in particular the
/// keys are distinct.
pub open spec fn entries_sorted(entries: Seq<Entry>) -> bool {
    forall|i: int, j: int|
        0 <= i < j < entries.len() ==> lex_lt(entries[i].key@, entries[j].key@)
}

/// Every table in the tree has its entries strictly sorted by key.
pub open spec fn value_wf(v: ConfigValue) -> bool
    decreases v,
{
    match v {
        ConfigValue::Array(elems) => forall|i: int|
            0 <= i < elems.len() ==> value_wf(#[trigger] elems[i]),
        ConfigValue::Table(entries) => entries_sorted(entries@) && forall|i: int|
            0 <= i < entries.len() ==> value_wf(#[trigger] entries[i].value),
        _ => true,
    }
}

/// The shape the parser guarantees of a document's entries: strictly
/// sorted by key, every nested table sorted in turn.
pub open spec fn entries_wf(entries: Seq<Entry>) -> bool {
    entries_sorted(entries) && forall|i: int|
        0 <= i < entries.len() ==> value_wf(#[trigger] entries[i].value)
}

} // verus!
