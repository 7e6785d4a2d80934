//! The flattener: walks a parsed table and emits one variable per
//! qualifying leaf.
//!
//! Entries are visited in the order the table holds them.  A table's scalar
//! and array leaves are emitted while its entries are scanned; its nested
//! tables are expanded afterwards, latest entry first, each expanded fully
//! before the next.  Keys beginning with `_` are control metadata: they are
//! never emitted and never traversed, but stay visible to the separator
//! lookup of their array siblings.

use vstd::prelude::*;

use crate::render::ArrayValue;
use crate::render::array_text;
use crate::render::is_scalar;
use crate::render::render_scalar;
use crate::render::scalar_text;
use crate::value::ConfigValue;
use crate::value::Entry;
use crate::value::lex_lt;

verus! {

/// One flattened leaf: the path of raw key segments from the root, and the
/// value's rendered text.
pub struct Var {
    pub key: Vec<String>,
    pub value: String,
}

/// The mathematical shadow of a [`Var`].
#[verifier::ext_equal]
pub struct VarView {
    pub key: Seq<Seq<char>>,
    pub value: Seq<char>,
}

impl View for Var {
    type V = VarView;

    open spec fn view(&self) -> VarView {
        VarView { key: self.key.deep_view(), value: self.value@ }
    }
}

/// The views of a sequence of variables.
pub open spec fn views_of(vars: Seq<Var>) -> Seq<VarView> {
    vars.map_values(|v: Var| v@)
}

/// A key that begins with `_` is a control directive, not a variable.
pub open spec fn starts_underscore(key: Seq<char>) -> bool {
    key.len() > 0 && key[0] == '_'
}

/// The reserved sibling key that overrides the separator of the array
/// under `key`.
pub open spec fn separator_key(key: Seq<char>) -> Seq<char> {
    "_"@ + key + "_separator"@
}

/// The default separator for joining array elements.
pub open spec fn default_separator() -> Seq<char> {
    ":"@
}

/// The value under a key, scanning the entries in order.
pub open spec fn lookup(entries: Seq<Entry>, key: Seq<char>) -> Option<ConfigValue>
    decreases entries.len(),
{
    if entries.len() == 0 {
        None
    } else if entries[0].key@ == key {
        Some(entries[0].value)
    } else {
        lookup(entries.drop_first(), key)
    }
}

/// The separator for the array under `key`: the string held by the sibling
/// `_<key>_separator` entry if there is one, the default otherwise.
pub open spec fn separator_for(entries: Seq<Entry>, key: Seq<char>) -> Seq<char> {
    match lookup(entries, separator_key(key)) {
        Some(ConfigValue::Str(s)) => s@,
        _ => default_separator(),
    }
}

/// The variables one entry emits while its table is scanned: one for a
/// scalar, one for an eligible array, none for anything else.  `table` is
/// the whole table the entry sits in, consulted only for the separator
/// lookup; `prefix` is the path of the table itself.
pub open spec fn entry_vars(table: Seq<Entry>, e: Entry, prefix: Seq<Seq<char>>) -> Seq<VarView> {
    if starts_underscore(e.key@) {
        Seq::empty()
    } else if is_scalar(e.value) {
        seq![VarView { key: prefix.push(e.key@), value: scalar_text(e.value) }]
    } else if e.value is Array {
        match array_text(e.value->Array_0@, separator_for(table, e.key@)) {
            Some(t) => seq![VarView { key: prefix.push(e.key@), value: t }],
            None => Seq::empty(),
        }
    } else {
        Seq::empty()
    }
}

/// The variables the first `n` entries of a table emit as leaves, in entry
/// order.
pub open spec fn leaf_vars_upto(table: Seq<Entry>, prefix: Seq<Seq<char>>, n: int) -> Seq<VarView>
    decreases n,
{
    if n <= 0 {
        Seq::empty()
    } else {
        leaf_vars_upto(table, prefix, n - 1) + entry_vars(table, table[n - 1], prefix)
    }
}

/// The variables of one entry's nested table, fully flattened; empty for
/// every entry that holds no table and for control keys.
pub open spec fn expand_entry(e: Entry, prefix: Seq<Seq<char>>) -> Seq<VarView>
    decreases e, 0int, 0int,
{
    if !starts_underscore(e.key@) && e.value is Table {
        flatten_table(e.value->Table_0@, prefix.push(e.key@))
    } else {
        Seq::empty()
    }
}

/// The variables of the nested tables among the first `n` entries, expanded
/// latest entry first.
pub open spec fn sub_vars_below(table: Seq<Entry>, prefix: Seq<Seq<char>>, n: int) -> Seq<VarView>
    decreases table, 1int, n,
{
    if n <= 0 || n > table.len() {
        Seq::empty()
    } else {
        expand_entry(table[n - 1], prefix) + sub_vars_below(table, prefix, n - 1)
    }
}

/// Every variable a table yields, in emission order: first its own leaves
/// in entry order, then its nested tables, latest first.
pub open spec fn flatten_table(table: Seq<Entry>, prefix: Seq<Seq<char>>) -> Seq<VarView>
    decreases table, 2int, 0int,
{
    leaf_vars_upto(table, prefix, table.len() as int) + sub_vars_below(
        table,
        prefix,
        table.len() as int,
    )
}

proof fn lemma_lookup_finds(table: Seq<Entry>, i: int, key: Seq<char>)
    requires
        crate::value::entries_sorted(table),
        0 <= i < table.len(),
        table[i].key@ == key,
    ensures
        lookup(table, key) == Some(table[i].value),
    decreases table.len(),
{
    if i > 0 {
        assert(lex_lt(table[0].key@, key));
        crate::value::lemma_lex_lt_irreflexive(key);
        assert(table[0].key@ != key) by {
            if table[0].key@ == key {
                assert(lex_lt(key, key));
            }
        }
        let rest = table.drop_first();
        assert(crate::value::entries_sorted(rest)) by {
            assert(forall|x: int, y: int|
                0 <= x < y < rest.len() ==> lex_lt(
                    #[trigger] rest[x].key@,
                    #[trigger] rest[y].key@,
                )) by {
                assert(forall|x: int, y: int|
                    0 <= x < y < rest.len() ==> rest[x] == table[x + 1] && rest[y] == table[y
                        + 1]);
            }
        }
        lemma_lookup_finds(rest, i - 1, key);
    }
}

/// A key that begins with `_` never emits a variable of its own and is
/// never traversed as a nested table.
pub proof fn lemma_underscore_key_silent(table: Seq<Entry>, e: Entry, prefix: Seq<Seq<char>>)
    requires
        starts_underscore(e.key@),
    ensures
        entry_vars(table, e, prefix) == Seq::<VarView>::empty(),
        expand_entry(e, prefix) == Seq::<VarView>::empty(),
{
}

/// An `_<key>_separator` sibling holding a string decides the separator of
/// the array under `key`, even though it emits nothing itself.
pub proof fn lemma_separator_participates(table: Seq<Entry>, i: int, key: Seq<char>)
    requires
        crate::value::entries_sorted(table),
        0 <= i < table.len(),
        table[i].key@ == separator_key(key),
        table[i].value is Str,
    ensures
        separator_for(table, key) == table[i].value->Str_0@,
{
    lemma_lookup_finds(table, i, separator_key(key));
}

/// Without such a sibling, the separator is the default.
pub proof fn lemma_separator_default(table: Seq<Entry>, key: Seq<char>)
    requires
        forall|i: int| 0 <= i < table.len() ==> (#[trigger] table[i].key)@ != separator_key(key),
    ensures
        separator_for(table, key) == default_separator(),
{
    lemma_lookup_misses(table, separator_key(key));
}

proof fn lemma_lookup_misses(table: Seq<Entry>, key: Seq<char>)
    requires
        forall|i: int| 0 <= i < table.len() ==> (#[trigger] table[i].key)@ != key,
    ensures
        lookup(table, key) is None,
    decreases table.len(),
{
    if table.len() > 0 {
        let rest = table.drop_first();
        assert(forall|i: int| 0 <= i < rest.len() ==> rest[i] == table[i + 1]);
        lemma_lookup_misses(rest, key);
    }
}

/// An empty array, and any array holding a non-string element — in
/// particular one whose first element is not a string — emits no variable.
pub proof fn lemma_ineligible_array_silent(table: Seq<Entry>, e: Entry, prefix: Seq<Seq<char>>)
    requires
        e.value is Array,
        !crate::render::array_eligible(e.value->Array_0@),
    ensures
        entry_vars(table, e, prefix) == Seq::<VarView>::empty(),
{
}

/// A value of an unsupported kind emits no variable and raises no error
/// anywhere: the entry is passed over in silence.
pub proof fn lemma_unsupported_silent(table: Seq<Entry>, e: Entry, prefix: Seq<Seq<char>>)
    requires
        e.value is Other,
    ensures
        entry_vars(table, e, prefix) == Seq::<VarView>::empty(),
        expand_entry(e, prefix) == Seq::<VarView>::empty(),
{
}

/// The key of the variable a leaf emits is `prefix` extended by the leaf's
/// own key, whatever its siblings hold: two tables carrying the same entry
/// give its variable the same key, and the same number of variables.
pub proof fn lemma_leaf_key_sibling_independent(
    t1: Seq<Entry>,
    t2: Seq<Entry>,
    e: Entry,
    prefix: Seq<Seq<char>>,
)
    ensures
        forall|j: int|
            0 <= j < entry_vars(t1, e, prefix).len() ==> (#[trigger] entry_vars(t1, e, prefix)[j]).key
                == prefix.push(e.key@),
        entry_vars(t1, e, prefix).len() == entry_vars(t2, e, prefix).len(),
{
}

/// Whether every leaf under a value is a scalar: no arrays and no
/// unsupported kinds anywhere in the tree.
pub open spec fn scalars_only(v: ConfigValue) -> bool
    decreases v,
{
    match v {
        ConfigValue::Table(entries) => forall|i: int|
            0 <= i < entries.len() ==> scalars_only(#[trigger] entries[i].value),
        ConfigValue::Array(_) => false,
        ConfigValue::Other => false,
        _ => true,
    }
}

/// How many scalar leaves an entry contributes: one for a scalar under an
/// ordinary key, the leaves of its table for a nested table, none under a
/// control key.
pub open spec fn entry_leaf_count(e: Entry) -> int
    decreases e, 0int, 0int,
{
    if starts_underscore(e.key@) {
        0
    } else if is_scalar(e.value) {
        1
    } else if e.value is Table {
        leaf_count_upto(e.value->Table_0@, e.value->Table_0@.len() as int)
    } else {
        0
    }
}

/// The scalar leaves among the first `n` entries, counted through every
/// nested table.
pub open spec fn leaf_count_upto(entries: Seq<Entry>, n: int) -> int
    decreases entries, 1int, n,
{
    if n <= 0 || n > entries.len() {
        0
    } else {
        entry_leaf_count(entries[n - 1]) + leaf_count_upto(entries, n - 1)
    }
}

/// A tree with only scalar leaves flattens to exactly one variable per
/// scalar leaf that sits under ordinary keys only, however deeply nested,
/// and to no other variables.
pub proof fn lemma_scalar_tree_var_count(table: Seq<Entry>, prefix: Seq<Seq<char>>)
    requires
        forall|i: int| 0 <= i < table.len() ==> scalars_only(#[trigger] table[i].value),
    ensures
        flatten_table(table, prefix).len() == leaf_count_upto(table, table.len() as int),
    decreases table, 2int, 0int,
{
    lemma_scalar_tree_counts(table, prefix, table.len() as int);
}

proof fn lemma_scalar_tree_counts(table: Seq<Entry>, prefix: Seq<Seq<char>>, n: int)
    requires
        n <= table.len(),
        forall|i: int| 0 <= i < table.len() ==> scalars_only(#[trigger] table[i].value),
    ensures
        leaf_vars_upto(table, prefix, n).len() + sub_vars_below(table, prefix, n).len()
            == leaf_count_upto(table, n),
    decreases table, 1int, n,
{
    if 0 < n <= table.len() {
        lemma_scalar_tree_counts(table, prefix, n - 1);
        let e = table[n - 1];
        assert(scalars_only(e.value));
        assert(leaf_vars_upto(table, prefix, n) == leaf_vars_upto(table, prefix, n - 1)
            + entry_vars(table, e, prefix));
        assert(sub_vars_below(table, prefix, n) == expand_entry(e, prefix) + sub_vars_below(
            table,
            prefix,
            n - 1,
        ));
        assert(leaf_count_upto(table, n) == entry_leaf_count(e) + leaf_count_upto(table, n - 1));
        if !starts_underscore(e.key@) && e.value is Table {
            let sub = e.value->Table_0@;
            assert(forall|i: int| 0 <= i < sub.len() ==> scalars_only(#[trigger] sub[i].value));
            lemma_scalar_tree_var_count(sub, prefix.push(e.key@));
            assert(entry_vars(table, e, prefix).len() == 0);
            assert(expand_entry(e, prefix).len() == entry_leaf_count(e));
        } else if !starts_underscore(e.key@) {
            assert(is_scalar(e.value));
            assert(entry_vars(table, e, prefix).len() == 1);
            assert(expand_entry(e, prefix).len() == 0);
        } else {
            assert(entry_vars(table, e, prefix).len() == 0);
            assert(expand_entry(e, prefix).len() == 0);
        }
    }
}

/// How many variables of a sequence carry a given key.
pub open spec fn key_occurrences(vars: Seq<VarView>, key: Seq<Seq<char>>) -> int
    decreases vars.len(),
{
    if vars.len() == 0 {
        0
    } else {
        (if vars[0].key == key {
            1int
        } else {
            0int
        }) + key_occurrences(vars.drop_first(), key)
    }
}

proof fn lemma_occ_concat(a: Seq<VarView>, b: Seq<VarView>, key: Seq<Seq<char>>)
    ensures
        key_occurrences(a + b, key) == key_occurrences(a, key) + key_occurrences(b, key),
    decreases a.len(),
{
    if a.len() == 0 {
        assert(a + b =~= b);
    } else {
        assert((a + b).drop_first() =~= a.drop_first() + b);
        assert((a + b)[0] == a[0]);
        lemma_occ_concat(a.drop_first(), b, key);
    }
}

proof fn lemma_occ_zero(vars: Seq<VarView>, key: Seq<Seq<char>>)
    requires
        forall|j: int| 0 <= j < vars.len() ==> (#[trigger] vars[j]).key != key,
    ensures
        key_occurrences(vars, key) == 0,
    decreases vars.len(),
{
    if vars.len() > 0 {
        assert(forall|j: int|
            0 <= j < vars.drop_first().len() ==> vars.drop_first()[j] == vars[j + 1]);
        lemma_occ_zero(vars.drop_first(), key);
    }
}

/// Whether a value renders as a leaf variable where it stands: a scalar
/// always, an array exactly when it is eligible.
pub open spec fn leaf_renders(v: ConfigValue) -> bool {
    is_scalar(v) || (v is Array && crate::render::array_eligible(v->Array_0@))
}

/// Whether an entry holds a rendering leaf at `path` below this level:
/// its key is the first segment, and the rest of the path leads through
/// nested tables to a leaf that renders.
pub open spec fn entry_has_leaf(e: Entry, path: Seq<Seq<char>>) -> bool
    decreases path.len(), 0int,
{
    path.len() > 0 && e.key@ == path[0] && if path.len() == 1 {
        leaf_renders(e.value)
    } else {
        e.value is Table && has_leaf_at(e.value->Table_0@, path.drop_first())
    }
}

/// Whether a table holds a rendering leaf at `path`.
pub open spec fn has_leaf_at(entries: Seq<Entry>, path: Seq<Seq<char>>) -> bool
    decreases path.len(), 1int,
{
    exists|i: int| 0 <= i < entries.len() && entry_has_leaf(#[trigger] entries[i], path)
}

proof fn lemma_leaf_keys_extend(table: Seq<Entry>, q: Seq<Seq<char>>, n: int)
    requires
        n <= table.len(),
    ensures
        forall|j: int|
            0 <= j < leaf_vars_upto(table, q, n).len() ==> (#[trigger] leaf_vars_upto(
                table,
                q,
                n,
            )[j]).key.len() == q.len() + 1 && leaf_vars_upto(table, q, n)[j].key.take(
                q.len() as int,
            ) == q,
    decreases n,
{
    if 0 < n <= table.len() {
        lemma_leaf_keys_extend(table, q, n - 1);
        let prev = leaf_vars_upto(table, q, n - 1);
        let ev = entry_vars(table, table[n - 1], q);
        assert(leaf_vars_upto(table, q, n) == prev + ev);
        assert(forall|j: int|
            0 <= j < ev.len() ==> (#[trigger] ev[j]).key == q.push(table[n - 1].key@));
        assert(q.push(table[n - 1].key@).take(q.len() as int) =~= q);
        assert forall|j: int| 0 <= j < leaf_vars_upto(table, q, n).len() implies (
        #[trigger] leaf_vars_upto(table, q, n)[j]).key.len() == q.len() + 1 && leaf_vars_upto(
            table,
            q,
            n,
        )[j].key.take(q.len() as int) == q by {
            assert(leaf_vars_upto(table, q, n)[j] == (prev + ev)[j]);
            if j < prev.len() {
                assert((prev + ev)[j] == prev[j]);
            } else {
                assert((prev + ev)[j] == ev[j - prev.len()]);
            }
        }
    }
}

proof fn lemma_sub_keys_extend(table: Seq<Entry>, q: Seq<Seq<char>>, n: int)
    requires
        n <= table.len(),
    ensures
        forall|j: int|
            0 <= j < sub_vars_below(table, q, n).len() ==> (#[trigger] sub_vars_below(
                table,
                q,
                n,
            )[j]).key.len() > q.len() + 1 && sub_vars_below(table, q, n)[j].key.take(
                q.len() as int,
            ) == q,
    decreases table, 1int, n,
{
    if 0 < n <= table.len() {
        lemma_sub_keys_extend(table, q, n - 1);
        let e = table[n - 1];
        let ex = expand_entry(e, q);
        let prev = sub_vars_below(table, q, n - 1);
        assert(sub_vars_below(table, q, n) == ex + prev);
        if !starts_underscore(e.key@) && e.value is Table {
            let q2 = q.push(e.key@);
            lemma_flatten_keys_extend(e.value->Table_0@, q2);
            assert(ex == flatten_table(e.value->Table_0@, q2));
            assert forall|j: int| 0 <= j < ex.len() implies (#[trigger] ex[j]).key.len() > q.len()
                + 1 && ex[j].key.take(q.len() as int) == q by {
                assert(ex[j].key.take(q2.len() as int) == q2);
                assert(ex[j].key.take(q.len() as int) =~= q) by {
                    assert(forall|idx: int|
                        0 <= idx < q.len() ==> ex[j].key.take(q2.len() as int)[idx] == #[trigger] ex[j].key.take(
                            q.len() as int,
                        )[idx]);
                }
            }
        }
        assert forall|j: int| 0 <= j < sub_vars_below(table, q, n).len() implies (
        #[trigger] sub_vars_below(table, q, n)[j]).key.len() > q.len() + 1 && sub_vars_below(
            table,
            q,
            n,
        )[j].key.take(q.len() as int) == q by {
            assert(sub_vars_below(table, q, n)[j] == (ex + prev)[j]);
            if j < ex.len() {
                assert((ex + prev)[j] == ex[j]);
            } else {
                assert((ex + prev)[j] == prev[j - ex.len()]);
            }
        }
    }
}

/// Every variable a table yields carries a key that strictly extends the
/// table's own path.
proof fn lemma_flatten_keys_extend(table: Seq<Entry>, q: Seq<Seq<char>>)
    ensures
        forall|j: int|
            0 <= j < flatten_table(table, q).len() ==> (#[trigger] flatten_table(
                table,
                q,
            )[j]).key.len() > q.len() && flatten_table(table, q)[j].key.take(q.len() as int) == q,
    decreases table, 2int, 0int,
{
    let n = table.len() as int;
    lemma_leaf_keys_extend(table, q, n);
    lemma_sub_keys_extend(table, q, n);
    let lv = leaf_vars_upto(table, q, n);
    let sv = sub_vars_below(table, q, n);
    assert(forall|j: int|
        0 <= j < flatten_table(table, q).len() ==> flatten_table(table, q)[j] == (lv + sv)[j]);
}

proof fn lemma_occ_single(vars: Seq<VarView>, key: Seq<Seq<char>>)
    requires
        vars.len() == 1,
    ensures
        key_occurrences(vars, key) == if vars[0].key == key {
            1int
        } else {
            0int
        },
{
    lemma_occ_zero(vars.drop_first(), key);
}

proof fn lemma_path_counts(table: Seq<Entry>, q: Seq<Seq<char>>, path: Seq<Seq<char>>, n: int)
    requires
        crate::value::entries_wf(table),
        0 <= n <= table.len(),
        path.len() > 0,
        forall|j: int| 0 <= j < path.len() ==> !starts_underscore(#[trigger] path[j]),
    ensures
        key_occurrences(leaf_vars_upto(table, q, n), q + path) + key_occurrences(
            sub_vars_below(table, q, n),
            q + path,
        ) == if has_leaf_at(table.take(n), path) {
            1int
        } else {
            0int
        },
    decreases table, 1int, n,
{
    if n == 0 {
        assert(!has_leaf_at(table.take(n), path));
        return;
    }
    lemma_path_counts(table, q, path, n - 1);
    let e = table[n - 1];
    let ev = entry_vars(table, e, q);
    let ex = expand_entry(e, q);
    let target = q + path;
    assert(target.len() == q.len() + path.len());
    assert(target[q.len() as int] == path[0]);
    assert(leaf_vars_upto(table, q, n) == leaf_vars_upto(table, q, n - 1) + ev);
    assert(sub_vars_below(table, q, n) == ex + sub_vars_below(table, q, n - 1));
    lemma_occ_concat(leaf_vars_upto(table, q, n - 1), ev, target);
    lemma_occ_concat(ex, sub_vars_below(table, q, n - 1), target);
    // what this one entry contributes
    if starts_underscore(e.key@) {
        assert(e.key@ != path[0]) by {
            if e.key@ == path[0] {
                assert(starts_underscore(path[0]));
            }
        }
        assert(!entry_has_leaf(e, path));
        assert(key_occurrences(ev, target) == 0);
        assert(key_occurrences(ex, target) == 0);
    } else if leaf_renders(e.value) {
        if e.value is Array {
            assert(array_text(e.value->Array_0@, separator_for(table, e.key@)) is Some);
        }
        assert(ev.len() == 1 && ev[0].key == q.push(e.key@));
        assert(key_occurrences(ex, target) == 0);
        lemma_occ_single(ev, target);
        if path.len() == 1 {
            assert(target =~= q.push(path[0]));
            if e.key@ == path[0] {
                assert(ev[0].key == target);
                assert(entry_has_leaf(e, path));
            } else {
                assert(ev[0].key != target) by {
                    if ev[0].key == target {
                        assert(q.push(e.key@)[q.len() as int] == q.push(path[0])[q.len() as int]);
                    }
                }
                assert(!entry_has_leaf(e, path));
            }
        } else {
            assert(ev[0].key.len() == q.len() + 1 < target.len());
            assert(!entry_has_leaf(e, path));
        }
    } else if e.value is Table {
        assert(key_occurrences(ev, target) == 0);
        let sub = e.value->Table_0@;
        let q2 = q.push(e.key@);
        let fx = flatten_table(sub, q2);
        assert(ex == fx);
        assert(crate::value::value_wf(e.value));
        assert(crate::value::entries_wf(sub));
        if path.len() == 1 {
            lemma_flatten_keys_extend(sub, q2);
            assert forall|j: int| 0 <= j < fx.len() implies (#[trigger] fx[j]).key != target by {
                assert(fx[j].key.len() > q2.len() == target.len());
            }
            lemma_occ_zero(fx, target);
            assert(!entry_has_leaf(e, path));
        } else if e.key@ == path[0] {
            assert(target =~= q2 + path.drop_first());
            let rest = path.drop_first();
            assert(forall|j: int| 0 <= j < rest.len() ==> !starts_underscore(#[trigger] rest[j]))
                by {
                assert(forall|j: int| 0 <= j < rest.len() ==> rest[j] == path[j + 1]);
            }
            lemma_path_count_main(sub, q2, rest);
            assert(entry_has_leaf(e, path) == has_leaf_at(sub, rest));
        } else {
            lemma_flatten_keys_extend(sub, q2);
            assert forall|j: int| 0 <= j < fx.len() implies (#[trigger] fx[j]).key != target by {
                assert(fx[j].key.take(q2.len() as int) == q2);
                assert(fx[j].key.take(q2.len() as int)[q.len() as int] == fx[j].key[q.len()
                    as int]);
                assert(q2[q.len() as int] == e.key@);
                if fx[j].key == target {
                    assert(fx[j].key[q.len() as int] == path[0]);
                }
            }
            lemma_occ_zero(fx, target);
            assert(!entry_has_leaf(e, path));
        }
    } else {
        assert(key_occurrences(ev, target) == 0);
        assert(key_occurrences(ex, target) == 0);
        assert(!entry_has_leaf(e, path)) by {
            if path.len() == 1 && e.key@ == path[0] {
                assert(!leaf_renders(e.value));
            }
        }
    }
    // fold the entry into the prefix of the table
    assert(table.take(n)[n - 1] == e);
    assert(forall|i: int| 0 <= i < n - 1 ==> table.take(n)[i] == table.take(n - 1)[i]);
    if entry_has_leaf(e, path) {
        assert(has_leaf_at(table.take(n), path));
        assert(!has_leaf_at(table.take(n - 1), path)) by {
            if has_leaf_at(table.take(n - 1), path) {
                let i = choose|i: int|
                    0 <= i < table.take(n - 1).len() && entry_has_leaf(
                        #[trigger] table.take(n - 1)[i],
                        path,
                    );
                assert(table[i].key@ == path[0] && e.key@ == path[0]);
                assert(lex_lt(table[i].key@, e.key@));
                crate::value::lemma_lex_lt_irreflexive(path[0]);
            }
        }
    } else {
        assert(has_leaf_at(table.take(n), path) == has_leaf_at(table.take(n - 1), path)) by {
            if has_leaf_at(table.take(n), path) {
                let i = choose|i: int|
                    0 <= i < table.take(n).len() && entry_has_leaf(
                        #[trigger] table.take(n)[i],
                        path,
                    );
                assert(i < n - 1);
                assert(entry_has_leaf(table.take(n - 1)[i], path));
            }
            if has_leaf_at(table.take(n - 1), path) {
                let i = choose|i: int|
                    0 <= i < table.take(n - 1).len() && entry_has_leaf(
                        #[trigger] table.take(n - 1)[i],
                        path,
                    );
                assert(entry_has_leaf(table.take(n)[i], path));
            }
        }
    }
}

proof fn lemma_path_count_main(table: Seq<Entry>, q: Seq<Seq<char>>, path: Seq<Seq<char>>)
    requires
        crate::value::entries_wf(table),
        path.len() > 0,
        forall|j: int| 0 <= j < path.len() ==> !starts_underscore(#[trigger] path[j]),
    ensures
        key_occurrences(flatten_table(table, q), q + path) == if has_leaf_at(table, path) {
            1int
        } else {
            0int
        },
    decreases table, 2int, 0int,
{
    let n = table.len() as int;
    lemma_path_counts(table, q, path, n);
    lemma_occ_concat(leaf_vars_upto(table, q, n), sub_vars_below(table, q, n), q + path);
    assert(table.take(n) =~= table);
}

/// A leaf that renders — a scalar in particular — at root-to-leaf path
/// `path`, every segment of it an ordinary non-control key, yields
/// exactly one variable with that path as its key, whatever the sibling
/// entries anywhere in the tree are and in whatever order they stand; and
/// where no such leaf sits at `path`, no variable carries that key.
pub proof fn lemma_path_yields_one_var(table: Seq<Entry>, path: Seq<Seq<char>>)
    requires
        crate::value::entries_wf(table),
        path.len() > 0,
        forall|j: int| 0 <= j < path.len() ==> !starts_underscore(#[trigger] path[j]),
    ensures
        key_occurrences(flatten_table(table, Seq::empty()), path) == if has_leaf_at(table, path) {
            1int
        } else {
            0int
        },
{
    assert(Seq::<Seq<char>>::empty() + path =~= path);
    lemma_path_count_main(table, Seq::empty(), path);
}

fn clone_segments(v: &Vec<String>) -> (r: Vec<String>)
    ensures
        r@ == v@,
{
    let mut r: Vec<String> = Vec::new();
    let mut i: usize = 0;
    while i < v.len()
        invariant
            i <= v@.len(),
            r@ =~= v@.take(i as int),
        decreases v@.len() - i,
    {
        r.push(v[i].clone());
        i += 1;
        proof {
            assert(v@.take(i as int) =~= v@.take(i - 1).push(v@[i - 1]));
        }
    }
    proof {
        assert(v@.take(v@.len() as int) =~= v@);
    }
    r
}

fn key_starts_underscore(key: &String) -> (r: bool)
    ensures
        r == starts_underscore(key@),
{
    let s = key.as_str();
    if s.unicode_len() == 0 {
        false
    } else {
        s.get_char(0) == '_'
    }
}

fn build_separator_key(key: &String) -> (r: String)
    ensures
        r@ == separator_key(key@),
{
    let mut r = "_".to_owned();
    r.append(key.as_str());
    r.append("_separator");
    r
}

fn find_separator(table: &Vec<Entry>, key: &String) -> (r: String)
    ensures
        r@ == separator_for(table@, key@),
{
    let sk = build_separator_key(key);
    proof {
        assert(table@.skip(0) =~= table@);
    }
    let mut i: usize = 0;
    while i < table.len()
        invariant
            i <= table@.len(),
            sk@ == separator_key(key@),
            lookup(table@, sk@) == lookup(table@.skip(i as int), sk@),
        decreases table@.len() - i,
    {
        proof {
            assert(table@.skip(i as int)[0] == table@[i as int]);
        }
        if table[i].key == sk {
            match &table[i].value {
                ConfigValue::Str(s) => {
                    return s.clone();
                },
                _ => {
                    return ":".to_owned();
                },
            }
        }
        i += 1;
        proof {
            assert(table@.skip(i - 1).drop_first() =~= table@.skip(i as int));
        }
    }
    ":".to_owned()
}

/// Flattens one table, appending its variables to `out` in emission order.
fn walk_table(table: &Vec<Entry>, prefix: &Vec<String>, out: &mut Vec<Var>)
    ensures
        views_of(final(out)@) == views_of(old(out)@) + flatten_table(table@, prefix.deep_view()),
    decreases table@, 2int, 0int,
{
    let ghost p = prefix.deep_view();
    let ghost entered = out@;
    let mut i: usize = 0;
    while i < table.len()
        invariant
            i <= table@.len(),
            p == prefix.deep_view(),
            views_of(out@) =~= views_of(entered) + leaf_vars_upto(table@, p, i as int),
        decreases table@.len() - i,
    {
        let ghost before = out@;
        let e = &table[i];
        if !key_starts_underscore(&e.key) {
            match &e.value {
                ConfigValue::Array(elems) => {
                    let sep = find_separator(table, &e.key);
                    if let Some(av) = ArrayValue::from_array(elems, sep.as_str()) {
                        let value = av.render();
                        let mut segs = clone_segments(prefix);
                        segs.push(e.key.clone());
                        proof {
                            assert(segs.deep_view() =~= p.push(table@[i as int].key@));
                        }
                        out.push(Var { key: segs, value });
                    }
                },
                ConfigValue::Table(_) => {},
                ConfigValue::Other => {},
                _ => {
                    if let Some(value) = render_scalar(&e.value) {
                        let mut segs = clone_segments(prefix);
                        segs.push(e.key.clone());
                        proof {
                            assert(segs.deep_view() =~= p.push(table@[i as int].key@));
                        }
                        out.push(Var { key: segs, value });
                    }
                },
            }
        }
        i += 1;
        proof {
            let ev = entry_vars(table@, table@[i - 1], p);
            assert(views_of(out@) =~= views_of(before) + ev);
            assert(views_of(entered) + leaf_vars_upto(table@, p, i as int) =~= (views_of(entered)
                + leaf_vars_upto(table@, p, i - 1)) + ev);
        }
    }
    let ghost mid = out@;
    let mut k: usize = table.len();
    while k > 0
        invariant
            k <= table@.len(),
            p == prefix.deep_view(),
            views_of(out@) + sub_vars_below(table@, p, k as int) =~= views_of(mid) + sub_vars_below(
                table@,
                p,
                table@.len() as int,
            ),
        decreases k,
    {
        k -= 1;
        let ghost before = out@;
        let e = &table[k];
        if !key_starts_underscore(&e.key) {
            if let ConfigValue::Table(sub) = &e.value {
                let mut segs = clone_segments(prefix);
                segs.push(e.key.clone());
                walk_table(sub, &segs, out);
                proof {
                    assert(segs.deep_view() =~= p.push(table@[k as int].key@));
                }
            }
        }
        proof {
            let ex = expand_entry(table@[k as int], p);
            assert(views_of(out@) =~= views_of(before) + ex);
            assert((views_of(before) + ex) + sub_vars_below(table@, p, k as int) =~= views_of(
                before,
            ) + sub_vars_below(table@, p, k + 1));
        }
    }
    proof {
        assert(views_of(out@) =~= views_of(out@) + sub_vars_below(table@, p, 0));
        assert(views_of(mid) =~= views_of(entered) + leaf_vars_upto(
            table@,
            p,
            table@.len() as int,
        ));
        assert(views_of(entered) + flatten_table(table@, p) =~= (views_of(entered)
            + leaf_vars_upto(table@, p, table@.len() as int)) + sub_vars_below(
            table@,
            p,
            table@.len() as int,
        ));
    }
}

/// Flattens a whole configuration table into its variables, in emission
/// order: the root's own leaves first, then each nested table.
pub fn walk(config: &Vec<Entry>) -> (vars: Vec<Var>)
    ensures
        views_of(vars@) == flatten_table(config@, Seq::empty()),
{
    let mut vars: Vec<Var> = Vec::new();
    let prefix: Vec<String> = Vec::new();
    walk_table(config, &prefix, &mut vars);
    proof {
        assert(prefix.deep_view() =~= Seq::<Seq<char>>::empty());
        assert(views_of(vars@) =~= flatten_table(config@, Seq::empty()));
    }
    vars
}

} // verus!
