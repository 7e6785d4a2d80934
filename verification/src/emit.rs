//! The formatter: renders each flattened variable as one POSIX export
//! line, `KEY=value; export KEY`, where `KEY` is the variable's path joined
//! with `_` and upper-cased.

use vstd::prelude::*;
use vstd::string::StringExecFns;

use crate::flatten::Var;
use crate::flatten::VarView;
use crate::flatten::starts_underscore;
use crate::flatten::views_of;
use crate::render::is_scalar;
use crate::render::scalar_text;
use crate::text::join_segments;
use crate::text::join_with;
use crate::text::upper_string;
use crate::text::upper_text;

verus! {

/// The qualified name of a variable: its path segments joined with `_`,
/// upper-cased.
pub open spec fn qualified_key(key: Seq<Seq<char>>) -> Seq<char> {
    upper_text(join_with(key, "_"@))
}

/// One export line for a variable.
pub open spec fn posix_line(v: VarView) -> Seq<char> {
    qualified_key(v.key) + "="@ + v.value + "; export "@ + qualified_key(v.key)
}

/// The export lines of a sequence of variables, in order.
pub open spec fn posix_lines(vars: Seq<VarView>) -> Seq<Seq<char>> {
    vars.map_values(|v: VarView| posix_line(v))
}

/// The export lines of a whole configuration table: its variables in
/// emission order, each rendered as one line.
pub open spec fn export_lines(table: Seq<crate::value::Entry>) -> Seq<Seq<char>> {
    posix_lines(crate::flatten::flatten_table(table, Seq::empty()))
}

/// Renders one variable as its export line.  The value is inserted
/// verbatim, with no quoting or escaping.
pub fn format_posix(var: &Var) -> (line: String)
    ensures
        line@ == posix_line(var@),
{
    let joined = join_segments(&var.key, "_");
    let key = upper_string(joined.as_str());
    let mut line = key.clone();
    line.append("=");
    line.append(var.value.as_str());
    line.append("; export ");
    line.append(key.as_str());
    proof {
        assert(line@ =~= posix_line(var@));
    }
    line
}

/// Renders every variable, keeping the order.
pub fn format_vars(vars: &[Var]) -> (lines: Vec<String>)
    ensures
        lines.deep_view() == posix_lines(views_of(vars@)),
{
    let mut lines: Vec<String> = Vec::new();
    let mut i: usize = 0;
    while i < vars.len()
        invariant
            i <= vars@.len(),
            lines.deep_view() =~= posix_lines(views_of(vars@.take(i as int))),
        decreases vars@.len() - i,
    {
        lines.push(format_posix(&vars[i]));
        i += 1;
        proof {
            let tv = vars@.take(i as int);
            assert(tv =~= vars@.take(i - 1).push(vars@[i - 1]));
            assert(views_of(tv) =~= views_of(vars@.take(i - 1)).push(vars@[i - 1]@));
            assert(posix_lines(views_of(tv)) =~= posix_lines(views_of(vars@.take(i - 1))).push(
                posix_line(vars@[i - 1]@),
            ));
            assert(lines.deep_view() =~= posix_lines(views_of(tv)));
        }
    }
    proof {
        assert(vars@.take(vars@.len() as int) =~= vars@);
    }
    lines
}

/// Upper-casing maps each character on its own, so it distributes over
/// concatenation.
pub proof fn lemma_upper_concat(x: Seq<char>, y: Seq<char>)
    ensures
        upper_text(x + y) == upper_text(x) + upper_text(y),
{
    assert(upper_text(x + y) =~= upper_text(x) + upper_text(y));
}

/// Key joining is associative and order-preserving along the path:
/// qualifying one more segment appends one `_` and that segment
/// upper-cased, whatever the path before it was built from.
pub proof fn lemma_qualified_key_push(prefix: Seq<Seq<char>>, k: Seq<char>)
    requires
        prefix.len() > 0,
    ensures
        qualified_key(prefix.push(k)) == qualified_key(prefix) + "_"@ + upper_text(k),
{
    crate::text::lemma_join_push(prefix, "_"@, k);
    lemma_upper_concat(join_with(prefix, "_"@) + "_"@, k);
    lemma_upper_concat(join_with(prefix, "_"@), "_"@);
    assert(upper_text("_"@) =~= "_"@) by {
        reveal_strlit("_");
    }
}

/// A leaf at path `[a, b, c]` renders the qualified key `A_B_C`: the
/// segments upper-cased, joined by `_`, in path order, whatever its
/// siblings were.
pub proof fn lemma_qualified_key_path(a: Seq<char>, b: Seq<char>, c: Seq<char>)
    ensures
        qualified_key(seq![a, b, c]) == upper_text(a) + "_"@ + upper_text(b) + "_"@ + upper_text(
            c,
        ),
{
    assert(seq![a, b, c] =~= seq![a, b].push(c));
    assert(seq![a, b] =~= seq![a].push(b));
    lemma_qualified_key_push(seq![a, b], c);
    lemma_qualified_key_push(seq![a], b);
    assert(join_with(seq![a], "_"@) == a);
}

/// Formatting is idempotent: two runs of the flattener and the formatter
/// on the same parsed tree yield the same lines, byte for byte.
pub proof fn lemma_format_idempotent(
    table: Seq<crate::value::Entry>,
    lines1: Seq<Seq<char>>,
    lines2: Seq<Seq<char>>,
)
    requires
        lines1 == export_lines(table),
        lines2 == export_lines(table),
    ensures
        lines1 == lines2,
{
}

proof fn lemma_scalar_table_no_subtables(
    table: Seq<crate::value::Entry>,
    prefix: Seq<Seq<char>>,
    n: int,
)
    requires
        n <= table.len(),
        forall|i: int| 0 <= i < table.len() ==> is_scalar(#[trigger] table[i].value),
    ensures
        crate::flatten::sub_vars_below(table, prefix, n) == Seq::<VarView>::empty(),
    decreases n,
{
    if 0 < n <= table.len() {
        lemma_scalar_table_no_subtables(table, prefix, n - 1);
        assert(crate::flatten::expand_entry(table[n - 1], prefix) == Seq::<VarView>::empty());
        assert(crate::flatten::sub_vars_below(table, prefix, n) =~= Seq::<VarView>::empty());
    }
}

proof fn lemma_scalar_table_leaves(table: Seq<crate::value::Entry>, prefix: Seq<Seq<char>>, n: int)
    requires
        n <= table.len(),
        forall|i: int| 0 <= i < table.len() ==> is_scalar(#[trigger] table[i].value),
        forall|i: int| 0 <= i < table.len() ==> !starts_underscore((#[trigger] table[i].key)@),
    ensures
        crate::flatten::leaf_vars_upto(table, prefix, n).len() == if n <= 0 {
            0
        } else {
            n
        },
        forall|i: int|
            0 <= i < n ==> #[trigger] crate::flatten::leaf_vars_upto(table, prefix, n)[i]
                == (VarView { key: prefix.push(table[i].key@), value: scalar_text(table[i].value) }),
    decreases n,
{
    if 0 < n <= table.len() {
        lemma_scalar_table_leaves(table, prefix, n - 1);
        assert(crate::flatten::entry_vars(table, table[n - 1], prefix) =~= seq![
            VarView { key: prefix.push(table[n - 1].key@), value: scalar_text(table[n - 1].value) },
        ]);
    }
}

/// A tree with only scalar leaves yields exactly one line per scalar leaf
/// that sits under ordinary keys only, however deeply nested, and no
/// other lines.
pub proof fn lemma_scalar_tree_line_count(table: Seq<crate::value::Entry>)
    requires
        forall|i: int|
            0 <= i < table.len() ==> crate::flatten::scalars_only(#[trigger] table[i].value),
    ensures
        export_lines(table).len() == crate::flatten::leaf_count_upto(table, table.len() as int),
{
    crate::flatten::lemma_scalar_tree_var_count(table, Seq::empty());
}

/// A table holding only scalar leaves under ordinary keys yields exactly
/// one line per leaf; the lines come out in the table's own entry order,
/// which ascends strictly by raw key.
pub proof fn lemma_scalar_table_lines(table: Seq<crate::value::Entry>)
    requires
        crate::value::entries_sorted(table),
        forall|i: int| 0 <= i < table.len() ==> is_scalar(#[trigger] table[i].value),
        forall|i: int| 0 <= i < table.len() ==> !starts_underscore((#[trigger] table[i].key)@),
    ensures
        export_lines(table).len() == table.len(),
        forall|i: int|
            0 <= i < table.len() ==> #[trigger] export_lines(table)[i] == posix_line(
                VarView { key: seq![table[i].key@], value: scalar_text(table[i].value) },
            ),
        forall|i: int, j: int|
            0 <= i < j < table.len() ==> crate::value::lex_lt(
                (#[trigger] table[i].key)@,
                (#[trigger] table[j].key)@,
            ),
{
    let empty_prefix = Seq::<Seq<char>>::empty();
    let vars = crate::flatten::flatten_table(table, empty_prefix);
    lemma_scalar_table_no_subtables(table, empty_prefix, table.len() as int);
    lemma_scalar_table_leaves(table, empty_prefix, table.len() as int);
    assert(vars =~= crate::flatten::leaf_vars_upto(table, empty_prefix, table.len() as int));
    assert(forall|i: int|
        0 <= i < table.len() ==> #[trigger] vars[i] == (VarView {
            key: seq![table[i].key@],
            value: scalar_text(table[i].value),
        })) by {
        assert(forall|i: int|
            0 <= i < table.len() ==> empty_prefix.push((#[trigger] table[i].key)@) =~= seq![
                table[i].key@,
            ]);
    }
}

} // verus!
