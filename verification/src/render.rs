//! Rendering of leaf values: scalars to their canonical text, and string
//! arrays to their separator-joined form.

use vstd::prelude::*;
use vstd::string::StringExecFns;

use crate::text::int_text;
use crate::text::join_with;
use crate::value::ConfigValue;

verus! {

/// A scalar is a leaf that renders on its own: a string, integer, float or
/// boolean.
pub open spec fn is_scalar(v: ConfigValue) -> bool {
    ||| v is Str
    ||| v is Integer
    ||| v is Float
    ||| v is Boolean
}

/// The canonical text of a scalar: strings verbatim and unquoted, integers
/// in decimal, floats as the decimal text they arrived with, booleans as
/// `true` or `false`.
pub open spec fn scalar_text(v: ConfigValue) -> Seq<char> {
    match v {
        ConfigValue::Str(s) => s@,
        ConfigValue::Integer(i) => int_text(i as int),
        ConfigValue::Float(t) => t@,
        ConfigValue::Boolean(b) => if b {
            "true"@
        } else {
            "false"@
        },
        _ => Seq::empty(),
    }
}

/// An array renders only when it is non-empty and every element is a
/// string.
pub open spec fn array_eligible(elems: Seq<ConfigValue>) -> bool {
    elems.len() > 0 && forall|i: int| 0 <= i < elems.len() ==> elems[i] is Str
}

/// The strings held by a sequence of `Str` values.
pub open spec fn str_texts(elems: Seq<ConfigValue>) -> Seq<Seq<char>> {
    elems.map_values(|v: ConfigValue| v->Str_0@)
}

/// What an array renders to: its elements joined by the separator when it
/// is eligible, nothing otherwise.
pub open spec fn array_text(elems: Seq<ConfigValue>, sep: Seq<char>) -> Option<Seq<char>> {
    if array_eligible(elems) {
        Some(join_with(str_texts(elems), sep))
    } else {
        None
    }
}

/// The joined form of a string array, paired with the separator it was
/// built with.
#[derive(Debug, PartialEq)]
pub struct ArrayValue {
    pub sep: String,
    pub elems: Vec<String>,
}

impl ArrayValue {
    /// Takes the strings out of an array of values.  An empty array, or one
    /// holding any non-string element, is not a string array and yields
    /// nothing; in particular an array whose first element is not a string
    /// is dismissed at once.
    pub fn from_array(array: &Vec<ConfigValue>, sep: &str) -> (r: Option<ArrayValue>)
        ensures
            r is Some <==> array_eligible(array@),
            r matches Some(av) ==> av.sep@ == sep@ && av.elems.deep_view() == str_texts(array@),
    {
        if array.len() == 0 {
            return None;
        }
        let mut elems: Vec<String> = Vec::new();
        let mut i: usize = 0;
        while i < array.len()
            invariant
                i <= array@.len(),
                forall|j: int| 0 <= j < i ==> array@[j] is Str,
                elems.deep_view() =~= str_texts(array@.take(i as int)),
            decreases array@.len() - i,
        {
            match &array[i] {
                ConfigValue::Str(s) => elems.push(s.clone()),
                _ => {
                    return None;
                },
            }
            i += 1;
            proof {
                assert(array@.take(i as int) =~= array@.take(i - 1).push(array@[i - 1]));
                assert(str_texts(array@.take(i as int)) =~= str_texts(array@.take(i - 1)).push(
                    array@[i - 1]->Str_0@,
                ));
            }
        }
        proof {
            assert(array@.take(array@.len() as int) =~= array@);
        }
        Some(ArrayValue { sep: sep.to_owned(), elems })
    }

    /// The elements joined by the separator.
    pub fn render(&self) -> (s: String)
        ensures
            s@ == join_with(self.elems.deep_view(), self.sep@),
    {
        crate::text::join_segments(&self.elems, self.sep.as_str())
    }
}

/// Renders a scalar leaf to its canonical text; a non-scalar yields
/// nothing.
pub fn render_scalar(v: &ConfigValue) -> (r: Option<String>)
    ensures
        r is Some <==> is_scalar(*v),
        r matches Some(s) ==> s@ == scalar_text(*v),
{
    match v {
        ConfigValue::Str(s) => Some(s.clone()),
        ConfigValue::Integer(i) => Some(crate::text::integer_text(*i)),
        ConfigValue::Float(t) => Some(t.clone()),
        ConfigValue::Boolean(b) => Some(
            if *b {
                "true".to_owned()
            } else {
                "false".to_owned()
            },
        ),
        _ => None,
    }
}

} // verus!
