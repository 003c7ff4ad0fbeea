//! What the engine reads in a manifest: the dimensions that the embedder
//! plugin declares.

use vstd::prelude::*;
use vstd::string::StringExecFns;
use crate::error::VPackError;
use crate::ieee::{as_index, index_of_u64, integer_of_double, is_nan_double, key_index};
use crate::value::{JsonValue, Number, NumberView, Value};

verus! {

/// The member of an object under `key`; `None` where the value is no object
/// or has no such member.
pub open spec fn member(value: JsonValue, key: Seq<char>) -> Option<JsonValue> {
    match value {
        JsonValue::Object(members) => if members.contains_key(key) {
            Some(members[key])
        } else {
            None
        },
        _ => None,
    }
}

/// Whether a plugin record is of the kind `embedder`.
pub open spec fn is_embedder(plugin: JsonValue) -> bool {
    member(plugin, "kind"@) == Some(JsonValue::String("embedder"@))
}

/// The place of the first embedder among the plugins, or their number where
/// none is one.
pub open spec fn first_embedder(plugins: Seq<JsonValue>) -> int
    decreases plugins.len(),
{
    if plugins.len() == 0 {
        0
    } else if is_embedder(plugins[0]) {
        0
    } else {
        1 + first_embedder(plugins.drop_first())
    }
}

/// A value read as a number of dimensions: a whole number that is not
/// negative and lies in the range of `usize`, written as an integer or as a
/// floating-point number.  Anything else is no number of dimensions: a
/// number below zero, a number with a fractional part, a number above the
/// range, and every value that is no number.
pub open spec fn dimensions_of(value: JsonValue) -> Option<usize> {
    match value {
        JsonValue::Number(NumberView::Int(n)) => as_index(n),
        JsonValue::Number(NumberView::Float(key)) => key_index(key),
        _ => None,
    }
}

/// The dimensions that a manifest declares: those of the first plugin of the
/// kind `embedder` in its list `plugins`.  `None` where there is no such
/// list or plugin, or where that plugin declares none that can be read.
pub open spec fn embedder_dimensions(manifest: JsonValue) -> Option<usize> {
    match member(manifest, "plugins"@) {
        Some(JsonValue::Array(plugins)) => {
            let at = first_embedder(plugins);
            if 0 <= at < plugins.len() {
                match member(plugins[at], "dimensions"@) {
                    Some(declared) => dimensions_of(declared),
                    None => None,
                }
            } else {
                None
            }
        },
        _ => None,
    }
}

/// Where the first embedder is.
pub proof fn lemma_first_embedder(plugins: Seq<JsonValue>, at: int)
    requires
        0 <= at <= plugins.len(),
        forall|j: int| 0 <= j < at ==> !is_embedder(plugins[j]),
        at < plugins.len() ==> is_embedder(plugins[at]),
    ensures
        first_embedder(plugins) == at,
    decreases plugins.len(),
{
    if plugins.len() > 0 && at > 0 {
        let rest = plugins.drop_first();
        assert forall|j: int| 0 <= j < at - 1 implies !is_embedder(rest[j]) by {
            assert(rest[j] == plugins[j + 1]);
        }
        assert(!is_embedder(plugins[0]));
        lemma_first_embedder(rest, at - 1);
    }
}

/// A value read as a number of dimensions.
pub fn read_dimensions(value: &Value) -> (r: Option<usize>)
    ensures
        r == dimensions_of(value@),
{
    match value {
        Value::Number(Number::PosInt(n)) => index_of_u64(*n),
        Value::Number(Number::NegInt(n)) => if *n < 0 {
            None
        } else {
            index_of_u64(*n as u64)
        },
        Value::Number(Number::Float(bits)) => if is_nan_double(*bits) {
            None
        } else {
            integer_of_double(*bits)
        },
        _ => None,
    }
}

/// The failure of a manifest that declares no dimensions.
pub fn missing_dimensions() -> (failure: VPackError)
    ensures
        failure matches VPackError::UnknownModel(detail) && detail@
            == "Embedder plugin config must include dimensions"@,
{
    VPackError::UnknownModel(String::from_str("Embedder plugin config must include dimensions"))
}

/// The dimensions that the manifest declares, or `UnknownModel` where it
/// declares none.
pub fn get_embedder_dimensions(manifest: &Value) -> (result: Result<usize, VPackError>)
    ensures
        match embedder_dimensions(manifest@) {
            Some(dimensions) => result matches Ok(d) && d == dimensions,
            None => result matches Err(VPackError::UnknownModel(detail)) && detail@
                == "Embedder plugin config must include dimensions"@,
        },
{
    let plugins_key = String::from_str("plugins");
    let kind_key = String::from_str("kind");
    let dimensions_key = String::from_str("dimensions");
    let embedder = String::from_str("embedder");
    let plugins = match manifest.get(&plugins_key) {
        Some(Value::Array(plugins)) => plugins,
        _ => {
            return Err(missing_dimensions());
        },
    };
    let ghost views = Value::Array(*plugins)@->Array_0;
    assert(member(manifest@, "plugins"@) == Some(JsonValue::Array(views)));
    let mut i: usize = 0;
    while i < plugins.len()
        invariant
            i <= plugins.len(),
            views == Value::Array(*plugins)@->Array_0,
            member(manifest@, "plugins"@) == Some(JsonValue::Array(views)),
            kind_key@ == "kind"@,
            dimensions_key@ == "dimensions"@,
            embedder@ == "embedder"@,
            forall|j: int| 0 <= j < i ==> !is_embedder(views[j]),
        decreases plugins.len() - i,
    {
        let plugin = &plugins[i];
        assert(views[i as int] == plugin@);
        let is_it = match plugin.get(&kind_key) {
            Some(Value::String(kind)) => *kind == embedder,
            _ => false,
        };
        if is_it {
            proof {
                lemma_first_embedder(views, i as int);
            }
            return match plugin.get(&dimensions_key) {
                Some(declared) => match read_dimensions(declared) {
                    Some(d) => Ok(d),
                    None => Err(missing_dimensions()),
                },
                None => Err(missing_dimensions()),
            };
        }
        i = i + 1;
    }
    proof {
        lemma_first_embedder(views, views.len() as int);
    }
    Err(missing_dimensions())
}

} // verus!
