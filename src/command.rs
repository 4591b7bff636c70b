use vstd::prelude::*;
use vstd::string::*;

use crate::diff::{Change, ChangeModel};
use crate::text::{
    decimal, escaped, hex_of, push_decimal, push_decimal_digits, push_escaped, push_hex,
};
use crate::value::{Value, ValueModel};

verus! {

/// The models of a list of values.
pub open spec fn models(vs: Seq<Value>) -> Seq<ValueModel> {
    vs.map_values(|v: Value| v@)
}

/// The models of a list of dictionary entries.
pub open spec fn entry_models(es: Seq<(String, Value)>) -> Seq<(Seq<char>, ValueModel)> {
    es.map_values(|e: (String, Value)| (e.0@, e.1@))
}

pub open spec fn bool_text(b: bool) -> Seq<char> {
    if b {
        "true"@
    } else {
        "false"@
    }
}

/// The argument that stands for one array element, for the kinds that an
/// array argument list can hold.
pub open spec fn element_arg(v: ValueModel) -> Option<Seq<char>> {
    match v {
        ValueModel::Text(s) => Some("-string \""@ + escaped(s) + "\""@),
        ValueModel::Integer(i) => Some("-int "@ + decimal(i)),
        ValueModel::Real(_, t) => Some("-float "@ + t),
        ValueModel::Boolean(b) => Some("-bool "@ + bool_text(b)),
        _ => None,
    }
}

/// Parts joined with single spaces.
pub open spec fn joined(parts: Seq<Seq<char>>) -> Seq<char>
    decreases parts.len(),
{
    if parts.len() == 0 {
        Seq::empty()
    } else if parts.len() == 1 {
        parts[0]
    } else {
        joined(parts.drop_last()) + " "@ + parts.last()
    }
}

/// The element arguments of an array, in order, those of unsupported kinds
/// left out.
pub open spec fn array_parts(vs: Seq<ValueModel>) -> Seq<Seq<char>>
    decreases vs.len(),
{
    if vs.len() == 0 {
        Seq::empty()
    } else {
        match element_arg(vs.last()) {
            Some(a) => array_parts(vs.drop_last()).push(a),
            None => array_parts(vs.drop_last()),
        }
    }
}

/// The key/value argument pair for one dictionary entry, for the kinds that
/// a flat dictionary argument list can hold.
pub open spec fn dict_arg(k: Seq<char>, v: ValueModel) -> Option<Seq<char>> {
    match v {
        ValueModel::Boolean(b) => Some("\""@ + escaped(k) + "\" -bool "@ + bool_text(b)),
        ValueModel::Integer(i) => Some("\""@ + escaped(k) + "\" -int "@ + decimal(i)),
        ValueModel::Real(_, t) => Some("\""@ + escaped(k) + "\" -float "@ + t),
        ValueModel::Text(s) => Some("\""@ + escaped(k) + "\" -string \""@ + escaped(s) + "\""@),
        ValueModel::Binary(d) => Some("\""@ + escaped(k) + "\" -data "@ + hex_of(d)),
        _ => None,
    }
}

/// The argument pairs of a dictionary, in entry order, those of unsupported
/// kinds left out.
pub open spec fn dict_parts(es: Seq<(Seq<char>, ValueModel)>) -> Seq<Seq<char>>
    decreases es.len(),
{
    if es.len() == 0 {
        Seq::empty()
    } else {
        match dict_arg(es.last().0, es.last().1) {
            Some(a) => dict_parts(es.drop_last()).push(a),
            None => dict_parts(es.drop_last()),
        }
    }
}

/// Some entry of the dictionary holds an array or a dictionary.
pub open spec fn has_nested(es: Seq<(Seq<char>, ValueModel)>) -> bool {
    exists|i: int| 0 <= i < es.len() && ((#[trigger] es[i]).1 is Array || es[i].1 is Dictionary)
}

/// The command that writes value `v` to key `k` of domain `d`. A dictionary
/// with a nested array or dictionary is not written: a comment names the
/// domain and key instead. A value of an unsupported kind gives a comment
/// naming the key.
pub open spec fn write_command(d: Seq<char>, k: Seq<char>, v: ValueModel) -> Seq<char> {
    let head = "defaults write \""@ + escaped(d) + "\" \""@ + escaped(k) + "\" "@;
    match v {
        ValueModel::Boolean(b) => head + "-bool "@ + bool_text(b),
        ValueModel::Integer(i) => head + "-int "@ + decimal(i),
        ValueModel::Real(_, t) => head + "-float "@ + t,
        ValueModel::Text(s) => head + "-string \""@ + escaped(s) + "\""@,
        ValueModel::Binary(bytes) => head + "-data "@ + hex_of(bytes),
        ValueModel::Array(vs) => head + "-array "@ + joined(array_parts(vs)),
        ValueModel::Dictionary(es) => if has_nested(es) {
            "# Nested dictionary not supported by defaults command: "@ + escaped(d) + " "@ + escaped(k)
        } else {
            head + "-dict "@ + joined(dict_parts(es))
        },
        ValueModel::Timestamp(t) => head + "-date \""@ + t + "\""@,
        ValueModel::Reference(u) => head + "-int "@ + decimal(u as int)
            + " # UID type stored as integer"@,
        ValueModel::Unsupported => "# Unsupported type for key: "@ + escaped(k),
    }
}

/// The command that a change stands for: a write of the new value for an
/// addition or a modification, a delete for a removal.
pub open spec fn command_text(c: ChangeModel) -> Seq<char> {
    match c {
        ChangeModel::Added { domain, key, value } => write_command(domain, key, value),
        ChangeModel::Modified { domain, key, new_value, .. } => write_command(
            domain,
            key,
            new_value,
        ),
        ChangeModel::Removed { domain, key, .. } => "defaults delete \""@ + escaped(domain)
            + "\" \""@ + escaped(key) + "\""@,
    }
}

fn push_bool(out: &mut String, b: bool)
    ensures
        final(out)@ == old(out)@ + bool_text(b),
{
    if b {
        out.append("true");
    } else {
        out.append("false");
    }
}

/// The argument for one array element, if its kind can stand in an array.
pub fn element_arg_text(v: &Value) -> (r: Option<String>)
    ensures
        r is Some <==> element_arg(v@) is Some,
        r is Some ==> r->0@ == element_arg(v@)->0,
{
    let mut out = String::new();
    match v {
        Value::Text(s) => {
            out.append("-string \"");
            push_escaped(&mut out, s.as_str());
            out.append("\"");
        },
        Value::Integer(i) => {
            out.append("-int ");
            push_decimal(&mut out, *i);
        },
        Value::Real(x) => {
            out.append("-float ");
            out.append(x.text.as_str());
        },
        Value::Boolean(b) => {
            out.append("-bool ");
            push_bool(&mut out, *b);
        },
        _ => {
            return None;
        },
    }
    assert(out@ =~= element_arg(v@)->0);
    Some(out)
}

/// The element arguments of an array joined with spaces; elements of kinds
/// that cannot stand in an array are left out.
pub fn format_array_elements(arr: &Vec<Value>) -> (r: String)
    ensures
        r@ == joined(array_parts(models(arr@))),
{
    let mut out = String::new();
    let mut any = false;
    let mut i: usize = 0;
    assert(models(arr@).take(0) =~= Seq::<ValueModel>::empty());
    while i < arr.len()
        invariant
            i <= arr.len(),
            out@ == joined(array_parts(models(arr@).take(i as int))),
            any == (array_parts(models(arr@).take(i as int)).len() > 0),
        decreases arr.len() - i,
    {
        let ghost parts = array_parts(models(arr@).take(i as int));
        proof {
            assert(models(arr@).take(i + 1).drop_last() =~= models(arr@).take(i as int));
            assert(models(arr@).take(i + 1).last() == arr@[i as int]@);
        }
        match element_arg_text(&arr[i]) {
            Some(a) => {
                if any {
                    out.append(" ");
                }
                out.append(a.as_str());
                any = true;
                proof {
                    let np = parts.push(a@);
                    assert(np.drop_last() =~= parts);
                    if parts.len() == 0 {
                        assert(out@ =~= joined(np));
                    }
                }
            },
            None => {},
        }
        i = i + 1;
    }
    assert(models(arr@).take(arr.len() as int) =~= models(arr@));
    out
}


/// The argument pair for one dictionary entry, if its kind can stand in a
/// flat dictionary.
pub fn format_dict_value(key: &str, value: &Value) -> (r: Option<String>)
    ensures
        r is Some <==> dict_arg(key@, value@) is Some,
        r is Some ==> r->0@ == dict_arg(key@, value@)->0,
{
    match value {
        Value::Boolean(_) | Value::Integer(_) | Value::Real(_) | Value::Text(_) | Value::Binary(_) => {},
        _ => {
            return None;
        },
    }
    let mut out = String::new();
    out.append("\"");
    push_escaped(&mut out, key);
    match value {
        Value::Boolean(b) => {
            out.append("\" -bool ");
            push_bool(&mut out, *b);
        },
        Value::Integer(i) => {
            out.append("\" -int ");
            push_decimal(&mut out, *i);
        },
        Value::Real(x) => {
            out.append("\" -float ");
            out.append(x.text.as_str());
        },
        Value::Text(t) => {
            out.append("\" -string \"");
            push_escaped(&mut out, t.as_str());
            out.append("\"");
        },
        Value::Binary(d) => {
            out.append("\" -data ");
            push_hex(&mut out, d);
        },
        _ => {},
    }
    assert(out@ =~= dict_arg(key@, value@)->0);
    Some(out)
}

/// The argument pairs of a dictionary joined with spaces; entries of kinds
/// that cannot stand in a flat dictionary are left out.
pub fn format_dict_pairs(dict: &Vec<(String, Value)>) -> (r: String)
    ensures
        r@ == joined(dict_parts(entry_models(dict@))),
{
    let mut out = String::new();
    let mut any = false;
    let mut i: usize = 0;
    assert(entry_models(dict@).take(0) =~= Seq::<(Seq<char>, ValueModel)>::empty());
    while i < dict.len()
        invariant
            i <= dict.len(),
            out@ == joined(dict_parts(entry_models(dict@).take(i as int))),
            any == (dict_parts(entry_models(dict@).take(i as int)).len() > 0),
        decreases dict.len() - i,
    {
        let ghost parts = dict_parts(entry_models(dict@).take(i as int));
        proof {
            assert(entry_models(dict@).take(i + 1).drop_last() =~= entry_models(dict@).take(i as int));
            assert(entry_models(dict@).take(i + 1).last() == (dict@[i as int].0@, dict@[i as int].1@));
        }
        match format_dict_value(dict[i].0.as_str(), &dict[i].1) {
            Some(a) => {
                if any {
                    out.append(" ");
                }
                out.append(a.as_str());
                any = true;
                proof {
                    let np = parts.push(a@);
                    assert(np.drop_last() =~= parts);
                    if parts.len() == 0 {
                        assert(out@ =~= joined(np));
                    }
                }
            },
            None => {},
        }
        i = i + 1;
    }
    assert(entry_models(dict@).take(dict.len() as int) =~= entry_models(dict@));
    out
}

/// Whether some entry of the dictionary holds an array or a dictionary.
pub fn has_nested_structure(dict: &Vec<(String, Value)>) -> (r: bool)
    ensures
        r == has_nested(entry_models(dict@)),
{
    let mut i: usize = 0;
    while i < dict.len()
        invariant
            i <= dict.len(),
            forall|k: int|
                0 <= k < i ==> !((#[trigger] entry_models(dict@)[k]).1 is Array
                    || entry_models(dict@)[k].1 is Dictionary),
        decreases dict.len() - i,
    {
        let nested = match &dict[i].1 {
            Value::Array(_) | Value::Dictionary(_) => true,
            _ => false,
        };
        assert(entry_models(dict@)[i as int] == (dict@[i as int].0@, dict@[i as int].1@));
        if nested {
            return true;
        }
        i = i + 1;
    }
    false
}

/// The command that writes `value` to `key` of `domain`.
pub fn generate_write_command(domain: &str, key: &str, value: &Value) -> (r: String)
    ensures
        r@ == write_command(domain@, key@, value@),
{
    let mut out = String::new();
    match value {
        Value::Unsupported => {
            out.append("# Unsupported type for key: ");
            push_escaped(&mut out, key);
            assert(out@ =~= write_command(domain@, key@, value@));
            return out;
        },
        Value::Dictionary(es) => {
            proof {
                assert(value@->Dictionary_0 =~= entry_models(es@));
            }
            if has_nested_structure(es) {
                out.append("# Nested dictionary not supported by defaults command: ");
                push_escaped(&mut out, domain);
                out.append(" ");
                push_escaped(&mut out, key);
                assert(out@ =~= write_command(domain@, key@, value@));
                return out;
            }
        },
        _ => {},
    }
    out.append("defaults write \"");
    push_escaped(&mut out, domain);
    out.append("\" \"");
    push_escaped(&mut out, key);
    out.append("\" ");
    let ghost head = out@;
    assert(head =~= "defaults write \""@ + escaped(domain@) + "\" \""@ + escaped(key@) + "\" "@);
    match value {
        Value::Boolean(b) => {
            out.append("-bool ");
            push_bool(&mut out, *b);
        },
        Value::Integer(i) => {
            out.append("-int ");
            push_decimal(&mut out, *i);
        },
        Value::Real(x) => {
            out.append("-float ");
            out.append(x.text.as_str());
        },
        Value::Text(t) => {
            out.append("-string \"");
            push_escaped(&mut out, t.as_str());
            out.append("\"");
        },
        Value::Binary(d) => {
            out.append("-data ");
            push_hex(&mut out, d);
        },
        Value::Array(vs) => {
            out.append("-array ");
            let elements = format_array_elements(vs);
            proof {
                assert(value@->Array_0 =~= models(vs@));
            }
            out.append(elements.as_str());
        },
        Value::Dictionary(es) => {
            out.append("-dict ");
            let pairs = format_dict_pairs(es);
            proof {
                assert(value@->Dictionary_0 =~= entry_models(es@));
            }
            out.append(pairs.as_str());
        },
        Value::Timestamp(t) => {
            out.append("-date \"");
            out.append(t.as_str());
            out.append("\"");
        },
        Value::Reference(u) => {
            out.append("-int ");
            push_decimal_digits(&mut out, *u);
            out.append(" # UID type stored as integer");
        },
        Value::Unsupported => {},
    }
    assert(out@ =~= write_command(domain@, key@, value@));
    out
}

/// The command that a change stands for.
pub fn generate_command(change: &Change) -> (r: String)
    ensures
        r@ == command_text(change@),
{
    match change {
        Change::Added { domain, key, value } => generate_write_command(
            domain.as_str(),
            key.as_str(),
            value,
        ),
        Change::Modified { domain, key, new_value, .. } => generate_write_command(
            domain.as_str(),
            key.as_str(),
            new_value,
        ),
        Change::Removed { domain, key, .. } => {
            let mut out = String::new();
            out.append("defaults delete \"");
            push_escaped(&mut out, domain.as_str());
            out.append("\" \"");
            push_escaped(&mut out, key.as_str());
            out.append("\"");
            assert(out@ =~= command_text(change@));
            out
        },
    }
}


/// A boolean, integer, real or text value is written at the top level with
/// the same literal that stands for it in an array: the write command is the
/// command head followed by exactly that argument.
pub proof fn law_scalar_literal(d: Seq<char>, k: Seq<char>, v: ValueModel)
    requires
        element_arg(v) is Some,
    ensures
        write_command(d, k, v) == "defaults write \""@ + escaped(d) + "\" \""@ + escaped(k) + "\" "@
            + element_arg(v)->0,
{
    let head = "defaults write \""@ + escaped(d) + "\" \""@ + escaped(k) + "\" "@;
    assert(write_command(d, k, v) =~= head + element_arg(v)->0);
}

/// An array made only of boolean, integer, real and text values lists the
/// literal of each of its values exactly once, in order.
pub proof fn law_scalar_array(vs: Seq<ValueModel>)
    requires
        forall|i: int| 0 <= i < vs.len() ==> (#[trigger] element_arg(vs[i])) is Some,
    ensures
        array_parts(vs).len() == vs.len(),
        forall|i: int| 0 <= i < vs.len() ==> array_parts(vs)[i] == (#[trigger] element_arg(vs[i]))->0,
    decreases vs.len(),
{
    if vs.len() > 0 {
        let init = vs.drop_last();
        assert forall|i: int| 0 <= i < init.len() implies (#[trigger] element_arg(init[i])) is Some by {
            assert(init[i] == vs[i]);
        }
        law_scalar_array(init);
        assert(element_arg(vs[vs.len() - 1]) is Some);
        assert forall|i: int| 0 <= i < vs.len() implies array_parts(vs)[i] == (#[trigger] element_arg(
            vs[i],
        ))->0 by {
            if i < vs.len() - 1 {
                assert(init[i] == vs[i]);
            }
        }
    }
}

} // verus!
