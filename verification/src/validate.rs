use vstd::prelude::*;
use crate::error::NeuxcfgError;
use crate::text::{contains_char, starts_with_char};
use crate::value::{TomlValue, Table, lemma_children_decrease, lemma_element_decreases, lemma_entry_decreases};

verus! {

/// The text that `format!("{:?}", value)` gives for a TOML date-time value
/// whose RFC 3339 text is `text`, or none when `text` is not a date-time.
pub uninterp spec fn datetime_debug_text(text: Seq<char>) -> Option<Seq<char>>;

/// Formats a date-time as `toml::Value`'s `Debug` does.
///
/// Parses `text` with `toml::value::Datetime`'s `FromStr` and renders
/// `toml::Value::Datetime` of the result with `{:?}`. The contract only ties
/// the result to `text` through `datetime_debug_text`; what that text is, is
/// the toml crate's.
#[verifier::external_body]
fn datetime_debug(text: &str) -> (r: Option<String>)
    ensures
        match r {
            Some(s) => datetime_debug_text(text@) == Some(s@),
            None => datetime_debug_text(text@) is None,
        },
{
    text.parse::<toml::value::Datetime>().ok().map(|dt| format!("{:?}", toml::Value::Datetime(dt)))
}

/// An extra key is allowed when it does not start with `_` and holds no `.`.
pub open spec fn is_allowed_key(k: Seq<char>) -> bool {
    !(k.len() > 0 && k[0] == '_') && !k.contains('.')
}

/// The message for a rejected key.
pub open spec fn key_message(k: Seq<char>) -> Seq<char> {
    "invalid extra key '"@ + k + "' (must not start with '_' or contain '.')"@
}

/// The message for a date-time found in an extra value.
pub open spec fn datetime_message(text: Seq<char>) -> Seq<char> {
    "unsupported value type in extra field: "@ + match datetime_debug_text(text) {
        Some(d) => d,
        None => text,
    }
}

/// `v` holds, at any depth, a date-time with text `text`.
pub open spec fn holds_datetime(v: TomlValue, text: Seq<char>) -> bool
    decreases v,
{
    match v {
        TomlValue::Datetime(t) => t@ == text,
        TomlValue::Array(a) => exists|i: int| 0 <= i < a.len() && holds_datetime(#[trigger] a[i], text),
        TomlValue::Table(t) => exists|i: int|
            0 <= i < t.entries.len() && holds_datetime((#[trigger] t.entries[i]).1, text),
        _ => false,
    }
}

/// `text` is the first date-time that `v` holds: depth first, array elements
/// and table entries taken in order.
pub open spec fn first_datetime_is(v: TomlValue, text: Seq<char>) -> bool
    decreases v,
{
    match v {
        TomlValue::Datetime(t) => t@ == text,
        TomlValue::Array(a) => exists|i: int|
            0 <= i < a.len() && first_datetime_is(#[trigger] a[i], text) && forall|j: int|
                0 <= j < i ==> value_allowed(#[trigger] a[j]),
        TomlValue::Table(t) => exists|i: int|
            0 <= i < t.entries.len() && first_datetime_is((#[trigger] t.entries[i]).1, text)
                && forall|j: int| 0 <= j < i ==> value_allowed((#[trigger] t.entries[j]).1),
        _ => false,
    }
}

/// A value is allowed in an extra field when it holds no date-time: strings,
/// integers, floats, booleans, and arrays and tables of these.
pub open spec fn value_allowed(v: TomlValue) -> bool {
    forall|t: Seq<char>| !holds_datetime(v, t)
}

/// An extra entry passes when both its key and its value are allowed.
pub open spec fn entry_allowed(e: (String, TomlValue)) -> bool {
    is_allowed_key(e.0@) && value_allowed(e.1)
}

/// What the validator reports for a rejected entry: the key message when the
/// key is not allowed, else the message for the first date-time in the value.
pub open spec fn reports_entry(e: (String, TomlValue), err: NeuxcfgError) -> bool {
    &&& err is ValidationError
    &&& if !is_allowed_key(e.0@) {
        err->ValidationError_0@ == key_message(e.0@)
    } else {
        exists|t: Seq<char>|
            first_datetime_is(e.1, t) && err->ValidationError_0@ == datetime_message(t)
    }
}

/// Every extra entry is allowed.
pub open spec fn extra_allowed(extra: Table) -> bool {
    forall|i: int| 0 <= i < extra.entries@.len() ==> entry_allowed(#[trigger] extra.entries@[i])
}

/// `err` is what validating `extra` reports: the first entry that is not
/// allowed, with its message.
pub open spec fn extra_rejected(extra: Table, err: NeuxcfgError) -> bool {
    exists|i: int|
        0 <= i < extra.entries@.len() && (forall|j: int|
            0 <= j < i ==> entry_allowed(#[trigger] extra.entries@[j])) && !entry_allowed(
            extra.entries@[i],
        ) && reports_entry(extra.entries@[i], err)
}

fn datetime_error(text: &String) -> (r: NeuxcfgError)
    ensures
        r is ValidationError,
        r->ValidationError_0@ == datetime_message(text@),
{
    let prefix = String::from_str("unsupported value type in extra field: ");
    match datetime_debug(text.as_str()) {
        Some(d) => NeuxcfgError::ValidationError(prefix.concat(d.as_str())),
        None => NeuxcfgError::ValidationError(prefix.concat(text.as_str())),
    }
}

/// Checks that a value holds no date-time, at any depth; the error names the
/// first date-time met.
fn validate_value_type(v: &TomlValue) -> (r: Result<(), NeuxcfgError>)
    ensures
        match r {
            Ok(()) => value_allowed(*v),
            Err(e) => e is ValidationError && exists|t: Seq<char>|
                first_datetime_is(*v, t) && e->ValidationError_0@ == datetime_message(t),
        },
    decreases v,
{
    proof {
        lemma_children_decrease(*v);
    }
    match v {
        TomlValue::Datetime(t) => {
            let e = datetime_error(t);
            proof {
                assert(first_datetime_is(*v, t@));
            }
            Err(e)
        },
        TomlValue::Array(a) => {
            let mut i: usize = 0;
            while i < a.len()
                invariant
                    *v == TomlValue::Array(*a),
                    0 <= i <= a@.len(),
                    forall|j: int| 0 <= j < i ==> value_allowed(#[trigger] a@[j]),
                decreases a@.len() - i,
            {
                proof {
                    lemma_element_decreases(*v, i as int);
                    assert((*v)->Array_0[i as int] == a@[i as int]);
                }
                match validate_value_type(&a[i]) {
                    Err(e) => {
                        proof {
                            let t = choose|t: Seq<char>|
                                first_datetime_is(a@[i as int], t) && e->ValidationError_0@
                                    == datetime_message(t);
                            assert(first_datetime_is(a[i as int], t));
                            assert(first_datetime_is(*v, t));
                        }
                        return Err(e);
                    },
                    Ok(()) => {},
                }
                i = i + 1;
            }
            proof {
                assert forall|t: Seq<char>| !holds_datetime(*v, t) by {
                    if holds_datetime(*v, t) {
                        let j = choose|j: int| 0 <= j < a@.len() && holds_datetime(#[trigger] a@[j], t);
                        assert(value_allowed(a@[j]));
                    }
                }
            }
            Ok(())
        },
        TomlValue::Table(tb) => {
            let mut i: usize = 0;
            while i < tb.entries.len()
                invariant
                    *v == TomlValue::Table(*tb),
                    0 <= i <= tb.entries@.len(),
                    forall|j: int| 0 <= j < i ==> value_allowed((#[trigger] tb.entries@[j]).1),
                decreases tb.entries@.len() - i,
            {
                proof {
                    lemma_entry_decreases(*v, i as int);
                    assert((*v)->Table_0.entries[i as int].1 == tb.entries@[i as int].1);
                }
                match validate_value_type(&tb.entries[i].1) {
                    Err(e) => {
                        proof {
                            let t = choose|t: Seq<char>|
                                first_datetime_is(tb.entries@[i as int].1, t)
                                    && e->ValidationError_0@ == datetime_message(t);
                            assert(first_datetime_is(tb.entries[i as int].1, t));
                            assert(first_datetime_is(*v, t));
                        }
                        return Err(e);
                    },
                    Ok(()) => {},
                }
                i = i + 1;
            }
            proof {
                assert forall|t: Seq<char>| !holds_datetime(*v, t) by {
                    if holds_datetime(*v, t) {
                        let j = choose|j: int|
                            0 <= j < tb.entries@.len() && holds_datetime(
                                (#[trigger] tb.entries@[j]).1,
                                t,
                            );
                        assert(value_allowed(tb.entries@[j].1));
                    }
                }
            }
            Ok(())
        },
        _ => Ok(()),
    }
}

/// Validates the extra fields of a project configuration.
///
/// Every key must not start with `_` nor contain `.`, and every value must be a
/// string, integer, float or boolean, or an array or table of these (a
/// date-time is rejected). The first entry, in table order, that breaks a rule
/// is reported.
pub fn validate_extra(extra: &Table) -> (r: Result<(), NeuxcfgError>)
    ensures
        match r {
            Ok(()) => extra_allowed(*extra),
            Err(err) => !extra_allowed(*extra) && extra_rejected(*extra, err),
        },
        (forall|i: int|
            0 <= i < extra.entries@.len() ==> {
                let k = (#[trigger] extra.entries@[i]).0@;
                &&& !(k.len() > 0 && k[0] == '_')
                &&& !k.contains('.')
                &&& forall|t: Seq<char>| !holds_datetime(extra.entries@[i].1, t)
            }) ==> r is Ok,
{
    proof {
        lemma_plain_extra_passes(*extra);
    }
    proof {
        reveal_strlit("invalid extra key '");
        reveal_strlit("' (must not start with '_' or contain '.')");
    }
    let mut i: usize = 0;
    while i < extra.entries.len()
        invariant
            0 <= i <= extra.entries@.len(),
            forall|j: int| 0 <= j < i ==> entry_allowed(#[trigger] extra.entries@[j]),
        decreases extra.entries@.len() - i,
    {
        let key = &extra.entries[i].0;
        if starts_with_char(key.as_str(), '_') || contains_char(key.as_str(), '.') {
            let msg = String::from_str("invalid extra key '").concat(key.as_str()).concat(
                "' (must not start with '_' or contain '.')",
            );
            let err = NeuxcfgError::ValidationError(msg);
            proof {
                assert(reports_entry(extra.entries@[i as int], err));
            }
            return Err(err);
        }
        match validate_value_type(&extra.entries[i].1) {
            Err(err) => {
                proof {
                    let t = choose|t: Seq<char>|
                        first_datetime_is(extra.entries@[i as int].1, t) && err->ValidationError_0@
                            == datetime_message(t);
                    lemma_first_datetime_held(extra.entries@[i as int].1, t);
                    assert(!value_allowed(extra.entries@[i as int].1));
                    assert(reports_entry(extra.entries@[i as int], err));
                }
                return Err(err);
            },
            Ok(()) => {},
        }
        i = i + 1;
    }
    Ok(())
}

/// The first date-time of a value is one that it holds.
pub proof fn lemma_first_datetime_held(v: TomlValue, text: Seq<char>)
    requires
        first_datetime_is(v, text),
    ensures
        holds_datetime(v, text),
    decreases v,
{
    lemma_children_decrease(v);
    match v {
        TomlValue::Array(a) => {
            let i = choose|i: int|
                0 <= i < a.len() && first_datetime_is(#[trigger] a[i], text) && forall|j: int|
                    0 <= j < i ==> value_allowed(#[trigger] a[j]);
            lemma_first_datetime_held(a[i], text);
        },
        TomlValue::Table(t) => {
            let i = choose|i: int|
                0 <= i < t.entries.len() && first_datetime_is((#[trigger] t.entries[i]).1, text)
                    && forall|j: int| 0 <= j < i ==> value_allowed((#[trigger] t.entries[j]).1);
            lemma_first_datetime_held(t.entries[i].1, text);
        },
        _ => {},
    }
}

/// A value has at most one first date-time, so the validator's message is
/// determined by the value.
pub proof fn lemma_first_datetime_unique(v: TomlValue, a: Seq<char>, b: Seq<char>)
    requires
        first_datetime_is(v, a),
        first_datetime_is(v, b),
    ensures
        a == b,
    decreases v,
{
    lemma_children_decrease(v);
    match v {
        TomlValue::Array(x) => {
            let i = choose|i: int|
                0 <= i < x.len() && first_datetime_is(#[trigger] x[i], a) && forall|j: int|
                    0 <= j < i ==> value_allowed(#[trigger] x[j]);
            let k = choose|k: int|
                0 <= k < x.len() && first_datetime_is(#[trigger] x[k], b) && forall|j: int|
                    0 <= j < k ==> value_allowed(#[trigger] x[j]);
            if i < k {
                lemma_first_datetime_held(x[i], a);
                assert(value_allowed(x[i]));
            } else if k < i {
                lemma_first_datetime_held(x[k], b);
                assert(value_allowed(x[k]));
            } else {
                lemma_first_datetime_unique(x[i], a, b);
            }
        },
        TomlValue::Table(t) => {
            let i = choose|i: int|
                0 <= i < t.entries.len() && first_datetime_is((#[trigger] t.entries[i]).1, a)
                    && forall|j: int| 0 <= j < i ==> value_allowed((#[trigger] t.entries[j]).1);
            let k = choose|k: int|
                0 <= k < t.entries.len() && first_datetime_is((#[trigger] t.entries[k]).1, b)
                    && forall|j: int| 0 <= j < k ==> value_allowed((#[trigger] t.entries[j]).1);
            if i < k {
                lemma_first_datetime_held(t.entries[i].1, a);
                assert(value_allowed(t.entries[i].1));
            } else if k < i {
                lemma_first_datetime_held(t.entries[k].1, b);
                assert(value_allowed(t.entries[k].1));
            } else {
                lemma_first_datetime_unique(t.entries[i].1, a, b);
            }
        },
        _ => {},
    }
}

/// Which extra tables pass: exactly those whose every key neither starts with
/// `_` nor holds `.`, and whose every value holds no date-time at any depth.
/// Any other character may appear in a key (`api-key`, `b2`, `é`).
pub proof fn lemma_plain_extra_passes(extra: Table)
    ensures
        extra_allowed(extra) <==> forall|i: int|
            0 <= i < extra.entries@.len() ==> {
                let k = (#[trigger] extra.entries@[i]).0@;
                &&& !(k.len() > 0 && k[0] == '_')
                &&& !k.contains('.')
                &&& forall|t: Seq<char>| !holds_datetime(extra.entries@[i].1, t)
            },
{
}

/// A key is rejected exactly when it starts with `_` or holds `.`.
pub proof fn lemma_key_rule(k: Seq<char>)
    ensures
        is_allowed_key(k) <==> !((k.len() > 0 && k[0] == '_') || exists|i: int|
            0 <= i < k.len() && k[i] == '.'),
{
    if exists|i: int| 0 <= i < k.len() && k[i] == '.' {
        let i = choose|i: int| 0 <= i < k.len() && k[i] == '.';
        assert(k.contains('.'));
    }
}

} // verus!
