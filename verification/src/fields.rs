//! Lists of name/value pairs, looked up by name without regard to ASCII case.
//!
//! Request headers, query parameters and response headers are all such
//! lists.  A lookup returns the value of the first pair whose name matches,
//! so a list behaves as a map in which the first occurrence of a name wins.

use crate::bytes::{eq_ignore_case, lower};
use vstd::prelude::*;

verus! {

/// One name/value pair.
pub type Field = (Seq<u8>, Seq<u8>);

/// The index of the first pair, at or after `from`, whose name is `name` up to ASCII case.
pub open spec fn position(fields: Seq<Field>, name: Seq<u8>, from: int) -> Option<int>
    decreases fields.len() - from,
{
    if from < 0 || from >= fields.len() {
        None
    } else if eq_ignore_case(fields[from].0, name) {
        Some(from)
    } else {
        position(fields, name, from + 1)
    }
}

/// The value of the first pair named `name`, up to ASCII case.
pub open spec fn lookup(fields: Seq<Field>, name: Seq<u8>) -> Option<Seq<u8>> {
    match position(fields, name, 0) {
        Some(i) => Some(fields[i].1),
        None => None,
    }
}

/// What `position` returns is in range and names `name`, and no earlier pair does.
pub proof fn lemma_position(fields: Seq<Field>, name: Seq<u8>, from: int)
    requires
        0 <= from,
    ensures
        match position(fields, name, from) {
            Some(i) => from <= i < fields.len() && eq_ignore_case(fields[i].0, name) && forall|j: int|
                from <= j < i ==> !eq_ignore_case((#[trigger] fields[j]).0, name),
            None => forall|j: int|
                from <= j < fields.len() ==> !eq_ignore_case((#[trigger] fields[j]).0, name),
        },
    decreases fields.len() - from,
{
    if from < fields.len() && !eq_ignore_case(fields[from].0, name) {
        lemma_position(fields, name, from + 1);
    }
}

/// Equality up to ASCII case is an equivalence.
pub proof fn lemma_eq_ignore_case_equiv(a: Seq<u8>, b: Seq<u8>, c: Seq<u8>)
    ensures
        eq_ignore_case(a, a),
        eq_ignore_case(a, b) ==> eq_ignore_case(b, a),
        eq_ignore_case(a, b) && eq_ignore_case(b, c) ==> eq_ignore_case(a, c),
{
    if eq_ignore_case(a, b) && eq_ignore_case(b, c) {
        assert forall|i: int| 0 <= i < a.len() implies lower(a[i]) == lower(c[i]) by {
            assert(lower(a[i]) == lower(b[i]));
        }
    }
}

/// `fields` with the value of `name` set to `value`: the first pair named
/// `name` gets the new value and keeps its place and spelling; if there is
/// none, the pair is added at the end.
pub open spec fn with_field(fields: Seq<Field>, name: Seq<u8>, value: Seq<u8>) -> Seq<Field> {
    match position(fields, name, 0) {
        Some(i) => fields.update(i, (fields[i].0, value)),
        None => fields.push((name, value)),
    }
}

/// `fields` without any pair named `name`.
pub open spec fn without_field(fields: Seq<Field>, name: Seq<u8>) -> Seq<Field>
    decreases fields.len(),
{
    if fields.len() == 0 {
        fields
    } else if eq_ignore_case(fields.last().0, name) {
        without_field(fields.drop_last(), name)
    } else {
        without_field(fields.drop_last(), name).push(fields.last())
    }
}

/// After `name` is set to `value`, looking `name` up gives `value`, and
/// every other name gives what it gave before.
pub proof fn lemma_with_field(fields: Seq<Field>, name: Seq<u8>, value: Seq<u8>, other: Seq<u8>)
    ensures
        lookup(with_field(fields, name, value), name) == Some(value),
        !eq_ignore_case(other, name) ==> lookup(with_field(fields, name, value), other) == lookup(
            fields,
            other,
        ),
{
    let out = with_field(fields, name, value);
    lemma_position(fields, name, 0);
    lemma_position(out, name, 0);
    lemma_position(fields, other, 0);
    lemma_position(out, other, 0);
    lemma_eq_ignore_case_equiv(name, name, name);
    match position(fields, name, 0) {
        Some(i) => {
            assert(out[i] == (fields[i].0, value));
            assert forall|j: int| 0 <= j < out.len() && j != i implies out[j] == fields[j] by {}
            match position(out, name, 0) {
                Some(k) => {
                    if k < i {
                        assert(out[k] == fields[k]);
                    }
                },
                None => {
                    assert(eq_ignore_case(out[i].0, name));
                },
            }
            if !eq_ignore_case(other, name) {
                lemma_eq_ignore_case_equiv(fields[i].0, name, other);
                lemma_eq_ignore_case_equiv(other, name, name);
                assert(!eq_ignore_case(fields[i].0, other)) by {
                    if eq_ignore_case(fields[i].0, other) {
                        lemma_eq_ignore_case_equiv(name, fields[i].0, other);
                        lemma_eq_ignore_case_equiv(fields[i].0, name, name);
                        lemma_eq_ignore_case_equiv(other, name, name);
                    }
                }
                match position(fields, other, 0) {
                    Some(a) => {
                        assert(out[a] == fields[a]);
                        match position(out, other, 0) {
                            Some(b) => {
                                if b < a {
                                    assert(out[b].0 == fields[b].0);
                                }
                            },
                            None => {},
                        }
                    },
                    None => {
                        match position(out, other, 0) {
                            Some(b) => {
                                assert(out[b].0 == fields[b].0);
                            },
                            None => {},
                        }
                    },
                }
            }
        },
        None => {
            let n = fields.len() as int;
            assert(out[n] == (name, value));
            assert forall|j: int| 0 <= j < n implies out[j] == fields[j] by {}
            match position(out, name, 0) {
                Some(k) => {
                    if k < n {
                        assert(out[k] == fields[k]);
                    }
                },
                None => {
                    assert(eq_ignore_case(out[n].0, name));
                },
            }
            if !eq_ignore_case(other, name) {
                assert(!eq_ignore_case(name, other)) by {
                    lemma_eq_ignore_case_equiv(name, other, name);
                }
                match position(fields, other, 0) {
                    Some(a) => {
                        assert(out[a] == fields[a]);
                        match position(out, other, 0) {
                            Some(b) => {
                                if b < a {
                                    assert(out[b] == fields[b]);
                                }
                            },
                            None => {},
                        }
                    },
                    None => {
                        match position(out, other, 0) {
                            Some(b) => {
                                if b < n {
                                    assert(out[b] == fields[b]);
                                }
                            },
                            None => {},
                        }
                    },
                }
            }
        },
    }
}

/// After `name` is removed, looking it up gives nothing.
pub proof fn lemma_without_field(fields: Seq<Field>, name: Seq<u8>)
    ensures
        lookup(without_field(fields, name), name) is None,
        forall|j: int|
            0 <= j < without_field(fields, name).len() ==> !eq_ignore_case(
                (#[trigger] without_field(fields, name)[j]).0,
                name,
            ),
    decreases fields.len(),
{
    let out = without_field(fields, name);
    if fields.len() > 0 {
        lemma_without_field(fields.drop_last(), name);
        let inner = without_field(fields.drop_last(), name);
        if !eq_ignore_case(fields.last().0, name) {
            assert forall|j: int| 0 <= j < out.len() implies !eq_ignore_case((#[trigger] out[j]).0, name) by {
                if j < inner.len() {
                    assert(out[j] == inner[j]);
                }
            }
        }
    }
    lemma_position(out, name, 0);
}


/// Looking a name up in a list with one more pair at its end: what the list
/// gave before, if it gave something, and else the new pair's value if the
/// new pair has the name.
pub proof fn lemma_lookup_push(fields: Seq<Field>, last: Field, name: Seq<u8>, from: int)
    requires
        0 <= from <= fields.len(),
    ensures
        position(fields.push(last), name, from) == match position(fields, name, from) {
            Some(i) => Some(i),
            None => if eq_ignore_case(last.0, name) {
                Some(fields.len() as int)
            } else {
                None
            },
        },
    decreases fields.len() - from,
{
    let all = fields.push(last);
    if from < fields.len() {
        assert(all[from] == fields[from]);
        if !eq_ignore_case(fields[from].0, name) {
            lemma_lookup_push(fields, last, name, from + 1);
        }
    } else {
        assert(all[from] == last);
        assert(position(all, name, from + 1) is None);
    }
}

/// Removing a name leaves every other name as it was.
pub proof fn lemma_without_field_other(fields: Seq<Field>, name: Seq<u8>, other: Seq<u8>)
    requires
        !eq_ignore_case(other, name),
    ensures
        lookup(without_field(fields, name), other) == lookup(fields, other),
    decreases fields.len(),
{
    if fields.len() > 0 {
        let init = fields.drop_last();
        let last = fields.last();
        let kept = without_field(init, name);
        lemma_without_field_other(init, name, other);
        assert(init.push(last) =~= fields);
        lemma_lookup_push(init, last, other, 0);
        lemma_position(init, other, 0);
        lemma_position(kept, other, 0);
        if eq_ignore_case(last.0, name) {
            lemma_eq_ignore_case_equiv(last.0, name, other);
            lemma_eq_ignore_case_equiv(other, last.0, name);
            assert(!eq_ignore_case(last.0, other)) by {
                if eq_ignore_case(last.0, other) {
                    lemma_eq_ignore_case_equiv(other, last.0, name);
                    lemma_eq_ignore_case_equiv(last.0, other, other);
                }
            }
            match position(init, other, 0) {
                Some(i) => {
                    assert(fields[i] == init[i]);
                },
                None => {},
            }
        } else {
            lemma_lookup_push(kept, last, other, 0);
            match position(init, other, 0) {
                Some(i) => {
                    assert(fields[i] == init[i]);
                },
                None => {},
            }
            match position(kept, other, 0) {
                Some(i) => {
                    assert(kept.push(last)[i] == kept[i]);
                },
                None => {},
            }
        }
    }
}

} // verus!
