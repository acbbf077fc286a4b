//! A JSON value as the library reads it, and the compact text of one.

use vstd::prelude::*;
use crate::cli::{all_digits, decimal_value};
use crate::text::{nat_text, push_str, push_u64};
use crate::viewer::{json_body, json_quote};

verus! {

/// A JSON value: a number by the text that writes it, an object by its
/// members in their order.
pub enum Json {
    Null,
    Bool(bool),
    Number(String),
    Str(String),
    Array(Vec<Json>),
    Object(Vec<(String, Json)>),
}

/// A string as a JSON literal.
pub open spec fn quoted(s: Seq<char>) -> Seq<char> {
    seq!['"'] + json_body(s) + seq!['"']
}

/// The compact JSON text of a value: no white space, items and members
/// separated by commas, a member as its quoted key, a colon and its value.
pub open spec fn json_text(j: Json) -> Seq<char>
    decreases j, 0nat,
{
    match j {
        Json::Null => "null"@,
        Json::Bool(b) => if b {
            "true"@
        } else {
            "false"@
        },
        Json::Number(n) => n@,
        Json::Str(s) => quoted(s@),
        Json::Array(items) => seq!['['] + items_text(items@, items@.len()) + seq![']'],
        Json::Object(members) => seq!['{'] + members_text(members@, members@.len()) + seq!['}'],
    }
}

/// The first `n` items, separated by commas.
pub open spec fn items_text(items: Seq<Json>, n: nat) -> Seq<char>
    decreases items, n,
{
    if n == 0 || n > items.len() {
        Seq::empty()
    } else if n == 1 {
        json_text(items[0])
    } else {
        items_text(items, (n - 1) as nat) + seq![','] + json_text(items[n - 1])
    }
}

/// The first `n` members, separated by commas.
pub open spec fn members_text(members: Seq<(String, Json)>, n: nat) -> Seq<char>
    decreases members, n,
{
    if n == 0 || n > members.len() {
        Seq::empty()
    } else {
        let m = members[n - 1];
        let here = quoted(m.0@) + seq![':'] + json_text(m.1);
        if n == 1 {
            here
        } else {
            members_text(members, (n - 1) as nat) + seq![','] + here
        }
    }
}

/// Appends the compact text of `j`.
pub fn push_json(out: &mut Vec<char>, j: &Json)
    ensures
        final(out)@ == old(out)@ + json_text(*j),
    decreases j,
{
    let ghost x = *j;
    match j {
        Json::Null => {
            push_str(out, "null");
        },
        Json::Bool(b) => {
            if *b {
                push_str(out, "true");
            } else {
                push_str(out, "false");
            }
        },
        Json::Number(n) => {
            push_str(out, n.as_str());
        },
        Json::Str(s) => {
            let q = json_quote(s.as_str());
            push_str(out, q.as_str());
        },
        Json::Array(items) => {
            let ghost start = old(out)@;
            out.push('[');
            let mut i: usize = 0;
            while i < items.len()
                invariant
                    x == *j,
                    x == Json::Array(*items),
                    i <= items@.len(),
                    out@ == start + seq!['['] + items_text(items@, i as nat),
                decreases items.len() - i,
            {
                if i > 0 {
                    out.push(',');
                }
                proof {
                    assert(decreases_to!(x => x->Array_0));
                    assert(decreases_to!(x->Array_0 => items@));
                    assert(decreases_to!(items@ => items@[i as int]));
                }
                push_json(out, &items[i]);
                i = i + 1;
            }
            out.push(']');
            assert(out@ =~= start + json_text(*j));
        },
        Json::Object(members) => {
            let ghost start = old(out)@;
            out.push('{');
            let mut i: usize = 0;
            while i < members.len()
                invariant
                    x == *j,
                    x == Json::Object(*members),
                    i <= members@.len(),
                    out@ == start + seq!['{'] + members_text(members@, i as nat),
                decreases members.len() - i,
            {
                if i > 0 {
                    out.push(',');
                }
                let q = json_quote(members[i].0.as_str());
                push_str(out, q.as_str());
                out.push(':');
                proof {
                    assert(decreases_to!(x => x->Object_0));
                    assert(decreases_to!(x->Object_0 => members@));
                    assert(decreases_to!(members@ => members@[i as int]));
                    assert(decreases_to!(members@[i as int] => members@[i as int].1));
                }
                push_json(out, &members[i].1);
                i = i + 1;
            }
            out.push('}');
            assert(out@ =~= start + json_text(*j));
        },
    }
}

/// The compact text of `j`.
pub fn to_text(j: &Json) -> (r: String)
    ensures
        r@ == json_text(*j),
{
    let mut out: Vec<char> = Vec::new();
    push_json(&mut out, j);
    crate::text::string_of(&out)
}

/// Two values are the same value: their compact texts agree.
pub fn same(a: &Json, b: &Json) -> (r: bool)
    ensures
        r == (json_text(*a) == json_text(*b)),
{
    let mut x: Vec<char> = Vec::new();
    push_json(&mut x, a);
    let mut y: Vec<char> = Vec::new();
    push_json(&mut y, b);
    crate::text::chars_eq(&x, &y)
}

/// The value of the first member named `key` from position `i` on.
pub open spec fn member_from(ms: Seq<(String, Json)>, key: Seq<char>, i: int) -> Option<Json>
    decreases ms.len() - i,
{
    if i < 0 || i >= ms.len() {
        None
    } else if ms[i].0@ == key {
        Some(ms[i].1)
    } else {
        member_from(ms, key, i + 1)
    }
}

/// `value[key]` as `serde_json` reads it: the value of the member `key` of
/// an object; `null` when there is no such member or the value is not an
/// object.
pub open spec fn field_of(j: Json, key: Seq<char>) -> Json {
    match j {
        Json::Object(ms) => match member_from(ms@, key, 0) {
            Some(v) => v,
            None => Json::Null,
        },
        _ => Json::Null,
    }
}

/// The items of an array; none for any other value.
pub open spec fn items_of(j: Json) -> Seq<Json> {
    match j {
        Json::Array(v) => v@,
        _ => Seq::empty(),
    }
}

/// The text of a string value; `?` for any other value.
pub open spec fn str_or_unknown(j: Json) -> Seq<char> {
    match j {
        Json::Str(s) => s@,
        _ => "?"@,
    }
}

/// `Value::as_u64`: a number written with decimal digits only (as
/// `serde_json` writes a non-negative integer) whose value fits a `u64`.
pub open spec fn as_u64(j: Json) -> Option<nat> {
    match j {
        Json::Number(n) => if n@.len() > 0 && all_digits(n@) && decimal_value(n@) <= u64::MAX {
            Some(decimal_value(n@))
        } else {
            None
        },
        _ => None,
    }
}

/// The value of the member `key` of `j`, if `j` is an object that has one.
pub fn field<'a>(j: &'a Json, key: &str) -> (r: Option<&'a Json>)
    ensures
        r matches Some(v) ==> field_of(*j, key@) == *v,
        r is None ==> field_of(*j, key@) == Json::Null,
{
    match j {
        Json::Object(ms) => {
            let kv = crate::text::chars_of(key);
            let mut i: usize = 0;
            while i < ms.len()
                invariant
                    *j == Json::Object(*ms),
                    i <= ms@.len(),
                    kv@ == key@,
                    member_from(ms@, key@, 0) == member_from(ms@, key@, i as int),
                decreases ms.len() - i,
            {
                let name = crate::text::chars_of(ms[i].0.as_str());
                if crate::text::chars_eq(&name, &kv) {
                    assert(ms@[i as int].0@ == key@);
                    return Some(&ms[i].1);
                }
                i = i + 1;
            }
            None
        },
        _ => None,
    }
}

/// Appends the compact text of `value[key]`.
pub fn push_field(out: &mut Vec<char>, j: &Json, key: &str)
    ensures
        final(out)@ == old(out)@ + json_text(field_of(*j, key@)),
{
    match field(j, key) {
        Some(v) => push_json(out, v),
        None => push_str(out, "null"),
    }
}

/// Whether some item of `list` is the same value as `d`.
pub open spec fn in_list(list: Seq<Json>, d: Json) -> bool {
    exists|k: int| 0 <= k < list.len() && json_text(#[trigger] list[k]) == json_text(d)
}

/// Whether some item of `list` is the same value as `d` (`Vec::contains`).
pub fn contains_same(list: &Vec<Json>, d: &Json) -> (r: bool)
    ensures
        r == in_list(list@, *d),
{
    let mut i: usize = 0;
    while i < list.len()
        invariant
            i <= list@.len(),
            forall|k: int| 0 <= k < i ==> json_text(#[trigger] list@[k]) != json_text(*d),
        decreases list.len() - i,
    {
        if same(&list[i], d) {
            return true;
        }
        i = i + 1;
    }
    false
}

/// Appends the text of the string `value[key]`, or `?`.
pub fn push_str_field(out: &mut Vec<char>, j: &Json, key: &str)
    ensures
        final(out)@ == old(out)@ + str_or_unknown(field_of(*j, key@)),
{
    match field(j, key) {
        Some(Json::Str(s)) => push_str(out, s.as_str()),
        _ => push_str(out, "?"),
    }
}

/// The largest value a `u64` holds, plus one.
spec fn u64_cap() -> nat {
    0x1_0000_0000_0000_0000
}

/// `Value::as_u64`.
pub fn number_u64(j: &Json) -> (r: Option<u64>)
    ensures
        r matches Some(v) ==> as_u64(*j) == Some(v as nat),
        r is None ==> as_u64(*j) is None,
{
    let n = match j {
        Json::Number(n) => n,
        _ => { return None; },
    };
    let s = crate::text::chars_of(n.as_str());
    if s.len() == 0 {
        return None;
    }
    let mut acc: u128 = 0;
    let mut i: usize = 0;
    while i < s.len()
        invariant
            *j == Json::Number(*n),
            i <= s@.len(),
            s@ == n@,
            all_digits(s@.take(i as int)),
            acc as nat == (if decimal_value(s@.take(i as int)) < u64_cap() {
                decimal_value(s@.take(i as int))
            } else {
                u64_cap()
            }),
        decreases s.len() - i,
    {
        let c = s[i];
        if c < '0' || c > '9' {
            assert(!crate::text::is_digit(n@[i as int]));
            return None;
        }
        let d: u128 = ((c as u32) - ('0' as u32)) as u128;
        assert(s@.take(i + 1).drop_last() =~= s@.take(i as int));
        assert(s@.take(i + 1).last() == c);
        let next = acc * 10 + d;
        acc = if next < 0x1_0000_0000_0000_0000u128 { next } else { 0x1_0000_0000_0000_0000u128 };
        i = i + 1;
    }
    assert(s@.take(s@.len() as int) =~= s@);
    if acc <= 0xffff_ffff_ffff_ffffu128 {
        Some(acc as u64)
    } else {
        None
    }
}

} // verus!
