use vstd::prelude::*;
use vstd::string::*;

use crate::bootstrap::{strings_of, strings_view};
use crate::bootstrap::SchemaError;
use crate::json::{items_view, members_view, same_chars, DecodeError, Json, JsonView};

verus! {

pub open spec fn is_alphanumeric(c: char) -> bool {
    ('a' <= c && c <= 'z') || ('A' <= c && c <= 'Z') || ('0' <= c && c <= '9')
}

/// A name segment of a label: 1 to 63 ASCII letters, digits, `-`, `_` and
/// `.`, beginning and ending with a letter or digit.
pub open spec fn is_name_segment(s: Seq<char>) -> bool {
    &&& 1 <= s.len() <= 63
    &&& forall|i: int|
        0 <= i < s.len() ==> is_alphanumeric(#[trigger] s[i]) || s[i] == '-' || s[i] == '_'
            || s[i] == '.'
    &&& is_alphanumeric(s[0])
    &&& is_alphanumeric(s[s.len() - 1])
}

/// The prefix of a label key: 1 to 253 lower-case letters, digits, `-` and
/// `.`.
pub open spec fn is_key_prefix(s: Seq<char>) -> bool {
    &&& 1 <= s.len() <= 253
    &&& forall|i: int|
        0 <= i < s.len() ==> ('a' <= #[trigger] s[i] && s[i] <= 'z') || ('0' <= s[i] && s[i]
            <= '9') || s[i] == '-' || s[i] == '.'
}

/// A label key: a name segment, optionally after a prefix and a `/`.
pub open spec fn is_label_key(k: Seq<char>) -> bool {
    if exists|i: int| 0 <= i < k.len() && k[i] == '/' {
        let i = choose|i: int| 0 <= i < k.len() && k[i] == '/' && forall|j: int| 0 <= j < i ==> k[j] != '/';
        is_key_prefix(k.subrange(0, i)) && is_name_segment(k.subrange(i + 1, k.len() as int))
    } else {
        is_name_segment(k)
    }
}

/// The effect of a taint.
pub open spec fn is_taint_effect(s: Seq<char>) -> bool {
    s == "NoSchedule"@ || s == "PreferNoSchedule"@ || s == "NoExecute"@
}

/// A taint: an optional value (empty, or a name segment), a `:`, and an
/// effect.
pub open spec fn is_taint_value(s: Seq<char>) -> bool {
    exists|i: int|
        0 <= i < s.len() && s[i] == ':' && (forall|j: int| 0 <= j < i ==> s[j] != ':') && (i == 0
            || is_name_segment(s.subrange(0, i))) && is_taint_effect(s.subrange(i + 1, s.len() as int))
}

/// Every string of `a` is a taint.
pub open spec fn all_taints(a: Seq<Seq<char>>) -> bool {
    forall|i: int| 0 <= i < a.len() ==> is_taint_value(#[trigger] a[i])
}

/// The taints a member's value stands for: a single taint is a list of one,
/// and a list must hold one taint at least, each a string in taint form.
pub open spec fn taint_values(v: JsonView) -> Option<Seq<Seq<char>>> {
    match v {
        JsonView::Str(s) => if is_taint_value(s) {
            Some(seq![s])
        } else {
            None
        },
        JsonView::Array(items) => match strings_of(items) {
            Some(a) => if a.len() > 0 && all_taints(a) {
                Some(a)
            } else {
                None
            },
            None => None,
        },
        _ => None,
    }
}

/// The strings that `strings_of` reads are the array's items, in order.
proof fn lemma_strings_of_items(items: Seq<JsonView>)
    ensures
        strings_of(items) matches Some(a) ==> a.len() == items.len() && forall|k: int|
            0 <= k < a.len() ==> items[k] == JsonView::Str(#[trigger] a[k]),
    decreases items.len(),
{
    if items.len() > 0 {
        lemma_strings_of_items(items.drop_last());
        if let Some(a) = strings_of(items) {
            let a0 = strings_of(items.drop_last())->Some_0;
            assert forall|k: int| 0 <= k < a.len() implies items[k] == JsonView::Str(#[trigger] a[k]) by {
                if k < a0.len() {
                    assert(a[k] == a0[k]);
                    assert(items[k] == items.drop_last()[k]);
                }
            }
        }
    }
}

/// Whether `s` is a name segment.
fn name_segment_exec(s: &str) -> (r: bool)
    ensures
        r == is_name_segment(s@),
{
    let n = s.unicode_len();
    if n < 1 || n > 63 {
        return false;
    }
    let mut i: usize = 0;
    while i < n
        invariant
            n == s@.len(),
            i <= n,
            forall|k: int|
                0 <= k < i ==> is_alphanumeric(#[trigger] s@[k]) || s@[k] == '-' || s@[k] == '_'
                    || s@[k] == '.',
        decreases n - i,
    {
        let c = s.get_char(i);
        if !(('a' <= c && c <= 'z') || ('A' <= c && c <= 'Z') || ('0' <= c && c <= '9') || c == '-'
            || c == '_' || c == '.') {
            return false;
        }
        i = i + 1;
    }
    let f = s.get_char(0);
    let l = s.get_char(n - 1);
    (('a' <= f && f <= 'z') || ('A' <= f && f <= 'Z') || ('0' <= f && f <= '9')) && (('a' <= l
        && l <= 'z') || ('A' <= l && l <= 'Z') || ('0' <= l && l <= '9'))
}

/// The first position of `c` in `s`, if any.
fn find_char(s: &str, c: char) -> (r: Option<usize>)
    ensures
        r matches Some(i) ==> i < s@.len() && s@[i as int] == c && forall|j: int|
            0 <= j < i ==> s@[j] != c,
        r is None ==> forall|j: int| 0 <= j < s@.len() ==> s@[j] != c,
{
    let n = s.unicode_len();
    let mut i: usize = 0;
    while i < n
        invariant
            n == s@.len(),
            i <= n,
            forall|j: int| 0 <= j < i ==> s@[j] != c,
        decreases n - i,
    {
        if s.get_char(i) == c {
            return Some(i);
        }
        i = i + 1;
    }
    None
}

/// Whether `k` is a label key.
pub fn is_label_key_exec(k: &str) -> (r: bool)
    ensures
        r == is_label_key(k@),
{
    let n = k.unicode_len();
    match find_char(k, '/') {
        Some(i) => {
            proof {
                let c = choose|c: int| 0 <= c < k@.len() && k@[c] == '/' && forall|j: int|
                    0 <= j < c ==> k@[j] != '/';
                if c < i {
                } else if c > i {
                    assert(k@[i as int] == '/');
                }
                assert(is_label_key(k@) == (is_key_prefix(k@.subrange(0, i as int))
                    && is_name_segment(k@.subrange(i + 1, k@.len() as int))));
            }
            let prefix = k.substring_char(0, i);
            let name = k.substring_char(i + 1, n);
            let pn = prefix.unicode_len();
            assert(is_label_key(k@) == (is_key_prefix(prefix@) && is_name_segment(name@)));
            if pn < 1 || pn > 253 {
                assert(!is_key_prefix(prefix@));
                return false;
            }
            let mut j: usize = 0;
            while j < pn
                invariant
                    is_label_key(k@) == (is_key_prefix(prefix@) && is_name_segment(name@)),
                    pn == prefix@.len(),
                    1 <= pn <= 253,
                    j <= pn,
                    forall|q: int|
                        0 <= q < j ==> ('a' <= #[trigger] prefix@[q] && prefix@[q] <= 'z') || ('0'
                            <= prefix@[q] && prefix@[q] <= '9') || prefix@[q] == '-' || prefix@[q]
                            == '.',
                decreases pn - j,
            {
                let c = prefix.get_char(j);
                if !(('a' <= c && c <= 'z') || ('0' <= c && c <= '9') || c == '-' || c == '.') {
                    assert(!is_key_prefix(prefix@));
                    return false;
                }
                j = j + 1;
            }
            name_segment_exec(name)
        },
        None => name_segment_exec(k),
    }
}

/// Whether `s` is a taint: an optional value, a `:`, and an effect.
pub fn is_taint_value_exec(s: &str) -> (r: bool)
    ensures
        r == is_taint_value(s@),
{
    let n = s.unicode_len();
    match find_char(s, ':') {
        Some(i) => {
            let value = s.substring_char(0, i);
            let effect = s.substring_char(i + 1, n);
            let value_ok = i == 0 || name_segment_exec(value);
            let effect_ok = same_chars(effect, "NoSchedule") || same_chars(effect, "PreferNoSchedule")
                || same_chars(effect, "NoExecute");
            proof {
                if !(value_ok && effect_ok) {
                    assert forall|c: int|
                        !(0 <= c < s@.len() && s@[c] == ':' && (forall|j: int|
                            0 <= j < c ==> s@[j] != ':') && (c == 0 || is_name_segment(
                            s@.subrange(0, c),
                        )) && is_taint_effect(s@.subrange(c + 1, s@.len() as int))) by {
                        if 0 <= c < s@.len() && s@[c] == ':' && (forall|j: int|
                            0 <= j < c ==> s@[j] != ':') {
                            if c < i {
                            } else if c > i {
                                assert(s@[i as int] == ':');
                            }
                        }
                    }
                }
            }
            value_ok && effect_ok
        },
        None => false,
    }
}

/// The node taints that the members `m` describe, label by label, in order.
pub open spec fn node_taint_members(m: Seq<(Seq<char>, JsonView)>) -> Option<
    Seq<(Seq<char>, Seq<Seq<char>>)>,
>
    decreases m.len(),
{
    if m.len() == 0 {
        Some(Seq::empty())
    } else {
        match (node_taint_members(m.drop_last()), taint_values(m.last().1)) {
            (Some(acc), Some(t)) => if is_label_key(m.last().0) && !has_label(acc, m.last().0) {
                Some(acc.push((m.last().0, t)))
            } else {
                None
            },
            _ => None,
        }
    }
}

/// Some entry of `acc` is for the label `key`.
pub open spec fn has_label(acc: Seq<(Seq<char>, Seq<Seq<char>>)>, key: Seq<char>) -> bool {
    exists|i: int| 0 <= i < acc.len() && acc[i].0 == key
}

/// Whether some entry of `out` is for the label `k`.
fn has_label_exec(out: &Vec<(String, Vec<String>)>, k: &String) -> (r: bool)
    ensures
        r == has_label(taints_view(out@), k@),
{
    let ghost v = taints_view(out@);
    let mut q: usize = 0;
    while q < out.len()
        invariant
            v == taints_view(out@),
            q <= out@.len(),
            forall|p: int| 0 <= p < q ==> v[p].0 != k@,
        decreases out@.len() - q,
    {
        if same_chars(out[q].0.as_str(), k.as_str()) {
            assert(v[q as int].0 == k@);
            return true;
        }
        q = q + 1;
    }
    false
}

/// The node taints a JSON document describes: an object mapping each label
/// to one taint or to a list of them.
pub open spec fn node_taints_of(j: JsonView) -> Option<Seq<(Seq<char>, Seq<Seq<char>>)>> {
    match j {
        JsonView::Object(m) => node_taint_members(m),
        _ => None,
    }
}

/// The model of decoded node taints.
pub open spec fn taints_view(v: Seq<(String, Vec<String>)>) -> Seq<(Seq<char>, Seq<Seq<char>>)> {
    v.map_values(|e: (String, Vec<String>)| (e.0@, strings_view(e.1@)))
}

proof fn lemma_taints_refusal_extends(m: Seq<(Seq<char>, JsonView)>, i: int)
    requires
        0 <= i <= m.len(),
        node_taint_members(m.take(i)) is None,
    ensures
        node_taint_members(m) is None,
    decreases m.len() - i,
{
    if i < m.len() {
        assert(m.take(i + 1).drop_last() =~= m.take(i));
        lemma_taints_refusal_extends(m, i + 1);
    } else {
        assert(m.take(i) =~= m);
    }
}

/// Reads the taints of one label.
fn taint_values_from_json(name: &String, v: &Json) -> (r: Result<Vec<String>, DecodeError>)
    ensures
        r matches Ok(t) ==> taint_values(v@) == Some(strings_view(t@)),
        r is Err <==> taint_values(v@) is None,
{
    match v {
        Json::Str(s) => {
            if !is_taint_value_exec(s.as_str()) {
                return Err(DecodeError::Invalid(SchemaError::InvalidTaint { input: s.clone() }));
            }
            let t = vec![s.clone()];
            assert(strings_view(t@) =~= seq![s@]);
            Ok(t)
        },
        Json::Array(items) => {
            let ghost iv = items_view(items@);
            let mut out: Vec<String> = Vec::new();
            let mut i: usize = 0;
            while i < items.len()
                invariant
                    iv == items_view(items@),
                    v@ == JsonView::Array(iv),
                    i <= items@.len(),
                    strings_of(iv.take(i as int)) == Some(strings_view(out@)),
                    all_taints(strings_view(out@)),
                decreases items@.len() - i,
            {
                assert(iv.take(i + 1).drop_last() =~= iv.take(i as int));
                assert(iv[i as int] == items@[i as int]@);
                match &items[i] {
                    Json::Str(s) => {
                        if !is_taint_value_exec(s.as_str()) {
                            proof {
                                lemma_strings_of_items(iv);
                                assert(iv[i as int] == JsonView::Str(s@));
                                if let Some(a) = strings_of(iv) {
                                    assert(a[i as int] == s@);
                                    assert(!all_taints(a));
                                }
                            }
                            return Err(DecodeError::Invalid(SchemaError::InvalidTaint { input: s.clone() }));
                        }
                        let ghost before = strings_view(out@);
                        out.push(s.clone());
                        assert(strings_view(out@) =~= before.push(s@));
                    },
                    _ => {
                        proof {
                            crate::bootstrap::lemma_strings_refusal_extends(iv, i + 1);
                        }
                        return Err(DecodeError::UnexpectedShape);
                    },
                }
                i = i + 1;
            }
            assert(iv.take(iv.len() as int) =~= iv);
            if out.len() == 0 {
                return Err(DecodeError::EmptyList { name: name.clone() });
            }
            Ok(out)
        },
        _ => Err(DecodeError::UnexpectedShape),
    }
}

/// Reads node taints from an object that maps each label key either to one
/// taint or to a non-empty list of taints; a single taint becomes a list of
/// one. Keys must be label keys and taints must have the `value:Effect`
/// form.
#[verifier::rlimit(60)]
pub fn deserialize_node_taints(j: &Json) -> (r: Result<Vec<(String, Vec<String>)>, DecodeError>)
    ensures
        r matches Ok(t) ==> node_taints_of(j@) == Some(taints_view(t@)),
        r is Err <==> node_taints_of(j@) is None,
{
    let members = match j {
        Json::Object(members) => members,
        _ => {
            return Err(DecodeError::UnexpectedShape);
        },
    };
    let ghost m = members_view(members@);
    let mut out: Vec<(String, Vec<String>)> = Vec::new();
    let mut i: usize = 0;
    while i < members.len()
        invariant
            m == members_view(members@),
            j@ == JsonView::Object(m),
            i <= members@.len(),
            node_taint_members(m.take(i as int)) == Some(taints_view(out@)),
        decreases members@.len() - i,
    {
        let (k, x) = &members[i];
        assert(m.take(i + 1).drop_last() =~= m.take(i as int));
        assert(m[i as int] == (k@, x@));
        if !is_label_key_exec(k.as_str()) {
            proof {
                lemma_taints_refusal_extends(m, i + 1);
            }
            return Err(DecodeError::Invalid(SchemaError::InvalidLabelKey { input: k.clone() }));
        }
        if has_label_exec(&out, k) {
            proof {
                lemma_taints_refusal_extends(m, i + 1);
            }
            return Err(DecodeError::Invalid(SchemaError::DuplicateName { input: k.clone() }));
        }
        match taint_values_from_json(k, x) {
            Ok(t) => {
                let ghost before = taints_view(out@);
                let ghost entry = (k@, strings_view(t@));
                out.push((k.clone(), t));
                assert(taints_view(out@) =~= before.push(entry));
            },
            Err(e) => {
                proof {
                    lemma_taints_refusal_extends(m, i + 1);
                }
                return Err(e);
            },
        }
        i = i + 1;
    }
    assert(m.take(m.len() as int) =~= m);
    Ok(out)
}

/// `i` is the first position of a member named `key` in `m`.
pub open spec fn is_first_member(m: Seq<(Seq<char>, JsonView)>, key: Seq<char>, i: int) -> bool {
    &&& 0 <= i < m.len()
    &&& m[i].0 == key
    &&& forall|j: int| 0 <= j < i ==> m[j].0 != key
}

/// The value of the first member named `key`, if any.
pub open spec fn member_value(m: Seq<(Seq<char>, JsonView)>, key: Seq<char>) -> Option<JsonView> {
    if exists|i: int| is_first_member(m, key, i) {
        Some(m[choose|i: int| is_first_member(m, key, i)].1)
    } else {
        None
    }
}

/// The name of the member that holds the node taints.
pub open spec fn node_taints_key() -> Seq<char> {
    "node-taints"@
}

/// Reads the node taints of a settings object: `None` when it has no
/// `node-taints` member, else the taints that member describes.
pub fn node_taints_member(settings: &Json) -> (r: Result<Option<Vec<(String, Vec<String>)>>, DecodeError>)
    ensures
        match settings@ {
            JsonView::Object(m) => match member_value(m, node_taints_key()) {
                None => r matches Ok(None),
                Some(v) => match node_taints_of(v) {
                    Some(t) => r matches Ok(Some(x)) && taints_view(x@) == t,
                    None => r is Err,
                },
            },
            _ => r is Err,
        },
{
    let members = match settings {
        Json::Object(members) => members,
        _ => {
            return Err(DecodeError::UnexpectedShape);
        },
    };
    let ghost m = members_view(members@);
    let mut i: usize = 0;
    while i < members.len()
        invariant
            m == members_view(members@),
            settings@ == JsonView::Object(m),
            i <= members@.len(),
            forall|j: int| 0 <= j < i ==> m[j].0 != node_taints_key(),
        decreases members@.len() - i,
    {
        let (k, x) = &members[i];
        assert(m[i as int] == (k@, x@));
        if same_chars(k.as_str(), "node-taints") {
            proof {
                assert(is_first_member(m, node_taints_key(), i as int));
                let c = choose|c: int| is_first_member(m, node_taints_key(), c);
                if c < i {
                } else if c > i {
                    assert(m[i as int].0 == node_taints_key());
                }
            }
            return match deserialize_node_taints(x) {
                Ok(t) => Ok(Some(t)),
                Err(e) => Err(e),
            };
        }
        i = i + 1;
    }
    Ok(None)
}

} // verus!
