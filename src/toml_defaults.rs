use vstd::prelude::*;
use vstd::string::*;

use crate::defaults::{
    distinct_names, in_name_order, merge_in_order, merged_all, names_sorted, order_by_name,
    DefaultsSource,
};
use crate::document::{entries_view, DocView, Document};

verus! {

/// Lets `toml::Value` stand in signatures and fields; the library reads it
/// only through the wrappers below.
#[verifier::external_type_specification]
#[verifier::external_body]
pub struct ExTomlValue(toml::Value);

/// Nesting deeper than this is refused. The TOML parser itself stops well
/// before it: it refuses keys and inline values nested 80 levels deep.
pub const MAX_TABLE_DEPTH: usize = 256;

/// Why the defaults could not be assembled.
#[derive(Debug, PartialEq, Eq)]
pub enum DefaultsError {
    /// The named source is not valid TOML.
    InvalidToml { name: String, message: String },
    /// The named source nests tables deeper than `MAX_TABLE_DEPTH`.
    TooDeep { name: String },
    /// The merged document could not be rendered as TOML.
    Render { message: String },
}

/// What `toml::from_str` reads from a text, as a document; `None` when it
/// refuses the text.
pub uninterp spec fn toml_document(text: Seq<char>) -> Option<DocView<toml::Value>>;

/// What a `toml::Value` holds: a table holds its entries in the order its
/// map gives them out, and any other value is a leaf holding itself.
pub uninterp spec fn toml_view(v: toml::Value) -> DocView<toml::Value>;

/// The table that `toml::Map` builds from these entries.
pub uninterp spec fn toml_table_of(entries: Seq<(Seq<char>, DocView<toml::Value>)>) -> DocView<
    toml::Value,
>;

/// The text that `toml::to_string` writes for a value holding `d`; `None`
/// when it refuses.
pub uninterp spec fn toml_text(d: DocView<toml::Value>) -> Option<Seq<char>>;

/// `d` nests tables at most `depth` levels deep.
pub open spec fn toml_within(d: DocView<toml::Value>, depth: nat) -> bool
    decreases d,
{
    match d {
        DocView::Table(es) => depth > 0 && entries_within(es, (depth - 1) as nat),
        DocView::Leaf(_) => true,
    }
}

/// Every value of `es` nests tables at most `depth` levels deep.
pub open spec fn entries_within(es: Seq<(Seq<char>, DocView<toml::Value>)>, depth: nat) -> bool
    decreases es,
{
    if es.len() == 0 {
        true
    } else {
        entries_within(es.subrange(0, es.len() - 1), depth) && toml_within(es[es.len() - 1].1, depth)
    }
}

proof fn lemma_entries_within_extends(es: Seq<(Seq<char>, DocView<toml::Value>)>, depth: nat, i: int)
    requires
        0 <= i <= es.len(),
        !entries_within(es.take(i), depth),
    ensures
        !entries_within(es, depth),
    decreases es.len() - i,
{
    if i < es.len() {
        assert(es.take(i + 1).subrange(0, i) =~= es.take(i));
        lemma_entries_within_extends(es, depth, i + 1);
    } else {
        assert(es.take(i) =~= es);
    }
}

/// What a `toml::Value` built from `d` level by level holds: leaves hold
/// what their value holds, tables are what `toml::Map` makes of their
/// entries.
pub open spec fn toml_rebuilt(d: DocView<toml::Value>) -> DocView<toml::Value>
    decreases d,
{
    match d {
        DocView::Leaf(x) => toml_view(x),
        DocView::Table(es) => toml_table_of(rebuilt_entries(es)),
    }
}

/// The entries of a table, each value rebuilt.
pub open spec fn rebuilt_entries(es: Seq<(Seq<char>, DocView<toml::Value>)>) -> Seq<
    (Seq<char>, DocView<toml::Value>),
>
    decreases es,
{
    Seq::new(
        es.len(),
        |i: int|
            if 0 <= i < es.len() {
                (es[i].0, toml_rebuilt(es[i].1))
            } else {
                (Seq::empty(), DocView::Table(Seq::empty()))
            },
    )
}

/// What the values of `v` hold, with their keys, in order.
pub open spec fn value_entries_view(v: Seq<(String, toml::Value)>) -> Seq<(Seq<char>, DocView<toml::Value>)> {
    v.map_values(|e: (String, toml::Value)| (e.0@, toml_view(e.1)))
}

/// One level of a TOML value: a table with its entries, or anything else.
enum TomlNode {
    Table(Vec<(String, toml::Value)>),
    Other(toml::Value),
}

/// Relies on `toml::from_str` to parse TOML text into a `toml::Value`; the
/// error is kept as its message.
#[verifier::external_body]
fn parse_toml(text: &str) -> (r: Result<toml::Value, String>)
    ensures
        r matches Ok(v) ==> toml_document(text@) == Some(toml_view(v)),
        r is Err <==> toml_document(text@) is None,
{
    toml::from_str::<toml::Value>(text).map_err(|e| e.to_string())
}

/// Relies on `toml::to_string` to render a `toml::Value` as TOML text; the
/// error is kept as its message.
#[verifier::external_body]
fn render_toml(v: &toml::Value) -> (r: Result<String, String>)
    ensures
        r matches Ok(t) ==> toml_text(toml_view(*v)) == Some(t@),
        r is Err <==> toml_text(toml_view(*v)) is None,
{
    toml::to_string(v).map_err(|e| e.to_string())
}

/// Relies on `toml::Value::Table` and on `toml::Map`'s `IntoIterator` to
/// open one level of a value: a table gives up its entries.
#[verifier::external_body]
fn open_toml(v: toml::Value) -> (r: TomlNode)
    ensures
        toml_view(v) is Table ==> r is Table && toml_view(v) == DocView::Table(value_entries_view(r->Table_0@)),
        toml_view(v) is Leaf ==> r is Other && r->Other_0 == v && toml_view(v) == DocView::Leaf(r->Other_0),
{
    match v {
        toml::Value::Table(t) => TomlNode::Table(t.into_iter().collect()),
        other => TomlNode::Other(other),
    }
}

/// Relies on `toml::Value::Table` and on `toml::Map`'s `FromIterator` to
/// build a table from its entries.
#[verifier::external_body]
fn close_toml(entries: Vec<(String, toml::Value)>) -> (r: toml::Value)
    ensures
        toml_view(r) == toml_table_of(value_entries_view(entries@)),
{
    toml::Value::Table(entries.into_iter().collect())
}

/// Turns a TOML value into a document whose tables are those of the value
/// and whose leaves are its other values; `None` when tables nest deeper
/// than `depth`.
fn document_of_toml(v: toml::Value, depth: usize) -> (r: Option<Document<toml::Value>>)
    ensures
        r matches Some(d) ==> d@ == toml_view(v),
        r is None <==> !toml_within(toml_view(v), depth as nat),
    decreases depth,
{
    let ghost dv = toml_view(v);
    match open_toml(v) {
        TomlNode::Other(x) => Some(Document::Leaf(x)),
        TomlNode::Table(mut entries) => {
            let ghost es = value_entries_view(entries@);
            if depth == 0 {
                return None;
            }
            let ghost e0 = entries@;
            let mut out: Vec<(String, Document<toml::Value>)> = Vec::new();
            let n = entries.len();
            let mut i: usize = 0;
            while i < n
                invariant
                    dv == toml_view(v),
                    dv == DocView::Table(es),
                    es == value_entries_view(e0),
                    n == e0.len(),
                    i <= n,
                    entries@ == e0.subrange(i as int, n as int),
                    0 < depth,
                    entries_view(out@) == es.take(i as int),
                    entries_within(es.take(i as int), (depth - 1) as nat),
                decreases n - i,
            {
                assert(entries@[0] == e0[i as int]);
                let (k, x) = entries.remove(0);
                assert(es[i as int] == (k@, toml_view(x)));
                assert(es.take(i + 1).subrange(0, i as int) =~= es.take(i as int));
                match document_of_toml(x, depth - 1) {
                    Some(d) => {
                        let ghost before = entries_view(out@);
                        out.push((k, d));
                        assert(entries_view(out@) =~= before.push(es[i as int]));
                        assert(es.take(i + 1) =~= es.take(i as int).push(es[i as int]));
                    },
                    None => {
                        proof {
                            lemma_entries_within_extends(es, (depth - 1) as nat, i + 1);
                        }
                        return None;
                    },
                }
                i = i + 1;
            }
            assert(es.take(n as int) =~= es);
            Some(Document::Table(out))
        },
    }
}

/// Turns a document back into a TOML value.
fn toml_of_document(d: Document<toml::Value>) -> (r: toml::Value)
    ensures
        toml_view(r) == toml_rebuilt(d@),
    decreases d@,
{
    let ghost dv = d@;
    match d {
        Document::Leaf(x) => x,
        Document::Table(mut entries) => {
            let ghost e0 = entries@;
            let ghost ev = entries_view(e0);
            let mut out: Vec<(String, toml::Value)> = Vec::new();
            let n = entries.len();
            let mut i: usize = 0;
            while i < n
                invariant
                    dv == d@,
                    dv == DocView::Table(ev),
                    ev == entries_view(e0),
                    n == e0.len(),
                    i <= n,
                    entries@ == e0.subrange(i as int, n as int),
                    value_entries_view(out@) =~= Seq::new(
                        i as nat,
                        |k: int| (ev[k].0, toml_rebuilt(ev[k].1)),
                    ),
                decreases n - i,
            {
                assert(entries@[0] == e0[i as int]);
                let (k, x) = entries.remove(0);
                proof {
                    assert(decreases_to!(dv => dv->Table_0));
                    assert(decreases_to!(ev => ev[i as int]));
                    assert(decreases_to!(ev[i as int] => ev[i as int].1));
                    assert(ev[i as int].1 == x@);
                    assert(decreases_to!(dv => x@));
                }
                let ghost before = value_entries_view(out@);
                let ghost kv = k@;
                let y = toml_of_document(x);
                out.push((k, y));
                assert(value_entries_view(out@) =~= before.push((kv, toml_view(y))));
                i = i + 1;
            }
            let r = close_toml(out);
            assert(value_entries_view(out@) =~= rebuilt_entries(ev));
            r
        },
    }
}

/// Whether `name` is that of a TOML source: it ends in `.toml`.
pub open spec fn is_toml_name(name: Seq<char>) -> bool {
    name.len() >= 5 && name.subrange(name.len() - 5, name.len() as int) == seq![
        '.',
        't',
        'o',
        'm',
        'l',
    ]
}

/// Whether `name` is that of a TOML source: it ends in `.toml`.
pub fn is_toml_file_name(name: &str) -> (r: bool)
    ensures
        r == is_toml_name(name@),
{
    let n = name.unicode_len();
    if n < 5 {
        return false;
    }
    let suffix = name.substring_char(n - 5, n);
    proof {
        reveal_strlit(".toml");
    }
    let t = ".toml";
    let mut i: usize = 0;
    while i < 5
        invariant
            n == name@.len(),
            n >= 5,
            suffix@ == name@.subrange(n - 5, n as int),
            t@ == seq!['.', 't', 'o', 'm', 'l'],
            i <= 5,
            forall|k: int| 0 <= k < i ==> suffix@[k] == t@[k],
        decreases 5 - i,
    {
        if suffix.get_char(i) != t.get_char(i) {
            assert(suffix@ != seq!['.', 't', 'o', 'm', 'l']);
            return false;
        }
        i = i + 1;
    }
    assert(suffix@ =~= seq!['.', 't', 'o', 'm', 'l']);
    true
}

/// Why a list of sources yields no documents to merge.
pub enum SourcesFailure {
    /// The named source is not valid TOML.
    InvalidToml(Seq<char>),
    /// The named source nests tables deeper than `MAX_TABLE_DEPTH`.
    TooDeep(Seq<char>),
}

/// The documents of the TOML sources among `t`, in order; or the first of
/// them that does not parse or nests too deeply.
pub open spec fn toml_sources(t: Seq<DefaultsSource<String>>) -> Result<
    Seq<DocView<toml::Value>>,
    SourcesFailure,
>
    decreases t.len(),
{
    if t.len() == 0 {
        Ok(Seq::empty())
    } else {
        match toml_sources(t.drop_last()) {
            Err(e) => Err(e),
            Ok(docs) => {
                let last = t.last();
                if !is_toml_name(last.name@) {
                    Ok(docs)
                } else {
                    match toml_document(last.content@) {
                        None => Err(SourcesFailure::InvalidToml(last.name@)),
                        Some(d) => if toml_within(d, MAX_TABLE_DEPTH as nat) {
                            Ok(docs.push(d))
                        } else {
                            Err(SourcesFailure::TooDeep(last.name@))
                        },
                    }
                }
            },
        }
    }
}

/// `r` is what assembling the defaults from the sources `t`, taken in this
/// order, gives.
pub open spec fn defaults_outcome(t: Seq<DefaultsSource<String>>, r: Result<String, DefaultsError>) -> bool {
    match toml_sources(t) {
        Err(SourcesFailure::InvalidToml(n)) => r matches Err(DefaultsError::InvalidToml { name, message }) && name@ == n,
        Err(SourcesFailure::TooDeep(n)) => r matches Err(DefaultsError::TooDeep { name }) && name@ == n,
        Ok(docs) => match toml_text(toml_rebuilt(merged_all(docs))) {
            Some(text) => r matches Ok(s) && s@ == text,
            None => r is Err && r->Err_0 is Render,
        },
    }
}

/// The files as sources holding their text.
pub open spec fn file_sources(files: Seq<(String, String)>) -> Seq<DefaultsSource<String>> {
    files.map_values(|f: (String, String)| DefaultsSource { name: f.0, content: f.1 })
}

/// Assembles the default settings from the given files, each a name and
/// its text. The files are taken in the order of their names; those whose
/// names end in `.toml` are parsed and merged in that order, so that a
/// later name takes precedence, and the result is rendered as TOML. The
/// first file in that order that does not parse is reported by name.
pub fn generate_defaults(files: Vec<(String, String)>) -> (r: Result<String, DefaultsError>)
    ensures
        exists|t: Seq<DefaultsSource<String>>|
            names_sorted(t) && t.to_multiset() == file_sources(files@).to_multiset()
                && defaults_outcome(t, r),
        distinct_names(file_sources(files@)) ==> defaults_outcome(
            in_name_order(file_sources(files@)),
            r,
        ),
{
    let ghost f0 = files@;
    let mut listed: Vec<DefaultsSource<String>> = Vec::new();
    let mut rest = files;
    let n = rest.len();
    let mut i: usize = 0;
    while i < n
        invariant
            f0 == files@,
            n == f0.len(),
            i <= n,
            rest@ == f0.subrange(i as int, n as int),
            listed@ == file_sources(f0).take(i as int),
        decreases n - i,
    {
        assert(rest@[0] == f0[i as int]);
        let (name, text) = rest.remove(0);
        listed.push(DefaultsSource { name, content: text });
        assert(listed@ =~= file_sources(f0).take(i + 1));
        i = i + 1;
    }
    assert(file_sources(f0).take(n as int) =~= file_sources(f0));
    let ordered = order_by_name(listed);
    proof {
        if distinct_names(file_sources(f0)) {
            crate::defaults::lemma_in_name_order(file_sources(f0), ordered@);
        }
    }
    let ghost t = ordered@;
    let mut sources: Vec<DefaultsSource<Document<toml::Value>>> = Vec::new();
    assert(t.take(0) =~= Seq::<DefaultsSource<String>>::empty());
    assert(crate::defaults::documents_of(sources@) =~= Seq::<DocView<toml::Value>>::empty());
    let mut rest = ordered;
    let m = rest.len();
    let mut j: usize = 0;
    while j < m
        invariant
            f0 == files@,
            names_sorted(t),
            t.to_multiset() == file_sources(f0).to_multiset(),
            distinct_names(file_sources(f0)) ==> in_name_order(file_sources(f0)) == t,
            m == t.len(),
            j <= m,
            rest@ == t.subrange(j as int, m as int),
            toml_sources(t.take(j as int)) == Ok::<_, SourcesFailure>(crate::defaults::documents_of(sources@)),
        decreases m - j,
    {
        assert(rest@[0] == t[j as int]);
        let src = rest.remove(0);
        assert(t.take(j + 1).drop_last() =~= t.take(j as int));
        assert(t.take(j + 1).last() == src);
        if is_toml_file_name(src.name.as_str()) {
            let value = match parse_toml(src.content.as_str()) {
                Ok(v) => v,
                Err(message) => {
                    proof {
                        lemma_failure_extends(t, j + 1);
                        assert(defaults_outcome(t, Err(DefaultsError::InvalidToml { name: src.name, message })));
                    }
                    return Err(DefaultsError::InvalidToml { name: src.name, message });
                },
            };
            let document = match document_of_toml(value, MAX_TABLE_DEPTH) {
                Some(d) => d,
                None => {
                    proof {
                        lemma_failure_extends(t, j + 1);
                        assert(defaults_outcome(t, Err(DefaultsError::TooDeep { name: src.name })));
                    }
                    return Err(DefaultsError::TooDeep { name: src.name });
                },
            };
            let ghost before = crate::defaults::documents_of(sources@);
            let ghost dv = document@;
            sources.push(DefaultsSource { name: src.name, content: document });
            assert(crate::defaults::documents_of(sources@) =~= before.push(dv));
        }
        j = j + 1;
    }
    assert(t.take(m as int) =~= t);
    let merged = merge_in_order(sources);
    let r = match render_toml(&toml_of_document(merged)) {
        Ok(text) => Ok(text),
        Err(message) => Err(DefaultsError::Render { message }),
    };
    assert(defaults_outcome(t, r));
    r
}

/// Once a prefix of the sources fails, the whole list fails the same way.
proof fn lemma_failure_extends(t: Seq<DefaultsSource<String>>, i: int)
    requires
        0 <= i <= t.len(),
        toml_sources(t.take(i)) is Err,
    ensures
        toml_sources(t) == toml_sources(t.take(i)),
    decreases t.len() - i,
{
    if i < t.len() {
        assert(t.take(i + 1).drop_last() =~= t.take(i));
        lemma_failure_extends(t, i + 1);
    } else {
        assert(t.take(i) =~= t);
    }
}

} // verus!
