use vstd::prelude::*;
use vstd::multiset::Multiset;
use vstd::string::*;

use crate::document::{merged, DocView, Document};

verus! {

broadcast use vstd::seq_lib::group_to_multiset_ensures, vstd::multiset::group_multiset_axioms;

/// One contributor of default values: the name it is known by (a file
/// name) and what it holds (its text, or the document parsed from it).
pub struct DefaultsSource<T> {
    pub name: String,
    pub content: T,
}

/// `a` comes no later than `b` when names are compared character by
/// character from position `i` on, by code point.
pub open spec fn name_le_from(a: Seq<char>, b: Seq<char>, i: int) -> bool
    decreases a.len() - i,
{
    if i < 0 || i >= a.len() {
        true
    } else if i >= b.len() {
        false
    } else if a[i] != b[i] {
        (a[i] as int) < (b[i] as int)
    } else {
        name_le_from(a, b, i + 1)
    }
}

/// The lexicographic order on names.
pub open spec fn name_le(a: Seq<char>, b: Seq<char>) -> bool {
    name_le_from(a, b, 0)
}

pub open spec fn names_sorted<L>(s: Seq<DefaultsSource<L>>) -> bool {
    forall|i: int, j: int| 0 <= i < j < s.len() ==> name_le(s[i].name@, s[j].name@)
}

/// No two sources share a name.
pub open spec fn distinct_names<L>(s: Seq<DefaultsSource<L>>) -> bool {
    forall|i: int, j: int| 0 <= i < s.len() && 0 <= j < s.len() && i != j ==> s[i].name@ != s[j].name@
}

/// The sources of `s` ordered by name.
pub open spec fn in_name_order<L>(s: Seq<DefaultsSource<L>>) -> Seq<DefaultsSource<L>> {
    choose|t: Seq<DefaultsSource<L>>| names_sorted(t) && t.to_multiset() == s.to_multiset()
}

/// The documents of `s`, in order.
pub open spec fn documents_of<L>(s: Seq<DefaultsSource<Document<L>>>) -> Seq<DocView<L>> {
    s.map_values(|x: DefaultsSource<Document<L>>| x.content@)
}

/// `docs` laid one over the other from first to last, starting from an
/// empty table: later documents take precedence.
pub open spec fn merged_all<L>(docs: Seq<DocView<L>>) -> DocView<L>
    decreases docs.len(),
{
    if docs.len() == 0 {
        DocView::Table(Seq::empty())
    } else {
        merged(merged_all(docs.drop_last()), docs.last())
    }
}

proof fn lemma_name_le_total(a: Seq<char>, b: Seq<char>, i: int)
    requires
        0 <= i,
    ensures
        name_le_from(a, b, i) || name_le_from(b, a, i),
    decreases a.len() - i,
{
    if i < a.len() && i < b.len() {
        if a[i] == b[i] {
            lemma_name_le_total(a, b, i + 1);
        }
    }
}

proof fn lemma_name_le_antisymmetric(a: Seq<char>, b: Seq<char>, i: int)
    requires
        0 <= i <= a.len(),
        i <= b.len(),
        name_le_from(a, b, i),
        name_le_from(b, a, i),
    ensures
        a.len() == b.len(),
        forall|k: int| i <= k < a.len() ==> a[k] == b[k],
    decreases a.len() - i,
{
    if i < a.len() {
        lemma_name_le_antisymmetric(a, b, i + 1);
    }
}

proof fn lemma_name_le_transitive(a: Seq<char>, b: Seq<char>, c: Seq<char>, i: int)
    requires
        0 <= i,
        name_le_from(a, b, i),
        name_le_from(b, c, i),
    ensures
        name_le_from(a, c, i),
    decreases a.len() - i,
{
    if i < a.len() && i < b.len() && i < c.len() && a[i] == b[i] && b[i] == c[i] {
        lemma_name_le_transitive(a, b, c, i + 1);
    }
}

/// Compares two names in the lexicographic order.
fn name_le_exec(a: &String, b: &String) -> (r: bool)
    ensures
        r == name_le(a@, b@),
{
    let sa = a.as_str();
    let sb = b.as_str();
    let la = sa.unicode_len();
    let lb = sb.unicode_len();
    let mut i: usize = 0;
    while i < la
        invariant
            sa@ == a@,
            sb@ == b@,
            la == a@.len(),
            lb == b@.len(),
            i <= la,
            name_le(a@, b@) == name_le_from(a@, b@, i as int),
        decreases la - i,
    {
        if i >= lb {
            return false;
        }
        let ca = sa.get_char(i);
        let cb = sb.get_char(i);
        if ca != cb {
            return (ca as u32) < (cb as u32);
        }
        i = i + 1;
    }
    true
}

/// Orders the sources by name; sources with equal names keep their order.
pub fn order_by_name<L>(sources: Vec<DefaultsSource<L>>) -> (r: Vec<DefaultsSource<L>>)
    ensures
        names_sorted(r@),
        r@.to_multiset() == sources@.to_multiset(),
{
    let mut rest = sources;
    let mut out: Vec<DefaultsSource<L>> = Vec::new();
    while rest.len() > 0
        invariant
            names_sorted(out@),
            out@.to_multiset().add(rest@.to_multiset()) == sources@.to_multiset(),
        decreases rest.len(),
    {
        let ghost rest0 = rest@;
        let x = rest.remove(0);
        assert(rest0.remove(0).to_multiset() == rest0.to_multiset().remove(x));
        let mut p: usize = 0;
        while p < out.len()
            invariant
                p <= out@.len(),
                forall|q: int| 0 <= q < p ==> name_le(#[trigger] out@[q].name@, x.name@),
            ensures
                p <= out@.len(),
                forall|q: int| 0 <= q < p ==> name_le(#[trigger] out@[q].name@, x.name@),
                p < out@.len() ==> !name_le(out@[p as int].name@, x.name@),
            decreases out@.len() - p,
        {
            if !name_le_exec(&out[p].name, &x.name) {
                break;
            }
            p = p + 1;
        }
        let ghost out0 = out@;
        proof {
            if p < out0.len() {
                lemma_name_le_total(out0[p as int].name@, x.name@, 0);
            }
            assert forall|q: int| p <= q < out0.len() implies name_le(
                x.name@,
                #[trigger] out0[q].name@,
            ) by {
                if q > p {
                    assert(names_sorted(out0));
                    assert(name_le(out0[p as int].name@, out0[q].name@));
                    lemma_name_le_transitive(x.name@, out0[p as int].name@, out0[q].name@, 0);
                }
            }
        }
        out.insert(p, x);
        assert(out@ == out0.insert(p as int, x));
        assert forall|i: int, j: int| 0 <= i < j < out@.len() implies name_le(
            out@[i].name@,
            out@[j].name@,
        ) by {
            if j < p {
            } else if j == p {
            } else if i < p {
                lemma_name_le_transitive(out@[i].name@, x.name@, out@[j].name@, 0);
            } else if i == p {
            } else {
            }
        }
    }
    assert(rest@.to_multiset() =~= Multiset::empty());
    assert(out@.to_multiset().add(Multiset::empty()) =~= out@.to_multiset());
    out
}

/// Sources that share a name are one and the same source.
pub open spec fn same_name_same_source<L>(m: Multiset<DefaultsSource<L>>) -> bool {
    forall|a: DefaultsSource<L>, b: DefaultsSource<L>|
        m.contains(a) && m.contains(b) && a.name@ == b.name@ ==> a == b
}

proof fn lemma_distinct_names_identify<L>(s: Seq<DefaultsSource<L>>)
    requires
        distinct_names(s),
    ensures
        same_name_same_source(s.to_multiset()),
{
    assert forall|a: DefaultsSource<L>, b: DefaultsSource<L>|
        s.to_multiset().contains(a) && s.to_multiset().contains(b) && a.name@
            == b.name@ implies a == b by {
        assert(s.to_multiset().count(a) > 0);
        assert(s.contains(a));
        assert(s.to_multiset().count(b) > 0);
        assert(s.contains(b));
        let i = choose|i: int| 0 <= i < s.len() && s[i] == a;
        let j = choose|j: int| 0 <= j < s.len() && s[j] == b;
        if i != j {
            assert(s[i].name@ != s[j].name@);
        }
    }
}

proof fn lemma_name_order_unique<L>(x: Seq<DefaultsSource<L>>, y: Seq<DefaultsSource<L>>)
    requires
        names_sorted(x),
        names_sorted(y),
        x.to_multiset() == y.to_multiset(),
        same_name_same_source(x.to_multiset()),
    ensures
        x == y,
    decreases x.len(),
{
    assert(x.len() == x.to_multiset().len());
    assert(y.len() == y.to_multiset().len());
    if x.len() == 0 {
        assert(x =~= y);
    } else {
        let m = x.to_multiset();
        assert(m.count(x[0]) > 0) by {
            assert(x.contains(x[0]));
        }
        assert(y.contains(x[0]));
        let j = choose|j: int| 0 <= j < y.len() && y[j] == x[0];
        assert(m.count(y[0]) > 0) by {
            assert(y.contains(y[0]));
        }
        assert(x.contains(y[0]));
        let i = choose|i: int| 0 <= i < x.len() && x[i] == y[0];
        if j > 0 {
            assert(name_le(y[0].name@, y[j].name@));
        } else {
            lemma_name_le_total(y[0].name@, y[0].name@, 0);
        }
        if i > 0 {
            assert(name_le(x[0].name@, x[i].name@));
        } else {
            lemma_name_le_total(x[0].name@, x[0].name@, 0);
        }
        lemma_name_le_antisymmetric(x[0].name@, y[0].name@, 0);
        assert(x[0].name@ =~= y[0].name@);
        assert(m.contains(x[0]) && m.contains(y[0]));
        assert(x[0] == y[0]);
        let x1 = x.drop_first();
        let y1 = y.drop_first();
        assert(x.remove(0) =~= x1);
        assert(y.remove(0) =~= y1);
        assert(x1.to_multiset() == m.remove(x[0]));
        assert(y1.to_multiset() == m.remove(x[0]));
        assert forall|a: DefaultsSource<L>, b: DefaultsSource<L>|
            x1.to_multiset().contains(a) && x1.to_multiset().contains(b) && a.name@
                == b.name@ implies a == b by {
            assert(m.contains(a));
            assert(m.contains(b));
        }
        assert forall|p: int, q: int| 0 <= p < q < x1.len() implies name_le(
            x1[p].name@,
            x1[q].name@,
        ) by {
            assert(name_le(x[p + 1].name@, x[q + 1].name@));
        }
        assert forall|p: int, q: int| 0 <= p < q < y1.len() implies name_le(
            y1[p].name@,
            y1[q].name@,
        ) by {
            assert(name_le(y[p + 1].name@, y[q + 1].name@));
        }
        lemma_name_order_unique(x1, y1);
        assert(x =~= y) by {
            assert forall|k: int| 0 <= k < x.len() implies x[k] == y[k] by {
                if k > 0 {
                    assert(x[k] == x1[k - 1]);
                }
            }
        }
    }
}

/// A sequence sorted by name that holds the sources of `s` is their order
/// by name.
pub proof fn lemma_in_name_order<L>(s: Seq<DefaultsSource<L>>, t: Seq<DefaultsSource<L>>)
    requires
        distinct_names(s),
        names_sorted(t),
        t.to_multiset() == s.to_multiset(),
    ensures
        in_name_order(s) == t,
{
    let u = in_name_order(s);
    assert(names_sorted(u) && u.to_multiset() == s.to_multiset());
    lemma_distinct_names_identify(s);
    lemma_name_order_unique(t, u);
}

/// The result of merging a set of sources with distinct names does not
/// depend on the order in which they were listed: any two listings of the
/// same sources merge to the same document.
pub proof fn lemma_merge_order_independent<L>(
    a: Seq<DefaultsSource<Document<L>>>,
    b: Seq<DefaultsSource<Document<L>>>,
)
    requires
        a.to_multiset() == b.to_multiset(),
        distinct_names(a),
    ensures
        in_name_order(a) == in_name_order(b),
        names_sorted(in_name_order(a)),
        merged_all(documents_of(in_name_order(a))) == merged_all(documents_of(in_name_order(b))),
{
    let t = in_name_order(a);
    let u = in_name_order(b);
    assert(names_sorted(t) && t.to_multiset() == a.to_multiset()) by {
        let w = in_name_order_witness(a);
    }
    assert(names_sorted(u) && u.to_multiset() == b.to_multiset()) by {
        let w = in_name_order_witness(b);
    }
    lemma_distinct_names_identify(a);
    lemma_name_order_unique(t, u);
}

/// Some sequence sorted by name holds the sources of `s`.
proof fn in_name_order_witness<L>(s: Seq<DefaultsSource<L>>) -> (t: Seq<DefaultsSource<L>>)
    ensures
        names_sorted(t),
        t.to_multiset() == s.to_multiset(),
    decreases s.len(),
{
    if s.len() == 0 {
        s
    } else {
        let rest = in_name_order_witness(s.drop_last());
        let x = s.last();
        let p = choose_insert_position(rest, x);
        let t = rest.insert(p, x);
        assert(s.drop_last().push(x) =~= s);
        assert(t.to_multiset() == rest.to_multiset().insert(x));
        assert(s.to_multiset() == s.drop_last().to_multiset().insert(x));
        assert forall|i: int, j: int| 0 <= i < j < t.len() implies name_le(
            t[i].name@,
            t[j].name@,
        ) by {
            if j < p {
                assert(name_le(rest[i].name@, rest[j].name@));
            } else if j == p {
            } else if i < p {
                lemma_name_le_transitive(t[i].name@, x.name@, t[j].name@, 0);
            } else if i == p {
            } else {
                assert(name_le(rest[i - 1].name@, rest[j - 1].name@));
            }
        }
        t
    }
}

/// The position at which `x` goes into the sorted `s`.
proof fn choose_insert_position<L>(s: Seq<DefaultsSource<L>>, x: DefaultsSource<L>) -> (p: int)
    requires
        names_sorted(s),
    ensures
        0 <= p <= s.len(),
        forall|q: int| 0 <= q < p ==> name_le(#[trigger] s[q].name@, x.name@),
        forall|q: int| p <= q < s.len() ==> name_le(x.name@, #[trigger] s[q].name@),
    decreases s.len(),
{
    if s.len() == 0 {
        0
    } else {
        let last = s.len() - 1;
        if name_le(s[last].name@, x.name@) {
            assert forall|q: int| 0 <= q < s.len() implies name_le(#[trigger] s[q].name@, x.name@) by {
                if q < last {
                    assert(name_le(s[q].name@, s[last].name@));
                    lemma_name_le_transitive(s[q].name@, s[last].name@, x.name@, 0);
                }
            }
            s.len() as int
        } else {
            lemma_name_le_total(s[last].name@, x.name@, 0);
            let init = s.drop_last();
            assert forall|p: int, q: int| 0 <= p < q < init.len() implies name_le(
                init[p].name@,
                init[q].name@,
            ) by {
                assert(name_le(s[p].name@, s[q].name@));
            }
            let p = choose_insert_position(init, x);
            assert forall|q: int| p <= q < s.len() implies name_le(x.name@, #[trigger] s[q].name@) by {
                if q < last {
                    assert(s[q] == init[q]);
                }
            }
            assert forall|q: int| 0 <= q < p implies name_le(#[trigger] s[q].name@, x.name@) by {
                assert(s[q] == init[q]);
            }
            p
        }
    }
}

/// Lays the documents of `sources` one over the other, from first to last,
/// over an empty table.
pub fn merge_in_order<L>(sources: Vec<DefaultsSource<Document<L>>>) -> (r: Document<L>)
    ensures
        r@ == merged_all(documents_of(sources@)),
{
    let ghost s0 = sources@;
    let n = sources.len();
    let mut rest = sources;
    let empty: Vec<(String, Document<L>)> = Vec::new();
    assert(crate::document::entries_view(empty@) =~= Seq::empty());
    let mut acc: Document<L> = Document::Table(empty);
    assert(documents_of(s0.subrange(0, 0)) =~= Seq::<DocView<L>>::empty());
    let mut i: usize = 0;
    while i < n
        invariant
            n == s0.len(),
            i <= n,
            rest@ == s0.subrange(i as int, n as int),
            acc@ == merged_all(documents_of(s0.subrange(0, i as int))),
        decreases n - i,
    {
        assert(rest@[0] == s0[i as int]);
        let src = rest.remove(0);
        acc = acc.merge(src.content);
        proof {
            let d = documents_of(s0.subrange(0, i + 1));
            assert(d.drop_last() =~= documents_of(s0.subrange(0, i as int)));
            assert(d.last() == s0[i as int].content@);
        }
        i = i + 1;
    }
    assert(s0.subrange(0, n as int) =~= s0);
    acc
}

/// Merges the sources in the order of their names, so that a source whose
/// name sorts later takes precedence.
pub fn merge_sources<L>(sources: Vec<DefaultsSource<Document<L>>>) -> (r: Document<L>)
    ensures
        distinct_names(sources@) ==> r@ == merged_all(documents_of(in_name_order(sources@))),
{
    let ghost s0 = sources@;
    let ordered = order_by_name(sources);
    proof {
        if distinct_names(s0) {
            lemma_in_name_order(s0, ordered@);
        }
    }
    merge_in_order(ordered)
}

} // verus!
