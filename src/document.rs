use vstd::prelude::*;

verus! {

/// The mathematical model of a document: a leaf, or a table whose entries
/// keep the order in which their keys first appeared.
pub enum DocView<L> {
    Leaf(L),
    Table(Seq<(Seq<char>, DocView<L>)>),
}

/// A structured document: a table maps string keys to nested documents, and
/// everything that is not a table (scalars and sequences alike) is a leaf.
pub enum Document<L> {
    Leaf(L),
    Table(Vec<(String, Document<L>)>),
}

impl<L> View for Document<L> {
    type V = DocView<L>;

    open spec fn view(&self) -> DocView<L>
        decreases self,
    {
        match self {
            Document::Leaf(l) => DocView::Leaf(*l),
            Document::Table(v) => DocView::Table(entries_view(v@)),
        }
    }
}

/// The model of a table's entries.
pub open spec fn entries_view<L>(v: Seq<(String, Document<L>)>) -> Seq<(Seq<char>, DocView<L>)>
    decreases v,
{
    Seq::new(
        v.len(),
        |i: int|
            if 0 <= i < v.len() {
                (v[i].0@, v[i].1@)
            } else {
                (Seq::empty(), DocView::Table(Seq::empty()))
            },
    )
}

/// `i` is the first position of `key` among `entries`.
pub open spec fn is_first_position<L>(
    entries: Seq<(Seq<char>, DocView<L>)>,
    key: Seq<char>,
    i: int,
) -> bool {
    &&& 0 <= i < entries.len()
    &&& entries[i].0 == key
    &&& forall|j: int| 0 <= j < i ==> entries[j].0 != key
}

/// Where `key` first occurs among `entries`, if it occurs.
pub open spec fn key_position<L>(entries: Seq<(Seq<char>, DocView<L>)>, key: Seq<char>) -> Option<
    int,
> {
    if exists|i: int| is_first_position(entries, key, i) {
        Some(choose|i: int| is_first_position(entries, key, i))
    } else {
        None
    }
}

/// The value that a table holds under `key`.
pub open spec fn lookup<L>(entries: Seq<(Seq<char>, DocView<L>)>, key: Seq<char>) -> Option<
    DocView<L>,
> {
    match key_position(entries, key) {
        Some(i) => Some(entries[i].1),
        None => None,
    }
}

/// One overlay entry laid over the entries merged so far: a key already
/// present is merged in place, a new key is appended.
pub open spec fn merge_entry<L>(
    acc: Seq<(Seq<char>, DocView<L>)>,
    key: Seq<char>,
    value: DocView<L>,
    merged_value: DocView<L>,
) -> Seq<(Seq<char>, DocView<L>)> {
    match key_position(acc, key) {
        Some(i) => acc.update(i, (key, merged_value)),
        None => acc.push((key, value)),
    }
}

/// The entries of `base` with the entries of `overlay` laid over them, in
/// the overlay's order.
pub open spec fn merge_entries<L>(
    base: Seq<(Seq<char>, DocView<L>)>,
    overlay: Seq<(Seq<char>, DocView<L>)>,
) -> Seq<(Seq<char>, DocView<L>)>
    decreases overlay,
{
    if overlay.len() == 0 {
        base
    } else {
        let last = overlay.len() - 1;
        let acc = merge_entries(base, overlay.subrange(0, last));
        let key = overlay[last].0;
        let value = overlay[last].1;
        let merged_value = match key_position(acc, key) {
            Some(i) => merged(acc[i].1, value),
            None => value,
        };
        merge_entry(acc, key, value, merged_value)
    }
}

/// Deep merge: two tables merge key by key; in every other case the
/// overlay wins outright.
pub open spec fn merged<L>(base: DocView<L>, overlay: DocView<L>) -> DocView<L>
    decreases overlay,
{
    match overlay {
        DocView::Table(o) => match base {
            DocView::Table(b) => DocView::Table(merge_entries(b, o)),
            DocView::Leaf(_) => overlay,
        },
        DocView::Leaf(_) => overlay,
    }
}

/// Finds the first position of `key` among `entries`.
fn find_key<L>(entries: &Vec<(String, Document<L>)>, key: &String) -> (r: Option<usize>)
    ensures
        r matches Some(i) ==> key_position(entries_view(entries@), key@) == Some(i as int),
        r is None ==> key_position(entries_view(entries@), key@) is None,
{
    let ghost ev = entries_view(entries@);
    let mut i: usize = 0;
    while i < entries.len()
        invariant
            ev == entries_view(entries@),
            i <= entries@.len(),
            forall|j: int| 0 <= j < i ==> ev[j].0 != key@,
        decreases entries@.len() - i,
    {
        if entries[i].0 == *key {
            assert(is_first_position(ev, key@, i as int));
            assert forall|i2: int| is_first_position(ev, key@, i2) implies i2 == i by {
                if i2 < i {
                } else if i2 > i {
                    assert(ev[i as int].0 == key@);
                }
            }
            return Some(i);
        }
        i = i + 1;
    }
    None
}

impl<L> Document<L> {
    /// Lays `overlay` over `self`: keys found on one side only keep their
    /// value, two tables under one key are merged recursively, and wherever
    /// either value is not a table the overlay's value replaces the base's.
    pub fn merge(self, overlay: Document<L>) -> (r: Document<L>)
        ensures
            r@ == merged(self@, overlay@),
        decreases overlay@,
    {
        let ghost ov = overlay;
        match overlay {
            Document::Table(mut o) => match self {
                Document::Table(mut b) => {
                    let ghost o0 = o@;
                    let ghost b0 = entries_view(b@);
                    let ghost oview = entries_view(o0);
                    let n = o.len();
                    let mut j: usize = 0;
                    while j < n
                        invariant
                            ov == overlay,
                            ov is Table,
                            ov->Table_0@ == o0,
                            n == o0.len(),
                            j <= n,
                            o@ == o0.subrange(j as int, n as int),
                            oview == entries_view(o0),
                            entries_view(b@) == merge_entries(
                                b0,
                                oview.subrange(0, j as int),
                            ),
                        decreases n - j,
                    {
                        let ghost acc = entries_view(b@);
                        assert(o@[0] == o0[j as int]);
                        let (k, v) = o.remove(0);
                        assert(oview.subrange(0, j + 1).subrange(0, j as int) =~= oview.subrange(
                            0,
                            j as int,
                        ));
                        assert(oview.subrange(0, j + 1)[j as int] == oview[j as int]);
                        assert(oview[j as int] == (k@, v@));
                        match find_key(&b, &k) {
                            Some(i) => {
                                let ghost b_before = b@;
                                assert(is_first_position(acc, k@, i as int));
                                let (bk, bv) = b.remove(i);
                                proof {
                                    let ghost ovw = ov@;
                                    assert(ovw->Table_0 == oview);
                                    assert(decreases_to!(ovw => ovw->Table_0));
                                    assert(decreases_to!(oview => oview[j as int]));
                                    assert(decreases_to!(oview[j as int] => oview[j as int].1));
                                    assert(oview[j as int].1 == v@);
                                    assert(decreases_to!(ovw => v@));
                                }
                                assert(acc[i as int] == (bk@, bv@));
                                let mv = bv.merge(v);
                                b.insert(i, (bk, mv));
                                assert(b@ =~= b_before.update(i as int, (bk, mv)));
                                assert(bk@ == k@);
                                assert(entries_view(b@) =~= acc.update(i as int, (k@, mv@)));
                                assert(entries_view(b@) == merge_entries(
                                    b0,
                                    oview.subrange(0, j + 1),
                                ));
                            },
                            None => {
                                b.push((k, v));
                                assert(entries_view(b@) =~= acc.push((k@, v@)));
                                assert(entries_view(b@) == merge_entries(
                                    b0,
                                    oview.subrange(0, j + 1),
                                ));
                            },
                        }
                        j = j + 1;
                    }
                    assert(oview.subrange(0, n as int) =~= oview);
                    Document::Table(b)
                },
                Document::Leaf(_) => Document::Table(o),
            },
            Document::Leaf(l) => Document::Leaf(l),
        }
    }
}

/// No key occurs twice among `entries`.
pub open spec fn keys_unique<L>(entries: Seq<(Seq<char>, DocView<L>)>) -> bool {
    forall|i: int, j: int| 0 <= i < j < entries.len() ==> entries[i].0 != entries[j].0
}

/// `i` is the first position of `key`, whenever `key` has a first position
/// there.
proof fn lemma_key_position_is<L>(entries: Seq<(Seq<char>, DocView<L>)>, key: Seq<char>, i: int)
    requires
        is_first_position(entries, key, i),
    ensures
        key_position(entries, key) == Some(i),
{
    let c = choose|c: int| is_first_position(entries, key, c);
    if c < i {
        assert(entries[c].0 != key);
    } else if c > i {
        assert(entries[i].0 != key);
    }
}

/// A key that occurs has a first position.
proof fn lemma_key_position_some<L>(entries: Seq<(Seq<char>, DocView<L>)>, key: Seq<char>, j: int)
    requires
        0 <= j < entries.len(),
        entries[j].0 == key,
    ensures
        key_position(entries, key) is Some,
    decreases j,
{
    if forall|k: int| 0 <= k < j ==> entries[k].0 != key {
        assert(is_first_position(entries, key, j));
    } else {
        let k = choose|k: int| 0 <= k < j && entries[k].0 == key;
        lemma_key_position_some(entries, key, k);
    }
}

/// What a table holds under `k` after `(key, v)` is appended.
proof fn lemma_lookup_push<L>(s: Seq<(Seq<char>, DocView<L>)>, key: Seq<char>, v: DocView<L>, k: Seq<char>)
    ensures
        lookup(s.push((key, v)), k) == (if lookup(s, k) is None && k == key {
            Some(v)
        } else {
            lookup(s, k)
        }),
{
    let t = s.push((key, v));
    match key_position(s, k) {
        Some(i) => {
            assert(is_first_position(s, k, i));
            assert(is_first_position(t, k, i));
            lemma_key_position_is(t, k, i);
        },
        None => {
            if k == key {
                assert forall|j: int| 0 <= j < s.len() implies t[j].0 != k by {
                    if s[j].0 == k {
                        lemma_key_position_some(s, k, j);
                    }
                }
                assert(is_first_position(t, k, s.len() as int));
                lemma_key_position_is(t, k, s.len() as int);
            } else {
                if key_position(t, k) is Some {
                    let i = choose|i: int| is_first_position(t, k, i);
                    lemma_key_position_some(s, k, i);
                }
            }
        },
    }
}

/// What a table holds under `k` after the value at the first position of
/// `key` is replaced.
proof fn lemma_lookup_update<L>(
    s: Seq<(Seq<char>, DocView<L>)>,
    i: int,
    key: Seq<char>,
    v: DocView<L>,
    k: Seq<char>,
)
    requires
        key_position(s, key) == Some(i),
    ensures
        lookup(s.update(i, (key, v)), k) == (if k == key {
            Some(v)
        } else {
            lookup(s, k)
        }),
{
    let t = s.update(i, (key, v));
    assert(is_first_position(s, key, i));
    if k == key {
        assert(is_first_position(t, k, i));
        lemma_key_position_is(t, k, i);
    } else {
        match key_position(s, k) {
            Some(p) => {
                assert(is_first_position(s, k, p));
                assert(is_first_position(t, k, p));
                lemma_key_position_is(t, k, p);
            },
            None => {
                if key_position(t, k) is Some {
                    let p = choose|p: int| is_first_position(t, k, p);
                    lemma_key_position_some(s, k, p);
                }
            },
        }
    }
}

/// In a table whose keys are unique, the last entry is what its key holds,
/// and every other key holds what it held without that entry.
proof fn lemma_lookup_last<L>(o: Seq<(Seq<char>, DocView<L>)>, k: Seq<char>)
    requires
        o.len() > 0,
        keys_unique(o),
    ensures
        lookup(o, k) == (if k == o.last().0 {
            Some(o.last().1)
        } else {
            lookup(o.drop_last(), k)
        }),
{
    assert(o.drop_last().push(o.last()) =~= o);
    lemma_lookup_push(o.drop_last(), o.last().0, o.last().1, k);
    if k == o.last().0 {
        if lookup(o.drop_last(), k) is Some {
            let p = choose|p: int| is_first_position(o.drop_last(), k, p);
            assert(o[p].0 == o[o.len() - 1].0);
        }
    }
}

/// The merge rules, key by key: in the merge of two tables whose keys are
/// unique, a key found in one table only keeps that table's value, and a
/// key found in both holds the merge of the two values, the overlay's value
/// winning outright unless both are tables.
pub proof fn lemma_merge_lookup<L>(
    base: Seq<(Seq<char>, DocView<L>)>,
    overlay: Seq<(Seq<char>, DocView<L>)>,
    k: Seq<char>,
)
    requires
        keys_unique(base),
        keys_unique(overlay),
    ensures
        lookup(merge_entries(base, overlay), k) == (match (lookup(base, k), lookup(overlay, k)) {
            (Some(x), Some(y)) => Some(merged(x, y)),
            (Some(x), None) => Some(x),
            (None, y) => y,
        }),
    decreases overlay.len(),
{
    if overlay.len() == 0 {
        assert(lookup(overlay, k) is None);
    } else {
        let last = overlay.len() - 1;
        let init = overlay.subrange(0, last);
        assert(init =~= overlay.drop_last());
        let acc = merge_entries(base, init);
        let key = overlay[last].0;
        let value = overlay[last].1;
        lemma_merge_lookup(base, init, k);
        lemma_merge_lookup(base, init, key);
        lemma_lookup_last(overlay, k);
        match key_position(acc, key) {
            Some(i) => {
                lemma_lookup_update(acc, i, key, merged(acc[i].1, value), k);
                if k == key {
                    assert(lookup(init, k) is None) by {
                        if lookup(init, k) is Some {
                            let p = choose|p: int| is_first_position(init, k, p);
                            assert(overlay[p].0 == overlay[last].0);
                        }
                    }
                }
            },
            None => {
                lemma_lookup_push(acc, key, value, k);
                if k == key {
                    assert(lookup(init, k) is None) by {
                        if lookup(init, k) is Some {
                            let p = choose|p: int| is_first_position(init, k, p);
                            assert(overlay[p].0 == overlay[last].0);
                        }
                    }
                }
            },
        }
    }
}

/// Merging keeps the keys of a table unique: a key already present is
/// merged in place, and a new key is added once.
pub proof fn lemma_merge_keeps_keys_unique<L>(
    base: Seq<(Seq<char>, DocView<L>)>,
    overlay: Seq<(Seq<char>, DocView<L>)>,
)
    requires
        keys_unique(base),
    ensures
        keys_unique(merge_entries(base, overlay)),
    decreases overlay.len(),
{
    if overlay.len() > 0 {
        let last = overlay.len() - 1;
        let init = overlay.subrange(0, last);
        lemma_merge_keeps_keys_unique(base, init);
        let acc = merge_entries(base, init);
        let key = overlay[last].0;
        match key_position(acc, key) {
            Some(i) => {
                assert(is_first_position(acc, key, i));
            },
            None => {
                assert forall|j: int| 0 <= j < acc.len() implies acc[j].0 != key by {
                    if acc[j].0 == key {
                        lemma_key_position_some(acc, key, j);
                    }
                }
            },
        }
    }
}

} // verus!
