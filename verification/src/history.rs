//! The browsing history log: a recency-ordered, size-bounded list of
//! (URL, last-visit-time) entries, unique by URL.

use vstd::prelude::*;

verus! {

// ---------------------------------------------------------------------------
// Data model
// ---------------------------------------------------------------------------

/// One visit: a URL and the Unix timestamp (seconds) of its last visit.
pub struct HistoryEntry {
    pub url: String,
    pub visited_at: i64,
}

/// The mathematical value of a [`HistoryEntry`].
#[verifier::ext_equal]
pub ghost struct HistoryEntryView {
    pub url: Seq<char>,
    pub visited_at: int,
}

impl View for HistoryEntry {
    type V = HistoryEntryView;

    open spec fn view(&self) -> HistoryEntryView {
        HistoryEntryView { url: self.url@, visited_at: self.visited_at as int }
    }
}

impl DeepView for HistoryEntry {
    type V = HistoryEntryView;

    open spec fn deep_view(&self) -> HistoryEntryView {
        self.view()
    }
}

/// The history log, most recent visit first.
pub struct History {
    pub items: Vec<HistoryEntry>,
}

impl View for History {
    type V = Seq<HistoryEntryView>;

    open spec fn view(&self) -> Seq<HistoryEntryView> {
        self.items.deep_view()
    }
}

/// The log invariant: visit times are non-increasing and URLs are unique.
pub open spec fn hist_wf(items: Seq<HistoryEntryView>) -> bool {
    &&& forall|i: int, j: int|
        0 <= i < j < items.len() ==> (#[trigger] items[i]).visited_at >= (
        #[trigger] items[j]).visited_at
    &&& forall|i: int, j: int|
        0 <= i < j < items.len() ==> (#[trigger] items[i]).url != (#[trigger] items[j]).url
}

/// Whether some entry carries the URL.
pub open spec fn url_present(items: Seq<HistoryEntryView>, url: Seq<char>) -> bool {
    exists|i: int| 0 <= i < items.len() && (#[trigger] items[i]).url == url
}

/// The visit time recorded for a URL (first match).
pub open spec fn time_of(items: Seq<HistoryEntryView>, url: Seq<char>) -> Option<int>
    decreases items.len(),
{
    if items.len() == 0 {
        None
    } else if items[0].url == url {
        Some(items[0].visited_at)
    } else {
        time_of(items.drop_first(), url)
    }
}

// ---------------------------------------------------------------------------
// Appending, as a mathematical function
// ---------------------------------------------------------------------------

/// Every entry for `url` removed.
pub open spec fn drop_url(items: Seq<HistoryEntryView>, url: Seq<char>) -> Seq<HistoryEntryView>
    decreases items.len(),
{
    if items.len() == 0 {
        Seq::empty()
    } else if items[0].url == url {
        drop_url(items.drop_first(), url)
    } else {
        seq![items[0]] + drop_url(items.drop_first(), url)
    }
}

/// Inserts an entry before the first strictly older entry, keeping the list
/// ordered by visit time, newest first.
pub open spec fn insert_desc(items: Seq<HistoryEntryView>, e: HistoryEntryView) -> Seq<
    HistoryEntryView,
>
    decreases items.len(),
{
    if items.len() == 0 {
        seq![e]
    } else if items[0].visited_at < e.visited_at {
        seq![e] + items
    } else {
        seq![items[0]] + insert_desc(items.drop_first(), e)
    }
}

/// Insert-or-update one visit: the URL's old entry goes, the new one lands
/// at its place in recency order.
pub open spec fn spec_append(items: Seq<HistoryEntryView>, url: Seq<char>, at: int) -> Seq<
    HistoryEntryView,
> {
    insert_desc(drop_url(items, url), HistoryEntryView { url, visited_at: at })
}

/// The log bounded to its `max` most recent entries.
pub open spec fn spec_truncate(items: Seq<HistoryEntryView>, max: int) -> Seq<HistoryEntryView> {
    if items.len() <= max {
        items
    } else {
        items.take(max)
    }
}

/// One locked read-modify-write step: insert the visit, then bound the log.
pub open spec fn merged(items: Seq<HistoryEntryView>, url: Seq<char>, at: int, max: int) -> Seq<
    HistoryEntryView,
> {
    spec_truncate(spec_append(items, url, at), max)
}

// ---------------------------------------------------------------------------
// Shape lemmas
// ---------------------------------------------------------------------------

/// Membership and shape of a log with one URL dropped.
pub proof fn lemma_drop_url_props(items: Seq<HistoryEntryView>, url: Seq<char>)
    ensures
        forall|k: int|
            0 <= k < drop_url(items, url).len() ==> (#[trigger] drop_url(items, url)[k]).url != url
                && items.contains(drop_url(items, url)[k]),
        forall|e: HistoryEntryView|
            #[trigger] items.contains(e) && e.url != url ==> drop_url(items, url).contains(e),
        drop_url(items, url).len() <= items.len(),
        !url_present(items, url) ==> drop_url(items, url) == items,
        hist_wf(items) ==> hist_wf(drop_url(items, url)),
    decreases items.len(),
{
    if items.len() == 0 {
        assert(forall|e: HistoryEntryView| !items.contains(e));
        if url_present(items, url) {
            let i = choose|i: int| 0 <= i < items.len() && items[i].url == url;
        }
    } else {
        let tail = items.drop_first();
        lemma_drop_url_props(tail, url);
        assert(forall|e: HistoryEntryView|
            #[trigger] tail.contains(e) ==> items.contains(e)) by {
            assert forall|e: HistoryEntryView| #[trigger] tail.contains(e) implies items.contains(
                e,
            ) by {
                let k = choose|k: int| 0 <= k < tail.len() && tail[k] == e;
                assert(items[k + 1] == e);
            }
        }
        assert forall|e: HistoryEntryView|
            #[trigger] items.contains(e) && e.url != url implies (items[0] == e || tail.contains(
            e,
        )) by {
            let k = choose|k: int| 0 <= k < items.len() && items[k] == e;
            if k > 0 {
                assert(tail[k - 1] == e);
            }
        }
        if hist_wf(items) {
            assert(hist_wf(tail)) by {
                assert(forall|k: int| 0 <= k < tail.len() ==> tail[k] == items[k + 1]);
            }
        }
        if items[0].url == url {
            assert(drop_url(items, url) == drop_url(tail, url));
            assert(items[0].url == url && items.contains(items[0])) by {
                assert(items[0] == items[0]);
            }
            assert(url_present(items, url)) by {
                assert(items[0].url == url);
            }
            assert forall|e: HistoryEntryView|
                #[trigger] items.contains(e) && e.url != url implies drop_url(
                items,
                url,
            ).contains(e) by {
                assert(items[0] == e || tail.contains(e));
                assert(drop_url(tail, url).contains(e));
            }
        } else {
            let r = seq![items[0]] + drop_url(tail, url);
            assert(drop_url(items, url) == r);
            assert(r[0] == items[0]);
            assert(forall|k: int| 1 <= k < r.len() ==> r[k] == drop_url(tail, url)[k - 1]);
            assert(items.contains(items[0]));
            if !url_present(items, url) {
                assert(!url_present(tail, url)) by {
                    if url_present(tail, url) {
                        let k = choose|k: int| 0 <= k < tail.len() && tail[k].url == url;
                        assert(items[k + 1].url == url);
                    }
                }
                assert(r =~= items);
            }
            assert forall|e: HistoryEntryView|
                #[trigger] items.contains(e) && e.url != url implies r.contains(e) by {
                if items[0] == e {
                    assert(r[0] == e);
                } else {
                    assert(tail.contains(e));
                    assert(drop_url(tail, url).contains(e));
                    let q = choose|q: int|
                        0 <= q < drop_url(tail, url).len() && drop_url(tail, url)[q] == e;
                    assert(r[q + 1] == e);
                }
            }
            if hist_wf(items) {
                let rt = drop_url(tail, url);
                assert(hist_wf(r)) by {
                    assert forall|i: int, j: int| 0 <= i < j < r.len() implies (
                    #[trigger] r[i]).visited_at >= (#[trigger] r[j]).visited_at && r[i].url
                        != r[j].url by {
                        if i == 0 {
                            assert(tail.contains(rt[j - 1]));
                            let q = choose|q: int| 0 <= q < tail.len() && tail[q] == rt[j - 1];
                            assert(items[q + 1] == rt[j - 1]);
                        } else {
                            assert(r[i] == rt[i - 1] && r[j] == rt[j - 1]);
                        }
                    }
                }
            }
        }
    }
}

/// Shape of an ordered insertion: ordering is kept, the entry is there, and
/// nothing else changes.
pub proof fn lemma_insert_desc_props(items: Seq<HistoryEntryView>, e: HistoryEntryView)
    ensures
        insert_desc(items, e).len() == items.len() + 1,
        insert_desc(items, e).contains(e),
        forall|k: int|
            0 <= k < insert_desc(items, e).len() ==> (#[trigger] insert_desc(items, e)[k]) == e
                || items.contains(insert_desc(items, e)[k]),
        forall|x: HistoryEntryView|
            #[trigger] items.contains(x) ==> insert_desc(items, e).contains(x),
        (hist_wf(items) && (forall|i: int|
            0 <= i < items.len() ==> (#[trigger] items[i]).url != e.url)) ==> hist_wf(
            insert_desc(items, e),
        ),
    decreases items.len(),
{
    let r = insert_desc(items, e);
    if items.len() == 0 {
        assert(r == seq![e]);
        assert(r[0] == e);
        assert(forall|x: HistoryEntryView| !items.contains(x));
    } else if items[0].visited_at < e.visited_at {
        assert(r == seq![e] + items);
        assert(r[0] == e);
        assert(forall|k: int| 1 <= k < r.len() ==> r[k] == items[k - 1]);
        assert(forall|x: HistoryEntryView| #[trigger] items.contains(x) ==> r.contains(x)) by {
            assert forall|x: HistoryEntryView| #[trigger] items.contains(x) implies r.contains(
                x,
            ) by {
                let k = choose|k: int| 0 <= k < items.len() && items[k] == x;
                assert(r[k + 1] == x);
            }
        }
        if hist_wf(items) && (forall|i: int|
            0 <= i < items.len() ==> (#[trigger] items[i]).url != e.url) {
            assert forall|i: int, j: int| 0 <= i < j < r.len() implies (#[trigger] r[i]).visited_at
                >= (#[trigger] r[j]).visited_at && r[i].url != r[j].url by {
                if i == 0 {
                    assert(r[j] == items[j - 1]);
                    if j - 1 > 0 {
                        assert(items[0].visited_at >= items[j - 1].visited_at);
                    }
                } else {
                    assert(r[i] == items[i - 1] && r[j] == items[j - 1]);
                }
            }
        }
    } else {
        let tail = items.drop_first();
        lemma_insert_desc_props(tail, e);
        let rt = insert_desc(tail, e);
        assert(r == seq![items[0]] + rt);
        assert(forall|k: int| 1 <= k < r.len() ==> r[k] == rt[k - 1]);
        assert(r[0] == items[0]);
        assert(forall|k: int| 0 <= k < tail.len() ==> tail[k] == items[k + 1]);
        assert(forall|x: HistoryEntryView| #[trigger] tail.contains(x) ==> items.contains(x)) by {
            assert forall|x: HistoryEntryView| #[trigger] tail.contains(x) implies items.contains(
                x,
            ) by {
                let k = choose|k: int| 0 <= k < tail.len() && tail[k] == x;
                assert(items[k + 1] == x);
            }
        }
        assert(r.contains(e)) by {
            let k = choose|k: int| 0 <= k < rt.len() && rt[k] == e;
            assert(r[k + 1] == e);
        }
        assert(items.contains(items[0]));
        assert forall|x: HistoryEntryView| #[trigger] items.contains(x) implies r.contains(x) by {
            let k = choose|k: int| 0 <= k < items.len() && items[k] == x;
            if k == 0 {
                assert(r[0] == x);
            } else {
                assert(tail[k - 1] == x);
                assert(tail.contains(x));
                assert(rt.contains(x));
                let q = choose|q: int| 0 <= q < rt.len() && rt[q] == x;
                assert(r[q + 1] == x);
            }
        }
        if hist_wf(items) && (forall|i: int|
            0 <= i < items.len() ==> (#[trigger] items[i]).url != e.url) {
            assert(hist_wf(tail));
            assert(forall|i: int| 0 <= i < tail.len() ==> (#[trigger] tail[i]).url != e.url);
            assert(hist_wf(rt));
            assert forall|i: int, j: int| 0 <= i < j < r.len() implies (#[trigger] r[i]).visited_at
                >= (#[trigger] r[j]).visited_at && r[i].url != r[j].url by {
                if i == 0 {
                    assert(r[j] == rt[j - 1]);
                    if rt[j - 1] == e {
                        assert(items[0].visited_at >= e.visited_at);
                        assert(items[0].url != e.url);
                    } else {
                        assert(tail.contains(rt[j - 1]));
                        let q = choose|q: int| 0 <= q < tail.len() && tail[q] == rt[j - 1];
                        assert(items[q + 1] == rt[j - 1]);
                    }
                } else {
                    assert(r[i] == rt[i - 1] && r[j] == rt[j - 1]);
                }
            }
        }
    }
}

/// Appending preserves the log invariant.
pub proof fn lemma_append_wf(items: Seq<HistoryEntryView>, url: Seq<char>, at: int)
    requires
        hist_wf(items),
    ensures
        hist_wf(spec_append(items, url, at)),
        spec_append(items, url, at).len() <= items.len() + 1,
{
    lemma_drop_url_props(items, url);
    let d = drop_url(items, url);
    let e = HistoryEntryView { url, visited_at: at };
    assert(forall|i: int| 0 <= i < d.len() ==> (#[trigger] d[i]).url != url) by {
        assert(forall|i: int| 0 <= i < d.len() ==> d.contains(d[i]));
    }
    lemma_insert_desc_props(d, e);
}

/// Truncation preserves the log invariant and keeps a prefix.
pub proof fn lemma_truncate_wf(items: Seq<HistoryEntryView>, max: int)
    requires
        hist_wf(items),
        max >= 0,
    ensures
        hist_wf(spec_truncate(items, max)),
        spec_truncate(items, max).len() == if items.len() <= max {
            items.len() as int
        } else {
            max
        },
        forall|k: int|
            0 <= k < spec_truncate(items, max).len() ==> (#[trigger] spec_truncate(items, max)[k])
                == items[k],
{
}

// ---------------------------------------------------------------------------
// Executable log operations
// ---------------------------------------------------------------------------

proof fn lemma_drop_url_concat(a: Seq<HistoryEntryView>, b: Seq<HistoryEntryView>, url: Seq<char>)
    ensures
        drop_url(a + b, url) == drop_url(a, url) + drop_url(b, url),
    decreases a.len(),
{
    if a.len() == 0 {
        assert(a + b =~= b);
        assert(drop_url(a, url) =~= Seq::<HistoryEntryView>::empty());
        assert(drop_url(a, url) + drop_url(b, url) =~= drop_url(b, url));
    } else {
        lemma_drop_url_concat(a.drop_first(), b, url);
        assert((a + b)[0] == a[0]);
        assert((a + b).drop_first() =~= a.drop_first() + b);
        assert(drop_url(a + b, url) =~= drop_url(a, url) + drop_url(b, url));
    }
}

proof fn lemma_insert_desc_at(items: Seq<HistoryEntryView>, e: HistoryEntryView, i: int)
    requires
        0 <= i <= items.len(),
        forall|j: int| 0 <= j < i ==> (#[trigger] items[j]).visited_at >= e.visited_at,
        i < items.len() ==> items[i].visited_at < e.visited_at,
    ensures
        insert_desc(items, e) == items.insert(i, e),
    decreases i,
{
    if i == 0 {
        if items.len() == 0 {
            assert(insert_desc(items, e) =~= items.insert(0, e));
        } else {
            assert(insert_desc(items, e) =~= items.insert(0, e));
        }
    } else {
        assert(items[0].visited_at >= e.visited_at);
        assert(forall|j: int|
            0 <= j < i - 1 ==> (#[trigger] items.drop_first()[j]) == items[j + 1]);
        lemma_insert_desc_at(items.drop_first(), e, i - 1);
        assert(insert_desc(items, e) =~= items.insert(i, e));
    }
}

/// Relies on chrono's `Local::now`: the current local time as Unix seconds.
#[verifier::external_body]
fn now_timestamp() -> i64 {
    chrono::Local::now().timestamp()
}

impl Default for History {
    /// The empty log.
    fn default() -> (r: Self)
        ensures
            r@.len() == 0,
            hist_wf(r@),
    {
        let r = History { items: Vec::new() };
        proof {
            assert(r@ =~= Seq::<HistoryEntryView>::empty());
        }
        r
    }
}

impl History {
    /// Records a visit of `url` at time `at`: any earlier entry for the URL
    /// goes, and the new entry lands at its place in recency order.
    pub fn append_at(&mut self, url: &str, at: i64)
        ensures
            final(self)@ == spec_append(old(self)@, url@, at as int),
            hist_wf(old(self)@) ==> hist_wf(final(self)@),
    {
        let ghost s0 = self@;
        proof {
            assert(s0.len() == self.items@.len());
        }
        // drop any old entry for the URL
        let mut kept: Vec<HistoryEntry> = Vec::new();
        proof {
            assert(kept.deep_view() =~= Seq::<HistoryEntryView>::empty());
            assert(drop_url(s0.take(0), url@) =~= Seq::<HistoryEntryView>::empty()) by {
                assert(s0.take(0) =~= Seq::<HistoryEntryView>::empty());
            }
        }
        let n = self.items.len();
        let mut i: usize = 0;
        while i < n
            invariant
                i <= n,
                n == self.items.len(),
                s0 == self.items.deep_view(),
                s0.len() == n,
                kept.deep_view() == drop_url(s0.take(i as int), url@),
            decreases n - i,
        {
            let ghost k0 = kept.deep_view();
            proof {
                assert(s0[i as int] == self.items@[i as int]@);
                assert(s0.take(i + 1) =~= s0.take(i as int) + seq![s0[i as int]]);
                lemma_drop_url_concat(s0.take(i as int), seq![s0[i as int]], url@);
                assert(seq![s0[i as int]].drop_first() =~= Seq::<HistoryEntryView>::empty());
                assert(drop_url(Seq::<HistoryEntryView>::empty(), url@) =~= Seq::<
                    HistoryEntryView,
                >::empty());
            }
            if !crate::codec::str_eq_str(self.items[i].url.as_str(), url) {
                kept.push(
                    HistoryEntry {
                        url: self.items[i].url.clone(),
                        visited_at: self.items[i].visited_at,
                    },
                );
                proof {
                    assert(drop_url(seq![s0[i as int]], url@) =~= seq![s0[i as int]]);
                    assert(kept.deep_view() =~= k0 + seq![s0[i as int]]);
                }
            } else {
                proof {
                    assert(drop_url(seq![s0[i as int]], url@) =~= Seq::<HistoryEntryView>::empty());
                    assert(kept.deep_view() =~= k0 + Seq::<HistoryEntryView>::empty());
                }
            }
            i += 1;
        }
        proof {
            assert(s0.take(s0.len() as int) =~= s0);
            assert(kept.deep_view() == drop_url(s0, url@));
        }
        // find the insertion point: before the first strictly older entry
        let ghost kv = kept.deep_view();
        let m = kept.len();
        proof {
            assert(kv.len() == m);
        }
        let mut p: usize = 0;
        while p < m && kept[p].visited_at >= at
            invariant
                p <= m,
                m == kept.len(),
                kv == kept.deep_view(),
                kv.len() == m,
                forall|j: int| 0 <= j < p ==> (#[trigger] kv[j]).visited_at >= at,
            decreases m - p,
        {
            proof {
                assert(kv[p as int] == kept@[p as int]@);
            }
            p += 1;
        }
        proof {
            if p < m {
                assert(kv[p as int] == kept@[p as int]@);
                assert(kv[p as int].visited_at < at);
            }
        }
        let entry = HistoryEntry { url: url.to_owned(), visited_at: at };
        kept.insert(p, entry);
        proof {
            lemma_insert_desc_at(kv, HistoryEntryView { url: url@, visited_at: at as int }, p as int);
            assert(kept.deep_view() =~= kv.insert(
                p as int,
                HistoryEntryView { url: url@, visited_at: at as int },
            ));
        }
        self.items = kept;
        proof {
            assert(self@ == spec_append(s0, url@, at as int));
            if hist_wf(s0) {
                lemma_append_wf(s0, url@, at as int);
            }
        }
    }

    /// Records a visit of `url` now: the entry's time is whatever the clock
    /// returned.
    pub fn append(&mut self, url: &str)
        ensures
            exists|t: int| final(self)@ == spec_append(old(self)@, url@, t),
            hist_wf(old(self)@) ==> hist_wf(final(self)@),
    {
        let t = now_timestamp();
        self.append_at(url, t);
        proof {
            assert(final(self)@ == spec_append(old(self)@, url@, t as int));
        }
    }

    /// Removes every entry for `url`.
    pub fn remove(&mut self, url: &str)
        ensures
            final(self)@ == drop_url(old(self)@, url@),
            hist_wf(old(self)@) ==> hist_wf(final(self)@),
    {
        let ghost s0 = self@;
        proof {
            assert(s0.len() == self.items@.len());
        }
        let mut kept: Vec<HistoryEntry> = Vec::new();
        proof {
            assert(kept.deep_view() =~= Seq::<HistoryEntryView>::empty());
            assert(drop_url(s0.take(0), url@) =~= Seq::<HistoryEntryView>::empty()) by {
                assert(s0.take(0) =~= Seq::<HistoryEntryView>::empty());
            }
        }
        let n = self.items.len();
        let mut i: usize = 0;
        while i < n
            invariant
                i <= n,
                n == self.items.len(),
                s0 == self.items.deep_view(),
                s0.len() == n,
                kept.deep_view() == drop_url(s0.take(i as int), url@),
            decreases n - i,
        {
            let ghost k0 = kept.deep_view();
            proof {
                assert(s0[i as int] == self.items@[i as int]@);
                assert(s0.take(i + 1) =~= s0.take(i as int) + seq![s0[i as int]]);
                lemma_drop_url_concat(s0.take(i as int), seq![s0[i as int]], url@);
                assert(seq![s0[i as int]].drop_first() =~= Seq::<HistoryEntryView>::empty());
                assert(drop_url(Seq::<HistoryEntryView>::empty(), url@) =~= Seq::<
                    HistoryEntryView,
                >::empty());
            }
            if !crate::codec::str_eq_str(self.items[i].url.as_str(), url) {
                kept.push(
                    HistoryEntry {
                        url: self.items[i].url.clone(),
                        visited_at: self.items[i].visited_at,
                    },
                );
                proof {
                    assert(drop_url(seq![s0[i as int]], url@) =~= seq![s0[i as int]]);
                    assert(kept.deep_view() =~= k0 + seq![s0[i as int]]);
                }
            } else {
                proof {
                    assert(drop_url(seq![s0[i as int]], url@) =~= Seq::<HistoryEntryView>::empty());
                    assert(kept.deep_view() =~= k0 + Seq::<HistoryEntryView>::empty());
                }
            }
            i += 1;
        }
        proof {
            assert(s0.take(s0.len() as int) =~= s0);
        }
        self.items = kept;
        proof {
            if hist_wf(s0) {
                lemma_drop_url_props(s0, url@);
            }
        }
    }

    /// Empties the log.
    pub fn clear(&mut self)
        ensures
            final(self)@.len() == 0,
    {
        self.items = Vec::new();
        proof {
            assert(self@ =~= Seq::<HistoryEntryView>::empty());
        }
    }

    /// Bounds the log to its `max` most recent entries by dropping the
    /// oldest.
    pub fn truncate(&mut self, max: usize)
        ensures
            final(self)@ == spec_truncate(old(self)@, max as int),
            hist_wf(old(self)@) ==> hist_wf(final(self)@),
    {
        let ghost s0 = self@;
        proof {
            assert(s0.len() == self.items@.len());
        }
        self.items.truncate(max);
        proof {
            if max < s0.len() {
                assert(self.items@ =~= old(self).items@.subrange(0, max as int));
                assert(self@ =~= s0.take(max as int));
            } else {
                assert(self@ =~= s0);
            }
            if hist_wf(s0) {
                lemma_truncate_wf(s0, max as int);
            }
        }
    }
}

// ---------------------------------------------------------------------------
// Rendering
// ---------------------------------------------------------------------------

/// One log entry as page text: the visit time, then a link line.
pub open spec fn entry_page(e: HistoryEntryView) -> Seq<char> {
    crate::codec::int_chars(e.visited_at) + "\n=> "@ + e.url + "\n\n"@
}

pub open spec fn entries_page(items: Seq<HistoryEntryView>) -> Seq<char>
    decreases items.len(),
{
    if items.len() == 0 {
        Seq::empty()
    } else {
        entry_page(items[0]) + entries_page(items.drop_first())
    }
}

/// The full history page, most recent first.
pub open spec fn page_of(items: Seq<HistoryEntryView>) -> Seq<char> {
    "# History\n"@ + entries_page(items)
}

fn push_entries_page(out: &mut Vec<char>, items: &Vec<HistoryEntry>, i: usize)
    requires
        i <= items.len(),
    ensures
        final(out)@ == old(out)@ + entries_page(items.deep_view().skip(i as int)),
    decreases items.len() - i,
{
    let ghost rest = items.deep_view().skip(i as int);
    proof {
        assert(items.deep_view().len() == items@.len());
    }
    if i == items.len() {
        proof {
            assert(rest.len() == 0);
            assert(old(out)@ + entries_page(rest) =~= old(out)@);
        }
        return ;
    }
    proof {
        assert(rest[0] == items.deep_view()[i as int]);
        assert(items.deep_view()[i as int] == items@[i as int]@);
        assert(rest.drop_first() =~= items.deep_view().skip(i + 1));
    }
    crate::codec::push_i64(out, items[i].visited_at);
    crate::codec::append_str(out, "\n=> ");
    crate::codec::append_str(out, items[i].url.as_str());
    crate::codec::append_str(out, "\n\n");
    push_entries_page(out, items, i + 1);
    proof {
        assert(final(out)@ =~= old(out)@ + entries_page(rest));
    }
}

impl History {
    /// The history page: a header, then each entry's time and link.
    pub fn page(&self) -> (r: String)
        ensures
            r@ == page_of(self@),
    {
        let mut out: Vec<char> = Vec::new();
        crate::codec::append_str(&mut out, "# History\n");
        proof {
            assert(self.items.deep_view().skip(0) =~= self@);
        }
        push_entries_page(&mut out, &self.items, 0);
        proof {
            assert(out@ =~= page_of(self@));
        }
        crate::codec::chars_to_string(&out)
    }
}

// ---------------------------------------------------------------------------
// Persistence
// ---------------------------------------------------------------------------

/// The lines that persist one log entry.
pub open spec fn he_lines(e: HistoryEntryView) -> Seq<Seq<char>> {
    seq!["[[entry]]"@, crate::codec::kv_line("url = \""@, e.url), "visited = "@
        + crate::codec::int_chars(e.visited_at)]
}

pub open spec fn hes_lines(items: Seq<HistoryEntryView>) -> Seq<Seq<char>>
    decreases items.len(),
{
    if items.len() == 0 {
        Seq::empty()
    } else {
        he_lines(items[0]) + hes_lines(items.drop_first())
    }
}

/// The persisted text of the whole log.
pub open spec fn encode_hist(items: Seq<HistoryEntryView>) -> Seq<char> {
    crate::codec::join_lines(hes_lines(items))
}

/// One log-entry block read back from the front of the lines.
pub open spec fn parse_he_block(lines: Seq<Seq<char>>) -> Option<HistoryEntryView> {
    if lines.len() >= 3 && lines[0] == "[[entry]]"@ {
        match crate::codec::parse_kv(lines[1], "url = \""@) {
            Some(url) => {
                let l = lines[2];
                if crate::codec::starts_with(l, "visited = "@) {
                    match crate::codec::parse_int(l.skip("visited = "@.len() as int)) {
                        Some(v) => {
                            if -0x8000_0000_0000_0000 <= v <= 0x7fff_ffff_ffff_ffff {
                                Some(HistoryEntryView { url, visited_at: v })
                            } else {
                                None
                            }
                        },
                        None => None,
                    }
                } else {
                    None
                }
            },
            None => None,
        }
    } else {
        None
    }
}

/// The whole file read back as log-entry blocks; everything must be
/// consumed.
pub open spec fn parse_hes(lines: Seq<Seq<char>>) -> Option<Seq<HistoryEntryView>>
    decreases lines.len(),
{
    if lines.len() == 0 {
        Some(Seq::empty())
    } else if lines.len() >= 3 {
        match parse_he_block(lines) {
            Some(e) => match parse_hes(lines.skip(3)) {
                Some(es) => Some(seq![e] + es),
                None => None,
            },
            None => None,
        }
    } else {
        None
    }
}

/// The log denoted by a persisted text, if it is one.
pub open spec fn decode_hist(t: Seq<char>) -> Option<Seq<HistoryEntryView>> {
    parse_hes(crate::codec::split_lines(t))
}

proof fn lemma_int_chars_clean(v: int)
    ensures
        crate::codec::line_clean(crate::codec::int_chars(v)),
{
    let cs = crate::codec::int_chars(v);
    if v < 0 {
        crate::codec::lemma_dec_digits_shape((-v) as nat);
        assert forall|i: int| 0 <= i < cs.len() implies cs[i] != '\n' by {
            if i == 0 {
                assert(cs[i] == '-');
            } else {
                assert(cs[i] == crate::codec::dec_digits((-v) as nat)[i - 1]);
                assert(crate::codec::is_digit(cs[i]));
            }
        }
    } else {
        crate::codec::lemma_dec_digits_shape(v as nat);
        assert forall|i: int| 0 <= i < cs.len() implies cs[i] != '\n' by {
            assert(crate::codec::is_digit(cs[i]));
        }
    }
}

proof fn lemma_he_block_roundtrip(e: HistoryEntryView, rest: Seq<Seq<char>>)
    requires
        -0x8000_0000_0000_0000 <= e.visited_at <= 0x7fff_ffff_ffff_ffff,
    ensures
        parse_he_block(he_lines(e) + rest) == Some(e),
        (he_lines(e) + rest).skip(3) == rest,
{
    let lines = he_lines(e) + rest;
    assert(lines[0] == "[[entry]]"@);
    assert(lines[1] == crate::codec::kv_line("url = \""@, e.url));
    assert(lines[2] == "visited = "@ + crate::codec::int_chars(e.visited_at));
    crate::codec::lemma_parse_kv_line("url = \""@, e.url);
    let l = lines[2];
    let key = "visited = "@;
    assert(l.take(key.len() as int) =~= key);
    assert(crate::codec::starts_with(l, key));
    assert(l.skip(key.len() as int) =~= crate::codec::int_chars(e.visited_at));
    crate::codec::lemma_parse_int_chars(e.visited_at);
    assert(lines.skip(3) =~= rest);
    assert(parse_he_block(lines) == Some(
        HistoryEntryView { url: e.url, visited_at: e.visited_at },
    ));
    assert(HistoryEntryView { url: e.url, visited_at: e.visited_at } =~= e);
}

pub open spec fn times_in_range(items: Seq<HistoryEntryView>) -> bool {
    forall|i: int|
        0 <= i < items.len() ==> -0x8000_0000_0000_0000 <= (#[trigger] items[i]).visited_at
            <= 0x7fff_ffff_ffff_ffff
}

proof fn lemma_parse_hes_roundtrip(items: Seq<HistoryEntryView>)
    requires
        times_in_range(items),
    ensures
        parse_hes(hes_lines(items)) == Some(items),
    decreases items.len(),
{
    if items.len() == 0 {
        assert(hes_lines(items).len() == 0);
    } else {
        let e = items[0];
        let tail_lines = hes_lines(items.drop_first());
        assert(hes_lines(items) =~= he_lines(e) + tail_lines);
        lemma_he_block_roundtrip(e, tail_lines);
        assert(times_in_range(items.drop_first())) by {
            assert(forall|k: int|
                0 <= k < items.drop_first().len() ==> (#[trigger] items.drop_first()[k]) == items[k
                    + 1]);
        }
        lemma_parse_hes_roundtrip(items.drop_first());
        let lines = he_lines(e) + tail_lines;
        assert(lines.len() >= 3);
        assert(lines.skip(3) == tail_lines);
        assert(parse_hes(lines) == Some(seq![e] + items.drop_first()));
        assert(seq![e] + items.drop_first() =~= items);
    }
}

proof fn lemma_hes_lines_clean(items: Seq<HistoryEntryView>)
    ensures
        crate::codec::lines_clean(hes_lines(items)),
    decreases items.len(),
{
    if items.len() > 0 {
        let e = items[0];
        reveal_strlit("[[entry]]");
        reveal_strlit("url = \"");
        reveal_strlit("visited = ");
        assert(crate::codec::line_clean("[[entry]]"@));
        assert(crate::codec::line_clean("url = \""@));
        assert(crate::codec::line_clean("visited = "@));
        crate::codec::lemma_kv_line_clean("url = \""@, e.url);
        lemma_int_chars_clean(e.visited_at);
        assert(crate::codec::line_clean("visited = "@ + crate::codec::int_chars(e.visited_at)))
            by {
            let l = "visited = "@ + crate::codec::int_chars(e.visited_at);
            assert forall|i: int| 0 <= i < l.len() implies l[i] != '\n' by {
                if i < "visited = "@.len() {
                    assert(l[i] == "visited = "@[i]);
                } else {
                    assert(l[i] == crate::codec::int_chars(e.visited_at)[i - "visited = "@.len()]);
                }
            }
        }
        lemma_hes_lines_clean(items.drop_first());
        let a = he_lines(e);
        let b = hes_lines(items.drop_first());
        assert forall|i: int| 0 <= i < hes_lines(items).len() implies #[trigger] crate::codec::line_clean(
            hes_lines(items)[i],
        ) by {
            if i < a.len() {
                assert(hes_lines(items)[i] == a[i]);
                assert(a.len() == 3);
            } else {
                assert(hes_lines(items)[i] == b[i - a.len()]);
            }
        }
    }
}

/// The round trip: decoding the encoded text of any log yields that log
/// back, exactly.
pub proof fn lemma_hist_roundtrip(items: Seq<HistoryEntryView>)
    requires
        times_in_range(items),
    ensures
        decode_hist(encode_hist(items)) == Some(items),
{
    lemma_hes_lines_clean(items);
    crate::codec::lemma_split_join(hes_lines(items));
    lemma_parse_hes_roundtrip(items);
}

fn parse_hes_exec(lines: &Vec<Vec<char>>, i: usize) -> (r: Option<Vec<HistoryEntry>>)
    requires
        i <= lines.len(),
    ensures
        r is Some <==> parse_hes(lines.deep_view().skip(i as int)) is Some,
        r is Some ==> r->Some_0.deep_view() == parse_hes(lines.deep_view().skip(i as int))->Some_0,
    decreases lines.len() - i,
{
    let ghost dv = lines.deep_view();
    let ghost s = dv.skip(i as int);
    proof {
        assert(dv.len() == lines@.len());
        assert(forall|k: int| 0 <= k < s.len() ==> s[k] == dv[i + k]);
        assert(forall|k: int| 0 <= k < dv.len() ==> dv[k] == lines@[k]@);
    }
    if i == lines.len() {
        let es: Vec<HistoryEntry> = Vec::new();
        proof {
            assert(s.len() == 0);
            assert(es.deep_view() =~= Seq::<HistoryEntryView>::empty());
        }
        return Some(es);
    }
    if lines.len() - i < 3 {
        proof {
            assert(s.len() < 3 && s.len() > 0);
        }
        return None;
    }
    if !crate::codec::vec_eq_str(&lines[i], "[[entry]]") {
        proof {
            assert(s[0] != "[[entry]]"@);
            assert(parse_he_block(s) is None);
        }
        return None;
    }
    let url = match crate::codec::parse_kv_exec(&lines[i + 1], "url = \"") {
        Some(u) => u,
        None => {
            proof {
                assert(parse_he_block(s) is None);
            }
            return None;
        },
    };
    if !crate::codec::vec_starts_with(&lines[i + 2], "visited = ") {
        proof {
            assert(parse_he_block(s) is None);
        }
        return None;
    }
    let key = "visited = ";
    let klen = key.unicode_len();
    proof {
        assert(klen <= lines@[i as int + 2]@.len());
    }
    let at = match crate::codec::parse_i64_exec(&lines[i + 2], klen) {
        Some(v) => v,
        None => {
            proof {
                assert(parse_he_block(s) is None);
            }
            return None;
        },
    };
    let e = HistoryEntry { url, visited_at: at };
    proof {
        assert(e@ =~= parse_he_block(s)->Some_0);
        assert(s.skip(3) =~= dv.skip(i + 3));
    }
    match parse_hes_exec(lines, i + 3) {
        Some(mut es) => {
            es.insert(0, e);
            proof {
                assert(es.deep_view() =~~= seq![es@[0]@] + es.deep_view().drop_first());
            }
            Some(es)
        },
        None => None,
    }
}

proof fn lemma_adjacent_desc(items: Seq<HistoryEntryView>, i: int, j: int)
    requires
        forall|k: int|
            0 <= k < items.len() - 1 ==> (#[trigger] items[k]).visited_at >= items[k
                + 1].visited_at,
        0 <= i <= j < items.len(),
    ensures
        items[i].visited_at >= items[j].visited_at,
    decreases j - i,
{
    if i < j {
        lemma_adjacent_desc(items, i + 1, j);
    }
}

/// Whether the entries satisfy the log invariant.
fn check_wf(items: &Vec<HistoryEntry>) -> (r: bool)
    ensures
        r == hist_wf(items.deep_view()),
{
    let ghost dv = items.deep_view();
    proof {
        assert(dv.len() == items@.len());
        assert(forall|k: int| 0 <= k < dv.len() ==> dv[k] == items@[k]@);
    }
    let n = items.len();
    // ordering: adjacent pairs suffice
    let mut i: usize = 0;
    while i < n && i + 1 < n
        invariant
            n == items.len(),
            dv == items.deep_view(),
            dv.len() == n,
            i <= n,
            forall|k: int| 0 <= k < i ==> (#[trigger] dv[k]).visited_at >= dv[k + 1].visited_at,
        decreases n - i,
    {
        if items[i].visited_at < items[i + 1].visited_at {
            proof {
                assert(dv[i as int].visited_at < dv[i as int + 1].visited_at);
            }
            return false;
        }
        i += 1;
    }
    proof {
        assert forall|p: int, q: int| 0 <= p < q < dv.len() implies (#[trigger] dv[p]).visited_at
            >= (#[trigger] dv[q]).visited_at by {
            lemma_adjacent_desc(dv, p, q);
        }
    }
    // uniqueness of URLs
    let mut p: usize = 0;
    while p < n
        invariant
            n == items.len(),
            dv == items.deep_view(),
            dv.len() == n,
            p <= n,
            forall|a: int, b: int| 0 <= a < b < dv.len() && a < p ==> (#[trigger] dv[a]).url != (
            #[trigger] dv[b]).url,
        decreases n - p,
    {
        let mut q: usize = p + 1;
        while q < n
            invariant
                n == items.len(),
                dv == items.deep_view(),
                dv.len() == n,
                p < n,
                p + 1 <= q <= n,
                forall|b: int| p < b < q ==> (#[trigger] dv[b]).url != dv[p as int].url,
            decreases n - q,
        {
            if crate::codec::str_eq_str(items[p].url.as_str(), items[q].url.as_str()) {
                proof {
                    assert(dv[p as int].url == dv[q as int].url);
                }
                return false;
            }
            q += 1;
        }
        p += 1;
    }
    true
}

impl History {
    /// The persisted text of the whole log, ready to be written to disk.
    pub fn encode(&self) -> (r: String)
        ensures
            r@ == encode_hist(self@),
    {
        let mut out: Vec<char> = Vec::new();
        proof {
            assert(self.items.deep_view().skip(0) =~= self@);
        }
        push_hes(&mut out, &self.items, 0);
        crate::codec::chars_to_string(&out)
    }

    /// The log read back from persisted text; fails exactly when the text
    /// does not parse or the entries break the log invariant.
    pub fn decode(text: &str) -> (r: Result<History, crate::codec::DecodeError>)
        ensures
            match r {
                Ok(h) => decode_hist(text@) == Some(h@) && hist_wf(h@),
                Err(_) => decode_hist(text@) is None || !hist_wf(decode_hist(text@)->Some_0),
            },
    {
        let chars = crate::codec::str_chars(text);
        proof {
            assert(chars@.skip(0) =~= text@);
        }
        let lines = crate::codec::split_lines_exec(&chars, 0);
        proof {
            assert(lines.deep_view().skip(0) =~= lines.deep_view());
        }
        match parse_hes_exec(&lines, 0) {
            Some(items) => {
                if check_wf(&items) {
                    Ok(History { items })
                } else {
                    Err(crate::codec::DecodeError)
                }
            },
            None => Err(crate::codec::DecodeError),
        }
    }
}

fn push_he_block(out: &mut Vec<char>, e: &HistoryEntry)
    ensures
        final(out)@ == old(out)@ + crate::codec::join_lines(he_lines(e@)),
{
    crate::codec::append_str(out, "[[entry]]");
    out.push('\n');
    crate::codec::push_kv_line(out, "url = \"", e.url.as_str());
    crate::codec::append_str(out, "visited = ");
    crate::codec::push_i64(out, e.visited_at);
    out.push('\n');
    proof {
        let ls = he_lines(e@);
        let nl = seq!['\n'];
        assert(ls.len() == 3);
        let l2 = ls.drop_first();
        let l1 = l2.drop_first();
        assert(l1.drop_first() =~= Seq::<Seq<char>>::empty());
        assert(crate::codec::join_lines(Seq::<Seq<char>>::empty()) =~= Seq::<char>::empty());
        assert(l1[0] == ls[2] && l2[0] == ls[1]);
        assert(crate::codec::join_lines(l1) =~= ls[2] + nl);
        assert(crate::codec::join_lines(l2) =~= ls[1] + nl + (ls[2] + nl));
        assert(crate::codec::join_lines(ls) =~= ls[0] + nl + (ls[1] + nl + (ls[2] + nl)));
        assert(final(out)@ =~= old(out)@ + crate::codec::join_lines(ls));
    }
}

fn push_hes(out: &mut Vec<char>, items: &Vec<HistoryEntry>, i: usize)
    requires
        i <= items.len(),
    ensures
        final(out)@ == old(out)@ + crate::codec::join_lines(
            hes_lines(items.deep_view().skip(i as int)),
        ),
    decreases items.len() - i,
{
    let ghost rest = items.deep_view().skip(i as int);
    proof {
        assert(items.deep_view().len() == items@.len());
    }
    if i == items.len() {
        proof {
            assert(rest.len() == 0);
            assert(hes_lines(rest).len() == 0);
            assert(old(out)@ + crate::codec::join_lines(hes_lines(rest)) =~= old(out)@);
        }
        return ;
    }
    proof {
        assert(rest[0] == items.deep_view()[i as int]);
        assert(items.deep_view()[i as int] == items@[i as int]@);
        assert(rest.drop_first() =~= items.deep_view().skip(i + 1));
    }
    push_he_block(out, &items[i]);
    push_hes(out, items, i + 1);
    proof {
        crate::codec::lemma_join_concat(he_lines(rest[0]), hes_lines(rest.drop_first()));
        assert(hes_lines(rest) == he_lines(rest[0]) + hes_lines(rest.drop_first()));
        assert(final(out)@ =~= old(out)@ + crate::codec::join_lines(hes_lines(rest)));
    }
}

// ---------------------------------------------------------------------------
// The locked read-modify-write step, on text
// ---------------------------------------------------------------------------

/// One append as the locked read-modify-write performs it on the backing
/// file's text: decode (or start empty when no file exists yet), insert the
/// visit, bound the log, encode.  The caller holds the lock and does the
/// actual file I/O around this.
pub fn append_encoded(existing: Option<&str>, url: &str, at: i64, max: usize) -> (r: Result<
    String,
    crate::codec::DecodeError,
>)
    ensures
        match existing {
            Some(t) => {
                &&& (r is Ok <==> (decode_hist(t@) is Some && hist_wf(decode_hist(t@)->Some_0)))
                &&& (r is Ok ==> r->Ok_0@ == encode_hist(
                    merged(decode_hist(t@)->Some_0, url@, at as int, max as int),
                ))
            },
            None => r is Ok && r->Ok_0@ == encode_hist(
                merged(Seq::empty(), url@, at as int, max as int),
            ),
        },
{
    let mut h: History = match existing {
        Some(t) => {
            match History::decode(t) {
                Ok(h) => h,
                Err(e) => {
                    return Err(e);
                },
            }
        },
        None => {
            let h = History { items: Vec::new() };
            proof {
                assert(h@ =~= Seq::<HistoryEntryView>::empty());
            }
            h
        },
    };
    h.append_at(url, at);
    h.truncate(max);
    Ok(h.encode())
}

// ---------------------------------------------------------------------------
// The log laws
// ---------------------------------------------------------------------------

proof fn lemma_time_of_first(items: Seq<HistoryEntryView>, url: Seq<char>, k: int)
    requires
        0 <= k < items.len(),
        items[k].url == url,
        forall|j: int| 0 <= j < k ==> (#[trigger] items[j]).url != url,
    ensures
        time_of(items, url) == Some(items[k].visited_at),
    decreases k,
{
    if k > 0 {
        assert(forall|j: int|
            0 <= j < k - 1 ==> (#[trigger] items.drop_first()[j]) == items[j + 1]);
        lemma_time_of_first(items.drop_first(), url, k - 1);
    }
}

/// Appending records exactly the URLs that were there plus the new one.
pub proof fn lemma_append_present(
    items: Seq<HistoryEntryView>,
    url: Seq<char>,
    at: int,
    u: Seq<char>,
)
    ensures
        url_present(spec_append(items, url, at), u) <==> (url_present(items, u) || u == url),
{
    lemma_drop_url_props(items, url);
    let d = drop_url(items, url);
    let e = HistoryEntryView { url, visited_at: at };
    lemma_insert_desc_props(d, e);
    let r = spec_append(items, url, at);
    if url_present(r, u) {
        let k = choose|k: int| 0 <= k < r.len() && r[k].url == u;
        if r[k] == e {
        } else {
            assert(d.contains(r[k]));
            let q = choose|q: int| 0 <= q < d.len() && d[q] == r[k];
            assert(items.contains(d[q]));
            let w = choose|w: int| 0 <= w < items.len() && items[w] == d[q];
            assert(url_present(items, u)) by {
                assert(items[w].url == u);
            }
        }
    }
    if u == url {
        assert(r.contains(e));
        let k = choose|k: int| 0 <= k < r.len() && r[k] == e;
        assert(url_present(r, u)) by {
            assert(r[k].url == u);
        }
    }
    if url_present(items, u) && u != url {
        let k = choose|k: int| 0 <= k < items.len() && items[k].url == u;
        assert(items.contains(items[k]));
        assert(d.contains(items[k]));
        assert(r.contains(items[k]));
        let q = choose|q: int| 0 <= q < r.len() && r[q] == items[k];
        assert(url_present(r, u)) by {
            assert(r[q].url == u);
        }
    }
}

/// Re-visiting a URL already in the log updates its timestamp and moves it
/// to the front of recency order, without duplication and keeping every
/// other URL.
pub proof fn lemma_revisit_moves_front(items: Seq<HistoryEntryView>, url: Seq<char>, at: int)
    requires
        hist_wf(items),
        url_present(items, url),
        forall|i: int|
            0 <= i < items.len() && (#[trigger] items[i]).url != url ==> items[i].visited_at < at,
    ensures
        ({
            let r = spec_append(items, url, at);
            &&& r.len() >= 1
            &&& r[0] == (HistoryEntryView { url, visited_at: at })
            &&& hist_wf(r)
            &&& forall|u: Seq<char>|
                #[trigger] url_present(r, u) <==> (url_present(items, u) || u == url)
        }),
{
    lemma_drop_url_props(items, url);
    let d = drop_url(items, url);
    let e = HistoryEntryView { url, visited_at: at };
    let r = spec_append(items, url, at);
    if d.len() > 0 {
        assert(d[0].url != url && items.contains(d[0])) by {
            assert(d.contains(d[0]));
        }
        let w = choose|w: int| 0 <= w < items.len() && items[w] == d[0];
        assert(d[0].visited_at < at);
        assert(r == seq![e] + d);
    } else {
        assert(r == seq![e]);
    }
    assert(r[0] == e);
    lemma_append_wf(items, url, at);
    assert forall|u: Seq<char>| #[trigger] url_present(r, u) <==> (url_present(items, u) || u
        == url) by {
        lemma_append_present(items, url, at, u);
    }
}

/// A whole run of locked appends, each one bounding the log to `max`.
pub open spec fn apply_merges(
    items: Seq<HistoryEntryView>,
    ops: Seq<HistoryEntryView>,
    max: int,
) -> Seq<HistoryEntryView>
    decreases ops.len(),
{
    if ops.len() == 0 {
        items
    } else {
        apply_merges(merged(items, ops[0].url, ops[0].visited_at, max), ops.drop_first(), max)
    }
}

proof fn lemma_apply_merges_gen(
    items: Seq<HistoryEntryView>,
    ops: Seq<HistoryEntryView>,
    max: int,
)
    requires
        max >= 1,
        items.len() <= max,
        hist_wf(items),
        forall|i: int, j: int|
            0 <= i < j < ops.len() ==> (#[trigger] ops[i]).url != (#[trigger] ops[j]).url,
        forall|i: int, j: int|
            0 <= i < j < ops.len() ==> (#[trigger] ops[i]).visited_at < (
            #[trigger] ops[j]).visited_at,
        forall|i: int, a: int|
            0 <= i < ops.len() && 0 <= a < items.len() ==> (#[trigger] ops[i]).visited_at > (
            #[trigger] items[a]).visited_at,
        forall|i: int, a: int|
            0 <= i < ops.len() && 0 <= a < items.len() ==> (#[trigger] ops[i]).url != (
            #[trigger] items[a]).url,
    ensures
        ({
            let r = apply_merges(items, ops, max);
            &&& r.len() == if items.len() + ops.len() <= max {
                items.len() + ops.len() as int
            } else {
                max
            }
            &&& forall|k: int|
                0 <= k < r.len() && k < ops.len() ==> (#[trigger] r[k]) == ops[ops.len() - 1 - k]
            &&& forall|k: int|
                ops.len() <= k < r.len() ==> (#[trigger] r[k]) == items[k - ops.len()]
        }),
    decreases ops.len(),
{
    let r = apply_merges(items, ops, max);
    if ops.len() == 0 {
    } else {
        let e0 = ops[0];
        // the fresh entry lands at the front, nothing else moves
        assert(!url_present(items, e0.url)) by {
            if url_present(items, e0.url) {
                let a = choose|a: int| 0 <= a < items.len() && items[a].url == e0.url;
            }
        }
        lemma_drop_url_props(items, e0.url);
        assert(drop_url(items, e0.url) == items);
        let a1 = spec_append(items, e0.url, e0.visited_at);
        assert(a1 == insert_desc(items, HistoryEntryView { url: e0.url, visited_at: e0.visited_at }));
        assert(HistoryEntryView { url: e0.url, visited_at: e0.visited_at } =~= e0);
        if items.len() > 0 {
            assert(items[0].visited_at < e0.visited_at);
            assert(a1 == seq![e0] + items);
        } else {
            assert(a1 == seq![e0]);
            assert(a1 =~= seq![e0] + items);
        }
        lemma_append_wf(items, e0.url, e0.visited_at);
        lemma_truncate_wf(a1, max);
        let items1 = merged(items, e0.url, e0.visited_at, max);
        assert(items1.len() == if items.len() + 1 <= max {
            items.len() + 1int
        } else {
            max
        });
        assert(forall|k: int| 0 <= k < items1.len() ==> (#[trigger] items1[k]) == a1[k]);
        assert(items1[0] == e0);
        assert(forall|k: int| 1 <= k < items1.len() ==> (#[trigger] items1[k]) == items[k - 1]);
        // the remaining ops against the grown log
        let ops1 = ops.drop_first();
        assert(forall|j: int| 0 <= j < ops1.len() ==> (#[trigger] ops1[j]) == ops[j + 1]);
        assert forall|i: int, a: int|
            0 <= i < ops1.len() && 0 <= a < items1.len() implies (#[trigger] ops1[i]).visited_at
            > (#[trigger] items1[a]).visited_at && ops1[i].url != items1[a].url by {
            if a == 0 {
                assert(items1[a] == e0);
                assert(ops1[i] == ops[i + 1]);
            } else {
                assert(items1[a] == items[a - 1]);
            }
        }
        lemma_apply_merges_gen(items1, ops1, max);
        assert(r == apply_merges(items1, ops1, max));
        // stitch the two characterisations together
        assert forall|k: int| 0 <= k < r.len() && k < ops.len() implies (#[trigger] r[k]) == ops[
        ops.len() - 1 - k] by {
            if k < ops1.len() {
                assert(r[k] == ops1[ops1.len() - 1 - k]);
                assert(ops1[ops1.len() - 1 - k] == ops[ops.len() - 1 - k]);
            } else {
                assert(k == ops1.len());
                assert(r[k] == items1[k - ops1.len()]);
                assert(items1[0] == e0);
            }
        }
        assert forall|k: int| ops.len() <= k < r.len() implies (#[trigger] r[k]) == items[k
            - ops.len()] by {
            assert(r[k] == items1[k - ops1.len()]);
            assert(items1[k - ops1.len()] == items[k - ops1.len() - 1]);
        }
    }
}

/// Bounded monotonicity: after a run of appends of distinct URLs with ever
/// newer visit times onto an empty log bounded to `max`, the log holds
/// exactly the `max` most recently appended entries (all of them while they
/// still fit), newest first.
pub proof fn lemma_bounded_appends(ops: Seq<HistoryEntryView>, max: int)
    requires
        max >= 1,
        forall|i: int, j: int|
            0 <= i < j < ops.len() ==> (#[trigger] ops[i]).url != (#[trigger] ops[j]).url,
        forall|i: int, j: int|
            0 <= i < j < ops.len() ==> (#[trigger] ops[i]).visited_at < (
            #[trigger] ops[j]).visited_at,
    ensures
        ({
            let r = apply_merges(Seq::empty(), ops, max);
            &&& r.len() == if ops.len() <= max {
                ops.len() as int
            } else {
                max as int
            }
            &&& forall|k: int| 0 <= k < r.len() ==> (#[trigger] r[k]) == ops[ops.len() - 1 - k]
        }),
{
    let items = Seq::<HistoryEntryView>::empty();
    assert(hist_wf(items));
    lemma_apply_merges_gen(items, ops, max);
    let r = apply_merges(items, ops, max);
    assert forall|k: int| 0 <= k < r.len() implies (#[trigger] r[k]) == ops[ops.len() - 1 - k] by {
        assert(k < ops.len());
    }
}

/// Two locked appends in sequence never lose an update: with room for both,
/// the final log records both URLs with their own timestamps.
pub proof fn lemma_two_appends(
    items: Seq<HistoryEntryView>,
    u1: Seq<char>,
    t1: int,
    u2: Seq<char>,
    t2: int,
    max: int,
)
    requires
        hist_wf(items),
        u1 != u2,
        t1 <= t2,
        max >= 2,
        forall|i: int| 0 <= i < items.len() ==> (#[trigger] items[i]).visited_at < t1,
    ensures
        ({
            let l2 = merged(merged(items, u1, t1, max), u2, t2, max);
            &&& hist_wf(l2)
            &&& time_of(l2, u1) == Some(t1)
            &&& time_of(l2, u2) == Some(t2)
        }),
{
    let e1 = HistoryEntryView { url: u1, visited_at: t1 };
    let e2 = HistoryEntryView { url: u2, visited_at: t2 };
    // first append: e1 lands at the front
    lemma_drop_url_props(items, u1);
    let d1 = drop_url(items, u1);
    assert(forall|i: int|
        0 <= i < d1.len() ==> (#[trigger] d1[i]).url != u1 && (#[trigger] d1[i]).visited_at
            < t1) by {
        assert forall|i: int|
            0 <= i < d1.len() implies (#[trigger] d1[i]).url != u1 && d1[i].visited_at < t1 by {
            assert(d1.contains(d1[i]));
            let w = choose|w: int| 0 <= w < items.len() && items[w] == d1[i];
        }
    }
    let a1 = spec_append(items, u1, t1);
    assert(a1 == if d1.len() > 0 && d1[0].visited_at < t1 {
        seq![e1] + d1
    } else {
        insert_desc(d1, e1)
    });
    if d1.len() > 0 {
        assert(a1 == seq![e1] + d1);
    } else {
        assert(a1 == seq![e1]);
    }
    assert(a1[0] == e1);
    lemma_append_wf(items, u1, t1);
    lemma_truncate_wf(a1, max);
    let l1 = merged(items, u1, t1, max);
    assert(l1.len() >= 1 && l1[0] == e1);
    assert(hist_wf(l1));
    assert(forall|i: int|
        0 <= i < l1.len() ==> (#[trigger] l1[i]) == e1 || ((#[trigger] l1[i]).url != u1 && (
        #[trigger] l1[i]).visited_at < t1)) by {
        assert forall|i: int| 0 <= i < l1.len() implies (#[trigger] l1[i]) == e1 || (l1[i].url != u1
            && l1[i].visited_at < t1) by {
            assert(l1[i] == a1[i]);
            if i > 0 {
                assert(a1[i] == d1[i - 1]);
            }
        }
    }
    // second append: e2 lands at the front or right after e1
    lemma_drop_url_props(l1, u2);
    let d2 = drop_url(l1, u2);
    assert(l1[0].url == u1);
    assert(l1[0].url != u2);
    assert(d2[0] == e1 && d2.len() >= 1) by {
        assert(d2 == seq![l1[0]] + drop_url(l1.drop_first(), u2));
    }
    assert(forall|i: int|
        0 <= i < d2.len() ==> (#[trigger] d2[i]) == e1 || ((#[trigger] d2[i]).url != u1 && (
        #[trigger] d2[i]).visited_at < t1)) by {
        assert forall|i: int| 0 <= i < d2.len() implies (#[trigger] d2[i]) == e1 || (d2[i].url != u1
            && d2[i].visited_at < t1) by {
            assert(d2.contains(d2[i]));
            let w = choose|w: int| 0 <= w < l1.len() && l1[w] == d2[i];
        }
    }
    let a2 = spec_append(l1, u2, t2);
    lemma_append_wf(l1, u2, t2);
    lemma_truncate_wf(a2, max);
    let l2 = merged(l1, u2, t2, max);
    assert(hist_wf(l2));
    if t1 < t2 {
        // e2 strictly newer: it goes first, e1 second
        assert(a2 == seq![e2] + d2);
        assert(a2[0] == e2 && a2[1] == e1);
        assert(a2.len() >= 2);
        assert(l2[0] == e2 && l2[1] == e1);
        assert(l2.len() >= 2);
        lemma_time_of_first(l2, u2, 0);
        lemma_time_of_first(l2, u1, 1);
    } else {
        // equal times: e1 keeps the front, e2 goes right after it
        assert(t1 == t2);
        assert(d2[0].visited_at >= t2);
        assert(a2 == seq![d2[0]] + insert_desc(d2.drop_first(), e2));
        assert(forall|i: int|
            0 <= i < d2.drop_first().len() ==> (#[trigger] d2.drop_first()[i]) == d2[i + 1]);
        if d2.len() > 1 {
            assert(d2[1].visited_at < t1) by {
                assert(d2[1] != e1);
            }
            assert(insert_desc(d2.drop_first(), e2) == seq![e2] + d2.drop_first()) by {
                assert(d2.drop_first()[0] == d2[1]);
            }
        } else {
            assert(d2.drop_first().len() == 0);
            assert(insert_desc(d2.drop_first(), e2) == seq![e2]);
        }
        assert(a2[0] == e1 && a2[1] == e2);
        assert(a2.len() >= 2);
        assert(l2[0] == e1 && l2[1] == e2);
        assert(l2.len() >= 2);
        lemma_time_of_first(l2, u1, 0);
        lemma_time_of_first(l2, u2, 1);
    }
}

} // verus!

