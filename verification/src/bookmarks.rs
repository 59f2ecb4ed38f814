//! The bookmark store: a table of bookmarks keyed by URL together with a
//! derived tag index, kept consistent by `update`.

use vstd::prelude::*;

verus! {

// ---------------------------------------------------------------------------
// Data model
// ---------------------------------------------------------------------------

/// One bookmark: a name, an optional description, the URL that keys it, and
/// an ordered list of tags.
pub struct Bookmark {
    pub name: String,
    pub description: Option<String>,
    pub url: String,
    pub tags: Vec<String>,
}

/// The mathematical value of a [`Bookmark`].
#[verifier::ext_equal]
pub ghost struct BookmarkView {
    pub name: Seq<char>,
    pub description: Option<Seq<char>>,
    pub url: Seq<char>,
    pub tags: Seq<Seq<char>>,
}

impl View for Bookmark {
    type V = BookmarkView;

    open spec fn view(&self) -> BookmarkView {
        BookmarkView {
            name: self.name@,
            description: match self.description {
                Some(d) => Some(d@),
                None => None,
            },
            url: self.url@,
            tags: self.tags.deep_view(),
        }
    }
}

impl DeepView for Bookmark {
    type V = BookmarkView;

    open spec fn deep_view(&self) -> BookmarkView {
        self.view()
    }
}

/// One entry of the tag index: a tag name and the URLs carrying it.
pub struct TagEntry {
    pub tag: String,
    pub urls: Vec<String>,
}

/// The mathematical value of a [`TagEntry`].
#[verifier::ext_equal]
pub ghost struct TagEntryView {
    pub tag: Seq<char>,
    pub urls: Seq<Seq<char>>,
}

impl View for TagEntry {
    type V = TagEntryView;

    open spec fn view(&self) -> TagEntryView {
        TagEntryView { tag: self.tag@, urls: self.urls.deep_view() }
    }
}

impl DeepView for TagEntry {
    type V = TagEntryView;

    open spec fn deep_view(&self) -> TagEntryView {
        self.view()
    }
}

/// The bookmark store: every bookmark, keyed by URL, plus the tag index.
pub struct Bookmarks {
    pub all: Vec<Bookmark>,
    pub tags: Vec<TagEntry>,
}

/// The mathematical value of the whole store.
#[verifier::ext_equal]
pub ghost struct StoreView {
    pub all: Seq<BookmarkView>,
    pub tags: Seq<TagEntryView>,
}

impl View for Bookmarks {
    type V = StoreView;

    open spec fn view(&self) -> StoreView {
        StoreView { all: self.all.deep_view(), tags: self.tags.deep_view() }
    }
}

// ---------------------------------------------------------------------------
// Lookup functions (first match)
// ---------------------------------------------------------------------------

/// The bookmark stored under `url`, if any.
pub open spec fn lookup_all(all: Seq<BookmarkView>, url: Seq<char>) -> Option<BookmarkView>
    decreases all.len(),
{
    if all.len() == 0 {
        None
    } else if all[0].url == url {
        Some(all[0])
    } else {
        lookup_all(all.drop_first(), url)
    }
}

/// The URL list indexed under the tag `t`, if any.
pub open spec fn lookup_tag(tags: Seq<TagEntryView>, t: Seq<char>) -> Option<Seq<Seq<char>>>
    decreases tags.len(),
{
    if tags.len() == 0 {
        None
    } else if tags[0].tag == t {
        Some(tags[0].urls)
    } else {
        lookup_tag(tags.drop_first(), t)
    }
}

/// No two bookmarks share a URL.
pub open spec fn urls_distinct(all: Seq<BookmarkView>) -> bool
    decreases all.len(),
{
    if all.len() == 0 {
        true
    } else {
        lookup_all(all.drop_first(), all[0].url) is None && urls_distinct(all.drop_first())
    }
}

/// No two index entries share a tag name.
pub open spec fn tags_distinct(tags: Seq<TagEntryView>) -> bool
    decreases tags.len(),
{
    if tags.len() == 0 {
        true
    } else {
        lookup_tag(tags.drop_first(), tags[0].tag) is None && tags_distinct(tags.drop_first())
    }
}

/// No string occurs twice in the list.
pub open spec fn list_distinct(vs: Seq<Seq<char>>) -> bool {
    forall|p: int, q: int| 0 <= p < q < vs.len() ==> vs[p] != vs[q]
}

// ---------------------------------------------------------------------------
// Well-formedness: the tag-index invariant
// ---------------------------------------------------------------------------

/// One URL list of the index is sound with respect to the bookmark table:
/// non-empty, duplicate-free, and every URL in it belongs to a stored
/// bookmark that carries the tag.
pub open spec fn entry_ok(all: Seq<BookmarkView>, t: Seq<char>, urls: Seq<Seq<char>>) -> bool {
    &&& urls.len() > 0
    &&& list_distinct(urls)
    &&& forall|p: int|
        0 <= p < urls.len() ==> {
            &&& lookup_all(all, #[trigger] urls[p]) is Some
            &&& lookup_all(all, urls[p])->Some_0.tags.contains(t)
        }
}

/// The store invariant: URLs and tag names are unique keys, every tag list
/// is sound, and every tag of every bookmark is indexed.
pub open spec fn wf(s: StoreView) -> bool {
    &&& urls_distinct(s.all)
    &&& tags_distinct(s.tags)
    &&& forall|t: Seq<char>|
        #[trigger] lookup_tag(s.tags, t) is Some ==> entry_ok(s.all, t, lookup_tag(s.tags, t)->Some_0)
    &&& forall|u: Seq<char>, k: int|
        #[trigger] lookup_all(s.all, u) is Some && 0 <= k < lookup_all(s.all, u)->Some_0.tags.len()
            ==> {
            let t = #[trigger] lookup_all(s.all, u)->Some_0.tags[k];
            &&& lookup_tag(s.tags, t) is Some
            &&& lookup_tag(s.tags, t)->Some_0.contains(u)
        }
}

// ---------------------------------------------------------------------------
// The upsert, as a mathematical function
// ---------------------------------------------------------------------------

/// Inserts or replaces a bookmark in the table, keyed by its URL.
pub open spec fn upsert_all(all: Seq<BookmarkView>, b: BookmarkView) -> Seq<BookmarkView>
    decreases all.len(),
{
    if all.len() == 0 {
        seq![b]
    } else if all[0].url == b.url {
        seq![b] + all.drop_first()
    } else {
        seq![all[0]] + upsert_all(all.drop_first(), b)
    }
}

/// All occurrences of `url` removed from the list.
pub open spec fn remove_str(urls: Seq<Seq<char>>, url: Seq<char>) -> Seq<Seq<char>>
    decreases urls.len(),
{
    if urls.len() == 0 {
        Seq::empty()
    } else if urls[0] == url {
        remove_str(urls.drop_first(), url)
    } else {
        seq![urls[0]] + remove_str(urls.drop_first(), url)
    }
}

/// One index entry reconciled against the upserted bookmark: its URL is
/// added if the bookmark now carries the tag, and removed if it does not.
pub open spec fn upd_entry(e: TagEntryView, b: BookmarkView) -> TagEntryView {
    if b.tags.contains(e.tag) {
        if e.urls.contains(b.url) {
            e
        } else {
            TagEntryView { tag: e.tag, urls: e.urls.push(b.url) }
        }
    } else {
        TagEntryView { tag: e.tag, urls: remove_str(e.urls, b.url) }
    }
}

/// Every existing index entry reconciled; entries whose URL list becomes
/// empty are dropped.
pub open spec fn upd_tags(tags: Seq<TagEntryView>, b: BookmarkView) -> Seq<TagEntryView>
    decreases tags.len(),
{
    if tags.len() == 0 {
        Seq::empty()
    } else {
        let e = upd_entry(tags[0], b);
        (if e.urls.len() > 0 {
            seq![e]
        } else {
            Seq::<TagEntryView>::empty()
        }) + upd_tags(tags.drop_first(), b)
    }
}

/// Walks the tags of the upserted bookmark in order and appends a fresh
/// one-URL entry for every tag the index does not hold yet.
pub open spec fn add_new_entries(
    cur: Seq<TagEntryView>,
    ts: Seq<Seq<char>>,
    url: Seq<char>,
) -> Seq<TagEntryView>
    decreases ts.len(),
{
    if ts.len() == 0 {
        cur
    } else {
        let t = ts[0];
        if lookup_tag(cur, t) is Some {
            add_new_entries(cur, ts.drop_first(), url)
        } else {
            add_new_entries(
                cur.push(TagEntryView { tag: t, urls: seq![url] }),
                ts.drop_first(),
                url,
            )
        }
    }
}

/// The whole upsert: replace in the table, reconcile every known tag, then
/// create entries for tags seen for the first time.
pub open spec fn spec_upsert(s: StoreView, b: BookmarkView) -> StoreView {
    StoreView {
        all: upsert_all(s.all, b),
        tags: add_new_entries(upd_tags(s.tags, b), b.tags, b.url),
    }
}

/// The URL list the upserted store's index holds for tag `t`, written out
/// directly: the old list with the bookmark's URL added or removed as the
/// bookmark does or does not carry `t`, empty lists dropped.
pub open spec fn expected_tag(s: StoreView, b: BookmarkView, t: Seq<char>) -> Option<
    Seq<Seq<char>>,
> {
    if b.tags.contains(t) {
        match lookup_tag(s.tags, t) {
            Some(urls) => Some(
                if urls.contains(b.url) {
                    urls
                } else {
                    urls.push(b.url)
                },
            ),
            None => Some(seq![b.url]),
        }
    } else {
        match lookup_tag(s.tags, t) {
            Some(urls) => {
                let r = remove_str(urls, b.url);
                if r.len() > 0 {
                    Some(r)
                } else {
                    None
                }
            },
            None => None,
        }
    }
}

// ---------------------------------------------------------------------------
// Characterisation of the upsert
// ---------------------------------------------------------------------------

/// What the table looks up after an upsert: the new bookmark under its URL,
/// everything else unchanged.
pub proof fn lemma_lookup_upsert_all(all: Seq<BookmarkView>, b: BookmarkView, u: Seq<char>)
    ensures
        lookup_all(upsert_all(all, b), u) == if u == b.url {
            Some(b)
        } else {
            lookup_all(all, u)
        },
    decreases all.len(),
{
    assert(lookup_all(Seq::<BookmarkView>::empty(), u) is None);
    if all.len() == 0 {
        let r = upsert_all(all, b);
        assert(r == seq![b]);
        assert(r.drop_first() =~= Seq::<BookmarkView>::empty());
    } else if all[0].url == b.url {
        let r = seq![b] + all.drop_first();
        assert(r[0] == b);
        assert(r.drop_first() =~= all.drop_first());
    } else {
        lemma_lookup_upsert_all(all.drop_first(), b, u);
        let r = seq![all[0]] + upsert_all(all.drop_first(), b);
        assert(r[0] == all[0]);
        assert(r.drop_first() =~= upsert_all(all.drop_first(), b));
    }
}

/// Upserting keeps URLs unique.
pub proof fn lemma_upsert_all_distinct(all: Seq<BookmarkView>, b: BookmarkView)
    requires
        urls_distinct(all),
    ensures
        urls_distinct(upsert_all(all, b)),
    decreases all.len(),
{
    assert(urls_distinct(Seq::<BookmarkView>::empty()));
    assert(lookup_all(Seq::<BookmarkView>::empty(), b.url) is None);
    if all.len() == 0 {
        let r = upsert_all(all, b);
        assert(r.drop_first() =~= Seq::<BookmarkView>::empty());
        assert(urls_distinct(r));
    } else if all[0].url == b.url {
        let r = seq![b] + all.drop_first();
        assert(r.drop_first() =~= all.drop_first());
        assert(lookup_all(all.drop_first(), all[0].url) is None);
        assert(urls_distinct(r));
    } else {
        lemma_upsert_all_distinct(all.drop_first(), b);
        let r = seq![all[0]] + upsert_all(all.drop_first(), b);
        assert(r.drop_first() =~= upsert_all(all.drop_first(), b));
        lemma_lookup_upsert_all(all.drop_first(), b, all[0].url);
        assert(lookup_all(upsert_all(all.drop_first(), b), all[0].url) is None);
        assert(urls_distinct(r));
    }
}

/// Membership and shape of a list with one URL filtered out.
pub proof fn lemma_remove_str_props(urls: Seq<Seq<char>>, url: Seq<char>)
    ensures
        forall|x: Seq<char>|
            #[trigger] remove_str(urls, url).contains(x) <==> (urls.contains(x) && x != url),
        list_distinct(urls) ==> list_distinct(remove_str(urls, url)),
        !urls.contains(url) ==> remove_str(urls, url) == urls,
    decreases urls.len(),
{
    if urls.len() == 0 {
        assert(remove_str(urls, url) =~= urls);
        assert(forall|x: Seq<char>| !urls.contains(x));
    } else {
        let tail = urls.drop_first();
        lemma_remove_str_props(tail, url);
        assert(forall|x: Seq<char>|
            #[trigger] urls.contains(x) <==> (urls[0] == x || tail.contains(x))) by {
            assert(forall|x: Seq<char>| #[trigger] tail.contains(x) ==> urls.contains(x));
            assert forall|x: Seq<char>| #[trigger] urls.contains(x) implies (urls[0] == x
                || tail.contains(x)) by {
                let i = choose|i: int| 0 <= i < urls.len() && urls[i] == x;
                if i > 0 {
                    assert(tail[i - 1] == x);
                }
            }
        }
        if urls[0] == url {
            assert(remove_str(urls, url) == remove_str(tail, url));
            assert(urls.contains(url));
        } else {
            let r = seq![urls[0]] + remove_str(tail, url);
            assert(remove_str(urls, url) == r);
            assert(r[0] == urls[0]);
            assert(r.drop_first() =~= remove_str(tail, url));
            assert(forall|x: Seq<char>|
                #[trigger] r.contains(x) <==> (urls[0] == x || remove_str(tail, url).contains(
                    x,
                ))) by {
                assert(forall|x: Seq<char>|
                    #[trigger] r.drop_first().contains(x) ==> r.contains(x));
                assert(r.contains(r[0]));
                assert forall|x: Seq<char>| #[trigger] r.contains(x) implies (urls[0] == x
                    || remove_str(tail, url).contains(x)) by {
                    let i = choose|i: int| 0 <= i < r.len() && r[i] == x;
                    if i > 0 {
                        assert(r.drop_first()[i - 1] == x);
                    }
                }
            }
            if list_distinct(urls) {
                assert(list_distinct(tail)) by {
                    assert(forall|p: int, q: int|
                        0 <= p < q < tail.len() ==> tail[p] == urls[p + 1] && tail[q] == urls[q
                            + 1]);
                }
                assert(!tail.contains(urls[0])) by {
                    if tail.contains(urls[0]) {
                        let i = choose|i: int| 0 <= i < tail.len() && tail[i] == urls[0];
                        assert(urls[i + 1] == urls[0]);
                    }
                }
                assert(list_distinct(r)) by {
                    assert(list_distinct(remove_str(tail, url)));
                    assert(!remove_str(tail, url).contains(urls[0]));
                    assert(forall|p: int, q: int|
                        0 < p < q < r.len() ==> r[p] == remove_str(tail, url)[p - 1] && r[q]
                            == remove_str(tail, url)[q - 1]);
                    assert forall|q: int| 0 < q < r.len() implies r[0] != #[trigger] r[q] by {
                        assert(r.drop_first().contains(r.drop_first()[q - 1]));
                    }
                }
            }
            if !urls.contains(url) {
                assert(!tail.contains(url));
                assert(r =~= urls);
            }
        }
    }
}

/// A tag lookup across a concatenation tries the front first.
pub proof fn lemma_lookup_tag_concat(a: Seq<TagEntryView>, b: Seq<TagEntryView>, t: Seq<char>)
    ensures
        lookup_tag(a + b, t) == if lookup_tag(a, t) is Some {
            lookup_tag(a, t)
        } else {
            lookup_tag(b, t)
        },
    decreases a.len(),
{
    if a.len() == 0 {
        assert(a + b =~= b);
    } else {
        lemma_lookup_tag_concat(a.drop_first(), b, t);
        assert((a + b)[0] == a[0]);
        assert((a + b).drop_first() =~= a.drop_first() + b);
    }
}

/// What the index looks up after the reconciliation pass alone, before any
/// fresh entries are appended.
pub proof fn lemma_upd_tags_lookup(tags: Seq<TagEntryView>, b: BookmarkView, t: Seq<char>)
    requires
        tags_distinct(tags),
    ensures
        lookup_tag(upd_tags(tags, b), t) == match lookup_tag(tags, t) {
            Some(urls) => {
                let e = upd_entry(TagEntryView { tag: t, urls }, b);
                if e.urls.len() > 0 {
                    Some(e.urls)
                } else {
                    None
                }
            },
            None => None,
        },
    decreases tags.len(),
{
    if tags.len() == 0 {
    } else {
        let e0 = upd_entry(tags[0], b);
        let head: Seq<TagEntryView> = if e0.urls.len() > 0 {
            seq![e0]
        } else {
            Seq::empty()
        };
        let rest = upd_tags(tags.drop_first(), b);
        assert(upd_tags(tags, b) == head + rest);
        lemma_upd_tags_lookup(tags.drop_first(), b, t);
        lemma_lookup_tag_concat(head, rest, t);
        assert(e0.tag == tags[0].tag);
        if tags[0].tag == t {
            assert(lookup_tag(tags, t) == Some(tags[0].urls));
            assert(e0 == upd_entry(TagEntryView { tag: t, urls: tags[0].urls }, b));
            if e0.urls.len() > 0 {
                assert(head[0] == e0);
                assert(lookup_tag(head, t) == Some(e0.urls)) by {
                    assert(head.drop_first() =~= Seq::<TagEntryView>::empty());
                }
            } else {
                assert(lookup_tag(tags.drop_first(), t) is None);
            }
        } else {
            if e0.urls.len() > 0 {
                assert(lookup_tag(head, t) is None) by {
                    assert(head.drop_first() =~= Seq::<TagEntryView>::empty());
                    assert(lookup_tag(Seq::<TagEntryView>::empty(), t) is None);
                }
            }
            assert(lookup_tag(tags, t) == lookup_tag(tags.drop_first(), t));
        }
    }
}

/// The reconciliation pass keeps tag names unique.
pub proof fn lemma_upd_tags_distinct(tags: Seq<TagEntryView>, b: BookmarkView)
    requires
        tags_distinct(tags),
    ensures
        tags_distinct(upd_tags(tags, b)),
    decreases tags.len(),
{
    if tags.len() > 0 {
        let e0 = upd_entry(tags[0], b);
        let rest = upd_tags(tags.drop_first(), b);
        lemma_upd_tags_distinct(tags.drop_first(), b);
        if e0.urls.len() > 0 {
            let r = seq![e0] + rest;
            assert(upd_tags(tags, b) == r);
            lemma_upd_tags_lookup(tags.drop_first(), b, e0.tag);
            assert(lookup_tag(tags.drop_first(), e0.tag) is None);
            assert(r[0] == e0);
            assert(r.drop_first() =~= rest);
        } else {
            assert(upd_tags(tags, b) =~= rest);
        }
    }
}

/// A lookup after pushing one entry at the back: the old entries win.
pub proof fn lemma_lookup_tag_push(tags: Seq<TagEntryView>, e: TagEntryView, t: Seq<char>)
    ensures
        lookup_tag(tags.push(e), t) == if lookup_tag(tags, t) is Some {
            lookup_tag(tags, t)
        } else if e.tag == t {
            Some(e.urls)
        } else {
            None
        },
{
    assert(tags.push(e) =~= tags + seq![e]);
    lemma_lookup_tag_concat(tags, seq![e], t);
    assert(seq![e].drop_first() =~= Seq::<TagEntryView>::empty());
    assert(lookup_tag(Seq::<TagEntryView>::empty(), t) is None);
    assert(seq![e][0] == e);
    assert(lookup_tag(seq![e], t) == if e.tag == t {
        Some(e.urls)
    } else {
        None
    });
}

/// What the index looks up after the fresh entries are appended.
pub proof fn lemma_add_new_lookup(
    cur: Seq<TagEntryView>,
    ts: Seq<Seq<char>>,
    url: Seq<char>,
    t: Seq<char>,
)
    ensures
        lookup_tag(add_new_entries(cur, ts, url), t) == if lookup_tag(cur, t) is Some {
            lookup_tag(cur, t)
        } else if ts.contains(t) {
            Some(seq![url])
        } else {
            None
        },
    decreases ts.len(),
{
    if ts.len() == 0 {
        assert(!ts.contains(t));
    } else {
        let t0 = ts[0];
        assert(forall|x: Seq<char>|
            #[trigger] ts.contains(x) <==> (t0 == x || ts.drop_first().contains(x))) by {
            assert(forall|x: Seq<char>|
                #[trigger] ts.drop_first().contains(x) ==> ts.contains(x));
            assert(ts.contains(ts[0]));
            assert forall|x: Seq<char>| #[trigger] ts.contains(x) implies (t0 == x
                || ts.drop_first().contains(x)) by {
                let i = choose|i: int| 0 <= i < ts.len() && ts[i] == x;
                if i > 0 {
                    assert(ts.drop_first()[i - 1] == x);
                }
            }
        }
        if lookup_tag(cur, t0) is Some {
            lemma_add_new_lookup(cur, ts.drop_first(), url, t);
        } else {
            let e = TagEntryView { tag: t0, urls: seq![url] };
            lemma_add_new_lookup(cur.push(e), ts.drop_first(), url, t);
            lemma_lookup_tag_push(cur, e, t);
        }
    }
}

/// Appending fresh entries keeps tag names unique.
pub proof fn lemma_add_new_distinct(cur: Seq<TagEntryView>, ts: Seq<Seq<char>>, url: Seq<char>)
    requires
        tags_distinct(cur),
    ensures
        tags_distinct(add_new_entries(cur, ts, url)),
    decreases ts.len(),
{
    if ts.len() > 0 {
        let t0 = ts[0];
        if lookup_tag(cur, t0) is Some {
            lemma_add_new_distinct(cur, ts.drop_first(), url);
        } else {
            let e = TagEntryView { tag: t0, urls: seq![url] };
            lemma_push_distinct(cur, e);
            lemma_add_new_distinct(cur.push(e), ts.drop_first(), url);
        }
    }
}

/// Pushing an entry with an unused tag name keeps names unique.
pub proof fn lemma_push_distinct(tags: Seq<TagEntryView>, e: TagEntryView)
    requires
        tags_distinct(tags),
        lookup_tag(tags, e.tag) is None,
    ensures
        tags_distinct(tags.push(e)),
    decreases tags.len(),
{
    assert(tags_distinct(Seq::<TagEntryView>::empty()));
    if tags.len() == 0 {
        let r = tags.push(e);
        assert(r[0] == e);
        assert(r.drop_first() =~= Seq::<TagEntryView>::empty());
        assert(lookup_tag(Seq::<TagEntryView>::empty(), e.tag) is None);
        assert(tags_distinct(r));
    } else {
        lemma_push_distinct(tags.drop_first(), e);
        let r = tags.push(e);
        assert(r[0] == tags[0]);
        assert(r.drop_first() =~= tags.drop_first().push(e));
        lemma_lookup_tag_push(tags.drop_first(), e, tags[0].tag);
        assert(e.tag != tags[0].tag);
        assert(lookup_tag(r.drop_first(), r[0].tag) is None);
        assert(tags_distinct(r));
    }
}

/// The upserted index, entry by entry: `expected_tag` says what each tag
/// maps to afterwards.
pub proof fn lemma_upsert_tag_lookup(s: StoreView, b: BookmarkView, t: Seq<char>)
    requires
        tags_distinct(s.tags),
    ensures
        lookup_tag(spec_upsert(s, b).tags, t) == expected_tag(s, b, t),
{
    let upd = upd_tags(s.tags, b);
    lemma_upd_tags_lookup(s.tags, b, t);
    lemma_add_new_lookup(upd, b.tags, b.url, t);
    match lookup_tag(s.tags, t) {
        Some(urls) => {
            let e = upd_entry(TagEntryView { tag: t, urls }, b);
            if b.tags.contains(t) {
                assert(e.urls.len() > 0) by {
                    if !urls.contains(b.url) {
                        assert(e.urls == urls.push(b.url));
                    } else {
                        assert(urls.len() > 0) by {
                            let i = choose|i: int| 0 <= i < urls.len() && urls[i] == b.url;
                        }
                    }
                }
            }
        },
        None => {},
    }
}

/// The upserted index keeps tag names unique.
pub proof fn lemma_upsert_tags_distinct(s: StoreView, b: BookmarkView)
    requires
        tags_distinct(s.tags),
    ensures
        tags_distinct(spec_upsert(s, b).tags),
{
    lemma_upd_tags_distinct(s.tags, b);
    lemma_add_new_distinct(upd_tags(s.tags, b), b.tags, b.url);
}

proof fn lemma_seq_contains_push(s: Seq<Seq<char>>, x: Seq<char>, y: Seq<char>)
    ensures
        s.push(x).contains(y) <==> (s.contains(y) || x == y),
{
    if s.push(x).contains(y) {
        let i = choose|i: int| 0 <= i < s.push(x).len() && s.push(x)[i] == y;
        if i < s.len() {
            assert(s[i] == y);
        }
    }
    if s.contains(y) {
        let i = choose|i: int| 0 <= i < s.len() && s[i] == y;
        assert(s.push(x)[i] == y);
    }
    if x == y {
        assert(s.push(x)[s.len() as int] == y);
    }
}

/// A failed tag lookup means no entry carries the name, and conversely.
pub proof fn lemma_lookup_tag_none(tags: Seq<TagEntryView>, t: Seq<char>)
    ensures
        lookup_tag(tags, t) is None <==> forall|j: int|
            0 <= j < tags.len() ==> (#[trigger] tags[j]).tag != t,
    decreases tags.len(),
{
    if tags.len() > 0 {
        lemma_lookup_tag_none(tags.drop_first(), t);
        assert(forall|j: int|
            1 <= j < tags.len() ==> (#[trigger] tags[j]) == tags.drop_first()[j - 1]);
    }
}

/// A failed URL lookup means no bookmark carries the URL, and conversely.
pub proof fn lemma_lookup_all_none(all: Seq<BookmarkView>, u: Seq<char>)
    ensures
        lookup_all(all, u) is None <==> forall|j: int|
            0 <= j < all.len() ==> (#[trigger] all[j]).url != u,
    decreases all.len(),
{
    if all.len() > 0 {
        lemma_lookup_all_none(all.drop_first(), u);
        assert(forall|j: int|
            1 <= j < all.len() ==> (#[trigger] all[j]) == all.drop_first()[j - 1]);
    }
}

/// With unique tag names, the lookup of an entry's own name finds exactly
/// that entry.
pub proof fn lemma_lookup_at_index(tags: Seq<TagEntryView>, i: int)
    requires
        tags_distinct(tags),
        0 <= i < tags.len(),
    ensures
        lookup_tag(tags, tags[i].tag) == Some(tags[i].urls),
    decreases tags.len(),
{
    if i == 0 {
    } else {
        lemma_lookup_at_index(tags.drop_first(), i - 1);
        lemma_lookup_tag_none(tags.drop_first(), tags[0].tag);
        assert(tags.drop_first()[i - 1] == tags[i]);
        assert(tags[i].tag != tags[0].tag);
    }
}

/// With unique URLs, the lookup of a bookmark's own URL finds exactly that
/// bookmark.
pub proof fn lemma_lookup_all_at_index(all: Seq<BookmarkView>, i: int)
    requires
        urls_distinct(all),
        0 <= i < all.len(),
    ensures
        lookup_all(all, all[i].url) == Some(all[i]),
    decreases all.len(),
{
    if i == 0 {
    } else {
        lemma_lookup_all_at_index(all.drop_first(), i - 1);
        lemma_lookup_all_none(all.drop_first(), all[0].url);
        assert(all.drop_first()[i - 1] == all[i]);
        assert(all[i].url != all[0].url);
    }
}

/// The recursive key-uniqueness predicates, written out as pairwise
/// inequalities.
pub proof fn lemma_urls_distinct_iff(all: Seq<BookmarkView>)
    ensures
        urls_distinct(all) <==> forall|i: int, j: int|
            0 <= i < j < all.len() ==> (#[trigger] all[i]).url != (#[trigger] all[j]).url,
    decreases all.len(),
{
    if all.len() > 0 {
        let tail = all.drop_first();
        lemma_urls_distinct_iff(tail);
        lemma_lookup_all_none(tail, all[0].url);
        assert(forall|k: int| 0 <= k < tail.len() ==> (#[trigger] tail[k]) == all[k + 1]);
        if urls_distinct(all) {
            assert forall|i: int, j: int| 0 <= i < j < all.len() implies (#[trigger] all[i]).url
                != (#[trigger] all[j]).url by {
                if i == 0 {
                    assert(tail[j - 1] == all[j]);
                } else {
                    assert(tail[i - 1] == all[i] && tail[j - 1] == all[j]);
                }
            }
        }
        if forall|i: int, j: int|
            0 <= i < j < all.len() ==> (#[trigger] all[i]).url != (#[trigger] all[j]).url {
            assert forall|i: int, j: int| 0 <= i < j < tail.len() implies (#[trigger] tail[i]).url
                != (#[trigger] tail[j]).url by {
                assert(tail[i] == all[i + 1] && tail[j] == all[j + 1]);
            }
            assert forall|k: int| 0 <= k < tail.len() implies (#[trigger] tail[k]).url != all[0].url
                by {
                assert(tail[k] == all[k + 1]);
            }
        }
    }
}

/// Same, for tag names.
pub proof fn lemma_tags_distinct_iff(tags: Seq<TagEntryView>)
    ensures
        tags_distinct(tags) <==> forall|i: int, j: int|
            0 <= i < j < tags.len() ==> (#[trigger] tags[i]).tag != (#[trigger] tags[j]).tag,
    decreases tags.len(),
{
    if tags.len() > 0 {
        let tail = tags.drop_first();
        lemma_tags_distinct_iff(tail);
        lemma_lookup_tag_none(tail, tags[0].tag);
        assert(forall|k: int| 0 <= k < tail.len() ==> (#[trigger] tail[k]) == tags[k + 1]);
        if tags_distinct(tags) {
            assert forall|i: int, j: int| 0 <= i < j < tags.len() implies (#[trigger] tags[i]).tag
                != (#[trigger] tags[j]).tag by {
                if i == 0 {
                    assert(tail[j - 1] == tags[j]);
                } else {
                    assert(tail[i - 1] == tags[i] && tail[j - 1] == tags[j]);
                }
            }
        }
        if forall|i: int, j: int|
            0 <= i < j < tags.len() ==> (#[trigger] tags[i]).tag != (#[trigger] tags[j]).tag {
            assert forall|i: int, j: int| 0 <= i < j < tail.len() implies (#[trigger] tail[i]).tag
                != (#[trigger] tail[j]).tag by {
                assert(tail[i] == tags[i + 1] && tail[j] == tags[j + 1]);
            }
            assert forall|k: int| 0 <= k < tail.len() implies (#[trigger] tail[k]).tag
                != tags[0].tag by {
                assert(tail[k] == tags[k + 1]);
            }
        }
    }
}

// ---------------------------------------------------------------------------
// The store laws
// ---------------------------------------------------------------------------

/// The tag-index invariant holds after every upsert: the upsert of any
/// bookmark into any well-formed store leaves a well-formed store.
pub proof fn lemma_upsert_wf(s: StoreView, b: BookmarkView)
    requires
        wf(s),
    ensures
        wf(spec_upsert(s, b)),
{
    let r = spec_upsert(s, b);
    lemma_upsert_all_distinct(s.all, b);
    lemma_upsert_tags_distinct(s, b);
    assert forall|t: Seq<char>| #[trigger] lookup_tag(r.tags, t) is Some implies entry_ok(
        r.all,
        t,
        lookup_tag(r.tags, t)->Some_0,
    ) by {
        lemma_upsert_tag_lookup(s, b, t);
        let urls2 = lookup_tag(r.tags, t)->Some_0;
        if b.tags.contains(t) {
            match lookup_tag(s.tags, t) {
                Some(urls) => {
                    assert(entry_ok(s.all, t, urls));
                    if urls.contains(b.url) {
                        assert(urls2 == urls);
                    } else {
                        assert(urls2 == urls.push(b.url));
                        assert(list_distinct(urls2)) by {
                            assert forall|p: int, q: int|
                                0 <= p < q < urls2.len() implies urls2[p] != urls2[q] by {
                                if q == urls.len() {
                                    assert(urls.contains(urls[p]));
                                } else {
                                    assert(urls2[p] == urls[p] && urls2[q] == urls[q]);
                                }
                            }
                        }
                    }
                    assert forall|p: int| 0 <= p < urls2.len() implies {
                        &&& lookup_all(r.all, #[trigger] urls2[p]) is Some
                        &&& lookup_all(r.all, urls2[p])->Some_0.tags.contains(t)
                    } by {
                        let u = urls2[p];
                        lemma_lookup_upsert_all(s.all, b, u);
                        if u == b.url {
                            assert(lookup_all(r.all, u) == Some(b));
                        } else {
                            assert(u == urls[p]);
                            assert(lookup_all(s.all, urls[p]) is Some);
                        }
                    }
                },
                None => {
                    assert(urls2 == seq![b.url]);
                    assert forall|p: int| 0 <= p < urls2.len() implies {
                        &&& lookup_all(r.all, #[trigger] urls2[p]) is Some
                        &&& lookup_all(r.all, urls2[p])->Some_0.tags.contains(t)
                    } by {
                        lemma_lookup_upsert_all(s.all, b, b.url);
                        assert(urls2[p] == b.url);
                    }
                },
            }
        } else {
            let urls = lookup_tag(s.tags, t)->Some_0;
            assert(lookup_tag(s.tags, t) is Some);
            assert(entry_ok(s.all, t, urls));
            lemma_remove_str_props(urls, b.url);
            assert(urls2 == remove_str(urls, b.url));
            assert forall|p: int| 0 <= p < urls2.len() implies {
                &&& lookup_all(r.all, #[trigger] urls2[p]) is Some
                &&& lookup_all(r.all, urls2[p])->Some_0.tags.contains(t)
            } by {
                let u = urls2[p];
                assert(urls2.contains(u));
                assert(urls.contains(u) && u != b.url);
                let q = choose|q: int| 0 <= q < urls.len() && urls[q] == u;
                lemma_lookup_upsert_all(s.all, b, u);
                assert(lookup_all(s.all, urls[q]) is Some);
            }
        }
    }
    assert forall|u: Seq<char>, k: int|
        #[trigger] lookup_all(r.all, u) is Some && 0 <= k < lookup_all(r.all, u)->Some_0.tags.len()
            implies {
        let t = #[trigger] lookup_all(r.all, u)->Some_0.tags[k];
        &&& lookup_tag(r.tags, t) is Some
        &&& lookup_tag(r.tags, t)->Some_0.contains(u)
    } by {
        lemma_lookup_upsert_all(s.all, b, u);
        let x = lookup_all(r.all, u)->Some_0;
        let t = x.tags[k];
        lemma_upsert_tag_lookup(s, b, t);
        if u == b.url {
            assert(x == b);
            assert(b.tags.contains(t));
            match lookup_tag(s.tags, t) {
                Some(urls) => {
                    if urls.contains(b.url) {
                    } else {
                        lemma_seq_contains_push(urls, b.url, b.url);
                    }
                },
                None => {
                    assert(seq![b.url][0] == b.url);
                    assert(seq![b.url].contains(b.url));
                },
            }
        } else {
            assert(lookup_all(s.all, u) == Some(x));
            assert(lookup_tag(s.tags, t) is Some);
            let urls = lookup_tag(s.tags, t)->Some_0;
            assert(urls.contains(u));
            if b.tags.contains(t) {
                if urls.contains(b.url) {
                } else {
                    lemma_seq_contains_push(urls, b.url, u);
                }
            } else {
                lemma_remove_str_props(urls, b.url);
                assert(remove_str(urls, b.url).contains(u));
                let q = choose|q: int|
                    0 <= q < remove_str(urls, b.url).len() && remove_str(urls, b.url)[q] == u;
                assert(remove_str(urls, b.url).len() > 0);
            }
        }
    }
}

proof fn lemma_upsert_all_idem(all: Seq<BookmarkView>, b: BookmarkView)
    ensures
        upsert_all(upsert_all(all, b), b) == upsert_all(all, b),
    decreases all.len(),
{
    if all.len() == 0 {
        let r = upsert_all(all, b);
        assert(r == seq![b]);
        assert(r[0] == b);
        assert(r.drop_first() =~= Seq::<BookmarkView>::empty());
        assert(upsert_all(r, b) =~= r);
    } else if all[0].url == b.url {
        let r = seq![b] + all.drop_first();
        assert(r[0] == b);
        assert(r.drop_first() =~= all.drop_first());
        assert(upsert_all(r, b) =~= r);
    } else {
        lemma_upsert_all_idem(all.drop_first(), b);
        let r = seq![all[0]] + upsert_all(all.drop_first(), b);
        assert(r[0] == all[0]);
        assert(r.drop_first() =~= upsert_all(all.drop_first(), b));
        assert(upsert_all(r, b) =~= r);
    }
}

proof fn lemma_upd_tags_identity(tags: Seq<TagEntryView>, b: BookmarkView)
    requires
        forall|i: int|
            0 <= i < tags.len() ==> (#[trigger] upd_entry(tags[i], b)) == tags[i]
                && tags[i].urls.len() > 0,
    ensures
        upd_tags(tags, b) == tags,
    decreases tags.len(),
{
    if tags.len() > 0 {
        assert(upd_entry(tags[0], b) == tags[0]);
        assert(forall|i: int|
            0 <= i < tags.drop_first().len() ==> tags.drop_first()[i] == tags[i + 1]);
        lemma_upd_tags_identity(tags.drop_first(), b);
        assert(upd_tags(tags, b) =~= tags);
    }
}

proof fn lemma_add_new_identity(cur: Seq<TagEntryView>, ts: Seq<Seq<char>>, url: Seq<char>)
    requires
        forall|t: Seq<char>| ts.contains(t) ==> #[trigger] lookup_tag(cur, t) is Some,
    ensures
        add_new_entries(cur, ts, url) == cur,
    decreases ts.len(),
{
    if ts.len() > 0 {
        assert(ts.contains(ts[0]));
        assert(forall|i: int|
            0 <= i < ts.drop_first().len() ==> ts.drop_first()[i] == ts[i + 1]);
        assert forall|t: Seq<char>| ts.drop_first().contains(t) implies #[trigger] lookup_tag(
            cur,
            t,
        ) is Some by {
            let i = choose|i: int| 0 <= i < ts.drop_first().len() && ts.drop_first()[i] == t;
            assert(ts[i + 1] == t);
            assert(ts.contains(t));
        }
        lemma_add_new_identity(cur, ts.drop_first(), url);
    }
}

/// Idempotence: upserting the same bookmark twice produces the same store
/// as upserting it once.
pub proof fn lemma_upsert_idempotent(s: StoreView, b: BookmarkView)
    requires
        wf(s),
    ensures
        spec_upsert(spec_upsert(s, b), b) == spec_upsert(s, b),
{
    let s1 = spec_upsert(s, b);
    lemma_upsert_all_idem(s.all, b);
    lemma_upsert_tags_distinct(s, b);
    assert forall|i: int| 0 <= i < s1.tags.len() implies (#[trigger] upd_entry(s1.tags[i], b))
        == s1.tags[i] && s1.tags[i].urls.len() > 0 by {
        let e = s1.tags[i];
        lemma_lookup_at_index(s1.tags, i);
        lemma_upsert_tag_lookup(s, b, e.tag);
        assert(Some(e.urls) == expected_tag(s, b, e.tag));
        if b.tags.contains(e.tag) {
            match lookup_tag(s.tags, e.tag) {
                Some(urls) => {
                    if urls.contains(b.url) {
                        assert(e.urls == urls);
                        let q = choose|q: int| 0 <= q < urls.len() && urls[q] == b.url;
                    } else {
                        assert(e.urls == urls.push(b.url));
                        lemma_seq_contains_push(urls, b.url, b.url);
                    }
                    assert(e.urls.contains(b.url));
                },
                None => {
                    assert(e.urls == seq![b.url]);
                    assert(e.urls[0] == b.url);
                    assert(e.urls.contains(b.url));
                },
            }
            assert(upd_entry(e, b) == e);
        } else {
            let urls = lookup_tag(s.tags, e.tag)->Some_0;
            assert(e.urls == remove_str(urls, b.url));
            lemma_remove_str_props(urls, b.url);
            assert(!e.urls.contains(b.url));
            lemma_remove_str_props(e.urls, b.url);
            assert(remove_str(e.urls, b.url) == e.urls);
            assert(upd_entry(e, b) =~= e);
        }
    }
    lemma_upd_tags_identity(s1.tags, b);
    assert forall|t: Seq<char>| b.tags.contains(t) implies #[trigger] lookup_tag(
        s1.tags,
        t,
    ) is Some by {
        lemma_upsert_tag_lookup(s, b, t);
    }
    lemma_add_new_identity(s1.tags, b.tags, b.url);
    assert(spec_upsert(s1, b) =~= s1);
}

/// Upserting a bookmark without tags removes its URL from every tag list
/// and drops any list left empty: afterwards no entry holds the URL and
/// every entry is still non-empty.
pub proof fn lemma_upsert_clears_url(s: StoreView, b: BookmarkView)
    requires
        wf(s),
        b.tags.len() == 0,
    ensures
        forall|t: Seq<char>|
            #[trigger] lookup_tag(spec_upsert(s, b).tags, t) is Some ==> {
                &&& !lookup_tag(spec_upsert(s, b).tags, t)->Some_0.contains(b.url)
                &&& lookup_tag(spec_upsert(s, b).tags, t)->Some_0.len() > 0
            },
{
    let r = spec_upsert(s, b);
    assert forall|t: Seq<char>| #[trigger] lookup_tag(r.tags, t) is Some implies {
        &&& !lookup_tag(r.tags, t)->Some_0.contains(b.url)
        &&& lookup_tag(r.tags, t)->Some_0.len() > 0
    } by {
        lemma_upsert_tag_lookup(s, b, t);
        assert(!b.tags.contains(t));
        match lookup_tag(s.tags, t) {
            Some(urls) => {
                lemma_remove_str_props(urls, b.url);
            },
            None => {},
        }
    }
}

// ---------------------------------------------------------------------------
// Executable helpers
// ---------------------------------------------------------------------------

/// Whether one of the strings in `v` has exactly the characters of `s`.
pub fn contains_str(v: &Vec<String>, s: &str) -> (r: bool)
    ensures
        r == v.deep_view().contains(s@),
{
    let ghost dv = v.deep_view();
    proof {
        assert(dv.len() == v@.len());
    }
    let mut i: usize = 0;
    while i < v.len()
        invariant
            i <= v.len(),
            dv == v.deep_view(),
            dv.len() == v@.len(),
            forall|j: int| 0 <= j < i ==> dv[j] != s@,
        decreases v.len() - i,
    {
        if crate::codec::str_eq_str(v[i].as_str(), s) {
            proof {
                assert(dv[i as int] == s@);
            }
            return true;
        }
        proof {
            assert(dv[i as int] == v@[i as int]@);
        }
        i += 1;
    }
    proof {
        if dv.contains(s@) {
            let j = choose|j: int| 0 <= j < dv.len() && dv[j] == s@;
        }
    }
    false
}

proof fn lemma_lookup_tag_first(tags: Seq<TagEntryView>, t: Seq<char>, i: int)
    requires
        0 <= i < tags.len(),
        tags[i].tag == t,
        forall|j: int| 0 <= j < i ==> (#[trigger] tags[j]).tag != t,
    ensures
        lookup_tag(tags, t) == Some(tags[i].urls),
    decreases i,
{
    if i > 0 {
        assert(forall|j: int|
            0 <= j < i - 1 ==> (#[trigger] tags.drop_first()[j]) == tags[j + 1]);
        lemma_lookup_tag_first(tags.drop_first(), t, i - 1);
    }
}

proof fn lemma_lookup_all_first(all: Seq<BookmarkView>, u: Seq<char>, i: int)
    requires
        0 <= i < all.len(),
        all[i].url == u,
        forall|j: int| 0 <= j < i ==> (#[trigger] all[j]).url != u,
    ensures
        lookup_all(all, u) == Some(all[i]),
    decreases i,
{
    if i > 0 {
        assert(forall|j: int| 0 <= j < i - 1 ==> (#[trigger] all.drop_first()[j]) == all[j + 1]);
        lemma_lookup_all_first(all.drop_first(), u, i - 1);
    }
}

/// The first index entry named `t`, if any.
pub fn find_tag(tags: &Vec<TagEntry>, t: &str) -> (r: Option<usize>)
    ensures
        match r {
            Some(i) => i < tags.len() && tags.deep_view()[i as int].tag == t@ && lookup_tag(
                tags.deep_view(),
                t@,
            ) == Some(tags.deep_view()[i as int].urls) && forall|j: int|
                0 <= j < i ==> (#[trigger] tags.deep_view()[j]).tag != t@,
            None => lookup_tag(tags.deep_view(), t@) is None,
        },
{
    let ghost dv = tags.deep_view();
    proof {
        assert(dv.len() == tags@.len());
    }
    let mut i: usize = 0;
    while i < tags.len()
        invariant
            i <= tags.len(),
            dv == tags.deep_view(),
            dv.len() == tags@.len(),
            forall|j: int| 0 <= j < i ==> (#[trigger] dv[j]).tag != t@,
        decreases tags.len() - i,
    {
        proof {
            assert(dv[i as int] == tags@[i as int]@);
        }
        if crate::codec::str_eq_str(tags[i].tag.as_str(), t) {
            proof {
                lemma_lookup_tag_first(dv, t@, i as int);
            }
            return Some(i);
        }
        i += 1;
    }
    proof {
        lemma_lookup_tag_none(dv, t@);
    }
    None
}

/// The first bookmark stored under `u`, if any.
pub fn find_url(all: &Vec<Bookmark>, u: &str) -> (r: Option<usize>)
    ensures
        match r {
            Some(i) => i < all.len() && all.deep_view()[i as int].url == u@ && lookup_all(
                all.deep_view(),
                u@,
            ) == Some(all.deep_view()[i as int]) && forall|j: int|
                0 <= j < i ==> (#[trigger] all.deep_view()[j]).url != u@,
            None => lookup_all(all.deep_view(), u@) is None,
        },
{
    let ghost dv = all.deep_view();
    proof {
        assert(dv.len() == all@.len());
    }
    let mut i: usize = 0;
    while i < all.len()
        invariant
            i <= all.len(),
            dv == all.deep_view(),
            dv.len() == all@.len(),
            forall|j: int| 0 <= j < i ==> (#[trigger] dv[j]).url != u@,
        decreases all.len() - i,
    {
        proof {
            assert(dv[i as int] == all@[i as int]@);
        }
        if crate::codec::str_eq_str(all[i].url.as_str(), u) {
            proof {
                lemma_lookup_all_first(dv, u@, i as int);
            }
            return Some(i);
        }
        i += 1;
    }
    proof {
        lemma_lookup_all_none(dv, u@);
    }
    None
}

/// A fresh vector with the same strings.
pub fn clone_strings(v: &Vec<String>) -> (r: Vec<String>)
    ensures
        r@ == v@,
        r.deep_view() == v.deep_view(),
{
    let mut r: Vec<String> = Vec::new();
    let mut i: usize = 0;
    while i < v.len()
        invariant
            i <= v.len(),
            r@ == v@.take(i as int),
        decreases v.len() - i,
    {
        r.push(v[i].clone());
        proof {
            assert(v@.take(i as int).push(v@[i as int]) =~= v@.take(i + 1));
        }
        i += 1;
    }
    proof {
        assert(v@.take(v@.len() as int) =~= v@);
        assert(r.deep_view() =~= v.deep_view());
    }
    r
}

proof fn lemma_remove_str_concat(a: Seq<Seq<char>>, b: Seq<Seq<char>>, x: Seq<char>)
    ensures
        remove_str(a + b, x) == remove_str(a, x) + remove_str(b, x),
    decreases a.len(),
{
    if a.len() == 0 {
        assert(a + b =~= b);
        assert(remove_str(a, x) =~= Seq::<Seq<char>>::empty());
        assert(remove_str(a, x) + remove_str(b, x) =~= remove_str(b, x));
    } else {
        lemma_remove_str_concat(a.drop_first(), b, x);
        assert((a + b)[0] == a[0]);
        assert((a + b).drop_first() =~= a.drop_first() + b);
        assert(remove_str(a + b, x) =~= remove_str(a, x) + remove_str(b, x));
    }
}

/// A copy of `v` with every occurrence of `x` filtered out.
pub fn remove_str_exec(v: &Vec<String>, x: &str) -> (r: Vec<String>)
    ensures
        r.deep_view() == remove_str(v.deep_view(), x@),
{
    let ghost dv = v.deep_view();
    proof {
        assert(dv.len() == v@.len());
        assert(remove_str(dv.take(0), x@) =~= Seq::<Seq<char>>::empty());
    }
    let mut r: Vec<String> = Vec::new();
    let mut i: usize = 0;
    while i < v.len()
        invariant
            i <= v.len(),
            dv == v.deep_view(),
            dv.len() == v@.len(),
            r.deep_view() == remove_str(dv.take(i as int), x@),
        decreases v.len() - i,
    {
        let ghost r0 = r.deep_view();
        proof {
            assert(dv[i as int] == v@[i as int]@);
            assert(dv.take(i + 1) =~= dv.take(i as int) + seq![dv[i as int]]);
            lemma_remove_str_concat(dv.take(i as int), seq![dv[i as int]], x@);
            assert(seq![dv[i as int]].drop_first() =~= Seq::<Seq<char>>::empty());
            assert(remove_str(Seq::<Seq<char>>::empty(), x@) =~= Seq::<Seq<char>>::empty());
        }
        if !crate::codec::str_eq_str(v[i].as_str(), x) {
            r.push(v[i].clone());
            proof {
                assert(remove_str(seq![dv[i as int]], x@) =~= seq![dv[i as int]]);
                assert(r.deep_view() =~= r0 + seq![dv[i as int]]);
            }
        } else {
            proof {
                assert(remove_str(seq![dv[i as int]], x@) =~= Seq::<Seq<char>>::empty());
                assert(r.deep_view() =~= r0 + Seq::<Seq<char>>::empty());
            }
        }
        i += 1;
    }
    proof {
        assert(dv.take(dv.len() as int) =~= dv);
    }
    r
}

/// A fresh bookmark with the same value.
pub fn copy_bookmark(b: &Bookmark) -> (r: Bookmark)
    ensures
        r@ == b@,
{
    let description = match &b.description {
        Some(d) => Some(d.clone()),
        None => None,
    };
    let r = Bookmark {
        name: b.name.clone(),
        description,
        url: b.url.clone(),
        tags: clone_strings(&b.tags),
    };
    proof {
        assert(r@ =~= b@);
    }
    r
}

/// One index entry reconciled against the upserted bookmark.
fn upd_entry_exec(e: &TagEntry, b: &Bookmark) -> (r: TagEntry)
    ensures
        r@ == upd_entry(e@, b@),
{
    if contains_str(&b.tags, e.tag.as_str()) {
        if contains_str(&e.urls, b.url.as_str()) {
            let r = TagEntry { tag: e.tag.clone(), urls: clone_strings(&e.urls) };
            proof {
                assert(r@ =~= e@);
            }
            r
        } else {
            let mut urls = clone_strings(&e.urls);
            let ghost u0 = urls.deep_view();
            urls.push(b.url.clone());
            proof {
                assert(urls.deep_view() =~= u0.push(b.url@));
            }
            let r = TagEntry { tag: e.tag.clone(), urls };
            proof {
                assert(r@ =~= upd_entry(e@, b@));
            }
            r
        }
    } else {
        let r = TagEntry { tag: e.tag.clone(), urls: remove_str_exec(&e.urls, b.url.as_str()) };
        proof {
            assert(r@ =~= upd_entry(e@, b@));
        }
        r
    }
}

proof fn lemma_upd_tags_concat(a: Seq<TagEntryView>, b2: Seq<TagEntryView>, bm: BookmarkView)
    ensures
        upd_tags(a + b2, bm) == upd_tags(a, bm) + upd_tags(b2, bm),
    decreases a.len(),
{
    if a.len() == 0 {
        assert(a + b2 =~= b2);
        assert(upd_tags(a, bm) =~= Seq::<TagEntryView>::empty());
        assert(upd_tags(a, bm) + upd_tags(b2, bm) =~= upd_tags(b2, bm));
    } else {
        lemma_upd_tags_concat(a.drop_first(), b2, bm);
        assert((a + b2)[0] == a[0]);
        assert((a + b2).drop_first() =~= a.drop_first() + b2);
        assert(upd_tags(a + b2, bm) =~= upd_tags(a, bm) + upd_tags(b2, bm));
    }
}

proof fn lemma_upsert_all_found(all: Seq<BookmarkView>, b: BookmarkView, i: int)
    requires
        0 <= i < all.len(),
        all[i].url == b.url,
        forall|j: int| 0 <= j < i ==> (#[trigger] all[j]).url != b.url,
    ensures
        upsert_all(all, b) == all.update(i, b),
    decreases i,
{
    if i == 0 {
        assert(upsert_all(all, b) =~= all.update(0, b));
    } else {
        assert(forall|j: int| 0 <= j < i - 1 ==> (#[trigger] all.drop_first()[j]) == all[j + 1]);
        lemma_upsert_all_found(all.drop_first(), b, i - 1);
        assert(upsert_all(all, b) =~= all.update(i, b));
    }
}

proof fn lemma_upsert_all_missing(all: Seq<BookmarkView>, b: BookmarkView)
    requires
        forall|j: int| 0 <= j < all.len() ==> (#[trigger] all[j]).url != b.url,
    ensures
        upsert_all(all, b) == all.push(b),
    decreases all.len(),
{
    if all.len() == 0 {
        assert(upsert_all(all, b) =~= all.push(b));
    } else {
        assert(forall|j: int|
            0 <= j < all.drop_first().len() ==> (#[trigger] all.drop_first()[j]) == all[j + 1]);
        lemma_upsert_all_missing(all.drop_first(), b);
        assert(upsert_all(all, b) =~= all.push(b));
    }
}

// ---------------------------------------------------------------------------
// The store itself
// ---------------------------------------------------------------------------

impl Default for Bookmarks {
    /// The empty store.
    fn default() -> (r: Self)
        ensures
            r@.all.len() == 0,
            r@.tags.len() == 0,
            wf(r@),
    {
        let r = Bookmarks { all: Vec::new(), tags: Vec::new() };
        proof {
            assert(r@.all =~= Seq::<BookmarkView>::empty());
            assert(r@.tags =~= Seq::<TagEntryView>::empty());
            assert(lookup_tag(r@.tags, Seq::empty()) is None);
            assert(forall|t: Seq<char>| #[trigger] lookup_tag(r@.tags, t) is None);
            assert(forall|u: Seq<char>| #[trigger] lookup_all(r@.all, u) is None);
        }
        r
    }
}

impl Bookmarks {
    /// Inserts or replaces `bookmark`, keyed by its URL, then reconciles the
    /// whole tag index, exactly as [`spec_upsert`] writes it out.  The
    /// tag-index invariant is preserved.
    pub fn update(&mut self, bookmark: &Bookmark)
        ensures
            final(self)@ == spec_upsert(old(self)@, bookmark@),
            wf(old(self)@) ==> wf(final(self)@),
    {
        let ghost s0 = self@;
        let ghost bv = bookmark@;
        // the bookmark table
        match find_url(&self.all, bookmark.url.as_str()) {
            Some(hit) => {
                let nb = copy_bookmark(bookmark);
                self.all.set(hit, nb);
                proof {
                    lemma_upsert_all_found(s0.all, bv, hit as int);
                    assert(self.all.deep_view() =~= s0.all.update(hit as int, bv));
                }
            },
            None => {
                let nb = copy_bookmark(bookmark);
                proof {
                    lemma_lookup_all_none(s0.all, bv.url);
                    lemma_upsert_all_missing(s0.all, bv);
                }
                self.all.push(nb);
                proof {
                    assert(self.all.deep_view() =~= s0.all.push(bv));
                }
            },
        }
        proof {
            assert(self.all.deep_view() == upsert_all(s0.all, bv));
        }
        // the tag index: reconcile every existing entry
        let mut nt: Vec<TagEntry> = Vec::new();
        proof {
            assert(nt.deep_view() =~= Seq::<TagEntryView>::empty());
            assert(upd_tags(s0.tags.take(0), bv) =~= Seq::<TagEntryView>::empty()) by {
                assert(s0.tags.take(0) =~= Seq::<TagEntryView>::empty());
            }
        }
        let m = self.tags.len();
        let ghost tv = self.tags.deep_view();
        proof {
            assert(tv == s0.tags);
            assert(tv.len() == self.tags@.len());
        }
        let mut i: usize = 0;
        while i < m
            invariant
                i <= m,
                m == self.tags.len(),
                tv == self.tags.deep_view(),
                tv.len() == m,
                bv == bookmark@,
                nt.deep_view() == upd_tags(tv.take(i as int), bv),
            decreases m - i,
        {
            let ghost nt0 = nt.deep_view();
            proof {
                assert(tv[i as int] == self.tags@[i as int]@);
                assert(tv.take(i + 1) =~= tv.take(i as int) + seq![tv[i as int]]);
                lemma_upd_tags_concat(tv.take(i as int), seq![tv[i as int]], bv);
                assert(seq![tv[i as int]].drop_first() =~= Seq::<TagEntryView>::empty());
                assert(upd_tags(Seq::<TagEntryView>::empty(), bv) =~= Seq::<
                    TagEntryView,
                >::empty());
            }
            let e = upd_entry_exec(&self.tags[i], bookmark);
            if e.urls.len() > 0 {
                proof {
                    assert(e@.urls.len() > 0) by {
                        assert(e@.urls.len() == e.urls@.len());
                    }
                    assert(upd_tags(seq![tv[i as int]], bv) =~= seq![e@]);
                }
                nt.push(e);
                proof {
                    assert(nt.deep_view() =~= nt0 + seq![upd_entry(tv[i as int], bv)]);
                }
            } else {
                proof {
                    assert(e@.urls.len() == 0) by {
                        assert(e@.urls.len() == e.urls@.len());
                    }
                    assert(upd_tags(seq![tv[i as int]], bv) =~= Seq::<TagEntryView>::empty());
                    assert(nt.deep_view() =~= nt0 + Seq::<TagEntryView>::empty());
                }
            }
            i += 1;
        }
        proof {
            assert(tv.take(tv.len() as int) =~= tv);
            assert(nt.deep_view() == upd_tags(s0.tags, bv));
        }
        // the tag index: create entries for tags seen for the first time
        let ghost target = add_new_entries(upd_tags(s0.tags, bv), bv.tags, bv.url);
        let p = bookmark.tags.len();
        proof {
            assert(bv.tags.len() == p);
            assert(bv.tags.skip(0) =~= bv.tags);
        }
        let mut j: usize = 0;
        while j < p
            invariant
                j <= p,
                p == bookmark.tags.len(),
                bv == bookmark@,
                bv.tags.len() == p,
                target == add_new_entries(upd_tags(s0.tags, bv), bv.tags, bv.url),
                add_new_entries(nt.deep_view(), bv.tags.skip(j as int), bv.url) == target,
            decreases p - j,
        {
            let ghost rest = bv.tags.skip(j as int);
            proof {
                assert(rest[0] == bv.tags[j as int]);
                assert(bv.tags[j as int] == bookmark.tags@[j as int]@);
                assert(rest.drop_first() =~= bv.tags.skip(j + 1));
            }
            match find_tag(&nt, bookmark.tags[j].as_str()) {
                Some(_) => {},
                None => {
                    let ghost nt0 = nt.deep_view();
                    let entry = TagEntry {
                        tag: bookmark.tags[j].clone(),
                        urls: vec![bookmark.url.clone()],
                    };
                    proof {
                        assert(entry@.urls =~= seq![bv.url]);
                        assert(entry@ == (TagEntryView { tag: bv.tags[j as int], urls: seq![bv.url] }));
                    }
                    nt.push(entry);
                    proof {
                        assert(nt.deep_view() =~= nt0.push(
                            TagEntryView { tag: bv.tags[j as int], urls: seq![bv.url] },
                        ));
                    }
                },
            }
            j += 1;
        }
        proof {
            assert(bv.tags.skip(p as int).len() == 0);
            assert(add_new_entries(nt.deep_view(), bv.tags.skip(p as int), bv.url)
                == nt.deep_view());
        }
        self.tags = nt;
        proof {
            assert(self@ =~= spec_upsert(s0, bv));
            if wf(s0) {
                lemma_upsert_wf(s0, bv);
            }
        }
    }

    /// The bookmark stored under `url`, if any.
    pub fn lookup_by_url(&self, url: &str) -> (r: Option<Bookmark>)
        ensures
            match r {
                Some(b) => lookup_all(self@.all, url@) == Some(b@),
                None => lookup_all(self@.all, url@) is None,
            },
    {
        match find_url(&self.all, url) {
            Some(i) => {
                proof {
                    assert(self.all.deep_view()[i as int] == self.all@[i as int]@);
                }
                Some(copy_bookmark(&self.all[i]))
            },
            None => None,
        }
    }

    /// The URL of the first bookmark whose name is exactly `name`, if any.
    pub fn url_from_name(&self, name: &str) -> (r: Option<String>)
        ensures
            match r {
                Some(u) => lookup_name(self@.all, name@) is Some && u@ == lookup_name(
                    self@.all,
                    name@,
                )->Some_0.url,
                None => lookup_name(self@.all, name@) is None,
            },
    {
        let ghost dv = self.all.deep_view();
        proof {
            assert(dv.len() == self.all@.len());
        }
        let mut i: usize = 0;
        while i < self.all.len()
            invariant
                i <= self.all.len(),
                dv == self.all.deep_view(),
                dv.len() == self.all@.len(),
                forall|j: int| 0 <= j < i ==> (#[trigger] dv[j]).name != name@,
            decreases self.all.len() - i,
        {
            proof {
                assert(dv[i as int] == self.all@[i as int]@);
            }
            if crate::codec::str_eq_str(self.all[i].name.as_str(), name) {
                proof {
                    lemma_lookup_name_first(dv, name@, i as int);
                }
                return Some(self.all[i].url.clone());
            }
            i += 1;
        }
        proof {
            lemma_lookup_name_none(dv, name@);
        }
        None
    }
}

impl Default for Bookmark {
    /// An empty bookmark: empty name and URL, no description, no tags.
    fn default() -> (r: Self)
        ensures
            r@.name.len() == 0,
            r@.description is None,
            r@.url.len() == 0,
            r@.tags.len() == 0,
    {
        let r = Bookmark { name: String::new(), description: None, url: String::new(), tags: Vec::new() };
        proof {
            assert(r@.tags =~= Seq::<Seq<char>>::empty());
        }
        r
    }
}

impl Bookmark {
    /// The bookmark's name.
    pub fn name(&self) -> (r: String)
        ensures
            r@ == self@.name,
    {
        self.name.clone()
    }

    /// Replaces the name.
    pub fn set_name(&mut self, name: &str)
        ensures
            final(self)@ == (BookmarkView { name: name@, ..old(self)@ }),
    {
        self.name = name.to_owned();
    }

    /// The bookmark's description, if it has one.
    pub fn description(&self) -> (r: Option<String>)
        ensures
            match r {
                Some(d) => self@.description == Some(d@),
                None => self@.description is None,
            },
    {
        match &self.description {
            Some(d) => Some(d.clone()),
            None => None,
        }
    }

    /// Replaces the description.
    pub fn set_description(&mut self, desc: &str)
        ensures
            final(self)@ == (BookmarkView { description: Some(desc@), ..old(self)@ }),
    {
        self.description = Some(desc.to_owned());
    }

    /// The URL that keys the bookmark.
    pub fn url(&self) -> (r: String)
        ensures
            r@ == self@.url,
    {
        self.url.clone()
    }

    /// Replaces the URL.
    pub fn set_url(&mut self, url: &str)
        ensures
            final(self)@ == (BookmarkView { url: url@, ..old(self)@ }),
    {
        self.url = url.to_owned();
    }

    /// The bookmark's tags.
    pub fn tags(&self) -> (r: Vec<String>)
        ensures
            r.deep_view() == self@.tags,
    {
        clone_strings(&self.tags)
    }

    /// Replaces the tag list.
    pub fn set_tags(&mut self, tags: Vec<String>)
        ensures
            final(self)@ == (BookmarkView { tags: tags.deep_view(), ..old(self)@ }),
    {
        self.tags = tags;
    }

    /// Appends one tag at the end of the list.
    pub fn append_tag(&mut self, tag: &str)
        ensures
            final(self)@ == (BookmarkView { tags: old(self)@.tags.push(tag@), ..old(self)@ }),
    {
        let ghost t0 = self.tags.deep_view();
        self.tags.push(tag.to_owned());
        proof {
            assert(self.tags.deep_view() =~= t0.push(tag@));
        }
    }

    /// Removes every occurrence of one tag from the list.
    pub fn remove_tag(&mut self, tag: &str)
        ensures
            final(self)@ == (BookmarkView {
                tags: remove_str(old(self)@.tags, tag@),
                ..old(self)@
            }),
    {
        self.tags = remove_str_exec(&self.tags, tag);
    }

    /// Whether the bookmark carries the tag.
    pub fn has_tag(&self, tag: &str) -> (r: bool)
        ensures
            r == self@.tags.contains(tag@),
    {
        contains_str(&self.tags, tag)
    }
}

/// Builds a [`Bookmark`] field by field.
pub struct BookmarkBuilder {
    pub name: String,
    pub description: Option<String>,
    pub url: String,
    pub tags: Vec<String>,
}

impl Default for BookmarkBuilder {
    /// A builder for the empty bookmark.
    fn default() -> (r: Self)
        ensures
            r.name@.len() == 0,
            r.description is None,
            r.url@.len() == 0,
            r.tags.deep_view().len() == 0,
    {
        BookmarkBuilder {
            name: String::new(),
            description: None,
            url: String::new(),
            tags: Vec::new(),
        }
    }
}

impl BookmarkBuilder {
    /// A builder for the empty bookmark.
    pub fn new() -> (r: Self)
        ensures
            r.name@.len() == 0,
            r.description is None,
            r.url@.len() == 0,
            r.tags.deep_view().len() == 0,
    {
        BookmarkBuilder {
            name: String::new(),
            description: None,
            url: String::new(),
            tags: Vec::new(),
        }
    }

    /// Sets the name.
    pub fn name(self, name: &str) -> (r: Self)
        ensures
            r.name@ == name@,
            r.description == self.description,
            r.url == self.url,
            r.tags == self.tags,
    {
        BookmarkBuilder { name: name.to_owned(), ..self }
    }

    /// Sets or clears the description.
    pub fn description(self, desc: Option<&str>) -> (r: Self)
        ensures
            match desc {
                Some(d) => r.description is Some && r.description->0@ == d@,
                None => r.description is None,
            },
            r.name == self.name,
            r.url == self.url,
            r.tags == self.tags,
    {
        match desc {
            Some(d) => BookmarkBuilder { description: Some(d.to_owned()), ..self },
            None => BookmarkBuilder { description: None, ..self },
        }
    }

    /// Sets the URL.
    pub fn url(self, url: &str) -> (r: Self)
        ensures
            r.url@ == url@,
            r.name == self.name,
            r.description == self.description,
            r.tags == self.tags,
    {
        BookmarkBuilder { url: url.to_owned(), ..self }
    }

    /// Sets the tag list.
    pub fn tags(self, tags: Vec<String>) -> (r: Self)
        ensures
            r.tags == tags,
            r.name == self.name,
            r.description == self.description,
            r.url == self.url,
    {
        BookmarkBuilder { tags, ..self }
    }

    /// The finished bookmark.
    pub fn build(self) -> (r: Bookmark)
        ensures
            r@.name == self.name@,
            r@.description == (match self.description {
                Some(d) => Some(d@),
                None => None::<Seq<char>>,
            }),
            r@.url == self.url@,
            r@.tags == self.tags.deep_view(),
    {
        Bookmark {
            name: self.name,
            description: self.description,
            url: self.url,
            tags: self.tags,
        }
    }
}

/// The first bookmark named `name`, if any.
pub open spec fn lookup_name(all: Seq<BookmarkView>, name: Seq<char>) -> Option<BookmarkView>
    decreases all.len(),
{
    if all.len() == 0 {
        None
    } else if all[0].name == name {
        Some(all[0])
    } else {
        lookup_name(all.drop_first(), name)
    }
}

proof fn lemma_lookup_name_first(all: Seq<BookmarkView>, name: Seq<char>, i: int)
    requires
        0 <= i < all.len(),
        all[i].name == name,
        forall|j: int| 0 <= j < i ==> (#[trigger] all[j]).name != name,
    ensures
        lookup_name(all, name) == Some(all[i]),
    decreases i,
{
    if i > 0 {
        assert(forall|j: int| 0 <= j < i - 1 ==> (#[trigger] all.drop_first()[j]) == all[j + 1]);
        lemma_lookup_name_first(all.drop_first(), name, i - 1);
    }
}

proof fn lemma_lookup_name_none(all: Seq<BookmarkView>, name: Seq<char>)
    ensures
        lookup_name(all, name) is None <==> forall|j: int|
            0 <= j < all.len() ==> (#[trigger] all[j]).name != name,
    decreases all.len(),
{
    if all.len() > 0 {
        lemma_lookup_name_none(all.drop_first(), name);
        assert(forall|j: int|
            1 <= j < all.len() ==> (#[trigger] all[j]) == all.drop_first()[j - 1]);
    }
}

/// Whether no two bookmarks share a URL.
fn urls_unique(all: &Vec<Bookmark>) -> (r: bool)
    ensures
        r == urls_distinct(all.deep_view()),
{
    let ghost av = all.deep_view();
    proof {
        assert(av.len() == all@.len());
        assert(forall|k: int| 0 <= k < av.len() ==> (#[trigger] av[k]) == all@[k]@);
        lemma_urls_distinct_iff(av);
    }
    let n = all.len();
    let mut i: usize = 0;
    while i < n
        invariant
            i <= n,
            n == all.len(),
            av == all.deep_view(),
            av.len() == n,
            forall|a: int, b: int|
                0 <= a < b < av.len() && a < i ==> (#[trigger] av[a]).url != (
                #[trigger] av[b]).url,
        decreases n - i,
    {
        let mut j: usize = i + 1;
        while j < n
            invariant
                i < n,
                i < j <= n,
                n == all.len(),
                av == all.deep_view(),
                av.len() == n,
                forall|b: int| i < b < j ==> (#[trigger] av[b]).url != av[i as int].url,
            decreases n - j,
        {
            if crate::codec::str_eq_str(all[i].url.as_str(), all[j].url.as_str()) {
                proof {
                    assert(av[i as int].url == av[j as int].url);
                    lemma_urls_distinct_iff(av);
                }
                return false;
            }
            j += 1;
        }
        i += 1;
    }
    true
}

/// Whether no two index entries share a tag name.
fn tags_unique(tags: &Vec<TagEntry>) -> (r: bool)
    ensures
        r == tags_distinct(tags.deep_view()),
{
    let ghost tv = tags.deep_view();
    proof {
        assert(tv.len() == tags@.len());
        assert(forall|k: int| 0 <= k < tv.len() ==> (#[trigger] tv[k]) == tags@[k]@);
        lemma_tags_distinct_iff(tv);
    }
    let m = tags.len();
    let mut i: usize = 0;
    while i < m
        invariant
            i <= m,
            m == tags.len(),
            tv == tags.deep_view(),
            tv.len() == m,
            forall|a: int, b: int|
                0 <= a < b < tv.len() && a < i ==> (#[trigger] tv[a]).tag != (
                #[trigger] tv[b]).tag,
        decreases m - i,
    {
        let mut j: usize = i + 1;
        while j < m
            invariant
                i < m,
                i < j <= m,
                m == tags.len(),
                tv == tags.deep_view(),
                tv.len() == m,
                forall|b: int| i < b < j ==> (#[trigger] tv[b]).tag != tv[i as int].tag,
            decreases m - j,
        {
            if crate::codec::str_eq_str(tags[i].tag.as_str(), tags[j].tag.as_str()) {
                proof {
                    assert(tv[i as int].tag == tv[j as int].tag);
                    lemma_tags_distinct_iff(tv);
                }
                return false;
            }
            j += 1;
        }
        i += 1;
    }
    true
}

/// Whether no string occurs twice in the list.
fn list_unique(v: &Vec<String>) -> (r: bool)
    ensures
        r == list_distinct(v.deep_view()),
{
    let ghost dv = v.deep_view();
    proof {
        assert(dv.len() == v@.len());
        assert(forall|k: int| 0 <= k < dv.len() ==> (#[trigger] dv[k]) == v@[k]@);
    }
    let n = v.len();
    let mut i: usize = 0;
    while i < n
        invariant
            i <= n,
            n == v.len(),
            dv == v.deep_view(),
            dv.len() == n,
            forall|a: int, b: int| 0 <= a < b < dv.len() && a < i ==> dv[a] != dv[b],
        decreases n - i,
    {
        let mut j: usize = i + 1;
        while j < n
            invariant
                i < n,
                i < j <= n,
                n == v.len(),
                dv == v.deep_view(),
                dv.len() == n,
                forall|b: int| i < b < j ==> dv[b] != dv[i as int],
            decreases n - j,
        {
            if crate::codec::str_eq_str(v[i].as_str(), v[j].as_str()) {
                proof {
                    assert(dv[i as int] == dv[j as int]);
                }
                return false;
            }
            j += 1;
        }
        i += 1;
    }
    true
}

/// Whether one index entry is sound against the bookmark table: exactly
/// [`entry_ok`].
fn entry_sound(all: &Vec<Bookmark>, e: &TagEntry) -> (r: bool)
    ensures
        r == entry_ok(all.deep_view(), e.tag@, e.urls.deep_view()),
{
    let ghost av = all.deep_view();
    let ghost uv = e.urls.deep_view();
    proof {
        assert(uv.len() == e.urls@.len());
        assert(forall|k: int| 0 <= k < uv.len() ==> (#[trigger] uv[k]) == e.urls@[k]@);
    }
    if e.urls.len() == 0 {
        return false;
    }
    if !list_unique(&e.urls) {
        return false;
    }
    let un = e.urls.len();
    let mut p: usize = 0;
    while p < un
        invariant
            p <= un,
            un == e.urls.len(),
            av == all.deep_view(),
            uv == e.urls.deep_view(),
            uv.len() == un,
            un > 0,
            list_distinct(uv),
            forall|q: int|
                0 <= q < p ==> lookup_all(av, #[trigger] uv[q]) is Some && lookup_all(
                    av,
                    uv[q],
                )->Some_0.tags.contains(e.tag@),
        decreases un - p,
    {
        proof {
            assert(uv[p as int] == e.urls@[p as int]@);
        }
        match find_url(all, e.urls[p].as_str()) {
            Some(bi) => {
                proof {
                    assert(av[bi as int] == all@[bi as int]@);
                }
                if !contains_str(&all[bi].tags, e.tag.as_str()) {
                    proof {
                        assert(lookup_all(av, uv[p as int])->Some_0 == av[bi as int]);
                        assert(!entry_ok(av, e.tag@, uv));
                    }
                    return false;
                }
                proof {
                    assert(lookup_all(av, uv[p as int])->Some_0.tags.contains(e.tag@));
                }
            },
            None => {
                proof {
                    assert(!entry_ok(av, e.tag@, uv));
                }
                return false;
            },
        }
        p += 1;
    }
    true
}

impl Bookmarks {
    /// Whether the store satisfies the tag-index invariant, decided exactly:
    /// the verified answer to [`wf`].  Useful after loading a store from
    /// text, which checks only the file's shape.
    pub fn is_wf(&self) -> (r: bool)
        ensures
            r == wf(self@),
    {
        let ghost s = self@;
        let ghost av = self.all.deep_view();
        let ghost tv = self.tags.deep_view();
        proof {
            assert(av.len() == self.all@.len());
            assert(tv.len() == self.tags@.len());
            assert(forall|k: int| 0 <= k < av.len() ==> (#[trigger] av[k]) == self.all@[k]@);
            assert(forall|k: int| 0 <= k < tv.len() ==> (#[trigger] tv[k]) == self.tags@[k]@);
        }
        if !urls_unique(&self.all) {
            return false;
        }
        if !tags_unique(&self.tags) {
            return false;
        }
        // every tag list is sound
        let m = self.tags.len();
        let mut i: usize = 0;
        while i < m
            invariant
                i <= m,
                m == self.tags.len(),
                tv == self.tags.deep_view(),
                tv.len() == m,
                av == self.all.deep_view(),
                tags_distinct(tv),
                urls_distinct(av),
                s == self@,
                s.all == av && s.tags == tv,
                forall|a: int| 0 <= a < i ==> entry_ok(av, (#[trigger] tv[a]).tag, tv[a].urls),
            decreases m - i,
        {
            proof {
                assert(tv[i as int] == self.tags@[i as int]@);
                lemma_lookup_at_index(tv, i as int);
            }
            if !entry_sound(&self.all, &self.tags[i]) {
                proof {
                    if wf(s) {
                        assert(lookup_tag(s.tags, tv[i as int].tag) is Some);
                        assert(entry_ok(av, tv[i as int].tag, tv[i as int].urls));
                    }
                }
                return false;
            }
            i += 1;
        }
        // every tag of every bookmark is indexed
        let n = self.all.len();
        let mut i: usize = 0;
        while i < n
            invariant
                i <= n,
                n == self.all.len(),
                av == self.all.deep_view(),
                av.len() == n,
                tv == self.tags.deep_view(),
                urls_distinct(av),
                tags_distinct(tv),
                s == self@,
                s.all == av && s.tags == tv,
                forall|a: int, k: int|
                    0 <= a < i && 0 <= k < (#[trigger] av[a]).tags.len() ==> {
                        let t = #[trigger] av[a].tags[k];
                        lookup_tag(tv, t) is Some && lookup_tag(tv, t)->Some_0.contains(av[a].url)
                    },
            decreases n - i,
        {
            proof {
                assert(av[i as int] == self.all@[i as int]@);
                lemma_lookup_all_at_index(av, i as int);
            }
            let b = &self.all[i];
            let ghost btags = av[i as int].tags;
            proof {
                assert(btags == b.tags.deep_view());
                assert(btags.len() == b.tags@.len());
                assert(forall|k: int| 0 <= k < btags.len() ==> (#[trigger] btags[k]) == b.tags@[k]@);
            }
            let bn = b.tags.len();
            let mut k: usize = 0;
            while k < bn
                invariant
                    k <= bn,
                    bn == b.tags.len(),
                    btags == b.tags.deep_view(),
                    btags.len() == bn,
                    i < n,
                    n == self.all.len(),
                    av == self.all.deep_view(),
                    av.len() == n,
                    tv == self.tags.deep_view(),
                    urls_distinct(av),
                    s == self@,
                    s.all == av && s.tags == tv,
                    b == &self.all[i as int],
                    av[i as int] == b@,
                    btags == av[i as int].tags,
                    lookup_all(av, av[i as int].url) == Some(av[i as int]),
                    forall|q: int|
                        0 <= q < k ==> lookup_tag(tv, #[trigger] btags[q]) is Some && lookup_tag(
                            tv,
                            btags[q],
                        )->Some_0.contains(av[i as int].url),
                decreases bn - k,
            {
                proof {
                    assert(btags[k as int] == b.tags@[k as int]@);
                }
                match find_tag(&self.tags, b.tags[k].as_str()) {
                    Some(ti) => {
                        proof {
                            assert(tv[ti as int] == self.tags@[ti as int]@);
                        }
                        if !contains_str(&self.tags[ti].urls, b.url.as_str()) {
                            proof {
                                if wf(s) {
                                    assert(lookup_all(s.all, av[i as int].url) is Some);
                                    assert(lookup_all(s.all, av[i as int].url)->Some_0.tags[
                                    k as int] == btags[k as int]);
                                    assert(lookup_tag(s.tags, btags[k as int])->Some_0.contains(
                                        av[i as int].url,
                                    ));
                                }
                            }
                            return false;
                        }
                    },
                    None => {
                        proof {
                            if wf(s) {
                                assert(lookup_all(s.all, av[i as int].url) is Some);
                                assert(lookup_all(s.all, av[i as int].url)->Some_0.tags[k as int]
                                    == btags[k as int]);
                                assert(lookup_tag(s.tags, btags[k as int]) is Some);
                            }
                        }
                        return false;
                    },
                }
                k += 1;
            }
            i += 1;
        }
        proof {
            assert forall|t: Seq<char>| #[trigger] lookup_tag(s.tags, t) is Some implies entry_ok(
                s.all,
                t,
                lookup_tag(s.tags, t)->Some_0,
            ) by {
                lemma_lookup_tag_none(tv, t);
                let j = choose|j: int| 0 <= j < tv.len() && (#[trigger] tv[j]).tag == t;
                lemma_lookup_at_index(tv, j);
            }
            assert forall|u: Seq<char>, k: int|
                #[trigger] lookup_all(s.all, u) is Some && 0 <= k < lookup_all(
                    s.all,
                    u,
                )->Some_0.tags.len() implies {
                let t = #[trigger] lookup_all(s.all, u)->Some_0.tags[k];
                &&& lookup_tag(s.tags, t) is Some
                &&& lookup_tag(s.tags, t)->Some_0.contains(u)
            } by {
                lemma_lookup_all_none(av, u);
                let j = choose|j: int| 0 <= j < av.len() && (#[trigger] av[j]).url == u;
                lemma_lookup_all_at_index(av, j);
            }
            assert(wf(s));
        }
        true
    }
}

// ---------------------------------------------------------------------------
// Rendering to hypertext pages
// ---------------------------------------------------------------------------

/// Tags joined with `", "`.
pub open spec fn join_tags(ts: Seq<Seq<char>>) -> Seq<char>
    decreases ts.len(),
{
    if ts.len() == 0 {
        Seq::empty()
    } else if ts.len() == 1 {
        ts[0]
    } else {
        ts[0] + ", "@ + join_tags(ts.drop_first())
    }
}

/// One bookmark as a page block.
pub open spec fn bookmark_gmi(b: BookmarkView) -> Seq<char> {
    "### Name: "@ + b.name + "\nDescription:\n> "@ + (match b.description {
        Some(d) => d,
        None => "none"@,
    }) + "\nTags: "@ + join_tags(b.tags) + "\n=> "@ + b.url + "\n\n"@
}

/// Every bookmark of the table, in order, as page blocks.
pub open spec fn bookmarks_gmi(all: Seq<BookmarkView>) -> Seq<char>
    decreases all.len(),
{
    if all.len() == 0 {
        Seq::empty()
    } else {
        bookmark_gmi(all[0]) + bookmarks_gmi(all.drop_first())
    }
}

/// The full bookmarks page.
pub open spec fn to_gmi_page(s: StoreView) -> Seq<char> {
    "# Bookmarks\n\n=> eva://bookmarks/tags Tags\n\n"@ + bookmarks_gmi(s.all)
}

/// One link line per known tag.
pub open spec fn tag_links(tags: Seq<TagEntryView>) -> Seq<char>
    decreases tags.len(),
{
    if tags.len() == 0 {
        Seq::empty()
    } else {
        "=> eva://bookmarks/tags/"@ + tags[0].tag + " "@ + tags[0].tag + "\n"@ + tag_links(
            tags.drop_first(),
        )
    }
}

/// The full tag-list page.
pub open spec fn tags_gmi_page(s: StoreView) -> Seq<char> {
    "# Bookmark Tags\n\n"@ + tag_links(s.tags) + "--\n=> eva://bookmarks back"@
}

/// The page blocks of the bookmarks carrying one tag, following the tag's
/// URL list; URLs without a stored bookmark are passed over.
pub open spec fn tag_page_items(all: Seq<BookmarkView>, urls: Seq<Seq<char>>) -> Seq<char>
    decreases urls.len(),
{
    if urls.len() == 0 {
        Seq::empty()
    } else {
        (match lookup_all(all, urls[0]) {
            Some(b) => bookmark_gmi(b),
            None => Seq::empty(),
        }) + tag_page_items(all, urls.drop_first())
    }
}

/// The full page for one tag.
pub open spec fn tag_gmi_page(s: StoreView, tag: Seq<char>, urls: Seq<Seq<char>>) -> Seq<char> {
    "# Bookmarks tagged "@ + tag + "\n\n"@ + tag_page_items(s.all, urls)
        + "--\n=> eva://bookmarks/tags back"@
}

fn push_join_tags(out: &mut Vec<char>, ts: &Vec<String>, i: usize)
    requires
        i <= ts.len(),
    ensures
        final(out)@ == old(out)@ + join_tags(ts.deep_view().skip(i as int)),
    decreases ts.len() - i,
{
    let ghost rest = ts.deep_view().skip(i as int);
    proof {
        assert(ts.deep_view().len() == ts@.len());
    }
    if i == ts.len() {
        proof {
            assert(rest.len() == 0);
            assert(old(out)@ + join_tags(rest) =~= old(out)@);
        }
        return ;
    }
    proof {
        assert(rest[0] == ts.deep_view()[i as int]);
        assert(ts.deep_view()[i as int] == ts@[i as int]@);
        assert(rest.drop_first() =~= ts.deep_view().skip(i + 1));
    }
    crate::codec::append_str(out, ts[i].as_str());
    if i + 1 < ts.len() {
        crate::codec::append_str(out, ", ");
        push_join_tags(out, ts, i + 1);
        proof {
            assert(final(out)@ =~= old(out)@ + join_tags(rest));
        }
    } else {
        proof {
            assert(rest.len() == 1);
            assert(final(out)@ =~= old(out)@ + join_tags(rest));
        }
    }
}

fn push_bookmark_gmi(out: &mut Vec<char>, b: &Bookmark)
    ensures
        final(out)@ == old(out)@ + bookmark_gmi(b@),
{
    crate::codec::append_str(out, "### Name: ");
    crate::codec::append_str(out, b.name.as_str());
    crate::codec::append_str(out, "\nDescription:\n> ");
    match &b.description {
        Some(d) => crate::codec::append_str(out, d.as_str()),
        None => crate::codec::append_str(out, "none"),
    }
    crate::codec::append_str(out, "\nTags: ");
    proof {
        assert(b.tags.deep_view().skip(0) =~= b@.tags);
    }
    push_join_tags(out, &b.tags, 0);
    crate::codec::append_str(out, "\n=> ");
    crate::codec::append_str(out, b.url.as_str());
    crate::codec::append_str(out, "\n\n");
    proof {
        assert(final(out)@ =~= old(out)@ + bookmark_gmi(b@));
    }
}

fn push_bookmarks_gmi(out: &mut Vec<char>, all: &Vec<Bookmark>, i: usize)
    requires
        i <= all.len(),
    ensures
        final(out)@ == old(out)@ + bookmarks_gmi(all.deep_view().skip(i as int)),
    decreases all.len() - i,
{
    let ghost rest = all.deep_view().skip(i as int);
    proof {
        assert(all.deep_view().len() == all@.len());
    }
    if i == all.len() {
        proof {
            assert(rest.len() == 0);
            assert(old(out)@ + bookmarks_gmi(rest) =~= old(out)@);
        }
        return ;
    }
    proof {
        assert(rest[0] == all.deep_view()[i as int]);
        assert(all.deep_view()[i as int] == all@[i as int]@);
        assert(rest.drop_first() =~= all.deep_view().skip(i + 1));
    }
    push_bookmark_gmi(out, &all[i]);
    push_bookmarks_gmi(out, all, i + 1);
    proof {
        assert(final(out)@ =~= old(out)@ + bookmarks_gmi(rest));
    }
}

fn push_tag_items(out: &mut Vec<char>, all: &Vec<Bookmark>, urls: &Vec<String>, j: usize)
    requires
        j <= urls.len(),
    ensures
        final(out)@ == old(out)@ + tag_page_items(all.deep_view(), urls.deep_view().skip(j as int)),
    decreases urls.len() - j,
{
    let ghost rest = urls.deep_view().skip(j as int);
    proof {
        assert(urls.deep_view().len() == urls@.len());
    }
    if j == urls.len() {
        proof {
            assert(rest.len() == 0);
            assert(old(out)@ + tag_page_items(all.deep_view(), rest) =~= old(out)@);
        }
        return ;
    }
    proof {
        assert(rest[0] == urls.deep_view()[j as int]);
        assert(urls.deep_view()[j as int] == urls@[j as int]@);
        assert(rest.drop_first() =~= urls.deep_view().skip(j + 1));
    }
    match find_url(all, urls[j].as_str()) {
        Some(i) => {
            push_bookmark_gmi(out, &all[i]);
            proof {
                assert(all.deep_view()[i as int] == all@[i as int]@);
            }
        },
        None => {},
    }
    push_tag_items(out, all, urls, j + 1);
    proof {
        assert(final(out)@ =~= old(out)@ + tag_page_items(all.deep_view(), rest));
    }
}

impl Bookmarks {
    /// The bookmarks page: a header followed by one block per bookmark.
    pub fn to_gmi(&self) -> (r: String)
        ensures
            r@ == to_gmi_page(self@),
    {
        let mut out: Vec<char> = Vec::new();
        crate::codec::append_str(&mut out, "# Bookmarks\n\n=> eva://bookmarks/tags Tags\n\n");
        proof {
            assert(self.all.deep_view().skip(0) =~= self@.all);
        }
        push_bookmarks_gmi(&mut out, &self.all, 0);
        proof {
            assert(out@ =~= to_gmi_page(self@));
        }
        crate::codec::chars_to_string(&out)
    }

    /// The tag-list page: one link per known tag.
    pub fn tags_to_gmi(&self) -> (r: String)
        ensures
            r@ == tags_gmi_page(self@),
    {
        let mut out: Vec<char> = Vec::new();
        crate::codec::append_str(&mut out, "# Bookmark Tags\n\n");
        let ghost tv = self.tags.deep_view();
        proof {
            assert(tv.len() == self.tags@.len());
            assert(tv.skip(0) =~= tv);
        }
        let mut i: usize = 0;
        let ghost head = out@;
        while i < self.tags.len()
            invariant
                i <= self.tags.len(),
                tv == self.tags.deep_view(),
                tv.len() == self.tags@.len(),
                out@ + tag_links(tv.skip(i as int)) == head + tag_links(tv),
            decreases self.tags.len() - i,
        {
            let ghost rest = tv.skip(i as int);
            proof {
                assert(rest[0] == tv[i as int]);
                assert(tv[i as int] == self.tags@[i as int]@);
                assert(rest.drop_first() =~= tv.skip(i + 1));
            }
            crate::codec::append_str(&mut out, "=> eva://bookmarks/tags/");
            crate::codec::append_str(&mut out, self.tags[i].tag.as_str());
            crate::codec::append_str(&mut out, " ");
            crate::codec::append_str(&mut out, self.tags[i].tag.as_str());
            crate::codec::append_str(&mut out, "\n");
            proof {
                assert(out@ + tag_links(tv.skip(i + 1)) =~= head + tag_links(tv));
            }
            i += 1;
        }
        proof {
            assert(tv.skip(tv.len() as int).len() == 0);
            assert(out@ =~= head + tag_links(tv));
        }
        crate::codec::append_str(&mut out, "--\n=> eva://bookmarks back");
        proof {
            assert(out@ =~= tags_gmi_page(self@));
        }
        crate::codec::chars_to_string(&out)
    }

    /// The page for one tag: a block for each bookmark in the tag's URL
    /// list, or nothing for an unknown tag.
    pub fn tag_to_gmi(&self, tag: &str) -> (r: Option<String>)
        ensures
            match r {
                Some(page) => lookup_tag(self@.tags, tag@) is Some && page@ == tag_gmi_page(
                    self@,
                    tag@,
                    lookup_tag(self@.tags, tag@)->Some_0,
                ),
                None => lookup_tag(self@.tags, tag@) is None,
            },
    {
        match find_tag(&self.tags, tag) {
            Some(i) => {
                let mut out: Vec<char> = Vec::new();
                crate::codec::append_str(&mut out, "# Bookmarks tagged ");
                crate::codec::append_str(&mut out, tag);
                crate::codec::append_str(&mut out, "\n\n");
                proof {
                    assert(self.tags.deep_view()[i as int] == self.tags@[i as int]@);
                    assert(self.tags@[i as int]@.urls == self.tags@[i as int].urls.deep_view());
                    assert(self.tags@[i as int].urls.deep_view().skip(0)
                        =~= self.tags@[i as int].urls.deep_view());
                }
                push_tag_items(&mut out, &self.all, &self.tags[i].urls, 0);
                crate::codec::append_str(&mut out, "--\n=> eva://bookmarks/tags back");
                proof {
                    assert(out@ =~= tag_gmi_page(self@, tag@, lookup_tag(self@.tags, tag@)->Some_0));
                }
                Some(crate::codec::chars_to_string(&out))
            },
            None => None,
        }
    }
}

// ---------------------------------------------------------------------------
// Persistence: the store as lines of text
// ---------------------------------------------------------------------------

/// The lines that persist one bookmark: a block header, the quoted fields
/// (the description line only when there is one), and the tag list.
pub open spec fn bm_lines(b: BookmarkView) -> Seq<Seq<char>> {
    seq!["[[bookmark]]"@, crate::codec::kv_line("url = \""@, b.url), crate::codec::kv_line(
        "name = \""@,
        b.name,
    )] + (match b.description {
        Some(d) => seq![crate::codec::kv_line("description = \""@, d)],
        None => Seq::<Seq<char>>::empty(),
    }) + seq![crate::codec::list_line("tags = ["@, b.tags)]
}

pub open spec fn bms_lines(all: Seq<BookmarkView>) -> Seq<Seq<char>>
    decreases all.len(),
{
    if all.len() == 0 {
        Seq::empty()
    } else {
        bm_lines(all[0]) + bms_lines(all.drop_first())
    }
}

/// The lines that persist one tag-index entry.
pub open spec fn te_lines(e: TagEntryView) -> Seq<Seq<char>> {
    seq!["[[tag]]"@, crate::codec::kv_line("name = \""@, e.tag), crate::codec::list_line(
        "urls = ["@,
        e.urls,
    )]
}

pub open spec fn tes_lines(tags: Seq<TagEntryView>) -> Seq<Seq<char>>
    decreases tags.len(),
{
    if tags.len() == 0 {
        Seq::empty()
    } else {
        te_lines(tags[0]) + tes_lines(tags.drop_first())
    }
}

pub open spec fn store_lines(s: StoreView) -> Seq<Seq<char>> {
    bms_lines(s.all) + tes_lines(s.tags)
}

/// The persisted text of a whole store.
pub open spec fn encode_store(s: StoreView) -> Seq<char> {
    crate::codec::join_lines(store_lines(s))
}

/// One bookmark block read back from the front of the lines: the bookmark
/// and how many lines it occupied.
pub open spec fn parse_bm_block(lines: Seq<Seq<char>>) -> Option<(BookmarkView, nat)> {
    if lines.len() >= 4 && lines[0] == "[[bookmark]]"@ {
        match crate::codec::parse_kv(lines[1], "url = \""@) {
            Some(url) => match crate::codec::parse_kv(lines[2], "name = \""@) {
                Some(name) => match crate::codec::parse_kv(lines[3], "description = \""@) {
                    Some(d) => {
                        if lines.len() >= 5 {
                            match crate::codec::parse_list_line(lines[4], "tags = ["@) {
                                Some(tags) => Some(
                                    (BookmarkView { name, description: Some(d), url, tags }, 5nat),
                                ),
                                None => None,
                            }
                        } else {
                            None
                        }
                    },
                    None => match crate::codec::parse_list_line(lines[3], "tags = ["@) {
                        Some(tags) => Some(
                            (BookmarkView { name, description: None, url, tags }, 4nat),
                        ),
                        None => None,
                    },
                },
                None => None,
            },
            None => None,
        }
    } else {
        None
    }
}

proof fn lemma_bm_block_bounds(lines: Seq<Seq<char>>)
    requires
        parse_bm_block(lines) is Some,
    ensures
        4 <= parse_bm_block(lines)->Some_0.1 <= lines.len(),
{
}

/// Every leading bookmark block read back; returns the bookmarks and the
/// lines that follow them.
pub open spec fn parse_bookmarks(lines: Seq<Seq<char>>) -> Option<
    (Seq<BookmarkView>, Seq<Seq<char>>),
>
    decreases lines.len(),
    via parse_bookmarks_dec
{
    if lines.len() == 0 {
        Some((Seq::empty(), lines))
    } else if lines[0] == "[[bookmark]]"@ {
        match parse_bm_block(lines) {
            Some(r) => match parse_bookmarks(lines.skip(r.1 as int)) {
                Some(q) => Some((seq![r.0] + q.0, q.1)),
                None => None,
            },
            None => None,
        }
    } else {
        Some((Seq::empty(), lines))
    }
}

#[via_fn]
proof fn parse_bookmarks_dec(lines: Seq<Seq<char>>) {
    if lines.len() > 0 && lines[0] == "[[bookmark]]"@ && parse_bm_block(lines) is Some {
        lemma_bm_block_bounds(lines);
    }
}

/// One tag block read back from the front of the lines.
pub open spec fn parse_te_block(lines: Seq<Seq<char>>) -> Option<TagEntryView> {
    if lines.len() >= 3 && lines[0] == "[[tag]]"@ {
        match crate::codec::parse_kv(lines[1], "name = \""@) {
            Some(tag) => match crate::codec::parse_list_line(lines[2], "urls = ["@) {
                Some(urls) => Some(TagEntryView { tag, urls }),
                None => None,
            },
            None => None,
        }
    } else {
        None
    }
}

/// The rest of the file read back as tag blocks; everything must be
/// consumed.
pub open spec fn parse_tes(lines: Seq<Seq<char>>) -> Option<Seq<TagEntryView>>
    decreases lines.len(),
{
    if lines.len() == 0 {
        Some(Seq::empty())
    } else if lines.len() >= 3 {
        match parse_te_block(lines) {
            Some(e) => match parse_tes(lines.skip(3)) {
                Some(es) => Some(seq![e] + es),
                None => None,
            },
            None => None,
        }
    } else {
        None
    }
}

/// The store denoted by a sequence of lines, if it is one.
pub open spec fn parse_store(lines: Seq<Seq<char>>) -> Option<StoreView> {
    match parse_bookmarks(lines) {
        Some(r) => match parse_tes(r.1) {
            Some(ts) => Some(StoreView { all: r.0, tags: ts }),
            None => None,
        },
        None => None,
    }
}

/// The store denoted by a persisted text, if it is one.
pub open spec fn decode_store(t: Seq<char>) -> Option<StoreView> {
    parse_store(crate::codec::split_lines(t))
}

// ---------------------------------------------------------------------------
// The round trip
// ---------------------------------------------------------------------------

proof fn lemma_bm_block_roundtrip(b: BookmarkView, rest: Seq<Seq<char>>)
    ensures
        parse_bm_block(bm_lines(b) + rest) == Some((b, bm_lines(b).len() as nat)),
        bm_lines(b).len() == if b.description is Some {
            5int
        } else {
            4int
        },
        (bm_lines(b) + rest).skip(bm_lines(b).len() as int) == rest,
{
    let lines = bm_lines(b) + rest;
    crate::codec::lemma_parse_kv_line("url = \""@, b.url);
    crate::codec::lemma_parse_kv_line("name = \""@, b.name);
    reveal_strlit("tags = [");
    reveal_strlit("description = \"");
    assert("tags = ["@.len() >= 1 && "tags = ["@[0] == 't');
    assert("description = \""@[0] == 'd');
    match b.description {
        Some(d) => {
            assert(bm_lines(b).len() == 5);
            assert(lines[0] == "[[bookmark]]"@);
            assert(lines[1] == crate::codec::kv_line("url = \""@, b.url));
            assert(lines[2] == crate::codec::kv_line("name = \""@, b.name));
            assert(lines[3] == crate::codec::kv_line("description = \""@, d));
            assert(lines[4] == crate::codec::list_line("tags = ["@, b.tags));
            crate::codec::lemma_parse_kv_line("description = \""@, d);
            crate::codec::lemma_parse_list_line("tags = ["@, b.tags);
            assert(lines.skip(5) =~= rest);
        },
        None => {
            assert(bm_lines(b).len() == 4);
            assert(lines[0] == "[[bookmark]]"@);
            assert(lines[1] == crate::codec::kv_line("url = \""@, b.url));
            assert(lines[2] == crate::codec::kv_line("name = \""@, b.name));
            assert(lines[3] == crate::codec::list_line("tags = ["@, b.tags));
            let tl = crate::codec::list_line("tags = ["@, b.tags);
            assert(tl[0] == 't');
            assert(!crate::codec::starts_with(tl, "description = \""@)) by {
                if crate::codec::starts_with(tl, "description = \""@) {
                    assert(tl.take("description = \""@.len() as int)[0] == tl[0]);
                }
            }
            assert(crate::codec::parse_kv(lines[3], "description = \""@) is None);
            crate::codec::lemma_parse_list_line("tags = ["@, b.tags);
            assert(lines.skip(4) =~= rest);
        },
    }
}

proof fn lemma_parse_bookmarks_roundtrip(all: Seq<BookmarkView>, rest: Seq<Seq<char>>)
    requires
        rest.len() == 0 || rest[0] != "[[bookmark]]"@,
    ensures
        parse_bookmarks(bms_lines(all) + rest) == Some((all, rest)),
    decreases all.len(),
{
    if all.len() == 0 {
        assert(bms_lines(all) + rest =~= rest);
        if rest.len() > 0 {
            assert(parse_bookmarks(rest) == Some((Seq::<BookmarkView>::empty(), rest)));
        }
    } else {
        let b = all[0];
        let tail_lines = bms_lines(all.drop_first()) + rest;
        assert(bms_lines(all) + rest =~= bm_lines(b) + tail_lines);
        lemma_bm_block_roundtrip(b, tail_lines);
        let lines = bm_lines(b) + tail_lines;
        assert(lines[0] == "[[bookmark]]"@);
        assert(lines.len() > 0);
        lemma_parse_bookmarks_roundtrip(all.drop_first(), rest);
        assert(lines.skip(bm_lines(b).len() as int) == tail_lines);
        assert(parse_bookmarks(lines) == Some((seq![b] + all.drop_first(), rest)));
        assert(seq![b] + all.drop_first() =~= all);
    }
}

proof fn lemma_te_block_roundtrip(e: TagEntryView, rest: Seq<Seq<char>>)
    ensures
        parse_te_block(te_lines(e) + rest) == Some(e),
        (te_lines(e) + rest).skip(3) == rest,
{
    let lines = te_lines(e) + rest;
    assert(lines[0] == "[[tag]]"@);
    assert(lines[1] == crate::codec::kv_line("name = \""@, e.tag));
    assert(lines[2] == crate::codec::list_line("urls = ["@, e.urls));
    crate::codec::lemma_parse_kv_line("name = \""@, e.tag);
    reveal_strlit("urls = [");
    assert("urls = ["@.len() >= 1 && "urls = ["@[0] == 'u');
    crate::codec::lemma_parse_list_line("urls = ["@, e.urls);
    assert(lines.skip(3) =~= rest);
}

proof fn lemma_parse_tes_roundtrip(tags: Seq<TagEntryView>)
    ensures
        parse_tes(tes_lines(tags)) == Some(tags),
    decreases tags.len(),
{
    if tags.len() == 0 {
        assert(tes_lines(tags).len() == 0);
    } else {
        let e = tags[0];
        let tail_lines = tes_lines(tags.drop_first());
        assert(tes_lines(tags) =~= te_lines(e) + tail_lines);
        lemma_te_block_roundtrip(e, tail_lines);
        lemma_parse_tes_roundtrip(tags.drop_first());
        let lines = te_lines(e) + tail_lines;
        assert(lines.len() >= 3);
        assert(lines.skip(3) == tail_lines);
        assert(parse_tes(lines) == Some(seq![e] + tags.drop_first()));
        assert(seq![e] + tags.drop_first() =~= tags);
    }
}

proof fn lemma_bm_lines_clean(b: BookmarkView)
    ensures
        crate::codec::lines_clean(bm_lines(b)),
{
    reveal_strlit("[[bookmark]]");
    reveal_strlit("url = \"");
    reveal_strlit("name = \"");
    reveal_strlit("description = \"");
    reveal_strlit("tags = [");
    assert(crate::codec::line_clean("[[bookmark]]"@));
    assert(crate::codec::line_clean("url = \""@));
    assert(crate::codec::line_clean("name = \""@));
    assert(crate::codec::line_clean("description = \""@));
    assert(crate::codec::line_clean("tags = ["@));
    crate::codec::lemma_kv_line_clean("url = \""@, b.url);
    crate::codec::lemma_kv_line_clean("name = \""@, b.name);
    crate::codec::lemma_list_line_clean("tags = ["@, b.tags);
    match b.description {
        Some(d) => {
            crate::codec::lemma_kv_line_clean("description = \""@, d);
            assert forall|i: int| 0 <= i < bm_lines(b).len() implies #[trigger] crate::codec::line_clean(
                bm_lines(b)[i],
            ) by {
                assert(bm_lines(b).len() == 5);
            }
        },
        None => {
            assert forall|i: int| 0 <= i < bm_lines(b).len() implies #[trigger] crate::codec::line_clean(
                bm_lines(b)[i],
            ) by {
                assert(bm_lines(b).len() == 4);
            }
        },
    }
}

proof fn lemma_store_lines_clean(s: StoreView)
    ensures
        crate::codec::lines_clean(store_lines(s)),
{
    lemma_bms_lines_clean(s.all);
    lemma_tes_lines_clean(s.tags);
    let a = bms_lines(s.all);
    let b = tes_lines(s.tags);
    assert forall|i: int| 0 <= i < store_lines(s).len() implies #[trigger] crate::codec::line_clean(
        store_lines(s)[i],
    ) by {
        if i < a.len() {
            assert(store_lines(s)[i] == a[i]);
        } else {
            assert(store_lines(s)[i] == b[i - a.len()]);
        }
    }
}

proof fn lemma_bms_lines_clean(all: Seq<BookmarkView>)
    ensures
        crate::codec::lines_clean(bms_lines(all)),
    decreases all.len(),
{
    if all.len() > 0 {
        lemma_bm_lines_clean(all[0]);
        lemma_bms_lines_clean(all.drop_first());
        let a = bm_lines(all[0]);
        let b = bms_lines(all.drop_first());
        assert forall|i: int| 0 <= i < bms_lines(all).len() implies #[trigger] crate::codec::line_clean(
            bms_lines(all)[i],
        ) by {
            if i < a.len() {
                assert(bms_lines(all)[i] == a[i]);
            } else {
                assert(bms_lines(all)[i] == b[i - a.len()]);
            }
        }
    }
}

proof fn lemma_tes_lines_clean(tags: Seq<TagEntryView>)
    ensures
        crate::codec::lines_clean(tes_lines(tags)),
    decreases tags.len(),
{
    if tags.len() > 0 {
        let e = tags[0];
        reveal_strlit("[[tag]]");
        reveal_strlit("name = \"");
        reveal_strlit("urls = [");
        assert(crate::codec::line_clean("[[tag]]"@));
        assert(crate::codec::line_clean("name = \""@));
        assert(crate::codec::line_clean("urls = ["@));
        crate::codec::lemma_kv_line_clean("name = \""@, e.tag);
        crate::codec::lemma_list_line_clean("urls = ["@, e.urls);
        lemma_tes_lines_clean(tags.drop_first());
        let a = te_lines(e);
        let b = tes_lines(tags.drop_first());
        assert forall|i: int| 0 <= i < tes_lines(tags).len() implies #[trigger] crate::codec::line_clean(
            tes_lines(tags)[i],
        ) by {
            if i < a.len() {
                assert(tes_lines(tags)[i] == a[i]);
                assert(a.len() == 3);
            } else {
                assert(tes_lines(tags)[i] == b[i - a.len()]);
            }
        }
    }
}

/// The round trip: decoding the encoded text of any store yields that store
/// back, exactly.
pub proof fn lemma_store_roundtrip(s: StoreView)
    ensures
        decode_store(encode_store(s)) == Some(s),
{
    lemma_store_lines_clean(s);
    crate::codec::lemma_split_join(store_lines(s));
    let tl = tes_lines(s.tags);
    assert(tl.len() == 0 || tl[0] != "[[bookmark]]"@) by {
        if tl.len() > 0 {
            assert(tl[0] == "[[tag]]"@) by {
                assert(tl[0] == te_lines(s.tags[0])[0]);
            }
            reveal_strlit("[[tag]]");
            reveal_strlit("[[bookmark]]");
            assert("[[tag]]"@.len() != "[[bookmark]]"@.len());
        }
    }
    lemma_parse_bookmarks_roundtrip(s.all, tl);
    lemma_parse_tes_roundtrip(s.tags);
    assert(parse_store(store_lines(s)) == Some(StoreView { all: s.all, tags: s.tags }));
    assert(StoreView { all: s.all, tags: s.tags } =~= s);
}

// ---------------------------------------------------------------------------
// Executable encoding and decoding
// ---------------------------------------------------------------------------

fn push_bm_block(out: &mut Vec<char>, b: &Bookmark)
    ensures
        final(out)@ == old(out)@ + crate::codec::join_lines(bm_lines(b@)),
{
    crate::codec::append_str(out, "[[bookmark]]");
    out.push('\n');
    crate::codec::push_kv_line(out, "url = \"", b.url.as_str());
    crate::codec::push_kv_line(out, "name = \"", b.name.as_str());
    match &b.description {
        Some(d) => crate::codec::push_kv_line(out, "description = \"", d.as_str()),
        None => {},
    }
    crate::codec::push_list_line(out, "tags = [", &b.tags);
    proof {
        let ls = bm_lines(b@);
        let nl = seq!['\n'];
        assert(crate::codec::join_lines(Seq::<Seq<char>>::empty()) =~= Seq::<char>::empty());
        match b@.description {
            Some(d) => {
                assert(ls.len() == 5);
                let l4 = ls.drop_first();
                let l3 = l4.drop_first();
                let l2 = l3.drop_first();
                let l1 = l2.drop_first();
                assert(l1.drop_first() =~= Seq::<Seq<char>>::empty());
                assert(l1[0] == ls[4] && l2[0] == ls[3] && l3[0] == ls[2] && l4[0] == ls[1]);
                assert(crate::codec::join_lines(l1) =~= ls[4] + nl);
                assert(crate::codec::join_lines(l2) =~= ls[3] + nl + (ls[4] + nl));
                assert(crate::codec::join_lines(l3) =~= ls[2] + nl + (ls[3] + nl + (ls[4] + nl)));
                assert(crate::codec::join_lines(l4) =~= ls[1] + nl + (ls[2] + nl + (ls[3] + nl + (
                ls[4] + nl))));
                assert(crate::codec::join_lines(ls) =~= ls[0] + nl + (ls[1] + nl + (ls[2] + nl + (
                ls[3] + nl + (ls[4] + nl)))));
                assert(final(out)@ =~= old(out)@ + crate::codec::join_lines(ls));
            },
            None => {
                assert(ls.len() == 4);
                let l3 = ls.drop_first();
                let l2 = l3.drop_first();
                let l1 = l2.drop_first();
                assert(l1.drop_first() =~= Seq::<Seq<char>>::empty());
                assert(l1[0] == ls[3] && l2[0] == ls[2] && l3[0] == ls[1]);
                assert(crate::codec::join_lines(l1) =~= ls[3] + nl);
                assert(crate::codec::join_lines(l2) =~= ls[2] + nl + (ls[3] + nl));
                assert(crate::codec::join_lines(l3) =~= ls[1] + nl + (ls[2] + nl + (ls[3] + nl)));
                assert(crate::codec::join_lines(ls) =~= ls[0] + nl + (ls[1] + nl + (ls[2] + nl + (
                ls[3] + nl))));
                assert(final(out)@ =~= old(out)@ + crate::codec::join_lines(ls));
            },
        }
    }
}

fn push_bms(out: &mut Vec<char>, all: &Vec<Bookmark>, i: usize)
    requires
        i <= all.len(),
    ensures
        final(out)@ == old(out)@ + crate::codec::join_lines(bms_lines(all.deep_view().skip(i as int))),
    decreases all.len() - i,
{
    let ghost rest = all.deep_view().skip(i as int);
    proof {
        assert(all.deep_view().len() == all@.len());
    }
    if i == all.len() {
        proof {
            assert(rest.len() == 0);
            assert(bms_lines(rest).len() == 0);
            assert(old(out)@ + crate::codec::join_lines(bms_lines(rest)) =~= old(out)@);
        }
        return ;
    }
    proof {
        assert(rest[0] == all.deep_view()[i as int]);
        assert(all.deep_view()[i as int] == all@[i as int]@);
        assert(rest.drop_first() =~= all.deep_view().skip(i + 1));
    }
    push_bm_block(out, &all[i]);
    push_bms(out, all, i + 1);
    proof {
        crate::codec::lemma_join_concat(bm_lines(rest[0]), bms_lines(rest.drop_first()));
        assert(bms_lines(rest) == bm_lines(rest[0]) + bms_lines(rest.drop_first()));
        assert(final(out)@ =~= old(out)@ + crate::codec::join_lines(bms_lines(rest)));
    }
}

fn push_te_block(out: &mut Vec<char>, e: &TagEntry)
    ensures
        final(out)@ == old(out)@ + crate::codec::join_lines(te_lines(e@)),
{
    crate::codec::append_str(out, "[[tag]]");
    out.push('\n');
    crate::codec::push_kv_line(out, "name = \"", e.tag.as_str());
    crate::codec::push_list_line(out, "urls = [", &e.urls);
    proof {
        let ls = te_lines(e@);
        let nl = seq!['\n'];
        assert(ls.len() == 3);
        let l2 = ls.drop_first();
        let l1 = l2.drop_first();
        assert(l1.drop_first() =~= Seq::<Seq<char>>::empty());
        assert(crate::codec::join_lines(Seq::<Seq<char>>::empty()) =~= Seq::<char>::empty());
        assert(l1[0] == ls[2] && l2[0] == ls[1]);
        assert(crate::codec::join_lines(l1) =~= ls[2] + nl);
        assert(crate::codec::join_lines(l2) =~= ls[1] + nl + (ls[2] + nl));
        assert(crate::codec::join_lines(ls) =~= ls[0] + nl + (ls[1] + nl + (ls[2] + nl)));
        assert(final(out)@ =~= old(out)@ + crate::codec::join_lines(ls));
    }
}

fn push_tes(out: &mut Vec<char>, tags: &Vec<TagEntry>, i: usize)
    requires
        i <= tags.len(),
    ensures
        final(out)@ == old(out)@ + crate::codec::join_lines(
            tes_lines(tags.deep_view().skip(i as int)),
        ),
    decreases tags.len() - i,
{
    let ghost rest = tags.deep_view().skip(i as int);
    proof {
        assert(tags.deep_view().len() == tags@.len());
    }
    if i == tags.len() {
        proof {
            assert(rest.len() == 0);
            assert(tes_lines(rest).len() == 0);
            assert(old(out)@ + crate::codec::join_lines(tes_lines(rest)) =~= old(out)@);
        }
        return ;
    }
    proof {
        assert(rest[0] == tags.deep_view()[i as int]);
        assert(tags.deep_view()[i as int] == tags@[i as int]@);
        assert(rest.drop_first() =~= tags.deep_view().skip(i + 1));
    }
    push_te_block(out, &tags[i]);
    push_tes(out, tags, i + 1);
    proof {
        crate::codec::lemma_join_concat(te_lines(rest[0]), tes_lines(rest.drop_first()));
        assert(tes_lines(rest) == te_lines(rest[0]) + tes_lines(rest.drop_first()));
        assert(final(out)@ =~= old(out)@ + crate::codec::join_lines(tes_lines(rest)));
    }
}

fn parse_bm_block_exec(lines: &Vec<Vec<char>>, i: usize) -> (r: Option<(Bookmark, usize)>)
    requires
        i <= lines.len(),
    ensures
        r is Some <==> parse_bm_block(lines.deep_view().skip(i as int)) is Some,
        r is Some ==> {
            let sp = parse_bm_block(lines.deep_view().skip(i as int))->Some_0;
            r->Some_0.0@ == sp.0 && r->Some_0.1 as nat == sp.1 && r->Some_0.1 <= lines.len() - i
        },
{
    let ghost dv = lines.deep_view();
    let ghost s = dv.skip(i as int);
    proof {
        assert(dv.len() == lines@.len());
        assert(forall|k: int| 0 <= k < s.len() ==> s[k] == dv[i + k]);
        assert(forall|k: int| 0 <= k < dv.len() ==> dv[k] == lines@[k]@);
    }
    if lines.len() - i < 4 {
        return None;
    }
    if !crate::codec::vec_eq_str(&lines[i], "[[bookmark]]") {
        return None;
    }
    let url = match crate::codec::parse_kv_exec(&lines[i + 1], "url = \"") {
        Some(u) => u,
        None => {
            return None;
        },
    };
    let name = match crate::codec::parse_kv_exec(&lines[i + 2], "name = \"") {
        Some(n) => n,
        None => {
            return None;
        },
    };
    match crate::codec::parse_kv_exec(&lines[i + 3], "description = \"") {
        Some(d) => {
            if lines.len() - i < 5 {
                return None;
            }
            match crate::codec::parse_list_line_exec(&lines[i + 4], "tags = [") {
                Some(tags) => {
                    let b = Bookmark { name, description: Some(d), url, tags };
                    proof {
                        assert(b@ =~= parse_bm_block(s)->Some_0.0);
                    }
                    Some((b, 5))
                },
                None => None,
            }
        },
        None => {
            match crate::codec::parse_list_line_exec(&lines[i + 3], "tags = [") {
                Some(tags) => {
                    let b = Bookmark { name, description: None, url, tags };
                    proof {
                        assert(b@ =~= parse_bm_block(s)->Some_0.0);
                    }
                    Some((b, 4))
                },
                None => None,
            }
        },
    }
}

fn parse_bookmarks_exec(lines: &Vec<Vec<char>>, i: usize) -> (r: Option<(Vec<Bookmark>, usize)>)
    requires
        i <= lines.len(),
    ensures
        r is Some <==> parse_bookmarks(lines.deep_view().skip(i as int)) is Some,
        r is Some ==> {
            let sp = parse_bookmarks(lines.deep_view().skip(i as int))->Some_0;
            &&& r->Some_0.0.deep_view() == sp.0
            &&& i <= r->Some_0.1 <= lines.len()
            &&& sp.1 == lines.deep_view().skip(r->Some_0.1 as int)
        },
    decreases lines.len() - i,
{
    let ghost dv = lines.deep_view();
    let ghost s = dv.skip(i as int);
    proof {
        assert(dv.len() == lines@.len());
        assert(forall|k: int| 0 <= k < s.len() ==> s[k] == dv[i + k]);
        assert(forall|k: int| 0 <= k < dv.len() ==> dv[k] == lines@[k]@);
    }
    if i == lines.len() {
        let bs: Vec<Bookmark> = Vec::new();
        proof {
            assert(s.len() == 0);
            assert(bs.deep_view() =~= Seq::<BookmarkView>::empty());
            assert(s =~= dv.skip(i as int));
        }
        return Some((bs, i));
    }
    if !crate::codec::vec_eq_str(&lines[i], "[[bookmark]]") {
        let bs: Vec<Bookmark> = Vec::new();
        proof {
            assert(s[0] != "[[bookmark]]"@);
            assert(bs.deep_view() =~= Seq::<BookmarkView>::empty());
        }
        return Some((bs, i));
    }
    match parse_bm_block_exec(lines, i) {
        Some((b, n)) => {
            proof {
                assert(s.skip(n as int) =~= dv.skip(i + n));
            }
            match parse_bookmarks_exec(lines, i + n) {
                Some((mut bs, j)) => {
                    bs.insert(0, b);
                    proof {
                        assert(bs.deep_view() =~~= seq![bs@[0]@] + bs.deep_view().drop_first());
                    }
                    Some((bs, j))
                },
                None => None,
            }
        },
        None => None,
    }
}

fn parse_tes_exec(lines: &Vec<Vec<char>>, i: usize) -> (r: Option<Vec<TagEntry>>)
    requires
        i <= lines.len(),
    ensures
        r is Some <==> parse_tes(lines.deep_view().skip(i as int)) is Some,
        r is Some ==> r->Some_0.deep_view() == parse_tes(lines.deep_view().skip(i as int))->Some_0,
    decreases lines.len() - i,
{
    let ghost dv = lines.deep_view();
    let ghost s = dv.skip(i as int);
    proof {
        assert(dv.len() == lines@.len());
        assert(forall|k: int| 0 <= k < s.len() ==> s[k] == dv[i + k]);
        assert(forall|k: int| 0 <= k < dv.len() ==> dv[k] == lines@[k]@);
    }
    if i == lines.len() {
        let es: Vec<TagEntry> = Vec::new();
        proof {
            assert(s.len() == 0);
            assert(es.deep_view() =~= Seq::<TagEntryView>::empty());
        }
        return Some(es);
    }
    if lines.len() - i < 3 {
        proof {
            assert(s.len() < 3 && s.len() > 0);
        }
        return None;
    }
    if !crate::codec::vec_eq_str(&lines[i], "[[tag]]") {
        proof {
            assert(s[0] != "[[tag]]"@);
            assert(parse_te_block(s) is None);
        }
        return None;
    }
    let tag = match crate::codec::parse_kv_exec(&lines[i + 1], "name = \"") {
        Some(t) => t,
        None => {
            proof {
                assert(parse_te_block(s) is None);
            }
            return None;
        },
    };
    let urls = match crate::codec::parse_list_line_exec(&lines[i + 2], "urls = [") {
        Some(u) => u,
        None => {
            proof {
                assert(parse_te_block(s) is None);
            }
            return None;
        },
    };
    let e = TagEntry { tag, urls };
    proof {
        assert(e@ =~= parse_te_block(s)->Some_0);
        assert(s.skip(3) =~= dv.skip(i + 3));
    }
    match parse_tes_exec(lines, i + 3) {
        Some(mut es) => {
            es.insert(0, e);
            proof {
                assert(es.deep_view() =~~= seq![es@[0]@] + es.deep_view().drop_first());
            }
            Some(es)
        },
        None => None,
    }
}

impl Bookmarks {
    /// The persisted text of the whole store, ready to be written to disk.
    pub fn encode(&self) -> (r: String)
        ensures
            r@ == encode_store(self@),
    {
        let mut out: Vec<char> = Vec::new();
        proof {
            assert(self.all.deep_view().skip(0) =~= self@.all);
            assert(self.tags.deep_view().skip(0) =~= self@.tags);
        }
        push_bms(&mut out, &self.all, 0);
        push_tes(&mut out, &self.tags, 0);
        proof {
            crate::codec::lemma_join_concat(bms_lines(self@.all), tes_lines(self@.tags));
            assert(out@ =~= encode_store(self@));
        }
        crate::codec::chars_to_string(&out)
    }

    /// The store read back from persisted text; fails exactly on text that
    /// [`decode_store`] rejects.
    pub fn decode(text: &str) -> (r: Result<Bookmarks, crate::codec::DecodeError>)
        ensures
            match r {
                Ok(s) => decode_store(text@) == Some(s@),
                Err(_) => decode_store(text@) is None,
            },
    {
        let chars = crate::codec::str_chars(text);
        proof {
            assert(chars@.skip(0) =~= text@);
        }
        let lines = crate::codec::split_lines_exec(&chars, 0);
        let ghost lv = lines.deep_view();
        proof {
            assert(lv == crate::codec::split_lines(text@));
            assert(lv.skip(0) =~= lv);
        }
        match parse_bookmarks_exec(&lines, 0) {
            Some((all, j)) => {
                match parse_tes_exec(&lines, j) {
                    Some(tags) => {
                        let s = Bookmarks { all, tags };
                        proof {
                            assert(s@ =~= decode_store(text@)->Some_0);
                        }
                        Ok(s)
                    },
                    None => Err(crate::codec::DecodeError),
                }
            },
            None => Err(crate::codec::DecodeError),
        }
    }
}

} // verus!
