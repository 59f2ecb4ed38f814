use eva::bookmarks::{Bookmark, BookmarkBuilder, Bookmarks, TagEntry};

fn bm(url: &str, name: &str, desc: Option<&str>, tags: &[&str]) -> Bookmark {
    Bookmark {
        name: name.to_string(),
        description: desc.map(|d| d.to_string()),
        url: url.to_string(),
        tags: tags.iter().map(|t| t.to_string()).collect(),
    }
}

fn tag_urls<'a>(store: &'a Bookmarks, tag: &str) -> Option<Vec<String>> {
    store
        .tags
        .iter()
        .find(|e| e.tag == tag)
        .map(|e| e.urls.clone())
}

#[test]
fn upsert_inserts_and_indexes() {
    let mut store = Bookmarks::default();
    store.update(&bm("gemini://a", "A", Some("first"), &["x", "y"]));
    assert_eq!(store.all.len(), 1);
    assert_eq!(store.all[0].url, "gemini://a");
    assert_eq!(tag_urls(&store, "x"), Some(vec!["gemini://a".to_string()]));
    assert_eq!(tag_urls(&store, "y"), Some(vec!["gemini://a".to_string()]));
}

#[test]
fn upsert_twice_is_idempotent() {
    let b = bm("gemini://a", "A", None, &["x", "y"]);
    let mut once = Bookmarks::default();
    once.update(&b);
    let mut twice = Bookmarks::default();
    twice.update(&b);
    twice.update(&b);
    assert_eq!(once.encode(), twice.encode());
    // no duplicate urls in any tag list
    for e in &twice.tags {
        let mut seen: Vec<&String> = Vec::new();
        for u in &e.urls {
            assert!(!seen.contains(&u));
            seen.push(u);
        }
    }
}

#[test]
fn tag_invariant_holds_after_upserts() {
    let mut store = Bookmarks::default();
    store.update(&bm("gemini://a", "A", None, &["x", "y"]));
    store.update(&bm("gemini://b", "B", None, &["y", "z"]));
    store.update(&bm("gemini://a", "A", None, &["z"]));
    for e in &store.tags {
        assert!(!e.urls.is_empty());
        for u in &e.urls {
            let b = store.all.iter().find(|b| &b.url == u).expect("indexed url stored");
            assert!(b.tags.contains(&e.tag));
        }
    }
    for b in &store.all {
        for t in &b.tags {
            let e = store.tags.iter().find(|e| &e.tag == t).expect("tag indexed");
            assert_eq!(e.urls.iter().filter(|u| *u == &b.url).count(), 1);
        }
    }
}

#[test]
fn removing_all_tags_clears_index() {
    let mut store = Bookmarks::default();
    store.update(&bm("gemini://a", "A", None, &["x", "y"]));
    store.update(&bm("gemini://a", "A", None, &[]));
    assert_eq!(store.all.len(), 1);
    assert!(store.tags.is_empty());
}

#[test]
fn scenario_two_bookmarks_share_a_tag() {
    let mut store = Bookmarks::default();
    store.update(&bm("gemini://a", "A", None, &["x", "y"]));
    store.update(&bm("gemini://b", "B", None, &["y"]));
    assert_eq!(
        tag_urls(&store, "y"),
        Some(vec!["gemini://a".to_string(), "gemini://b".to_string()])
    );
    assert_eq!(tag_urls(&store, "x"), Some(vec!["gemini://a".to_string()]));
}

#[test]
fn scenario_dropping_a_tag_deletes_its_list() {
    let mut store = Bookmarks::default();
    store.update(&bm("gemini://a", "A", None, &["x", "y"]));
    store.update(&bm("gemini://b", "B", None, &["y"]));
    store.update(&bm("gemini://a", "A", None, &["y"]));
    assert_eq!(tag_urls(&store, "x"), None);
    assert_eq!(
        tag_urls(&store, "y"),
        Some(vec!["gemini://a".to_string(), "gemini://b".to_string()])
    );
}

#[test]
fn invariant_check_accepts_upserted_stores_and_rejects_broken_ones() {
    let mut store = Bookmarks::default();
    assert!(store.is_wf());
    store.update(&bm("gemini://a", "A", None, &["x", "y"]));
    store.update(&bm("gemini://b", "B", None, &["y"]));
    store.update(&bm("gemini://a", "A", None, &[]));
    assert!(store.is_wf());

    // an index entry naming a url that is not stored
    let dangling = Bookmarks {
        all: Vec::new(),
        tags: vec![TagEntry { tag: "x".to_string(), urls: vec!["gemini://a".to_string()] }],
    };
    assert!(!dangling.is_wf());

    // an index entry with an empty url list
    let empty_list = Bookmarks {
        all: Vec::new(),
        tags: vec![TagEntry { tag: "x".to_string(), urls: Vec::new() }],
    };
    assert!(!empty_list.is_wf());

    // a bookmark whose tag is not indexed
    let unindexed = Bookmarks { all: vec![bm("gemini://a", "A", None, &["x"])], tags: Vec::new() };
    assert!(!unindexed.is_wf());

    // two bookmarks under the same url
    let dup = Bookmarks {
        all: vec![bm("gemini://a", "A", None, &[]), bm("gemini://a", "B", None, &[])],
        tags: Vec::new(),
    };
    assert!(!dup.is_wf());
}

#[test]
fn roundtrip_empty_store() {
    let store = Bookmarks::default();
    let text = store.encode();
    let back = Bookmarks::decode(&text).expect("decodes");
    assert!(back.all.is_empty());
    assert!(back.tags.is_empty());
}

#[test]
fn roundtrip_single_bookmark() {
    let mut store = Bookmarks::default();
    store.update(&bm("gemini://a", "A", Some("desc"), &["x"]));
    let text = store.encode();
    let back = Bookmarks::decode(&text).expect("decodes");
    assert_eq!(back.encode(), text);
    assert_eq!(back.all.len(), 1);
    assert_eq!(back.all[0].name, "A");
    assert_eq!(back.all[0].description.as_deref(), Some("desc"));
    assert_eq!(back.all[0].tags, vec!["x".to_string()]);
}

#[test]
fn roundtrip_shared_tags() {
    let mut store = Bookmarks::default();
    store.update(&bm("gemini://a", "A", None, &["x", "y"]));
    store.update(&bm("gemini://b", "B", Some("two"), &["y"]));
    let text = store.encode();
    let back = Bookmarks::decode(&text).expect("decodes");
    assert_eq!(back.encode(), text);
    assert_eq!(tag_urls(&back, "y"), tag_urls(&store, "y"));
    assert_eq!(tag_urls(&back, "x"), tag_urls(&store, "x"));
}

#[test]
fn roundtrip_awkward_characters() {
    let mut store = Bookmarks::default();
    store.update(&bm(
        "gemini://q",
        "quote \" backslash \\ newline \n tab \t done",
        Some("line1\r\nline2"),
        &["we ird, tag]"],
    ));
    let text = store.encode();
    let back = Bookmarks::decode(&text).expect("decodes");
    assert_eq!(back.all[0].name, "quote \" backslash \\ newline \n tab \t done");
    assert_eq!(back.all[0].description.as_deref(), Some("line1\r\nline2"));
    assert_eq!(back.all[0].tags, vec!["we ird, tag]".to_string()]);
}

#[test]
fn roundtrip_bookmark_without_tags() {
    let mut store = Bookmarks::default();
    store.update(&bm("gemini://plain", "Plain", None, &[]));
    let text = store.encode();
    assert!(text.contains("tags = []"));
    let back = Bookmarks::decode(&text).expect("decodes");
    assert_eq!(back.all.len(), 1);
    assert!(back.all[0].tags.is_empty());
    assert!(back.tags.is_empty());
}

#[test]
fn decode_rejects_malformed_text() {
    assert!(Bookmarks::decode("[[bookmark]]\n").is_err());
    assert!(Bookmarks::decode("[[bookmark]]\nurl = \"a\"\nname = \"n\"\n").is_err());
    assert!(Bookmarks::decode("nonsense\n").is_err());
    assert!(Bookmarks::decode("[[tag]]\nname = \"x\"\n").is_err());
}

#[test]
fn lookups_find_stored_bookmarks() {
    let mut store = Bookmarks::default();
    store.update(&bm("gemini://a", "Alpha", None, &[]));
    store.update(&bm("gemini://b", "Beta", None, &[]));
    let hit = store.lookup_by_url("gemini://b").expect("stored");
    assert_eq!(hit.name, "Beta");
    assert!(store.lookup_by_url("gemini://c").is_none());
    assert_eq!(store.url_from_name("Alpha"), Some("gemini://a".to_string()));
    assert_eq!(store.url_from_name("Gamma"), None);
}

#[test]
fn renders_list_bookmarks_and_tags() {
    let mut store = Bookmarks::default();
    store.update(&bm("gemini://a", "A", Some("d"), &["x", "y"]));
    let page = store.to_gmi();
    assert_eq!(
        page,
        "# Bookmarks\n\n=> eva://bookmarks/tags Tags\n\n### Name: A\nDescription:\n> d\nTags: x, y\n=> gemini://a\n\n"
    );
    let tags_page = store.tags_to_gmi();
    assert!(tags_page.starts_with("# Bookmark Tags\n\n"));
    assert!(tags_page.contains("=> eva://bookmarks/tags/x x\n"));
    assert!(tags_page.ends_with("--\n=> eva://bookmarks back"));
    let tag_page = store.tag_to_gmi("x").expect("known tag");
    assert_eq!(
        tag_page,
        "# Bookmarks tagged x\n\n### Name: A\nDescription:\n> d\nTags: x, y\n=> gemini://a\n\n--\n=> eva://bookmarks/tags back"
    );
    assert!(store.tag_to_gmi("zzz").is_none());
}

#[test]
fn render_without_description_says_none() {
    let mut store = Bookmarks::default();
    store.update(&bm("gemini://a", "A", None, &[]));
    let page = store.to_gmi();
    assert!(page.contains("Description:\n> none\n"));
}

#[test]
fn builder_and_accessors() {
    let b = BookmarkBuilder::new()
        .name("N")
        .description(Some("D"))
        .url("gemini://u")
        .tags(vec!["t1".to_string(), "t2".to_string()])
        .build();
    assert_eq!(b.name(), "N");
    assert_eq!(b.description(), Some("D".to_string()));
    assert_eq!(b.url(), "gemini://u");
    assert_eq!(b.tags(), vec!["t1".to_string(), "t2".to_string()]);
    assert!(b.has_tag("t1"));
    assert!(!b.has_tag("t3"));

    let mut b = b;
    b.set_name("M");
    b.set_description("E");
    b.set_url("gemini://v");
    b.append_tag("t3");
    assert!(b.has_tag("t3"));
    b.remove_tag("t1");
    assert!(!b.has_tag("t1"));
    b.set_tags(vec!["only".to_string()]);
    assert_eq!(b.tags(), vec!["only".to_string()]);
    assert_eq!(b.name(), "M");
    assert_eq!(b.url(), "gemini://v");
}
