use eva::config::{Colors, Config, DownloadScheme, General, NewPage, Rgba, ShowTabs, TabPosition};
use eva::fonts::{Font, Fonts, Stretch, Style, Weight};
use eva::keys::{KeyPair, Keys};
use eva::mime::{desktop_env, handlers};
use eva::uri::{uri, Search, SearchEngine};

#[test]
fn general_defaults() {
    let g = General::default();
    assert_eq!(g.homepage, "gemini://gemini.circumlunar.space/");
    assert_eq!(g.new_page, NewPage::Home);
    assert_eq!(g.show_tabs, ShowTabs::Always);
    assert_eq!(g.tab_position, TabPosition::Top);
    assert_eq!(g.download_scheme, DownloadScheme::Ask);
    assert!(g.download_location.is_none());
}

#[test]
fn color_defaults_and_accessors() {
    let mut c = Colors::default();
    assert_eq!(c.fg(), Rgba { red: 153, green: 193, blue: 241, alpha: 255 });
    assert_eq!(c.bg(), Rgba { red: 36, green: 31, blue: 49, alpha: 255 });
    assert_eq!(c.hover(), Rgba { red: 255, green: 0, blue: 0, alpha: 255 });
    let green = Rgba { red: 0, green: 255, blue: 0, alpha: 255 };
    c.set_fg(green);
    c.set_bg(green);
    c.set_pre_fg(green);
    c.set_pre_bg(green);
    c.set_quote_fg(green);
    c.set_quote_bg(green);
    c.set_link(green);
    c.set_hover(green);
    assert_eq!(c.fg(), green);
    assert_eq!(c.pre_bg(), green);
    assert_eq!(c.quote_fg(), green);
    assert_eq!(c.link(), green);

    let cfg = Config::default();
    assert_eq!(cfg.general.homepage, "gemini://gemini.circumlunar.space/");
    assert_eq!(cfg.colors, Colors::default());
    assert_eq!(cfg.fonts.pre.family, "Monospace");
}

#[test]
fn font_property_parsing() {
    assert_eq!(Style::from_str("Style::Italic"), Ok(Style::Italic));
    assert_eq!(Style::from_str("Style::italic"), Ok(Style::Italic));
    assert!(Style::from_str("Italic").is_err());
    assert_eq!(Weight::from_str("Weight::Bold"), Ok(Weight::Bold));
    assert_eq!(Weight::from_str("Weight::Regular"), Ok(Weight::Normal));
    assert!(Weight::from_str("Weight::Heaviest").is_err());
    assert_eq!(Stretch::from_str("Stretch::Condensed"), Ok(Stretch::Condensed));
    assert!(Stretch::from_str("Stretch::condensed").is_err());
    assert_eq!(Style::Oblique.as_str(), "Oblique");
    assert_eq!(Weight::Ultraheavy.as_str(), "Ultraheavy");
    assert_eq!(Stretch::SemiExpanded.as_str(), "SemiExpanded");
}

#[test]
fn font_accessors() {
    let mut f = Font::default();
    assert_eq!(f.family(), "Sans");
    assert_eq!(f.style(), Style::Normal);
    assert_eq!(f.weight(), Weight::Normal);
    assert_eq!(f.stretch(), Stretch::Normal);
    assert_eq!(f.size(), 12288);
    f.set_family("Serif".to_string());
    f.set_style(Style::Italic);
    f.set_weight(Weight::Bold);
    f.set_stretch(Stretch::Expanded);
    f.set_size(10240);
    assert_eq!(f.family(), "Serif");
    assert_eq!(f.style(), Style::Italic);
    assert_eq!(f.weight(), Weight::Bold);
    assert_eq!(f.stretch(), Stretch::Expanded);
    assert_eq!(f.size(), 10240);
}

#[test]
fn fonts_defaults() {
    let fonts = Fonts::default();
    assert_eq!(fonts.pg.family, "Sans");
    assert_eq!(fonts.pre.family, "Monospace");
    assert_eq!(fonts.quote.style, Style::Italic);
    assert_eq!(fonts.h1.size, 18432);
    assert_eq!(fonts.h2.size, 16384);
    assert_eq!(fonts.h3.size, 14336);
}

#[test]
fn keys_fall_back_to_defaults() {
    let keys = Keys::default();
    assert_eq!(keys.get("new_tab"), "<primary>T");
    assert_eq!(keys.get("quit"), "<primary>Q");
    assert_eq!(keys.get("no_such_action"), "");
}

#[test]
fn keys_prefer_stored_bindings() {
    let keys = Keys {
        keys: vec![KeyPair { action: "quit".to_string(), binding: "<primary>X".to_string() }],
    };
    assert_eq!(keys.get("quit"), "<primary>X");
    assert_eq!(keys.get("reload"), "<primary>R");
}

#[test]
fn keys_decode() {
    let text = "[[key]]\naction = \"quit\"\nbinding = \"<primary>X\"\n";
    let keys = Keys::decode(text).expect("decodes");
    assert_eq!(keys.keys.len(), 1);
    assert_eq!(keys.get("quit"), "<primary>X");
    assert!(Keys::decode("[[key]]\naction = \"quit\"\n").is_err());
}

#[test]
fn search_builds_queries() {
    let search = Search::default();
    assert_eq!(search.build("rust gemini"), "gemini://geminispace.info/search?rust%20gemini");
    assert_eq!(search.build("gus rust"), "gemini://geminispace.info/search?rust");
    assert_eq!(search.build("ron foo bar"), "gopher://gopher.floodgap.com/v2/vs?foo%20bar");
    // a bare engine key goes to the default engine, key included
    assert_eq!(search.build("gus"), "gemini://geminispace.info/search?gus");
    // no words at all still yields a well-formed query
    assert_eq!(search.build("   "), "gemini://geminispace.info/search?");
}

#[test]
fn search_with_custom_engines() {
    let search = Search {
        default: "gemini://d/search".to_string(),
        all: vec![SearchEngine { key: "e".to_string(), url: "gemini://e/search".to_string() }],
    };
    assert_eq!(search.build("e one two"), "gemini://e/search?one%20two");
    assert_eq!(search.build("f one"), "gemini://d/search?f%20one");
}

#[test]
fn roundtrip_search_configuration() {
    let search = Search {
        default: "gemini://d/search".to_string(),
        all: vec![
            SearchEngine { key: "e".to_string(), url: "gemini://e/search".to_string() },
            SearchEngine { key: "f".to_string(), url: "gemini://f?q".to_string() },
        ],
    };
    let text = search.encode();
    let back = Search::decode(&text).expect("decodes");
    assert_eq!(back.default, "gemini://d/search");
    assert_eq!(back.all.len(), 2);
    assert_eq!(back.all[1].key, "f");
    assert_eq!(back.all[1].url, "gemini://f?q");
    assert!(Search::decode("").is_err());
    assert!(Search::decode("[[engine]]\nkey = \"x\"\n").is_err());
}

#[test]
fn uri_normalisation() {
    let search = Search::default();
    // a typed scheme passes through
    assert_eq!(uri("gemini://x", None, true, None, &search), "gemini://x");
    // an absolute path becomes a file url
    assert_eq!(uri("/tmp/page.gmi", None, true, None, &search), "file:///tmp/page.gmi");
    // a bookmark name resolves to its url
    assert_eq!(uri("mybm", Some("gemini://bm"), true, None, &search), "gemini://bm");
    // an existing relative path becomes a file url
    assert_eq!(uri("page.gmi", None, true, Some("/cwd/page.gmi"), &search), "file:///cwd/page.gmi");
    // words go to the search engine
    assert_eq!(
        uri("two words", None, true, None, &search),
        "gemini://geminispace.info/search?two%20words"
    );
    // a single dotless word goes to the search engine too
    assert_eq!(
        uri("word", None, true, None, &search),
        "gemini://geminispace.info/search?word"
    );
    // a host-shaped word gets the default scheme
    assert_eq!(uri("example.com", None, true, None, &search), "gemini://example.com");
    // an unreadable working directory falls back to searching
    assert_eq!(
        uri("example.com", None, false, None, &search),
        "gemini://geminispace.info/search?example.com"
    );
}

#[test]
fn desktop_classification() {
    assert_eq!(desktop_env("x-cinnamon", "", false, false), "gnome");
    assert_eq!(desktop_env("", "gnome-xorg", false, false), "gnome");
    assert_eq!(desktop_env("kde", "", false, false), "kde");
    assert_eq!(desktop_env("", "", true, false), "kde");
    assert_eq!(desktop_env("", "", false, true), "kde");
    assert_eq!(desktop_env("mate", "", false, false), "mate");
    assert_eq!(desktop_env("", "xfce-session", false, false), "xfce");
    assert_eq!(desktop_env("sway", "sway", false, false), "unknown");
}

#[test]
fn handler_tables() {
    assert_eq!(
        handlers("kde"),
        vec![vec!["kde-open".to_string()], vec!["kde-open5".to_string()]]
    );
    assert_eq!(
        handlers("gnome"),
        vec![
            vec!["gio".to_string(), "open".to_string()],
            vec!["gvfs-open".to_string()],
            vec!["gnome-open".to_string()],
        ]
    );
    assert_eq!(handlers("somewhere"), vec![vec!["xdg-open".to_string()]]);
}
