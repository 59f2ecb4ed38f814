//! Flat configuration values: what a new page shows, how tabs are shown and
//! placed, and how downloads are handled.

use vstd::prelude::*;

verus! {

/// What a newly opened page shows.
#[derive(Clone, Copy, Debug, PartialEq, Eq, Structural)]
pub enum NewPage {
    Home,
    Blank,
}

impl Default for NewPage {
    fn default() -> (r: Self)
        ensures
            r == NewPage::Home,
    {
        NewPage::Home
    }
}

/// When the tab bar is visible.
#[derive(Clone, Copy, Debug, PartialEq, Eq, Structural)]
pub enum ShowTabs {
    Always,
    Multiple,
    Never,
}

impl Default for ShowTabs {
    fn default() -> (r: Self)
        ensures
            r == ShowTabs::Always,
    {
        ShowTabs::Always
    }
}

/// Where the tab bar sits.
#[derive(Clone, Copy, Debug, PartialEq, Eq, Structural)]
pub enum TabPosition {
    Top,
    Bottom,
    Left,
    Right,
}

impl Default for TabPosition {
    fn default() -> (r: Self)
        ensures
            r == TabPosition::Top,
    {
        TabPosition::Top
    }
}

/// Whether a download location is asked for or chosen automatically.
#[derive(Clone, Copy, Debug, PartialEq, Eq, Structural)]
pub enum DownloadScheme {
    Ask,
    Auto,
}

impl Default for DownloadScheme {
    fn default() -> (r: Self)
        ensures
            r == DownloadScheme::Ask,
    {
        DownloadScheme::Ask
    }
}

/// One colour, as the four channel values.
#[derive(Clone, Copy, Debug, PartialEq, Eq, Structural)]
pub struct Rgba {
    pub red: u8,
    pub green: u8,
    pub blue: u8,
    pub alpha: u8,
}

/// The page renderer's colour scheme, one colour per text element.
#[derive(Clone, Copy, Debug, PartialEq, Eq, Structural)]
pub struct Colors {
    pub fg: Rgba,
    pub bg: Rgba,
    pub pre_fg: Rgba,
    pub pre_bg: Rgba,
    pub quote_fg: Rgba,
    pub quote_bg: Rgba,
    pub link: Rgba,
    pub hover: Rgba,
}

impl Default for Colors {
    /// The stock colour scheme: a dark background with blue body text,
    /// green quotes, purple links and a red hover colour.
    fn default() -> (r: Self)
        ensures
            r == (Colors {
                fg: Rgba { red: 153, green: 193, blue: 241, alpha: 255 },
                bg: Rgba { red: 36, green: 31, blue: 49, alpha: 255 },
                pre_fg: Rgba { red: 98, green: 160, blue: 234, alpha: 255 },
                pre_bg: Rgba { red: 5, green: 34, blue: 79, alpha: 255 },
                quote_fg: Rgba { red: 87, green: 227, blue: 137, alpha: 255 },
                quote_bg: Rgba { red: 22, green: 110, blue: 0, alpha: 255 },
                link: Rgba { red: 192, green: 97, blue: 203, alpha: 255 },
                hover: Rgba { red: 255, green: 0, blue: 0, alpha: 255 },
            }),
    {
        Colors {
            fg: Rgba { red: 153, green: 193, blue: 241, alpha: 255 },
            bg: Rgba { red: 36, green: 31, blue: 49, alpha: 255 },
            pre_fg: Rgba { red: 98, green: 160, blue: 234, alpha: 255 },
            pre_bg: Rgba { red: 5, green: 34, blue: 79, alpha: 255 },
            quote_fg: Rgba { red: 87, green: 227, blue: 137, alpha: 255 },
            quote_bg: Rgba { red: 22, green: 110, blue: 0, alpha: 255 },
            link: Rgba { red: 192, green: 97, blue: 203, alpha: 255 },
            hover: Rgba { red: 255, green: 0, blue: 0, alpha: 255 },
        }
    }
}

impl Colors {
    /// The body text colour.
    pub fn fg(&self) -> (r: Rgba)
        ensures
            r == self.fg,
    {
        self.fg
    }

    /// Sets the body text colour.
    pub fn set_fg(&mut self, color: Rgba)
        ensures
            *final(self) == (Colors { fg: color, ..*old(self) }),
    {
        self.fg = color;
    }

    /// The page background colour.
    pub fn bg(&self) -> (r: Rgba)
        ensures
            r == self.bg,
    {
        self.bg
    }

    /// Sets the page background colour.
    pub fn set_bg(&mut self, color: Rgba)
        ensures
            *final(self) == (Colors { bg: color, ..*old(self) }),
    {
        self.bg = color;
    }

    /// The preformatted text colour.
    pub fn pre_fg(&self) -> (r: Rgba)
        ensures
            r == self.pre_fg,
    {
        self.pre_fg
    }

    /// Sets the preformatted text colour.
    pub fn set_pre_fg(&mut self, color: Rgba)
        ensures
            *final(self) == (Colors { pre_fg: color, ..*old(self) }),
    {
        self.pre_fg = color;
    }

    /// The preformatted background colour.
    pub fn pre_bg(&self) -> (r: Rgba)
        ensures
            r == self.pre_bg,
    {
        self.pre_bg
    }

    /// Sets the preformatted background colour.
    pub fn set_pre_bg(&mut self, color: Rgba)
        ensures
            *final(self) == (Colors { pre_bg: color, ..*old(self) }),
    {
        self.pre_bg = color;
    }

    /// The quote text colour.
    pub fn quote_fg(&self) -> (r: Rgba)
        ensures
            r == self.quote_fg,
    {
        self.quote_fg
    }

    /// Sets the quote text colour.
    pub fn set_quote_fg(&mut self, color: Rgba)
        ensures
            *final(self) == (Colors { quote_fg: color, ..*old(self) }),
    {
        self.quote_fg = color;
    }

    /// The quote background colour.
    pub fn quote_bg(&self) -> (r: Rgba)
        ensures
            r == self.quote_bg,
    {
        self.quote_bg
    }

    /// Sets the quote background colour.
    pub fn set_quote_bg(&mut self, color: Rgba)
        ensures
            *final(self) == (Colors { quote_bg: color, ..*old(self) }),
    {
        self.quote_bg = color;
    }

    /// The link colour.
    pub fn link(&self) -> (r: Rgba)
        ensures
            r == self.link,
    {
        self.link
    }

    /// Sets the link colour.
    pub fn set_link(&mut self, color: Rgba)
        ensures
            *final(self) == (Colors { link: color, ..*old(self) }),
    {
        self.link = color;
    }

    /// The hover colour.
    pub fn hover(&self) -> (r: Rgba)
        ensures
            r == self.hover,
    {
        self.hover
    }

    /// Sets the hover colour.
    pub fn set_hover(&mut self, color: Rgba)
        ensures
            *final(self) == (Colors { hover: color, ..*old(self) }),
    {
        self.hover = color;
    }
}

/// General application settings.
pub struct General {
    pub homepage: String,
    pub new_page: NewPage,
    pub show_tabs: ShowTabs,
    pub tab_position: TabPosition,
    pub download_scheme: DownloadScheme,
    pub download_location: Option<String>,
}

impl Default for General {
    fn default() -> (r: Self)
        ensures
            r.homepage@ == "gemini://gemini.circumlunar.space/"@,
            r.new_page == NewPage::Home,
            r.show_tabs == ShowTabs::Always,
            r.tab_position == TabPosition::Top,
            r.download_scheme == DownloadScheme::Ask,
            r.download_location is None,
    {
        General {
            homepage: "gemini://gemini.circumlunar.space/".to_owned(),
            new_page: NewPage::Home,
            show_tabs: ShowTabs::Always,
            tab_position: TabPosition::Top,
            download_scheme: DownloadScheme::Ask,
            download_location: None,
        }
    }
}

/// The whole configuration: general settings, colours and fonts.
pub struct Config {
    pub general: General,
    pub colors: Colors,
    pub fonts: crate::fonts::Fonts,
}

impl Default for Config {
    fn default() -> (r: Self)
        ensures
            r.general.homepage@ == "gemini://gemini.circumlunar.space/"@,
            r.general.new_page == NewPage::Home,
            r.general.download_scheme == DownloadScheme::Ask,
            r.colors == (Colors {
                fg: Rgba { red: 153, green: 193, blue: 241, alpha: 255 },
                bg: Rgba { red: 36, green: 31, blue: 49, alpha: 255 },
                pre_fg: Rgba { red: 98, green: 160, blue: 234, alpha: 255 },
                pre_bg: Rgba { red: 5, green: 34, blue: 79, alpha: 255 },
                quote_fg: Rgba { red: 87, green: 227, blue: 137, alpha: 255 },
                quote_bg: Rgba { red: 22, green: 110, blue: 0, alpha: 255 },
                link: Rgba { red: 192, green: 97, blue: 203, alpha: 255 },
                hover: Rgba { red: 255, green: 0, blue: 0, alpha: 255 },
            }),
            r.fonts.pg.family@ == "Sans"@,
            r.fonts.pre.family@ == "Monospace"@,
    {
        Config {
            general: General::default(),
            colors: Colors::default(),
            fonts: crate::fonts::Fonts::default(),
        }
    }
}

} // verus!
