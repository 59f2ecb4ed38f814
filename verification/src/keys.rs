//! Key bindings: the user's bindings keyed by action name, with the built-in
//! defaults behind them.

use vstd::prelude::*;

verus! {

/// One binding: an action name and the accelerator string bound to it.
pub struct KeyPair {
    pub action: String,
    pub binding: String,
}

/// The mathematical value of a [`KeyPair`].
#[verifier::ext_equal]
pub ghost struct KeyPairView {
    pub action: Seq<char>,
    pub binding: Seq<char>,
}

impl View for KeyPair {
    type V = KeyPairView;

    open spec fn view(&self) -> KeyPairView {
        KeyPairView { action: self.action@, binding: self.binding@ }
    }
}

impl DeepView for KeyPair {
    type V = KeyPairView;

    open spec fn deep_view(&self) -> KeyPairView {
        self.view()
    }
}

/// The user's key bindings.
pub struct Keys {
    pub keys: Vec<KeyPair>,
}

impl View for Keys {
    type V = Seq<KeyPairView>;

    open spec fn view(&self) -> Seq<KeyPairView> {
        self.keys.deep_view()
    }
}

impl Default for Keys {
    /// No user bindings: every action falls back to its default.
    fn default() -> (r: Self)
        ensures
            r@.len() == 0,
    {
        let r = Keys { keys: Vec::new() };
        proof {
            assert(r@ =~= Seq::<KeyPairView>::empty());
        }
        r
    }
}

/// The binding stored for an action (first match).
pub open spec fn binding_of(keys: Seq<KeyPairView>, action: Seq<char>) -> Option<Seq<char>>
    decreases keys.len(),
{
    if keys.len() == 0 {
        None
    } else if keys[0].action == action {
        Some(keys[0].binding)
    } else {
        binding_of(keys.drop_first(), action)
    }
}

/// The built-in binding of each known action; empty for an unknown one.
pub open spec fn default_binding_spec(a: Seq<char>) -> Seq<char> {
    if a == "new_tab"@ {
        "<primary>T"@
    } else if a == "close_tab"@ {
        "<primary>W"@
    } else if a == "next_tab"@ {
        "<primary>Page_Down"@
    } else if a == "prev_tab"@ {
        "<primary>Page_Up"@
    } else if a == "tab1"@ {
        "<Alt>1"@
    } else if a == "tab2"@ {
        "<Alt>2"@
    } else if a == "tab3"@ {
        "<Alt>3"@
    } else if a == "tab4"@ {
        "<Alt>4"@
    } else if a == "tab5"@ {
        "<Alt>5"@
    } else if a == "tab6"@ {
        "<Alt>6"@
    } else if a == "tab7"@ {
        "<Alt>7"@
    } else if a == "tab8"@ {
        "<Alt>8"@
    } else if a == "tab9"@ {
        "<Alt>9"@
    } else if a == "reload"@ {
        "<primary>R"@
    } else if a == "go_home"@ {
        "<Alt>Home"@
    } else if a == "go_previous"@ {
        "<Alt>Left"@
    } else if a == "go_next"@ {
        "<Alt>Right"@
    } else if a == "new_window"@ {
        "<primary>N"@
    } else if a == "open_bookmarks"@ {
        "<primary><Shift>O"@
    } else if a == "bookmark_page"@ {
        "<primary>D"@
    } else if a == "open_history"@ {
        "<primary>H"@
    } else if a == "view_source"@ {
        "<primary>U"@
    } else if a == "save_page"@ {
        "<primary>S"@
    } else if a == "open_prefs"@ {
        "<primary><Shift>P"@
    } else if a == "open_about"@ {
        "<primary><Shift>A"@
    } else if a == "quit"@ {
        "<primary>Q"@
    } else {
        ""@
    }
}

/// The built-in binding of an action, exactly as [`default_binding_spec`]
/// gives it.
pub fn default_binding(action: &str) -> (r: &'static str)
    ensures
        r@ == default_binding_spec(action@),
{
    if crate::codec::str_eq_str(action, "new_tab") {
        "<primary>T"
    } else if crate::codec::str_eq_str(action, "close_tab") {
        "<primary>W"
    } else if crate::codec::str_eq_str(action, "next_tab") {
        "<primary>Page_Down"
    } else if crate::codec::str_eq_str(action, "prev_tab") {
        "<primary>Page_Up"
    } else if crate::codec::str_eq_str(action, "tab1") {
        "<Alt>1"
    } else if crate::codec::str_eq_str(action, "tab2") {
        "<Alt>2"
    } else if crate::codec::str_eq_str(action, "tab3") {
        "<Alt>3"
    } else if crate::codec::str_eq_str(action, "tab4") {
        "<Alt>4"
    } else if crate::codec::str_eq_str(action, "tab5") {
        "<Alt>5"
    } else if crate::codec::str_eq_str(action, "tab6") {
        "<Alt>6"
    } else if crate::codec::str_eq_str(action, "tab7") {
        "<Alt>7"
    } else if crate::codec::str_eq_str(action, "tab8") {
        "<Alt>8"
    } else if crate::codec::str_eq_str(action, "tab9") {
        "<Alt>9"
    } else if crate::codec::str_eq_str(action, "reload") {
        "<primary>R"
    } else if crate::codec::str_eq_str(action, "go_home") {
        "<Alt>Home"
    } else if crate::codec::str_eq_str(action, "go_previous") {
        "<Alt>Left"
    } else if crate::codec::str_eq_str(action, "go_next") {
        "<Alt>Right"
    } else if crate::codec::str_eq_str(action, "new_window") {
        "<primary>N"
    } else if crate::codec::str_eq_str(action, "open_bookmarks") {
        "<primary><Shift>O"
    } else if crate::codec::str_eq_str(action, "bookmark_page") {
        "<primary>D"
    } else if crate::codec::str_eq_str(action, "open_history") {
        "<primary>H"
    } else if crate::codec::str_eq_str(action, "view_source") {
        "<primary>U"
    } else if crate::codec::str_eq_str(action, "save_page") {
        "<primary>S"
    } else if crate::codec::str_eq_str(action, "open_prefs") {
        "<primary><Shift>P"
    } else if crate::codec::str_eq_str(action, "open_about") {
        "<primary><Shift>A"
    } else if crate::codec::str_eq_str(action, "quit") {
        "<primary>Q"
    } else {
        ""
    }
}

proof fn lemma_binding_of_first(keys: Seq<KeyPairView>, action: Seq<char>, i: int)
    requires
        0 <= i < keys.len(),
        keys[i].action == action,
        forall|j: int| 0 <= j < i ==> (#[trigger] keys[j]).action != action,
    ensures
        binding_of(keys, action) == Some(keys[i].binding),
    decreases i,
{
    if i > 0 {
        assert(forall|j: int|
            0 <= j < i - 1 ==> (#[trigger] keys.drop_first()[j]) == keys[j + 1]);
        lemma_binding_of_first(keys.drop_first(), action, i - 1);
    }
}

proof fn lemma_binding_of_none(keys: Seq<KeyPairView>, action: Seq<char>)
    requires
        forall|j: int| 0 <= j < keys.len() ==> (#[trigger] keys[j]).action != action,
    ensures
        binding_of(keys, action) is None,
    decreases keys.len(),
{
    if keys.len() > 0 {
        assert(forall|j: int|
            0 <= j < keys.drop_first().len() ==> (#[trigger] keys.drop_first()[j]) == keys[j + 1]);
        lemma_binding_of_none(keys.drop_first(), action);
    }
}

impl Keys {
    /// The binding for an action: the stored one where the user set one,
    /// else the built-in default.  Whether a stored accelerator actually
    /// parses is the UI toolkit's to judge, outside this crate.
    pub fn get(&self, action: &str) -> (r: String)
        ensures
            r@ == (match binding_of(self@, action@) {
                Some(b) => b,
                None => default_binding_spec(action@),
            }),
    {
        let ghost kv = self.keys.deep_view();
        proof {
            assert(kv.len() == self.keys@.len());
        }
        let mut i: usize = 0;
        while i < self.keys.len()
            invariant
                i <= self.keys.len(),
                kv == self.keys.deep_view(),
                kv.len() == self.keys@.len(),
                forall|j: int| 0 <= j < i ==> (#[trigger] kv[j]).action != action@,
            decreases self.keys.len() - i,
        {
            proof {
                assert(kv[i as int] == self.keys@[i as int]@);
            }
            if crate::codec::str_eq_str(self.keys[i].action.as_str(), action) {
                proof {
                    lemma_binding_of_first(kv, action@, i as int);
                }
                return self.keys[i].binding.clone();
            }
            i += 1;
        }
        proof {
            lemma_binding_of_none(kv, action@);
        }
        default_binding(action).to_owned()
    }
}

// ---------------------------------------------------------------------------
// Persistence
// ---------------------------------------------------------------------------

/// One key-binding block read back from the front of the lines.
pub open spec fn parse_kp_block(lines: Seq<Seq<char>>) -> Option<KeyPairView> {
    if lines.len() >= 3 && lines[0] == "[[key]]"@ {
        match crate::codec::parse_kv(lines[1], "action = \""@) {
            Some(action) => match crate::codec::parse_kv(lines[2], "binding = \""@) {
                Some(binding) => Some(KeyPairView { action, binding }),
                None => None,
            },
            None => None,
        }
    } else {
        None
    }
}

/// The whole file read back as key-binding blocks.
pub open spec fn parse_kps(lines: Seq<Seq<char>>) -> Option<Seq<KeyPairView>>
    decreases lines.len(),
{
    if lines.len() == 0 {
        Some(Seq::empty())
    } else if lines.len() >= 3 {
        match parse_kp_block(lines) {
            Some(p) => match parse_kps(lines.skip(3)) {
                Some(ps) => Some(seq![p] + ps),
                None => None,
            },
            None => None,
        }
    } else {
        None
    }
}

/// The bindings denoted by a persisted text, if it is one.
pub open spec fn decode_keys(t: Seq<char>) -> Option<Seq<KeyPairView>> {
    parse_kps(crate::codec::split_lines(t))
}

fn parse_kps_exec(lines: &Vec<Vec<char>>, i: usize) -> (r: Option<Vec<KeyPair>>)
    requires
        i <= lines.len(),
    ensures
        r is Some <==> parse_kps(lines.deep_view().skip(i as int)) is Some,
        r is Some ==> r->Some_0.deep_view() == parse_kps(lines.deep_view().skip(i as int))->Some_0,
    decreases lines.len() - i,
{
    let ghost dv = lines.deep_view();
    let ghost s = dv.skip(i as int);
    proof {
        assert(dv.len() == lines@.len());
        assert(forall|k: int| 0 <= k < s.len() ==> s[k] == dv[i + k]);
        assert(forall|k: int| 0 <= k < dv.len() ==> dv[k] == lines@[k]@);
    }
    if i == lines.len() {
        let ps: Vec<KeyPair> = Vec::new();
        proof {
            assert(s.len() == 0);
            assert(ps.deep_view() =~= Seq::<KeyPairView>::empty());
        }
        return Some(ps);
    }
    if lines.len() - i < 3 {
        proof {
            assert(s.len() < 3 && s.len() > 0);
        }
        return None;
    }
    if !crate::codec::vec_eq_str(&lines[i], "[[key]]") {
        proof {
            assert(s[0] != "[[key]]"@);
            assert(parse_kp_block(s) is None);
        }
        return None;
    }
    let action = match crate::codec::parse_kv_exec(&lines[i + 1], "action = \"") {
        Some(a) => a,
        None => {
            proof {
                assert(parse_kp_block(s) is None);
            }
            return None;
        },
    };
    let binding = match crate::codec::parse_kv_exec(&lines[i + 2], "binding = \"") {
        Some(b) => b,
        None => {
            proof {
                assert(parse_kp_block(s) is None);
            }
            return None;
        },
    };
    let p = KeyPair { action, binding };
    proof {
        assert(p@ =~= parse_kp_block(s)->Some_0);
        assert(s.skip(3) =~= dv.skip(i + 3));
    }
    match parse_kps_exec(lines, i + 3) {
        Some(mut ps) => {
            ps.insert(0, p);
            proof {
                assert(ps.deep_view() =~~= seq![ps@[0]@] + ps.deep_view().drop_first());
            }
            Some(ps)
        },
        None => None,
    }
}

impl Keys {
    /// The bindings read back from persisted text; fails exactly on text
    /// that [`decode_keys`] rejects.
    pub fn decode(text: &str) -> (r: Result<Keys, crate::codec::DecodeError>)
        ensures
            match r {
                Ok(k) => decode_keys(text@) == Some(k@),
                Err(_) => decode_keys(text@) is None,
            },
    {
        let chars = crate::codec::str_chars(text);
        proof {
            assert(chars@.skip(0) =~= text@);
        }
        let lines = crate::codec::split_lines_exec(&chars, 0);
        proof {
            assert(lines.deep_view().skip(0) =~= lines.deep_view());
        }
        match parse_kps_exec(&lines, 0) {
            Some(keys) => Ok(Keys { keys }),
            None => Err(crate::codec::DecodeError),
        }
    }
}

} // verus!
