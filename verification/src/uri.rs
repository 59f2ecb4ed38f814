//! Address handling: search-engine shortcuts and the normalisation of what
//! the user typed into a loadable URL.

use vstd::prelude::*;

verus! {

// ---------------------------------------------------------------------------
// Whitespace splitting
// ---------------------------------------------------------------------------

/// The characters the query splitter treats as whitespace.
pub open spec fn is_ws(c: char) -> bool {
    c == ' ' || c == '\t' || c == '\n' || c == '\r'
}

/// The whitespace-separated words of `s`, with `cur` the word being read.
pub open spec fn split_ws_acc(s: Seq<char>, cur: Seq<char>) -> Seq<Seq<char>>
    decreases s.len(),
{
    if s.len() == 0 {
        if cur.len() > 0 {
            seq![cur]
        } else {
            Seq::empty()
        }
    } else if is_ws(s[0]) {
        (if cur.len() > 0 {
            seq![cur]
        } else {
            Seq::<Seq<char>>::empty()
        }) + split_ws_acc(s.drop_first(), Seq::empty())
    } else {
        split_ws_acc(s.drop_first(), cur.push(s[0]))
    }
}

/// The whitespace-separated words of `s`.
pub open spec fn split_ws(s: Seq<char>) -> Seq<Seq<char>> {
    split_ws_acc(s, Seq::empty())
}

/// The words of a string, split on whitespace.
pub fn split_ws_exec(s: &str) -> (r: Vec<String>)
    ensures
        r.deep_view() == split_ws(s@),
{
    let chars = crate::codec::str_chars(s);
    let n = chars.len();
    let mut done: Vec<String> = Vec::new();
    let mut cur: Vec<char> = Vec::new();
    proof {
        assert(done.deep_view() =~= Seq::<Seq<char>>::empty());
        assert(cur@ =~= Seq::<char>::empty());
        assert(chars@.skip(0) =~= s@);
        assert(Seq::<Seq<char>>::empty() + split_ws_acc(s@, Seq::empty()) =~= split_ws(s@));
    }
    let mut i: usize = 0;
    while i < n
        invariant
            i <= n,
            n == chars.len(),
            chars@ == s@,
            done.deep_view() + split_ws_acc(chars@.skip(i as int), cur@) == split_ws(s@),
        decreases n - i,
    {
        let ghost rest = chars@.skip(i as int);
        let ghost d0 = done.deep_view();
        let ghost c0 = cur@;
        proof {
            assert(rest[0] == chars@[i as int]);
            assert(rest.drop_first() =~= chars@.skip(i + 1));
        }
        let c = chars[i];
        if c == ' ' || c == '\t' || c == '\n' || c == '\r' {
            if cur.len() > 0 {
                let word = crate::codec::chars_to_string(&cur);
                done.push(word);
                proof {
                    assert(done.deep_view() =~= d0 + seq![c0]);
                    assert((d0 + seq![c0]) + split_ws_acc(chars@.skip(i + 1), Seq::empty()) =~= d0
                        + (seq![c0] + split_ws_acc(chars@.skip(i + 1), Seq::empty())));
                }
                cur = Vec::new();
            } else {
                proof {
                    assert(c0.len() == 0);
                    assert(split_ws_acc(rest, c0) == Seq::<Seq<char>>::empty() + split_ws_acc(
                        rest.drop_first(),
                        Seq::empty(),
                    ));
                    assert(Seq::<Seq<char>>::empty() + split_ws_acc(chars@.skip(i + 1), Seq::empty())
                        =~= split_ws_acc(chars@.skip(i + 1), Seq::empty()));
                }
                cur = Vec::new();
            }
            proof {
                assert(cur@ =~= Seq::<char>::empty());
            }
        } else {
            cur.push(c);
            proof {
                assert(cur@ =~= c0.push(rest[0]));
            }
        }
        i += 1;
    }
    proof {
        assert(chars@.skip(n as int).len() == 0);
    }
    if cur.len() > 0 {
        let word = crate::codec::chars_to_string(&cur);
        let ghost d0 = done.deep_view();
        done.push(word);
        proof {
            assert(done.deep_view() =~= d0 + seq![cur@]);
        }
    } else {
        proof {
            assert(done.deep_view() + Seq::<Seq<char>>::empty() =~= done.deep_view());
        }
    }
    done
}

// ---------------------------------------------------------------------------
// Search shortcuts
// ---------------------------------------------------------------------------

/// One search-engine shortcut: a short key and the engine's query URL.
pub struct SearchEngine {
    pub key: String,
    pub url: String,
}

/// The mathematical value of a [`SearchEngine`].
#[verifier::ext_equal]
pub ghost struct SearchEngineView {
    pub key: Seq<char>,
    pub url: Seq<char>,
}

impl View for SearchEngine {
    type V = SearchEngineView;

    open spec fn view(&self) -> SearchEngineView {
        SearchEngineView { key: self.key@, url: self.url@ }
    }
}

impl DeepView for SearchEngine {
    type V = SearchEngineView;

    open spec fn deep_view(&self) -> SearchEngineView {
        self.view()
    }
}

/// The configured search engines: a default and the keyed shortcuts.
pub struct Search {
    pub default: String,
    pub all: Vec<SearchEngine>,
}

/// The engine URL a shortcut key maps to (first match).
pub open spec fn engine_of(all: Seq<SearchEngineView>, key: Seq<char>) -> Option<Seq<char>>
    decreases all.len(),
{
    if all.len() == 0 {
        None
    } else if all[0].key == key {
        Some(all[0].url)
    } else {
        engine_of(all.drop_first(), key)
    }
}

/// Query words joined with `%20`.
pub open spec fn join_params(ps: Seq<Seq<char>>) -> Seq<char>
    decreases ps.len(),
{
    if ps.len() == 0 {
        Seq::empty()
    } else if ps.len() == 1 {
        ps[0]
    } else {
        ps[0] + "%20"@ + join_params(ps.drop_first())
    }
}

/// A query URL: the engine, a question mark, and the joined words.
pub open spec fn query_of(se: Seq<char>, ps: Seq<Seq<char>>) -> Seq<char> {
    se + "?"@ + join_params(ps)
}

/// What `build` returns: the words of the query, sent to the engine the
/// first word selects, or all of them to the default engine.
pub open spec fn build_spec(default: Seq<char>, all: Seq<SearchEngineView>, q: Seq<char>) -> Seq<
    char,
> {
    let ps = split_ws(q);
    if ps.len() == 0 {
        query_of(default, ps)
    } else {
        match engine_of(all, ps[0]) {
            Some(se) => {
                if ps.len() > 1 {
                    query_of(se, ps.drop_first())
                } else {
                    query_of(default, ps)
                }
            },
            None => query_of(default, ps),
        }
    }
}

fn push_join_params(out: &mut Vec<char>, ps: &Vec<String>, i: usize)
    requires
        i <= ps.len(),
    ensures
        final(out)@ == old(out)@ + join_params(ps.deep_view().skip(i as int)),
    decreases ps.len() - i,
{
    let ghost rest = ps.deep_view().skip(i as int);
    proof {
        assert(ps.deep_view().len() == ps@.len());
    }
    if i == ps.len() {
        proof {
            assert(rest.len() == 0);
            assert(old(out)@ + join_params(rest) =~= old(out)@);
        }
        return ;
    }
    proof {
        assert(rest[0] == ps.deep_view()[i as int]);
        assert(ps.deep_view()[i as int] == ps@[i as int]@);
        assert(rest.drop_first() =~= ps.deep_view().skip(i + 1));
    }
    crate::codec::append_str(out, ps[i].as_str());
    if i + 1 < ps.len() {
        crate::codec::append_str(out, "%20");
        push_join_params(out, ps, i + 1);
        proof {
            assert(final(out)@ =~= old(out)@ + join_params(rest));
        }
    } else {
        proof {
            assert(rest.len() == 1);
            assert(final(out)@ =~= old(out)@ + join_params(rest));
        }
    }
}

impl Default for Search {
    /// The stock engine set.
    fn default() -> (r: Self)
        ensures
            r.default@ == "gemini://geminispace.info/search"@,
            r.all.deep_view().len() == 4,
            engine_of(r.all.deep_view(), "gmp"@) == Some(
                "gemini://gemi.dev/cgi-bin/wp.cgi/search"@,
            ),
            engine_of(r.all.deep_view(), "gus"@) == Some("gemini://geminispace.info/search"@),
            engine_of(r.all.deep_view(), "ken"@) == Some("gemini://kennedy.gemi.dev/search"@),
            engine_of(r.all.deep_view(), "ron"@) == Some("gopher://gopher.floodgap.com/v2/vs"@),
    {
        let all = vec![
            SearchEngine {
                key: "gmp".to_owned(),
                url: "gemini://gemi.dev/cgi-bin/wp.cgi/search".to_owned(),
            },
            SearchEngine {
                key: "gus".to_owned(),
                url: "gemini://geminispace.info/search".to_owned(),
            },
            SearchEngine {
                key: "ken".to_owned(),
                url: "gemini://kennedy.gemi.dev/search".to_owned(),
            },
            SearchEngine {
                key: "ron".to_owned(),
                url: "gopher://gopher.floodgap.com/v2/vs".to_owned(),
            },
        ];
        let r = Search { default: "gemini://geminispace.info/search".to_owned(), all };
        proof {
            let dv = r.all.deep_view();
            assert(dv.len() == 4);
            assert(dv[0] == r.all@[0]@ && dv[1] == r.all@[1]@ && dv[2] == r.all@[2]@ && dv[3]
                == r.all@[3]@);
            reveal_strlit("gmp");
            reveal_strlit("gus");
            reveal_strlit("ken");
            reveal_strlit("ron");
            assert("gmp"@[1] == 'm' && "gus"@[1] == 'u' && "ken"@[0] == 'k' && "ron"@[0] == 'r'
                && "gmp"@[0] == 'g' && "gus"@[0] == 'g');
            assert("gmp"@ != "gus"@);
            assert("gmp"@ != "ken"@ && "gus"@ != "ken"@);
            assert("gmp"@ != "ron"@ && "gus"@ != "ron"@ && "ken"@ != "ron"@);
            lemma_engine_of_first(dv, "gmp"@, 0);
            lemma_engine_of_first(dv, "gus"@, 1);
            lemma_engine_of_first(dv, "ken"@, 2);
            lemma_engine_of_first(dv, "ron"@, 3);
        }
        r
    }
}

impl Search {
    /// One query URL: the engine, `?`, and the words joined with `%20`.
    pub fn query(se: &str, params: &Vec<String>) -> (r: String)
        ensures
            r@ == query_of(se@, params.deep_view()),
    {
        let mut out: Vec<char> = Vec::new();
        crate::codec::append_str(&mut out, se);
        crate::codec::append_str(&mut out, "?");
        proof {
            assert(params.deep_view().skip(0) =~= params.deep_view());
        }
        push_join_params(&mut out, params, 0);
        proof {
            assert(out@ =~= query_of(se@, params.deep_view()));
        }
        crate::codec::chars_to_string(&out)
    }

    /// The query URL for what the user typed, exactly as [`build_spec`]
    /// writes it.
    pub fn build(&self, query: &str) -> (r: String)
        ensures
            r@ == build_spec(self.default@, self.all.deep_view(), query@),
    {
        let params = split_ws_exec(query);
        if params.len() == 0 {
            proof {
                assert(params.deep_view().len() == 0);
            }
            return Self::query(self.default.as_str(), &params);
        }
        proof {
            assert(params.deep_view()[0] == params@[0]@);
        }
        let mut found: Option<usize> = None;
        let ghost av = self.all.deep_view();
        proof {
            assert(av.len() == self.all@.len());
        }
        let mut i: usize = 0;
        while i < self.all.len()
            invariant
                i <= self.all.len(),
                av == self.all.deep_view(),
                av.len() == self.all@.len(),
                found is None,
                forall|j: int| 0 <= j < i ==> (#[trigger] av[j]).key != params.deep_view()[0],
                params.deep_view() == split_ws(query@),
                params.deep_view().len() > 0,
                params.deep_view()[0] == params@[0]@,
                params.deep_view().len() == params@.len(),
            decreases self.all.len() - i,
        {
            proof {
                assert(av[i as int] == self.all@[i as int]@);
            }
            if crate::codec::str_eq_str(self.all[i].key.as_str(), params[0].as_str()) {
                proof {
                    lemma_engine_of_first(av, params.deep_view()[0], i as int);
                }
                if params.len() > 1 {
                    let rest = params_tail(&params);
                    let r = Self::query(self.all[i].url.as_str(), &rest);
                    proof {
                        assert(rest.deep_view() =~= params.deep_view().drop_first());
                    }
                    return r;
                } else {
                    return Self::query(self.default.as_str(), &params);
                }
            }
            i += 1;
        }
        proof {
            lemma_engine_of_none(av, params.deep_view()[0]);
        }
        Self::query(self.default.as_str(), &params)
    }
}

/// A copy of the words after the first.
fn params_tail(params: &Vec<String>) -> (r: Vec<String>)
    requires
        params.len() >= 1,
    ensures
        r.deep_view() == params.deep_view().drop_first(),
{
    let mut r: Vec<String> = Vec::new();
    let mut i: usize = 1;
    proof {
        assert(r.deep_view() =~= params.deep_view().subrange(1, 1));
    }
    while i < params.len()
        invariant
            1 <= i <= params.len(),
            params.deep_view().len() == params@.len(),
            r.deep_view() == params.deep_view().subrange(1, i as int),
        decreases params.len() - i,
    {
        let ghost r0 = r.deep_view();
        r.push(params[i].clone());
        proof {
            assert(params.deep_view()[i as int] == params@[i as int]@);
            assert(r.deep_view() =~= r0.push(params.deep_view()[i as int]));
            assert(params.deep_view().subrange(1, i as int).push(params.deep_view()[i as int])
                =~= params.deep_view().subrange(1, i + 1));
        }
        i += 1;
    }
    proof {
        assert(params.deep_view().subrange(1, params.deep_view().len() as int)
            =~= params.deep_view().drop_first());
    }
    r
}

proof fn lemma_engine_of_first(all: Seq<SearchEngineView>, key: Seq<char>, i: int)
    requires
        0 <= i < all.len(),
        all[i].key == key,
        forall|j: int| 0 <= j < i ==> (#[trigger] all[j]).key != key,
    ensures
        engine_of(all, key) == Some(all[i].url),
    decreases i,
{
    if i > 0 {
        assert(forall|j: int| 0 <= j < i - 1 ==> (#[trigger] all.drop_first()[j]) == all[j + 1]);
        lemma_engine_of_first(all.drop_first(), key, i - 1);
    }
}

proof fn lemma_engine_of_none(all: Seq<SearchEngineView>, key: Seq<char>)
    requires
        forall|j: int| 0 <= j < all.len() ==> (#[trigger] all[j]).key != key,
    ensures
        engine_of(all, key) is None,
    decreases all.len(),
{
    if all.len() > 0 {
        assert(forall|j: int|
            0 <= j < all.drop_first().len() ==> (#[trigger] all.drop_first()[j]) == all[j + 1]);
        lemma_engine_of_none(all.drop_first(), key);
    }
}

// ---------------------------------------------------------------------------
// Search persistence
// ---------------------------------------------------------------------------

/// The lines that persist one engine shortcut.
pub open spec fn se_lines(e: SearchEngineView) -> Seq<Seq<char>> {
    seq!["[[engine]]"@, crate::codec::kv_line("key = \""@, e.key), crate::codec::kv_line(
        "url = \""@,
        e.url,
    )]
}

pub open spec fn ses_lines(all: Seq<SearchEngineView>) -> Seq<Seq<char>>
    decreases all.len(),
{
    if all.len() == 0 {
        Seq::empty()
    } else {
        se_lines(all[0]) + ses_lines(all.drop_first())
    }
}

/// The persisted text of the search configuration: the default engine, then
/// one block per shortcut.
pub open spec fn encode_search(default: Seq<char>, all: Seq<SearchEngineView>) -> Seq<char> {
    crate::codec::join_lines(
        seq![crate::codec::kv_line("default = \""@, default)] + ses_lines(all),
    )
}

/// One engine block read back from the front of the lines.
pub open spec fn parse_se_block(lines: Seq<Seq<char>>) -> Option<SearchEngineView> {
    if lines.len() >= 3 && lines[0] == "[[engine]]"@ {
        match crate::codec::parse_kv(lines[1], "key = \""@) {
            Some(key) => match crate::codec::parse_kv(lines[2], "url = \""@) {
                Some(url) => Some(SearchEngineView { key, url }),
                None => None,
            },
            None => None,
        }
    } else {
        None
    }
}

/// The rest of the file read back as engine blocks.
pub open spec fn parse_ses(lines: Seq<Seq<char>>) -> Option<Seq<SearchEngineView>>
    decreases lines.len(),
{
    if lines.len() == 0 {
        Some(Seq::empty())
    } else if lines.len() >= 3 {
        match parse_se_block(lines) {
            Some(e) => match parse_ses(lines.skip(3)) {
                Some(es) => Some(seq![e] + es),
                None => None,
            },
            None => None,
        }
    } else {
        None
    }
}

/// The search configuration denoted by a persisted text, if it is one.
pub open spec fn decode_search(t: Seq<char>) -> Option<(Seq<char>, Seq<SearchEngineView>)> {
    let lines = crate::codec::split_lines(t);
    if lines.len() >= 1 {
        match crate::codec::parse_kv(lines[0], "default = \""@) {
            Some(default) => match parse_ses(lines.skip(1)) {
                Some(es) => Some((default, es)),
                None => None,
            },
            None => None,
        }
    } else {
        None
    }
}

fn parse_ses_exec(lines: &Vec<Vec<char>>, i: usize) -> (r: Option<Vec<SearchEngine>>)
    requires
        i <= lines.len(),
    ensures
        r is Some <==> parse_ses(lines.deep_view().skip(i as int)) is Some,
        r is Some ==> r->Some_0.deep_view() == parse_ses(lines.deep_view().skip(i as int))->Some_0,
    decreases lines.len() - i,
{
    let ghost dv = lines.deep_view();
    let ghost s = dv.skip(i as int);
    proof {
        assert(dv.len() == lines@.len());
        assert(forall|k: int| 0 <= k < s.len() ==> s[k] == dv[i + k]);
        assert(forall|k: int| 0 <= k < dv.len() ==> dv[k] == lines@[k]@);
    }
    if i == lines.len() {
        let es: Vec<SearchEngine> = Vec::new();
        proof {
            assert(s.len() == 0);
            assert(es.deep_view() =~= Seq::<SearchEngineView>::empty());
        }
        return Some(es);
    }
    if lines.len() - i < 3 {
        proof {
            assert(s.len() < 3 && s.len() > 0);
        }
        return None;
    }
    if !crate::codec::vec_eq_str(&lines[i], "[[engine]]") {
        proof {
            assert(s[0] != "[[engine]]"@);
            assert(parse_se_block(s) is None);
        }
        return None;
    }
    let key = match crate::codec::parse_kv_exec(&lines[i + 1], "key = \"") {
        Some(k) => k,
        None => {
            proof {
                assert(parse_se_block(s) is None);
            }
            return None;
        },
    };
    let url = match crate::codec::parse_kv_exec(&lines[i + 2], "url = \"") {
        Some(u) => u,
        None => {
            proof {
                assert(parse_se_block(s) is None);
            }
            return None;
        },
    };
    let e = SearchEngine { key, url };
    proof {
        assert(e@ =~= parse_se_block(s)->Some_0);
        assert(s.skip(3) =~= dv.skip(i + 3));
    }
    match parse_ses_exec(lines, i + 3) {
        Some(mut es) => {
            es.insert(0, e);
            proof {
                assert(es.deep_view() =~~= seq![es@[0]@] + es.deep_view().drop_first());
            }
            Some(es)
        },
        None => None,
    }
}

fn push_se_block(out: &mut Vec<char>, e: &SearchEngine)
    ensures
        final(out)@ == old(out)@ + crate::codec::join_lines(se_lines(e@)),
{
    crate::codec::append_str(out, "[[engine]]");
    out.push('\n');
    crate::codec::push_kv_line(out, "key = \"", e.key.as_str());
    crate::codec::push_kv_line(out, "url = \"", e.url.as_str());
    proof {
        let ls = se_lines(e@);
        let nl = seq!['\n'];
        assert(ls.len() == 3);
        let l2 = ls.drop_first();
        let l1 = l2.drop_first();
        assert(l1.drop_first() =~= Seq::<Seq<char>>::empty());
        assert(crate::codec::join_lines(Seq::<Seq<char>>::empty()) =~= Seq::<char>::empty());
        assert(l1[0] == ls[2] && l2[0] == ls[1]);
        assert(crate::codec::join_lines(l1) =~= ls[2] + nl);
        assert(crate::codec::join_lines(l2) =~= ls[1] + nl + (ls[2] + nl));
        assert(crate::codec::join_lines(ls) =~= ls[0] + nl + (ls[1] + nl + (ls[2] + nl)));
        assert(final(out)@ =~= old(out)@ + crate::codec::join_lines(ls));
    }
}

fn push_ses(out: &mut Vec<char>, all: &Vec<SearchEngine>, i: usize)
    requires
        i <= all.len(),
    ensures
        final(out)@ == old(out)@ + crate::codec::join_lines(
            ses_lines(all.deep_view().skip(i as int)),
        ),
    decreases all.len() - i,
{
    let ghost rest = all.deep_view().skip(i as int);
    proof {
        assert(all.deep_view().len() == all@.len());
    }
    if i == all.len() {
        proof {
            assert(rest.len() == 0);
            assert(ses_lines(rest).len() == 0);
            assert(old(out)@ + crate::codec::join_lines(ses_lines(rest)) =~= old(out)@);
        }
        return ;
    }
    proof {
        assert(rest[0] == all.deep_view()[i as int]);
        assert(all.deep_view()[i as int] == all@[i as int]@);
        assert(rest.drop_first() =~= all.deep_view().skip(i + 1));
    }
    push_se_block(out, &all[i]);
    push_ses(out, all, i + 1);
    proof {
        crate::codec::lemma_join_concat(se_lines(rest[0]), ses_lines(rest.drop_first()));
        assert(ses_lines(rest) == se_lines(rest[0]) + ses_lines(rest.drop_first()));
        assert(final(out)@ =~= old(out)@ + crate::codec::join_lines(ses_lines(rest)));
    }
}

impl Search {
    /// The persisted text of the search configuration.
    pub fn encode(&self) -> (r: String)
        ensures
            r@ == encode_search(self.default@, self.all.deep_view()),
    {
        let mut out: Vec<char> = Vec::new();
        crate::codec::push_kv_line(&mut out, "default = \"", self.default.as_str());
        proof {
            assert(self.all.deep_view().skip(0) =~= self.all.deep_view());
        }
        push_ses(&mut out, &self.all, 0);
        proof {
            let head = seq![crate::codec::kv_line("default = \""@, self.default@)];
            crate::codec::lemma_join_concat(head, ses_lines(self.all.deep_view()));
            assert(crate::codec::join_lines(head) =~= crate::codec::kv_line(
                "default = \""@,
                self.default@,
            ) + seq!['\n']) by {
                assert(head.drop_first() =~= Seq::<Seq<char>>::empty());
                assert(crate::codec::join_lines(Seq::<Seq<char>>::empty()) =~= Seq::<
                    char,
                >::empty());
            }
            assert(out@ =~= encode_search(self.default@, self.all.deep_view()));
        }
        crate::codec::chars_to_string(&out)
    }

    /// The search configuration read back from persisted text; fails exactly
    /// on text that [`decode_search`] rejects.
    pub fn decode(text: &str) -> (r: Result<Search, crate::codec::DecodeError>)
        ensures
            match r {
                Ok(s) => decode_search(text@) == Some((s.default@, s.all.deep_view())),
                Err(_) => decode_search(text@) is None,
            },
    {
        let chars = crate::codec::str_chars(text);
        proof {
            assert(chars@.skip(0) =~= text@);
        }
        let lines = crate::codec::split_lines_exec(&chars, 0);
        let ghost lv = lines.deep_view();
        proof {
            assert(lv == crate::codec::split_lines(text@));
        }
        if lines.len() == 0 {
            return Err(crate::codec::DecodeError);
        }
        proof {
            assert(lv[0] == lines@[0]@);
        }
        let default = match crate::codec::parse_kv_exec(&lines[0], "default = \"") {
            Some(d) => d,
            None => {
                return Err(crate::codec::DecodeError);
            },
        };
        proof {
            assert(lv.skip(1) =~= lines.deep_view().skip(1));
        }
        match parse_ses_exec(&lines, 1) {
            Some(all) => Ok(Search { default, all }),
            None => Err(crate::codec::DecodeError),
        }
    }
}

proof fn lemma_se_block_roundtrip(e: SearchEngineView, rest: Seq<Seq<char>>)
    ensures
        parse_se_block(se_lines(e) + rest) == Some(e),
        (se_lines(e) + rest).skip(3) == rest,
{
    let lines = se_lines(e) + rest;
    assert(lines[0] == "[[engine]]"@);
    assert(lines[1] == crate::codec::kv_line("key = \""@, e.key));
    assert(lines[2] == crate::codec::kv_line("url = \""@, e.url));
    crate::codec::lemma_parse_kv_line("key = \""@, e.key);
    crate::codec::lemma_parse_kv_line("url = \""@, e.url);
    assert(lines.skip(3) =~= rest);
    assert(parse_se_block(lines) == Some(SearchEngineView { key: e.key, url: e.url }));
    assert(SearchEngineView { key: e.key, url: e.url } =~= e);
}

proof fn lemma_parse_ses_roundtrip(all: Seq<SearchEngineView>)
    ensures
        parse_ses(ses_lines(all)) == Some(all),
    decreases all.len(),
{
    if all.len() == 0 {
        assert(ses_lines(all).len() == 0);
    } else {
        let e = all[0];
        let tail_lines = ses_lines(all.drop_first());
        assert(ses_lines(all) =~= se_lines(e) + tail_lines);
        lemma_se_block_roundtrip(e, tail_lines);
        lemma_parse_ses_roundtrip(all.drop_first());
        let lines = se_lines(e) + tail_lines;
        assert(lines.len() >= 3);
        assert(lines.skip(3) == tail_lines);
        assert(parse_ses(lines) == Some(seq![e] + all.drop_first()));
        assert(seq![e] + all.drop_first() =~= all);
    }
}

proof fn lemma_ses_lines_clean(all: Seq<SearchEngineView>)
    ensures
        crate::codec::lines_clean(ses_lines(all)),
    decreases all.len(),
{
    if all.len() > 0 {
        let e = all[0];
        reveal_strlit("[[engine]]");
        reveal_strlit("key = \"");
        reveal_strlit("url = \"");
        assert(crate::codec::line_clean("[[engine]]"@));
        assert(crate::codec::line_clean("key = \""@));
        assert(crate::codec::line_clean("url = \""@));
        crate::codec::lemma_kv_line_clean("key = \""@, e.key);
        crate::codec::lemma_kv_line_clean("url = \""@, e.url);
        lemma_ses_lines_clean(all.drop_first());
        let a = se_lines(e);
        let b = ses_lines(all.drop_first());
        assert forall|i: int| 0 <= i < ses_lines(all).len() implies #[trigger] crate::codec::line_clean(
            ses_lines(all)[i],
        ) by {
            if i < a.len() {
                assert(ses_lines(all)[i] == a[i]);
                assert(a.len() == 3);
            } else {
                assert(ses_lines(all)[i] == b[i - a.len()]);
            }
        }
    }
}

/// The round trip: decoding the encoded search configuration yields it back,
/// exactly.
pub proof fn lemma_search_roundtrip(default: Seq<char>, all: Seq<SearchEngineView>)
    ensures
        decode_search(encode_search(default, all)) == Some((default, all)),
{
    let head = crate::codec::kv_line("default = \""@, default);
    let lines = seq![head] + ses_lines(all);
    assert(crate::codec::lines_clean(lines)) by {
        reveal_strlit("default = \"");
        assert(crate::codec::line_clean("default = \""@));
        crate::codec::lemma_kv_line_clean("default = \""@, default);
        lemma_ses_lines_clean(all);
        assert forall|i: int| 0 <= i < lines.len() implies #[trigger] crate::codec::line_clean(
            lines[i],
        ) by {
            if i == 0 {
                assert(lines[i] == head);
            } else {
                assert(lines[i] == ses_lines(all)[i - 1]);
            }
        }
    }
    crate::codec::lemma_split_join(lines);
    assert(lines[0] == head);
    crate::codec::lemma_parse_kv_line("default = \""@, default);
    assert(lines.skip(1) =~= ses_lines(all));
    lemma_parse_ses_roundtrip(all);
}

// ---------------------------------------------------------------------------
// Address normalisation
// ---------------------------------------------------------------------------

/// What the address bar input becomes, given the facts only the caller can
/// gather: a bookmark whose name matches, whether the working directory
/// could be read, and the input resolved against it when that file exists.
pub open spec fn uri_spec(
    input: Seq<char>,
    bookmark_url: Option<Seq<char>>,
    cwd_ok: bool,
    local_path: Option<Seq<char>>,
    default: Seq<char>,
    all: Seq<SearchEngineView>,
) -> Seq<char> {
    if input.contains(':') {
        input
    } else if input.len() > 0 && input[0] == '/' {
        "file://"@ + input
    } else if bookmark_url is Some {
        bookmark_url->Some_0
    } else if !cwd_ok {
        build_spec(default, all, input)
    } else if local_path is Some {
        "file://"@ + local_path->Some_0
    } else if input.contains(' ') || !input.contains('.') {
        build_spec(default, all, input)
    } else {
        "gemini://"@ + input
    }
}

/// Whether the character occurs in the string.
pub fn contains_char(s: &str, c: char) -> (r: bool)
    ensures
        r == s@.contains(c),
{
    let n = s.unicode_len();
    let mut i: usize = 0;
    while i < n
        invariant
            i <= n,
            n == s@.len(),
            forall|j: int| 0 <= j < i ==> s@[j] != c,
        decreases n - i,
    {
        if s.get_char(i) == c {
            proof {
                assert(s@[i as int] == c);
            }
            return true;
        }
        i += 1;
    }
    proof {
        if s@.contains(c) {
            let j = choose|j: int| 0 <= j < s@.len() && s@[j] == c;
        }
    }
    false
}

/// Normalises address-bar input into a loadable URL, exactly as
/// [`uri_spec`] decides it: typed schemes pass through, absolute and
/// existing relative paths become file URLs, bookmark names resolve, and
/// anything else goes to a search engine or gets the default scheme.
pub fn uri(
    input: &str,
    bookmark_url: Option<&str>,
    cwd_ok: bool,
    local_path: Option<&str>,
    search: &Search,
) -> (r: String)
    ensures
        r@ == uri_spec(
            input@,
            match bookmark_url {
                Some(u) => Some(u@),
                None => None,
            },
            cwd_ok,
            match local_path {
                Some(p) => Some(p@),
                None => None,
            },
            search.default@,
            search.all.deep_view(),
        ),
{
    if contains_char(input, ':') {
        let mut out: Vec<char> = Vec::new();
        crate::codec::append_str(&mut out, input);
        proof {
            assert(out@ =~= input@);
        }
        return crate::codec::chars_to_string(&out);
    }
    let starts_slash = if input.unicode_len() > 0 {
        input.get_char(0) == '/'
    } else {
        false
    };
    if starts_slash {
        let mut out: Vec<char> = Vec::new();
        crate::codec::append_str(&mut out, "file://");
        crate::codec::append_str(&mut out, input);
        return crate::codec::chars_to_string(&out);
    }
    match bookmark_url {
        Some(u) => {
            let mut out: Vec<char> = Vec::new();
            crate::codec::append_str(&mut out, u);
            proof {
                assert(out@ =~= u@);
            }
            crate::codec::chars_to_string(&out)
        },
        None => {
            if !cwd_ok {
                return search.build(input);
            }
            match local_path {
                Some(p) => {
                    let mut out: Vec<char> = Vec::new();
                    crate::codec::append_str(&mut out, "file://");
                    crate::codec::append_str(&mut out, p);
                    crate::codec::chars_to_string(&out)
                },
                None => {
                    if contains_char(input, ' ') || !contains_char(input, '.') {
                        search.build(input)
                    } else {
                        let mut out: Vec<char> = Vec::new();
                        crate::codec::append_str(&mut out, "gemini://");
                        crate::codec::append_str(&mut out, input);
                        crate::codec::chars_to_string(&out)
                    }
                },
            }
        },
    }
}

} // verus!
