//! Textual queries: exact (`=name`), previous (`^N`, `-`), glob patterns for
//! list queries, and fuzzy text; and the resolver that turns a query into a
//! repository entry.
use crate::error::{Error, FormatCode, RedundantOpt};
use crate::fuzzy::{
    fuzz, high_outcome, lone_outcome, prefix_outcome, spec_score, spec_scores, spec_winner,
    FuzzItem, FuzzResult,
};
use crate::script::ScriptInfo;
use crate::script_name::{spec_valid, string_into_script_name, ScriptName};
use crate::script_repo::{ScriptRepo, Visibility};
use crate::strutil::{all_digits, dec_value, parse_u32_digits};
use crate::tag::TagSelector;
use vstd::prelude::*;
use vstd::string::*;

verus! {

/// The inner form of a script query.
#[derive(Debug)]
pub enum ScriptQueryInner {
    /// Fuzzy text.
    Fuzz(String),
    /// An exact name, written `=name`.
    Exact(ScriptName),
    /// The N-th most recently active script, written `^N` or `-`.
    Prev(usize),
}

/// A parsed script query; `bang` permits resolving to a hidden script.
#[derive(Debug)]
pub struct ScriptQuery {
    pub inner: ScriptQueryInner,
    pub bang: bool,
}

/// An edit target: a fresh anonymous script, or a query.
#[derive(Debug)]
pub enum EditQuery<Q> {
    NewAnonimous,
    Query(Q),
}

/// A directory target: the root, or a named directory.
#[derive(Debug)]
pub enum DirQuery {
    Root,
    NonRoot(String),
}

impl DirQuery {
    /// Move a named script under this directory: the name's last piece,
    /// prefixed by the directory. Anonymous scripts have no place in a
    /// directory.
    pub fn join(self, other: &ScriptName) -> (r: Result<String, Error>)
        ensures
            other is Anonymous ==> r is Err && r->Err_0 is Format,
            other matches ScriptName::Named(n) ==> r matches Ok(joined) && joined@ == (match self {
                DirQuery::Root => crate::strutil::spec_split(n@, '/').last(),
                DirQuery::NonRoot(d) => d@ + seq!['/'] + crate::strutil::spec_split(
                    n@,
                    '/',
                ).last(),
            }),
    {
        match other {
            ScriptName::Anonymous(_) => Err(
                Error::Format(FormatCode::ScriptName, other.key()),
            ),
            ScriptName::Named(n) => {
                let pieces = crate::strutil::split_str(n.as_str(), '/');
                let leaf = &pieces[pieces.len() - 1];
                proof {
                    assert(leaf@ == crate::strutil::spec_split(n@, '/').last());
                }
                match self {
                    DirQuery::Root => Ok(leaf.clone()),
                    DirQuery::NonRoot(d) => {
                        proof {
                            reveal_strlit("/");
                        }
                        let mut out = d;
                        out.append("/");
                        out.append(leaf.as_str());
                        Ok(out)
                    },
                }
            },
        }
    }
}

/// A script or a directory, as a rename or copy target.
#[derive(Debug)]
pub enum ScriptOrDirQuery {
    Script(ScriptName),
    Dir(DirQuery),
}

impl ScriptOrDirQuery {
    /// Parse: `/` is the root directory, a trailing `/` a named directory,
    /// anything else a script name.
    pub fn from_str(s: &str) -> (r: Result<ScriptOrDirQuery, Error>)
        ensures
            s@ == "/"@ ==> r matches Ok(ScriptOrDirQuery::Dir(DirQuery::Root)),
            s@ != "/"@ && s@.len() > 0 && s@.last() == '/' ==> ((r is Ok <==> spec_valid(
                s@.drop_last(),
            ) == Result::<Option<u32>, ()>::Ok(None)) && (match r {
                Ok(q) => q matches ScriptOrDirQuery::Dir(d) && d matches DirQuery::NonRoot(n)
                    && n@ == s@.drop_last(),
                Err(e) => e is Format,
            })),
            (s@.len() == 0 || s@.last() != '/') ==> ((r is Ok <==> spec_valid(s@) is Ok) && (
            match r {
                Ok(q) => q matches ScriptOrDirQuery::Script(n) && n.wf() && n.spec_key()
                    == crate::script_repo::spec_row_key(s@),
                Err(e) => e is Format,
            })),
    {
        proof {
            reveal_strlit("/");
        }
        let len = s.unicode_len();
        if crate::strutil::str_eq(s, "/") {
            return Ok(ScriptOrDirQuery::Dir(DirQuery::Root));
        }
        if len > 0 && s.get_char(len - 1) == '/' {
            let stem = s.substring_char(0, len - 1);
            proof {
                assert(stem@ =~= s@.drop_last());
            }
            // a directory name must itself be a legal named form
            match ScriptName::valid(stem) {
                Ok(None) => Ok(
                    ScriptOrDirQuery::Dir(DirQuery::NonRoot(String::from_str(stem))),
                ),
                _ => Err(Error::Format(FormatCode::ScriptName, String::from_str(s))),
            }
        } else {
            match string_into_script_name(String::from_str(s)) {
                Ok(n) => {
                    proof {
                        crate::script_repo::lemma_spec_row_key(s@, n);
                    }
                    Ok(ScriptOrDirQuery::Script(n))
                },
                Err(e) => Err(e),
            }
        }
    }
}

/// A list query: a glob pattern (text containing `*`), or a script query.
#[derive(Debug)]
pub enum ListQuery {
    /// The original pattern text; `is_match` compiles its translation.
    Pattern(String),
    Query(ScriptQuery),
}

/// The translation of a glob pattern into a regular expression: `.` is
/// escaped, `*` becomes `.*`, and the whole is anchored.
pub open spec fn spec_glob_regex(s: Seq<char>) -> Seq<char>
    decreases s.len(),
{
    if s.len() == 0 {
        Seq::empty()
    } else {
        (if s[0] == '.' {
            seq!['\\', '.']
        } else if s[0] == '*' {
            seq!['.', '*']
        } else {
            seq![s[0]]
        }) + spec_glob_regex(s.skip(1))
    }
}

/// The anchored form of the translated pattern.
pub open spec fn spec_anchored_glob(s: Seq<char>) -> Seq<char> {
    seq!['^'] + spec_glob_regex(s) + seq!['$']
}

/// Translate a glob pattern into its anchored regular expression.
pub fn glob_to_regex(s: &str) -> (r: String)
    ensures
        r@ == spec_anchored_glob(s@),
{
    proof {
        reveal_strlit("^");
        reveal_strlit("$");
        reveal_strlit("\\.");
        reveal_strlit(".*");
    }
    let len = s.unicode_len();
    let mut out = String::from_str("^");
    let mut i: usize = 0;
    while i < len
        invariant
            i <= len,
            len == s@.len(),
            out@ == seq!['^'] + spec_glob_regex(s@.take(i as int)),
        decreases len - i,
    {
        proof {
            reveal_strlit("\\.");
            reveal_strlit(".*");
            lemma_glob_regex_snoc(s@, i as int);
        }
        let c = s.get_char(i);
        if c == '.' {
            out.append("\\.");
        } else if c == '*' {
            out.append(".*");
        } else {
            let piece = s.substring_char(i, i + 1);
            proof {
                assert(piece@ =~= seq![s@[i as int]]);
            }
            out.append(piece);
        }
        proof {
            assert(out@ =~= seq!['^'] + spec_glob_regex(s@.take(i + 1)));
        }
        i = i + 1;
    }
    proof {
        assert(s@.take(len as int) =~= s@);
    }
    out.append("$");
    out
}

/// Extending the pattern by one character extends its translation.
proof fn lemma_glob_regex_snoc(s: Seq<char>, i: int)
    requires
        0 <= i < s.len(),
    ensures
        spec_glob_regex(s.take(i + 1)) == spec_glob_regex(s.take(i)) + (if s[i] == '.' {
            seq!['\\', '.']
        } else if s[i] == '*' {
            seq!['.', '*']
        } else {
            seq![s[i]]
        }),
    decreases i,
{
    if i == 0 {
        assert(s.take(1) =~= seq![s[0]]);
        assert(s.take(1).skip(1) =~= Seq::<char>::empty());
        assert(s.take(0) =~= Seq::<char>::empty());
    } else {
        assert(s.take(i + 1)[0] == s[0]);
        assert(s.take(i + 1).skip(1) =~= s.skip(1).take(i));
        assert(s.take(i).skip(1) =~= s.skip(1).take(i - 1));
        lemma_glob_regex_snoc(s.skip(1), i - 1);
        assert(s.skip(1)[i - 1] == s[i]);
        assert(spec_glob_regex(s.take(i + 1)) == (if s[0] == '.' {
            seq!['\\', '.']
        } else if s[0] == '*' {
            seq!['.', '*']
        } else {
            seq![s[0]]
        }) + spec_glob_regex(s.skip(1).take(i)));
        assert(spec_glob_regex(s.take(i)) == (if s[0] == '.' {
            seq!['\\', '.']
        } else if s[0] == '*' {
            seq!['.', '*']
        } else {
            seq![s[0]]
        }) + spec_glob_regex(s.skip(1).take(i - 1)));
    }
}

impl ListQuery {
    /// Parse: text holding `*` is a glob pattern, checked by compiling its
    /// translation; anything else parses as a script query.
    pub fn from_str(s: &str) -> (r: Result<ListQuery, Error>)
        ensures
            crate::strutil::contains_char(s@, '*') ==> (match r {
                Ok(q) => q matches ListQuery::Pattern(p) && p@ == s@
                    && crate::bridge::regex_pattern_ok(spec_anchored_glob(s@)),
                Err(e) => e matches Error::Format(c, t) && c == FormatCode::Regex && t@ == s@
                    && !crate::bridge::regex_pattern_ok(spec_anchored_glob(s@)),
            }),
            !crate::strutil::contains_char(s@, '*') ==> ((r is Ok <==> spec_query_ok(s@)) && (
            match r {
                Ok(q) => q is Query,
                Err(e) => e is Format,
            })),
    {
        if crate::strutil::str_contains_char(s, '*') {
            let translated = glob_to_regex(s);
            if crate::bridge::regex_check(translated.as_str()) {
                Ok(ListQuery::Pattern(String::from_str(s)))
            } else {
                Err(Error::Format(FormatCode::Regex, String::from_str(s)))
            }
        } else {
            match ScriptQuery::from_str(s) {
                Ok(q) => Ok(ListQuery::Query(q)),
                Err(e) => Err(e),
            }
        }
    }

    /// Whether a display name matches this list query's pattern. Only glob
    /// patterns match here; query forms are resolved against a repository
    /// instead, and a pattern whose translation does not compile matches
    /// nothing.
    pub fn is_match(&self, name: &str) -> (r: bool)
        ensures
            match self {
                ListQuery::Pattern(p) => {
                    &&& crate::bridge::regex_pattern_ok(spec_anchored_glob(p@)) ==> r
                        == crate::bridge::regex_match_of(spec_anchored_glob(p@), name@)
                    &&& !crate::bridge::regex_pattern_ok(spec_anchored_glob(p@)) ==> r == false
                },
                ListQuery::Query(_) => r == false,
            },
    {
        match self {
            ListQuery::Pattern(p) => {
                let translated = glob_to_regex(p.as_str());
                if crate::bridge::regex_check(translated.as_str()) {
                    crate::bridge::regex_is_match(translated.as_str(), name)
                } else {
                    false
                }
            },
            ListQuery::Query(_) => false,
        }
    }
}

/// The count a previous-query denotes: `^^^` is 3, `^N` is N.
pub open spec fn spec_prev_count(s: Seq<char>) -> Result<int, ()> {
    if forall|i: int| 0 <= i < s.len() ==> s[i] == '^' {
        Ok(s.len() as int)
    } else if s.len() >= 1 && s.skip(1).len() > 0 && all_digits(s.skip(1)) && dec_value(s.skip(1))
        <= u32::MAX && dec_value(s.skip(1)) > 0 {
        Ok(dec_value(s.skip(1)))
    } else {
        Err(())
    }
}

/// Parse a previous-query body: carets alone count themselves, `^N` names N
/// directly; zero and malformed counts are format errors.
pub fn parse_prev(s: &str) -> (r: Result<usize, Error>)
    requires
        s@.len() >= 1,
    ensures
        match r {
            Ok(n) => spec_prev_count(s@) == Result::<int, ()>::Ok(n as int) && n >= 1,
            Err(e) => e is Format && (spec_prev_count(s@) is Err || s@.len() == 0),
        },
{
    let len = s.unicode_len();
    let mut pure = true;
    let mut i: usize = 0;
    while i < len
        invariant
            i <= len,
            len == s@.len(),
            pure <==> (forall|j: int| 0 <= j < i ==> s@[j] == '^'),
        decreases len - i,
    {
        if s.get_char(i) != '^' {
            pure = false;
        }
        i = i + 1;
    }
    if pure {
        return Ok(len);
    }
    let rest = s.substring_char(1, len);
    proof {
        assert(rest@ =~= s@.skip(1));
    }
    match parse_u32_digits(rest) {
        Some(n) => {
            if n == 0 {
                Err(Error::Format(FormatCode::ScriptQuery, String::from_str(s)))
            } else {
                Ok(n as usize)
            }
        },
        None => Err(Error::Format(FormatCode::ScriptQuery, String::from_str(s))),
    }
}

/// Whether the query text ends with the bang that admits hidden scripts.
pub open spec fn spec_has_bang(s: Seq<char>) -> bool {
    s.len() > 0 && s.last() == '!'
}

/// The query body, bang removed.
pub open spec fn spec_query_body(s: Seq<char>) -> Seq<char> {
    if spec_has_bang(s) {
        s.drop_last()
    } else {
        s
    }
}

/// Whether query text fits the grammar: a bare bang, an exact name after
/// `=`, a dash, a well-formed caret count, or fuzzy text obeying the name
/// grammar — each after stripping the optional trailing bang.
pub open spec fn spec_query_ok(s: Seq<char>) -> bool {
    let body = spec_query_body(s);
    if body.len() == 0 {
        spec_has_bang(s)
    } else if body[0] == '=' {
        spec_valid(body.skip(1)) is Ok
    } else if body == seq!['-'] {
        true
    } else if body[0] == '^' {
        spec_prev_count(body) is Ok
    } else {
        spec_valid(body) is Ok
    }
}

impl ScriptQuery {
    /// Parse a script query: an optional trailing `!`, then `=name` for an
    /// exact lookup, `-` or carets or `^N` for a previous lookup, or name
    /// text for a fuzzy search.
    pub fn from_str(s: &str) -> (r: Result<ScriptQuery, Error>)
        ensures
            r is Ok <==> spec_query_ok(s@),
            r matches Ok(q) ==> q.bang == spec_has_bang(s@),
            r matches Ok(q) ==> {
                let body = spec_query_body(s@);
                if body.len() == 0 {
                    q.inner matches ScriptQueryInner::Prev(1usize)
                } else if body[0] == '=' {
                    q.inner matches ScriptQueryInner::Exact(n) && n.wf() && n.spec_key()
                        == crate::script_repo::spec_row_key(body.skip(1))
                } else if body == seq!['-'] {
                    q.inner matches ScriptQueryInner::Prev(1usize)
                } else if body[0] == '^' {
                    q.inner matches ScriptQueryInner::Prev(n) && spec_prev_count(body)
                        == Result::<int, ()>::Ok(n as int)
                } else {
                    q.inner matches ScriptQueryInner::Fuzz(t) && t@ == body && spec_valid(
                        body,
                    ) is Ok
                }
            },
            r is Err ==> r->Err_0 is Format,
    {
        proof {
            reveal_strlit("!");
            reveal_strlit("-");
            reveal_strlit("=");
        }
        let len = s.unicode_len();
        let bang = len > 0 && s.get_char(len - 1) == '!';
        let body = if bang {
            s.substring_char(0, len - 1)
        } else {
            s
        };
        proof {
            assert(body@ =~= spec_query_body(s@));
        }
        let blen = body.unicode_len();
        if blen == 0 {
            if bang {
                return Ok(ScriptQuery { inner: ScriptQueryInner::Prev(1), bang: true });
            }
            return Err(Error::Format(FormatCode::ScriptQuery, String::from_str(s)));
        }
        let first = body.get_char(0);
        if first == '=' {
            let rest = body.substring_char(1, blen);
            proof {
                assert(rest@ =~= body@.skip(1));
            }
            match string_into_script_name(String::from_str(rest)) {
                Ok(n) => {
                    proof {
                        crate::script_repo::lemma_spec_row_key(rest@, n);
                    }
                    Ok(ScriptQuery { inner: ScriptQueryInner::Exact(n), bang })
                },
                Err(e) => Err(e),
            }
        } else if blen == 1 && first == '-' {
            proof {
                assert(body@ =~= seq!['-']);
            }
            Ok(ScriptQuery { inner: ScriptQueryInner::Prev(1), bang })
        } else if first == '^' {
            match parse_prev(body) {
                Ok(n) => Ok(ScriptQuery { inner: ScriptQueryInner::Prev(n), bang }),
                Err(e) => Err(e),
            }
        } else {
            match ScriptName::valid(body) {
                Ok(_) => Ok(
                    ScriptQuery {
                        inner: ScriptQueryInner::Fuzz(String::from_str(body)),
                        bang,
                    },
                ),
                Err(e) => Err(e),
            }
        }
    }
}

/// What the caller asked for alongside an edit.
#[derive(Debug)]
pub struct EditTagArgs {
    /// The tags a created script starts with.
    pub content: TagSelector,
    /// The command line carried an explicit tag option.
    pub explicit_tag: bool,
    /// The command line carried an explicit selector option.
    pub explicit_select: bool,
}

/// The fuzzy candidate list of a repository: the entries the visibility
/// admits, in order, each carrying its display key and last-active time;
/// `imap` maps candidate positions back to entry positions.
pub open spec fn fuzzy_candidates(
    entries: Seq<ScriptInfo>,
    hidden: Seq<bool>,
    bang: bool,
    cand: Seq<FuzzItem>,
    imap: Seq<usize>,
) -> bool {
    &&& cand.len() == imap.len()
    &&& forall|x: int|
        0 <= x < imap.len() ==> (#[trigger] imap[x]) < entries.len() && (bang || !hidden[
            imap[x] as int
        ])
    &&& forall|p: int, q: int| 0 <= p < q < imap.len() ==> imap[p] < imap[q]
    &&& forall|x: int|
        0 <= x < cand.len() ==> (#[trigger] cand[x]).key@ == entries[imap[x] as int].name.spec_key()
            && cand[x].last_time == entries[imap[x] as int].spec_last_time()
    &&& forall|i: int|
        0 <= i < entries.len() && (bang || !hidden[i]) ==> imap.contains(i as usize)
}

/// What resolving fuzzy text against a candidate list must yield: nothing
/// when nothing matched; the winner's entry when it is confident or alone;
/// the candidate names when close matches continue the winner's key; nothing
/// when several match without that prefix relation.
pub open spec fn fuzzy_resolution(
    text: Seq<char>,
    cand: Seq<FuzzItem>,
    imap: Seq<usize>,
    r: Result<Option<usize>, Error>,
) -> bool {
    &&& ((forall|x: int| 0 <= x < cand.len() ==> #[trigger] spec_score(text, cand[x].key@) == 0)
        ==> r == Result::<Option<usize>, Error>::Ok(None))
    &&& forall|w: int| #[trigger] spec_winner(cand, spec_scores(text, cand), w) ==> {
        &&& high_outcome(text, cand, w) ==> r == Result::<Option<usize>, Error>::Ok(
            Some(imap[w]),
        )
        &&& !high_outcome(text, cand, w) && prefix_outcome(text, cand, "/"@, w) ==> (r matches Err(
            e,
        ) && e matches Error::Ambiguous(names) && names@.len() >= 2 && names@[0]@ == cand[w].key@)
        &&& !high_outcome(text, cand, w) && !prefix_outcome(text, cand, "/"@, w) && lone_outcome(
            text,
            cand,
            w,
        ) ==> r == Result::<Option<usize>, Error>::Ok(Some(imap[w]))
        &&& !high_outcome(text, cand, w) && !prefix_outcome(text, cand, "/"@, w) && !lone_outcome(
            text,
            cand,
            w,
        ) ==> r == Result::<Option<usize>, Error>::Ok(None)
    }
}

/// Resolve a query against the repository.
///
/// Exact queries honor the bang; an absent name is `Ok(None)`. Previous
/// queries walk the visible scripts newest first. Fuzzy queries score the
/// admitted candidates; an ambiguous outcome reports the candidate names.
/// `Ok(None)` means nothing matched.
pub fn do_script_query(query: &ScriptQuery, repo: &ScriptRepo) -> (r: Result<Option<usize>, Error>)
    requires
        repo.wf(),
        query.inner matches ScriptQueryInner::Exact(n) ==> n.wf(),
        query.inner matches ScriptQueryInner::Prev(n) ==> n >= 1,
    ensures
        r matches Ok(Some(k)) ==> (k as int) < repo.entries().len() && (!query.bang
            ==> !repo.hidden_marks()[k as int]),
        query.inner matches ScriptQueryInner::Exact(n) ==> (r matches Ok(Some(k))
            ==> repo.entries()[k as int].name.spec_key() == n.spec_key()),
        query.inner matches ScriptQueryInner::Exact(n) ==> ((r matches Ok(o) && o is None) ==> (
        forall|i: int|
            0 <= i < repo.entries().len() ==> !((#[trigger] repo.entries()[i]).name.spec_key()
                == n.spec_key() && (query.bang || !repo.hidden_marks()[i])))),
        query.inner is Exact ==> !(r is Err),
        query.inner matches ScriptQueryInner::Prev(n) ==> (r matches Ok(Some(k))
            ==> exists|order: Seq<usize>|
            #[trigger] crate::script_repo::recency_order(
                repo.entries(),
                repo.hidden_marks(),
                order,
            ) && n - 1 < order.len() && order[n - 1] == k),
        query.inner matches ScriptQueryInner::Prev(n) ==> ((r matches Ok(o) && o is None)
            ==> exists|order: Seq<usize>|
            #[trigger] crate::script_repo::recency_order(
                repo.entries(),
                repo.hidden_marks(),
                order,
            ) && order.len() < n),
        query.inner is Prev ==> !(r is Err),
        query.inner matches ScriptQueryInner::Fuzz(text) ==> exists|
            cand: Seq<FuzzItem>,
            imap: Seq<usize>,
        |
            #[trigger] fuzzy_candidates(repo.entries(), repo.hidden_marks(), query.bang, cand, imap)
                && fuzzy_resolution(text@, cand, imap, r),
{
    match &query.inner {
        ScriptQueryInner::Exact(name) => {
            let vis = if query.bang {
                Visibility::All
            } else {
                Visibility::Normal
            };
            match repo.get_mut(name, vis) {
                Some(k) => Ok(Some(k)),
                None => Ok(None),
            }
        },
        ScriptQueryInner::Prev(n) => {
            match repo.latest_mut(*n) {
                Some(k) => Ok(Some(k)),
                None => Ok(None),
            }
        },
        ScriptQueryInner::Fuzz(text) => {
            let ghost gtext = text@;
            // collect the admitted candidates
            let len = repo.count();
            let mut items: Vec<FuzzItem> = Vec::new();
            let mut index_of: Vec<usize> = Vec::new();
            let mut i: usize = 0;
            while i < len
                invariant
                    repo.wf(),
                    i <= len,
                    len == repo.entries().len(),
                    items@.len() == index_of@.len(),
                    forall|x: int|
                        0 <= x < index_of@.len() ==> (#[trigger] index_of@[x]) < i && (query.bang
                            || !repo.hidden_marks()[index_of@[x] as int]),
                    forall|p: int, q: int|
                        0 <= p < q < index_of@.len() ==> index_of@[p] < index_of@[q],
                    forall|x: int|
                        0 <= x < items@.len() ==> (#[trigger] items@[x]).key@ == repo.entries()[
                            index_of@[x] as int
                        ].name.spec_key() && items@[x].last_time == repo.entries()[
                            index_of@[x] as int
                        ].spec_last_time(),
                    forall|e: int|
                        0 <= e < i && (query.bang || !repo.hidden_marks()[e])
                            ==> #[trigger] index_of@.contains(e as usize),
                decreases len - i,
            {
                let ghost entry_imap = index_of@;
                let admitted = query.bang || !repo.is_hidden(i);
                if admitted {
                    let e = repo.entry_at(i);
                    let t = e.last_time();
                    items.push(FuzzItem { key: e.name.key(), last_time: t });
                    index_of.push(i);
                }
                proof {
                    if admitted {
                        assert(forall|x: int|
                            0 <= x < entry_imap.len() ==> index_of@[x] == entry_imap[x]);
                        assert(index_of@.last() == i as usize);
                    } else {
                        assert(index_of@ == entry_imap);
                        assert(!query.bang && repo.hidden_marks()[i as int]);
                    }
                    assert forall|e2: int|
                        0 <= e2 < i + 1 && (query.bang || !repo.hidden_marks()[e2]) implies
                        #[trigger] index_of@.contains(e2 as usize) by {
                        if e2 == i {
                            assert(admitted);
                            assert(index_of@[index_of@.len() - 1] == e2 as usize);
                        } else {
                            assert(entry_imap.contains(e2 as usize));
                            let p = choose|p: int|
                                0 <= p < entry_imap.len() && entry_imap[p] == e2 as usize;
                            assert(index_of@[p] == e2 as usize);
                        }
                    }
                }
                i = i + 1;
            }
            proof {
                assert(fuzzy_candidates(
                    repo.entries(),
                    repo.hidden_marks(),
                    query.bang,
                    items@,
                    index_of@,
                ));
            }
            let ghost gcand = items@;
            let ghost gimap = index_of@;
            match fuzz(text.as_str(), &items, "/") {
                None => {
                    proof {
                        lemma_resolution_when_no_answer(gtext, gcand, gimap);
                    }
                    Ok(None)
                },
                Some(FuzzResult::High(w)) => {
                    proof {
                        assert(spec_winner(gcand, spec_scores(gtext, gcand), w as int));
                        assert(fuzzy_resolution(
                            gtext,
                            gcand,
                            gimap,
                            Result::<Option<usize>, Error>::Ok(Some(gimap[w as int])),
                        )) by {
                            lemma_resolution_of_entry(gtext, gcand, gimap, w as int);
                            assert(high_outcome(gtext, gcand, w as int));
                        }
                    }
                    Ok(Some(index_of[w]))
                },
                Some(FuzzResult::Low(w)) => {
                    proof {
                        assert(spec_winner(gcand, spec_scores(gtext, gcand), w as int));
                        assert(fuzzy_resolution(
                            gtext,
                            gcand,
                            gimap,
                            Result::<Option<usize>, Error>::Ok(Some(gimap[w as int])),
                        )) by {
                            lemma_resolution_of_entry(gtext, gcand, gimap, w as int);
                            assert(lone_outcome(gtext, gcand, w as int));
                            assert(!prefix_outcome(gtext, gcand, "/"@, w as int));
                            assert(!high_outcome(gtext, gcand, w as int)) by {
                                if high_outcome(gtext, gcand, w as int) {
                                    assert(false);
                                }
                            }
                        }
                    }
                    Ok(Some(index_of[w]))
                },
                Some(FuzzResult::Multi { ans, others, still_others }) => {
                    proof {
                        assert(spec_winner(gcand, spec_scores(gtext, gcand), ans as int));
                        assert(prefix_outcome(gtext, gcand, "/"@, ans as int)) by {
                            assert(0 <= others@[0] < gcand.len() && others@[0] != ans);
                            assert(spec_score(gtext, gcand[others@[0] as int].key@) > 0);
                        }
                        assert(!high_outcome(gtext, gcand, ans as int)) by {
                            if high_outcome(gtext, gcand, ans as int) {
                                assert(false);
                            }
                        }
                    }
                    let mut names: Vec<String> = Vec::new();
                    names.push(items[ans].key.clone());
                    let mut x: usize = 0;
                    let olen = others.len();
                    while x < olen
                        invariant
                            x <= olen,
                            olen == others@.len(),
                            items@.len() == index_of@.len(),
                            items@ == gcand,
                            ans < items@.len(),
                            forall|y: int|
                                0 <= y < others@.len() ==> (#[trigger] others@[y])
                                    < items@.len(),
                            names@.len() == 1 + x,
                            names@[0]@ == items@[ans as int].key@,
                        decreases olen - x,
                    {
                        names.push(items[others[x]].key.clone());
                        x = x + 1;
                    }
                    let mut y: usize = 0;
                    let slen = still_others.len();
                    while y < slen
                        invariant
                            y <= slen,
                            slen == still_others@.len(),
                            olen == others@.len(),
                            items@.len() == index_of@.len(),
                            items@ == gcand,
                            ans < items@.len(),
                            forall|z: int|
                                0 <= z < still_others@.len() ==> (#[trigger] still_others@[z])
                                    < items@.len(),
                            names@.len() == 1 + olen + y,
                            names@[0]@ == items@[ans as int].key@,
                        decreases slen - y,
                    {
                        names.push(items[still_others[y]].key.clone());
                        y = y + 1;
                    }
                    let r = Err(Error::Ambiguous(names));
                    proof {
                        assert(fuzzy_resolution(gtext, gcand, gimap, r)) by {
                            lemma_resolution_of_entry(gtext, gcand, gimap, ans as int);
                        }
                    }
                    r
                },
            }
        },
    }
}

/// When every candidate misses, or several match without a prefix relation,
/// the resolution is empty.
proof fn lemma_resolution_when_no_answer(text: Seq<char>, cand: Seq<FuzzItem>, imap: Seq<usize>)
    requires
        forall|w: int|
            #[trigger] spec_winner(cand, spec_scores(text, cand), w) ==> !high_outcome(
                text,
                cand,
                w,
            ) && !prefix_outcome(text, cand, "/"@, w) && !lone_outcome(text, cand, w),
    ensures
        fuzzy_resolution(text, cand, imap, Result::<Option<usize>, Error>::Ok(None)),
{
}

/// A resolved winner pins every candidate position claiming to be a winner.
proof fn lemma_resolution_of_entry(text: Seq<char>, cand: Seq<FuzzItem>, imap: Seq<usize>, w: int)
    requires
        spec_winner(cand, spec_scores(text, cand), w),
    ensures
        forall|w2: int| #[trigger] spec_winner(cand, spec_scores(text, cand), w2) ==> w2 == w,
        !(forall|x: int| 0 <= x < cand.len() ==> #[trigger] spec_score(text, cand[x].key@) == 0),
{
    assert forall|w2: int|
        #[trigger] spec_winner(cand, spec_scores(text, cand), w2) implies w2 == w by {
        crate::fuzzy::lemma_winner_unique(cand, spec_scores(text, cand), w2, w);
    }
    assert(spec_scores(text, cand)[w] > 0);
    assert(spec_score(text, cand[w].key@) > 0);
}

/// Resolve a query, demanding an answer/// Resolve a query, demanding an answer: a query that matched nothing fails
/// with `NotFound`, carrying the queried text.
pub fn do_script_query_strict(query: &ScriptQuery, repo: &ScriptRepo) -> (r: Result<usize, Error>)
    requires
        repo.wf(),
        query.inner matches ScriptQueryInner::Exact(n) ==> n.wf(),
        query.inner matches ScriptQueryInner::Prev(n) ==> n >= 1,
    ensures
        r matches Ok(k) ==> (k as int) < repo.entries().len() && (!query.bang
            ==> !repo.hidden_marks()[k as int]),
        query.inner matches ScriptQueryInner::Exact(n) ==> (r matches Ok(k)
            ==> repo.entries()[k as int].name.spec_key() == n.spec_key()),
        query.inner matches ScriptQueryInner::Exact(n) ==> ((r is Err && r->Err_0 is NotFound)
            ==> (forall|i: int|
            0 <= i < repo.entries().len() ==> !((#[trigger] repo.entries()[i]).name.spec_key()
                == n.spec_key() && (query.bang || !repo.hidden_marks()[i])))),
        query.inner matches ScriptQueryInner::Prev(n) ==> (r matches Ok(k) ==> exists|
            order: Seq<usize>,
        |
            #[trigger] crate::script_repo::recency_order(repo.entries(), repo.hidden_marks(), order)
                && n - 1 < order.len() && order[n - 1] == k),
        query.inner matches ScriptQueryInner::Prev(n) ==> ((r is Err && r->Err_0 is NotFound)
            ==> exists|order: Seq<usize>|
            #[trigger] crate::script_repo::recency_order(repo.entries(), repo.hidden_marks(), order)
                && order.len() < n),
        query.inner matches ScriptQueryInner::Fuzz(text) ==> exists|
            cand: Seq<FuzzItem>,
            imap: Seq<usize>,
        |
            #[trigger] fuzzy_candidates(repo.entries(), repo.hidden_marks(), query.bang, cand, imap)
                && fuzzy_resolution(
                text@,
                cand,
                imap,
                match r {
                    Ok(k) => Result::<Option<usize>, Error>::Ok(Some(k)),
                    Err(e) => if e is NotFound {
                        Result::<Option<usize>, Error>::Ok(None)
                    } else {
                        Result::<Option<usize>, Error>::Err(e)
                    },
                },
            ),
{
    match do_script_query(query, repo) {
        Ok(Some(k)) => Ok(k),
        Ok(None) => {
            let text = match &query.inner {
                ScriptQueryInner::Exact(n) => n.key(),
                ScriptQueryInner::Fuzz(s) => s.clone(),
                ScriptQueryInner::Prev(_) => String::new(),
            };
            Err(Error::NotFound(text))
        },
        Err(e) => Err(e),
    }
}

/// The argument list a run starts with: the previous run's decoded args, when
/// asked for, with the explicit args appended.
pub fn plan_run_args(
    explicit: Vec<String>,
    use_previous: bool,
    error_no_previous: bool,
    previous: Option<String>,
) -> (r: Result<Vec<String>, Error>)
    ensures
        !use_previous ==> (r matches Ok(v) && v == explicit),
        use_previous && previous is None && error_no_previous ==> r is Err
            && r->Err_0 is NoPreviousArgs,
        use_previous && previous is None && !error_no_previous ==> (r matches Ok(v) && v
            == explicit),
        use_previous ==> (previous matches Some(p) ==> (match r {
            Ok(v) => exists|prev: Seq<Seq<char>>|
                crate::bridge::args_of_json(p@) == Some(prev) && v.deep_view() == prev
                    + explicit.deep_view(),
            Err(e) => e is Format && crate::bridge::args_of_json(p@) is None,
        })),
{
    if !use_previous {
        return Ok(explicit);
    }
    match previous {
        None => {
            if error_no_previous {
                Err(Error::NoPreviousArgs)
            } else {
                Ok(explicit)
            }
        },
        Some(p) => {
            match crate::bridge::args_from_json(p.as_str()) {
                None => Err(Error::Format(FormatCode::PrevArgs, p)),
                Some(mut prev) => {
                    let mut rest = explicit;
                    let ghost gprev = prev.deep_view();
                    prev.append(&mut rest);
                    proof {
                        assert(prev.deep_view() =~= gprev + explicit.deep_view());
                    }
                    Ok(prev)
                },
            }
        },
    }
}

/// A fresh entry was appended: the queried key, the chosen type, the
/// selector's allowed tags, created now, under the next id.
pub open spec fn spec_created_entry(
    olde: Seq<ScriptInfo>,
    newe: Seq<ScriptInfo>,
    key: Seq<char>,
    ty_text: Seq<char>,
    allowed: Set<Seq<char>>,
    now: i64,
    next_id: i64,
) -> bool {
    &&& newe.len() == olde.len() + 1
    &&& newe.drop_last() == olde
    &&& newe.last().name.spec_key() == key
    &&& newe.last().ty@ == ty_text
    &&& newe.last().tags@ == allowed
    &&& newe.last().id == next_id
    &&& newe.last().created_time == (crate::script::ScriptTime { time: now, changed: false })
}

/// What the resolver may answer; its guarantees as a predicate, so a caller's
/// contract can case on the answer.
pub open spec fn spec_resolves(
    entries: Seq<ScriptInfo>,
    hidden: Seq<bool>,
    q: ScriptQuery,
    res: Result<Option<usize>, Error>,
) -> bool {
    &&& (res matches Ok(Some(k)) ==> (k as int) < entries.len() && (!q.bang ==> !hidden[k as int]))
    &&& (q.inner matches ScriptQueryInner::Exact(n) ==> (res matches Ok(Some(k))
        ==> entries[k as int].name.spec_key() == n.spec_key()))
    &&& (q.inner matches ScriptQueryInner::Exact(n) ==> ((res matches Ok(o) && o is None) ==> (
    forall|i: int|
        0 <= i < entries.len() ==> !((#[trigger] entries[i]).name.spec_key() == n.spec_key() && (
        q.bang || !hidden[i])))))
    &&& (q.inner is Exact ==> !(res is Err))
    &&& (q.inner matches ScriptQueryInner::Prev(n) ==> (res matches Ok(Some(k)) ==> exists|
        order: Seq<usize>,
    |
        #[trigger] crate::script_repo::recency_order(entries, hidden, order) && n - 1 < order.len()
            && order[n - 1] == k))
    &&& (q.inner matches ScriptQueryInner::Prev(n) ==> ((res matches Ok(o) && o is None)
        ==> exists|order: Seq<usize>|
        #[trigger] crate::script_repo::recency_order(entries, hidden, order) && order.len() < n))
    &&& (q.inner is Prev ==> !(res is Err))
    &&& (q.inner matches ScriptQueryInner::Fuzz(text) ==> exists|
        cand: Seq<FuzzItem>,
        imap: Seq<usize>,
    |
        #[trigger] fuzzy_candidates(entries, hidden, q.bang, cand, imap) && fuzzy_resolution(
            text@,
            cand,
            imap,
            res,
        ))
}

/// The creation half of an edit: a redundant selector fails, a nameless
/// query is a format error, an existing (hidden) name is reported, and
/// otherwise the entry is created from the selector's tags.
pub open spec fn spec_edit_creates(
    olde: Seq<ScriptInfo>,
    newe: Seq<ScriptInfo>,
    old_next: i64,
    q: ScriptQuery,
    explicit_select: bool,
    allowed: Set<Seq<char>>,
    ty_text: Seq<char>,
    now: i64,
    filtered: bool,
    r: Result<(usize, bool), Error>,
) -> bool {
    if explicit_select {
        r == Result::<(usize, bool), Error>::Err(Error::Redundant(RedundantOpt::Selector))
    } else if !spec_query_has_name(q) {
        r is Err && r->Err_0 is Format
    } else if !spec_name_free(olde, spec_query_key(q)) {
        r matches Err(e) && (if filtered {
            e matches Error::ScriptIsFiltered(nm) && nm@ == spec_query_key(q)
        } else {
            e matches Error::ScriptExist(nm) && nm@ == spec_query_key(q)
        })
    } else {
        r == Result::<(usize, bool), Error>::Ok((olde.len() as usize, true)) && spec_created_entry(
            olde,
            newe,
            spec_query_key(q),
            ty_text,
            allowed,
            now,
            old_next,
        )
    }
}

/// Decide an edit: resolve the query to an existing entry, or create one.
///
/// A redundant selector or tag option fails first. A resolved entry is
/// returned as is; a query that matched nothing creates a script under the
/// queried name, failing with `ScriptExist` when a typed create collides and
/// `ScriptIsFiltered` when the name exists hidden. A fresh anonymous script
/// takes the smallest unused anonymous number.
pub fn edit_or_create(
    repo: &mut ScriptRepo,
    edit_query: EditQuery<ScriptQuery>,
    ty: Option<String>,
    tags: EditTagArgs,
    default_ty: String,
    now: i64,
) -> (r: Result<(usize, bool), Error>)
    requires
        old(repo).wf(),
        old(repo).spec_next_script_id() < i64::MAX,
        tags.content.wf(),
        edit_query matches EditQuery::Query(q) ==> ((q.inner matches ScriptQueryInner::Exact(n)
            ==> n.wf()) && (q.inner matches ScriptQueryInner::Prev(n) ==> n >= 1) && (ty is Some
            ==> !(q.inner is Prev))),
        edit_query is NewAnonimous ==> forall|i: int|
            0 <= i < old(repo).entries().len() ==> ((#[trigger] old(repo).entries()[i]).name
                matches ScriptName::Anonymous(a) ==> a < u32::MAX),
    ensures
        final(repo).wf(),
        r is Err ==> *final(repo) == *old(repo),
        r matches Ok(k) ==> (k.0 as int) < final(repo).entries().len(),
        r matches Ok(k) && k.1 ==> final(repo).entries().len() == old(repo).entries().len() + 1,
        r matches Ok(k) && !k.1 ==> *final(repo) == *old(repo),
        final(repo).hist() == old(repo).hist(),
        // a fresh anonymous script: a redundant selector fails, anything else
        // creates under an unused anonymous number
        edit_query is NewAnonimous ==> (if tags.explicit_select {
            r == Result::<(usize, bool), Error>::Err(Error::Redundant(RedundantOpt::Selector))
        } else {
            &&& r == Result::<(usize, bool), Error>::Ok((old(repo).entries().len() as usize, true))
            &&& final(repo).entries().last().name is Anonymous
            &&& spec_name_free(old(repo).entries(), final(repo).entries().last().name.spec_key())
            &&& spec_created_entry(
                old(repo).entries(),
                final(repo).entries(),
                final(repo).entries().last().name.spec_key(),
                match ty {
                    Some(t) => t@,
                    None => default_ty@,
                },
                crate::tag::spec_fill_allowed(tags.content.tags@, Set::<Seq<char>>::empty()),
                now,
                old(repo).spec_next_script_id(),
            )
        }),
        // a typed edit always creates; collisions with any entry are refused
        edit_query matches EditQuery::Query(q) ==> (ty matches Some(t) ==> spec_edit_creates(
            old(repo).entries(),
            final(repo).entries(),
            old(repo).spec_next_script_id(),
            q,
            tags.explicit_select,
            crate::tag::spec_fill_allowed(tags.content.tags@, Set::<Seq<char>>::empty()),
            t@,
            now,
            false,
            r,
        )),
        // an untyped edit follows the query's resolution: a hit is returned
        // as is unless a redundant tag option was given; a miss creates,
        // reporting a hidden holder of the name; a resolution error passes
        // through, except the do-not-fuzz signal, which also creates
        edit_query matches EditQuery::Query(q) ==> (ty is None ==> exists|
            res: Result<Option<usize>, Error>,
        |
            #[trigger] spec_resolves(old(repo).entries(), old(repo).hidden_marks(), q, res)
                && (match res {
                Ok(Some(k)) => if tags.explicit_tag {
                    r == Result::<(usize, bool), Error>::Err(
                        Error::Redundant(RedundantOpt::Tag),
                    )
                } else {
                    r == Result::<(usize, bool), Error>::Ok((k, false))
                },
                Ok(None) => spec_edit_creates(
                    old(repo).entries(),
                    final(repo).entries(),
                    old(repo).spec_next_script_id(),
                    q,
                    tags.explicit_select,
                    crate::tag::spec_fill_allowed(tags.content.tags@, Set::<Seq<char>>::empty()),
                    default_ty@,
                    now,
                    true,
                    r,
                ),
                Err(e) => if e is DontFuzz {
                    spec_edit_creates(
                        old(repo).entries(),
                        final(repo).entries(),
                        old(repo).spec_next_script_id(),
                        q,
                        tags.explicit_select,
                        crate::tag::spec_fill_allowed(
                            tags.content.tags@,
                            Set::<Seq<char>>::empty(),
                        ),
                        default_ty@,
                        now,
                        true,
                        r,
                    )
                } else {
                    r == Result::<(usize, bool), Error>::Err(e)
                },
            })),
{
    match edit_query {
        EditQuery::NewAnonimous => {
            if tags.explicit_select {
                return Err(Error::Redundant(RedundantOpt::Selector));
            }
            let id = next_anonymous_number(repo);
            let name = ScriptName::Anonymous(id);
            proof {
                lemma_anon_key_free(old(repo).entries(), id);
            }
            let the_ty = match ty {
                Some(t) => t,
                None => default_ty,
            };
            let info = ScriptInfo::builder(0, name.clone(), the_ty, tags.content.into_allowed_iter())
                .build(now);
            let (k, created) = repo.upsert(&name, info);
            proof {
                if !created {
                    assert(final(repo).entries()[k as int].name.spec_key() == name.spec_key());
                    assert(false);
                }
            }
            Ok((k, created))
        },
        EditQuery::Query(query) => {
            let ghost gq = query;
            match ty {
                Some(t) => {
                    if tags.explicit_select {
                        return Err(Error::Redundant(RedundantOpt::Selector));
                    }
                    let name = match query_name(query) {
                        Ok(n) => n,
                        Err(e) => {
                            return Err(e);
                        },
                    };
                    match repo.get_mut(&name, Visibility::All) {
                        Some(_) => {
                            proof {
                                assert(!spec_name_free(old(repo).entries(), spec_query_key(gq)));
                            }
                            Err(Error::ScriptExist(name.key()))
                        },
                        None => {
                            proof {
                                assert(spec_name_free(old(repo).entries(), spec_query_key(gq)));
                            }
                            let info = ScriptInfo::builder(
                                0,
                                name.clone(),
                                t,
                                tags.content.into_allowed_iter(),
                            ).build(now);
                            let (k, created) = repo.upsert(&name, info);
                            proof {
                                if !created {
                                    assert(final(repo).entries()[k as int].name.spec_key()
                                        == name.spec_key());
                                    assert(false);
                                }
                            }
                            Ok((k, created))
                        },
                    }
                },
                None => {
                    let res = do_script_query(&query, repo);
                    let ghost gres = res;
                    proof {
                        assert(spec_resolves(
                            old(repo).entries(),
                            old(repo).hidden_marks(),
                            gq,
                            gres,
                        ));
                    }
                    match res {
                        Ok(Some(k)) => {
                            if tags.explicit_tag {
                                return Err(Error::Redundant(RedundantOpt::Tag));
                            }
                            Ok((k, false))
                        },
                        Ok(None) | Err(Error::DontFuzz) => {
                            if tags.explicit_select {
                                return Err(Error::Redundant(RedundantOpt::Selector));
                            }
                            let name = match query_name(query) {
                                Ok(n) => n,
                                Err(e) => {
                                    return Err(e);
                                },
                            };
                            match repo.get_mut(&name, Visibility::All) {
                                Some(_) => {
                                    proof {
                                        assert(!spec_name_free(
                                            old(repo).entries(),
                                            spec_query_key(gq),
                                        ));
                                    }
                                    Err(Error::ScriptIsFiltered(name.key()))
                                },
                                None => {
                                    proof {
                                        assert(spec_name_free(
                                            old(repo).entries(),
                                            spec_query_key(gq),
                                        ));
                                    }
                                    let info = ScriptInfo::builder(
                                        0,
                                        name.clone(),
                                        default_ty,
                                        tags.content.into_allowed_iter(),
                                    ).build(now);
                                    let (k, created) = repo.upsert(&name, info);
                                    proof {
                                        if !created {
                                            assert(final(repo).entries()[k as int].name.spec_key()
                                                == name.spec_key());
                                            assert(false);
                                        }
                                    }
                                    Ok((k, created))
                                },
                            }
                        },
                        Err(e) => Err(e),
                    }
                },
            }
        },
    }
}

/// What a run loop does next: launch another round, or finish, reporting
/// whether every round exited cleanly.
#[derive(Debug, PartialEq, Eq, Structural)]
pub enum RunStep {
    Launch,
    Finish { ok: bool },
}

/// The run loop's decision: with `done` of `repeat` rounds behind and
/// `nonzero_codes` of them failed, launch until the count is reached, then
/// finish, clean exactly when no round failed. A script failure is collected
/// and the loop goes on; only other errors abort it.
pub fn next_run_step(repeat: u64, done: u64, nonzero_codes: u64) -> (r: RunStep)
    ensures
        r == (if done < repeat {
            RunStep::Launch
        } else {
            RunStep::Finish { ok: nonzero_codes == 0 }
        }),
{
    if done < repeat {
        RunStep::Launch
    } else {
        RunStep::Finish { ok: nonzero_codes == 0 }
    }
}

/// What to do after an edit session ends.
#[derive(Debug, PartialEq, Eq, Structural)]
pub enum AfterAction {
    /// A fresh script was left untouched: drop it and report the empty create.
    EmptyCreate,
    /// An existing script was left untouched: record only the read.
    Nothing,
    /// The file changed: record the write.
    RecordWrite,
}

/// The after-edit decision: a file not modified since it was prepared means
/// an empty create for a fresh script and a read-only touch for an existing
/// one; a modified file records the write.
pub fn after_edit_action(is_new: bool, prepared_at: i64, modified_at: i64) -> (r: AfterAction)
    ensures
        r == (if modified_at <= prepared_at {
            if is_new {
                AfterAction::EmptyCreate
            } else {
                AfterAction::Nothing
            }
        } else {
            AfterAction::RecordWrite
        }),
{
    if modified_at <= prepared_at {
        if is_new {
            AfterAction::EmptyCreate
        } else {
            AfterAction::Nothing
        }
    } else {
        AfterAction::RecordWrite
    }
}

/// The display key of the name an exact or fuzzy query carries./// The display key of the name an exact or fuzzy query carries.
pub open spec fn spec_query_key(q: ScriptQuery) -> Seq<char> {
    match q.inner {
        ScriptQueryInner::Exact(n) => n.spec_key(),
        ScriptQueryInner::Fuzz(s) => crate::script_repo::spec_row_key(s@),
        ScriptQueryInner::Prev(_) => Seq::empty(),
    }
}

/// Whether the query carries a usable name: exact queries always do, fuzzy
/// text must obey the name grammar, a previous-query never does.
pub open spec fn spec_query_has_name(q: ScriptQuery) -> bool {
    match q.inner {
        ScriptQueryInner::Exact(_) => true,
        ScriptQueryInner::Fuzz(s) => spec_valid(s@) is Ok,
        ScriptQueryInner::Prev(_) => false,
    }
}

/// No stored entry bears the display key.
pub open spec fn spec_name_free(entries: Seq<ScriptInfo>, key: Seq<char>) -> bool {
    forall|i: int| 0 <= i < entries.len() ==> (#[trigger] entries[i]).name.spec_key() != key
}

/// The name a fuzzy or exact query denotes; a previous-query has none.
fn query_name(query: ScriptQuery) -> (r: Result<ScriptName, Error>)
    requires
        query.inner matches ScriptQueryInner::Exact(n) ==> n.wf(),
    ensures
        r is Ok <==> spec_query_has_name(query),
        r matches Ok(n) ==> n.wf() && n.spec_key() == spec_query_key(query),
        r is Err ==> r->Err_0 is Format,
{
    match query.inner {
        ScriptQueryInner::Exact(n) => Ok(n),
        ScriptQueryInner::Fuzz(s) => {
            let ghost gs = s@;
            match string_into_script_name(s) {
                Ok(n) => {
                    proof {
                        crate::script_repo::lemma_spec_row_key(gs, n);
                    }
                    Ok(n)
                },
                Err(e) => Err(e),
            }
        },
        ScriptQueryInner::Prev(_) => Err(
            Error::Format(FormatCode::ScriptQuery, String::new()),
        ),
    }
}

/// One more than the largest anonymous number in use, or 1: a number no
/// stored script carries.
fn next_anonymous_number(repo: &ScriptRepo) -> (r: u32)
    requires
        repo.wf(),
        forall|i: int|
            0 <= i < repo.entries().len() ==> ((#[trigger] repo.entries()[i]).name matches
                ScriptName::Anonymous(a) ==> a < u32::MAX),
    ensures
        r >= 1,
        forall|i: int|
            0 <= i < repo.entries().len() ==> (#[trigger] repo.entries()[i]).name
                != ScriptName::Anonymous(r),
{
    let len = repo.count();
    let mut best: u32 = 0;
    let mut i: usize = 0;
    while i < len
        invariant
            repo.wf(),
            i <= len,
            len == repo.entries().len(),
            best < u32::MAX,
            forall|j: int|
                0 <= j < len ==> ((#[trigger] repo.entries()[j]).name matches
                    ScriptName::Anonymous(a) ==> a < u32::MAX),
            forall|j: int|
                0 <= j < i ==> ((#[trigger] repo.entries()[j]).name matches ScriptName::Anonymous(
                    a,
                ) ==> a <= best),
        decreases len - i,
    {
        match repo.entry_at(i).name {
            ScriptName::Anonymous(id) => {
                if id > best && id < u32::MAX {
                    best = id;
                }
            },
            _ => {},
        }
        i = i + 1;
    }
    best + 1
}

/// A fresh anonymous number's display key collides with no stored name.
proof fn lemma_anon_key_free(entries: Seq<ScriptInfo>, id: u32)
    requires
        forall|i: int| 0 <= i < entries.len() ==> (#[trigger] entries[i]).wf(),
        forall|i: int|
            0 <= i < entries.len() ==> (#[trigger] entries[i]).name != ScriptName::Anonymous(id),
    ensures
        spec_name_free(entries, ScriptName::Anonymous(id).spec_key()),
{
    let key = ScriptName::Anonymous(id).spec_key();
    crate::script_name::lemma_dec_repr_digits(id as nat);
    assert forall|i: int|
        0 <= i < entries.len() implies (#[trigger] entries[i]).name.spec_key() != key by {
        match entries[i].name {
            ScriptName::Anonymous(a) => {
                if entries[i].name.spec_key() == key {
                    crate::script_name::lemma_dec_repr_injective(a as nat, id as nat);
                    assert(entries[i].name.spec_key().skip(1) =~= crate::strutil::dec_repr(
                        a as nat,
                    ));
                    assert(key.skip(1) =~= crate::strutil::dec_repr(id as nat));
                }
            },
            ScriptName::Named(n) => {
                assert(entries[i].name.spec_key()[0] == n@[0]);
                assert(key[0] == '.');
                assert(n@[0] != '.');
            },
        }
    }
}

} // verus!
