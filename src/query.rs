//! The query language: keywords, parameters parsed from positional tokens,
//! and the score of a candidate path.

use vstd::prelude::*;
use vstd::string::*;
use crate::path::{
    above_name_of, basename, components, dirs_deepest_first, dirs_of, last_name_of,
    lemma_components_len, parent_name, path_components, views,
};
use crate::text::{chars_of, contains, find_in, is_prefix, same_chars, starts_with};

verus! {

/// How letter case is compared.
#[derive(Clone, Copy, Debug, PartialEq, Eq, Structural)]
pub enum CaseOption {
    Match,
    Ignore,
    Smart,
}

/// How a client prints results.
#[derive(Clone, Copy, Debug, PartialEq, Eq, Structural)]
pub enum OutputFormat {
    Json,
    List,
}

/// Which kinds of entries a query admits.
#[derive(Clone, Copy, Debug, PartialEq, Eq, Structural)]
pub enum FileType {
    All,
    FilesOnly,
    DirOnly,
}

/// A word to look for, as a substring or as the whole candidate.
#[derive(Clone, Debug)]
pub struct Keyword {
    pub word: String,
    pub exact_match: bool,
}

/// What `str::to_lowercase` makes of a string.
pub uninterp spec fn lower_of(s: Seq<char>) -> Seq<char>;

/// Relies on `str::to_lowercase`: the lowercase form, which depends on the
/// characters alone.
#[verifier::external_body]
fn lowercase(s: &str) -> (r: String)
    ensures
        r@ == lower_of(s@),
{
    s.to_lowercase()
}

/// A white-space character: the Unicode `White_Space` property, which
/// `char::is_whitespace` and `str::trim` go by.
pub open spec fn is_white(c: char) -> bool {
    ('\u{9}' <= c && c <= '\u{d}') || c == ' ' || c == '\u{85}' || c == '\u{a0}' || c == '\u{1680}' || (
    '\u{2000}' <= c && c <= '\u{200a}') || c == '\u{2028}' || c == '\u{2029}' || c == '\u{202f}' || c
        == '\u{205f}' || c == '\u{3000}'
}

/// The string without its leading white space.
pub open spec fn trim_front(s: Seq<char>) -> Seq<char>
    decreases s.len(),
{
    if s.len() > 0 && is_white(s[0]) {
        trim_front(s.drop_first())
    } else {
        s
    }
}

/// The string without its trailing white space.
pub open spec fn trim_back(s: Seq<char>) -> Seq<char>
    decreases s.len(),
{
    if s.len() > 0 && is_white(s.last()) {
        trim_back(s.drop_last())
    } else {
        s
    }
}

/// The string without surrounding white space.
pub open spec fn trimmed(s: Seq<char>) -> Seq<char> {
    trim_back(trim_front(s))
}

fn white(c: char) -> (r: bool)
    ensures
        r == is_white(c),
{
    ('\u{9}' <= c && c <= '\u{d}') || c == ' ' || c == '\u{85}' || c == '\u{a0}' || c == '\u{1680}' || (
    '\u{2000}' <= c && c <= '\u{200a}') || c == '\u{2028}' || c == '\u{2029}' || c == '\u{202f}' || c
        == '\u{205f}' || c == '\u{3000}'
}

/// `s` without surrounding white space.
fn trim_white(s: &str) -> (r: &str)
    ensures
        r@ == trimmed(s@),
{
    let cs = chars_of(s);
    let n = cs.len();
    let mut i: usize = 0;
    assert(s@.subrange(0, n as int) =~= s@);
    while i < n && white(cs[i])
        invariant
            cs@ == s@,
            n == s@.len(),
            i <= n,
            trim_front(s@) == trim_front(s@.subrange(i as int, n as int)),
        decreases n - i,
    {
        assert(s@.subrange(i as int, n as int).drop_first() =~= s@.subrange(i + 1, n as int));
        i = i + 1;
    }
    assert(trim_front(s@.subrange(i as int, n as int)) == s@.subrange(i as int, n as int));
    let mut j: usize = n;
    while j > i && white(cs[j - 1])
        invariant
            cs@ == s@,
            n == s@.len(),
            i <= j <= n,
            trim_back(s@.subrange(i as int, n as int)) == trim_back(s@.subrange(i as int, j as int)),
        decreases j,
    {
        assert(s@.subrange(i as int, j as int).drop_last() =~= s@.subrange(i as int, j - 1));
        j = j - 1;
    }
    s.substring_char(i, j)
}

/// The string without its leading `/` characters.
pub open spec fn strip_front(s: Seq<char>) -> Seq<char>
    decreases s.len(),
{
    if s.len() > 0 && s[0] == '/' {
        strip_front(s.drop_first())
    } else {
        s
    }
}

/// The string without its trailing `/` characters.
pub open spec fn strip_back(s: Seq<char>) -> Seq<char>
    decreases s.len(),
{
    if s.len() > 0 && s.last() == '/' {
        strip_back(s.drop_last())
    } else {
        s
    }
}

/// The literal text of a keyword token: white space trimmed, then the
/// slashes around it.
pub open spec fn keyword_text(s: Seq<char>) -> Seq<char> {
    strip_back(strip_front(trimmed(s)))
}

/// Whether comparisons against `word` respect letter case.
pub open spec fn case_sensitive(word: Seq<char>, opt: CaseOption) -> bool {
    match opt {
        CaseOption::Match => true,
        CaseOption::Ignore => false,
        CaseOption::Smart => lower_of(word) != word,
    }
}

/// A string as it is compared against `word`.
pub open spec fn cased(s: Seq<char>, word: Seq<char>, opt: CaseOption) -> Seq<char> {
    if case_sensitive(word, opt) {
        s
    } else {
        lower_of(s)
    }
}

/// The candidate starts with the word, under the case option.
pub open spec fn begins_with_word(word: Seq<char>, cand: Seq<char>, opt: CaseOption) -> bool {
    is_prefix(cased(word, word, opt), cased(cand, word, opt))
}

/// The candidate holds the word (or is the word, for an exact keyword).
pub open spec fn holds_word(word: Seq<char>, exact: bool, cand: Seq<char>, opt: CaseOption) -> bool {
    if exact {
        cased(cand, word, opt) == cased(word, word, opt)
    } else {
        contains(cased(cand, word, opt), cased(word, word, opt))
    }
}

/// `s` with the slashes around it removed.
fn trim_slashes(s: &str) -> (r: String)
    ensures
        r@ == strip_back(strip_front(s@)),
{
    let cs = chars_of(s);
    let n = cs.len();
    let mut i: usize = 0;
    assert(s@.subrange(0, n as int) =~= s@);
    while i < n && cs[i] == '/'
        invariant
            cs@ == s@,
            n == s@.len(),
            i <= n,
            strip_front(s@) == strip_front(s@.subrange(i as int, n as int)),
        decreases n - i,
    {
        assert(s@.subrange(i as int, n as int).drop_first() =~= s@.subrange(i + 1, n as int));
        i = i + 1;
    }
    assert(strip_front(s@.subrange(i as int, n as int)) == s@.subrange(i as int, n as int));
    let mut j: usize = n;
    while j > i && cs[j - 1] == '/'
        invariant
            cs@ == s@,
            n == s@.len(),
            i <= j <= n,
            strip_back(s@.subrange(i as int, n as int)) == strip_back(s@.subrange(i as int, j as int)),
        decreases j,
    {
        assert(s@.subrange(i as int, j as int).drop_last() =~= s@.subrange(i as int, j - 1));
        j = j - 1;
    }
    let part = s.substring_char(i, j);
    String::from_str(part)
}

impl Keyword {
    /// A keyword whose text is `word` without surrounding white space and
    /// slashes.
    pub fn new(word: &str, exact_match: bool) -> (r: Keyword)
        ensures
            r.word@ == keyword_text(word@),
            r.exact_match == exact_match,
    {
        let t = trim_white(word);
        Keyword { exact_match, word: trim_slashes(t) }
    }

    /// Whether comparisons against this keyword respect letter case.
    fn respects_case(&self, case_options: CaseOption) -> (r: bool)
        ensures
            r == case_sensitive(self.word@, case_options),
    {
        match case_options {
            CaseOption::Match => true,
            CaseOption::Ignore => false,
            CaseOption::Smart => {
                let low = lowercase(self.word.as_str());
                !(low == self.word)
            },
        }
    }

    /// Whether the candidate begins with the keyword.
    pub fn is_at_beginning(&self, candidate: &str, case_options: &CaseOption) -> (r: bool)
        ensures
            r == begins_with_word(self.word@, candidate@, *case_options),
    {
        if self.respects_case(*case_options) {
            starts_with(&chars_of(candidate), &chars_of(self.word.as_str()))
        } else {
            let c = lowercase(candidate);
            let w = lowercase(self.word.as_str());
            starts_with(&chars_of(c.as_str()), &chars_of(w.as_str()))
        }
    }

    /// Whether the candidate holds the keyword, or is it for an exact keyword.
    pub fn is_in(&self, candidate: &str, case_options: &CaseOption) -> (r: bool)
        ensures
            r == holds_word(self.word@, self.exact_match, candidate@, *case_options),
    {
        let (c, w) = if self.respects_case(*case_options) {
            (chars_of(candidate), chars_of(self.word.as_str()))
        } else {
            let lc = lowercase(candidate);
            let lw = lowercase(self.word.as_str());
            (chars_of(lc.as_str()), chars_of(lw.as_str()))
        };
        if self.exact_match {
            same_chars(&c, &w)
        } else {
            find_in(&c, &w)
        }
    }
}

/// One condition of a query.
#[derive(Clone, Debug)]
pub enum QueryParameter {
    /// Admits only one kind of entry.
    Type(FileType),
    /// Looks at the basename.
    Keyword(Keyword),
    /// Looks at every component above the basename.
    PathKeyword(Keyword),
    /// Looks at the directory right above the basename.
    DirectParent(Keyword),
}

/// The longest path, in characters, that a score is computed for.
pub const MAX_PATH_CHARS: usize = 1048576;

/// The most parameters that a query holds.
pub const MAX_PARAMETERS: usize = 1048576;

/// A list of parameters applied in order, and how case is compared.
#[derive(Clone, Debug)]
pub struct Query {
    parameters: Vec<QueryParameter>,
    pub case_option: CaseOption,
}

/// A query together with how its results are delivered.
#[derive(Clone, Debug)]
pub struct QueryOptions {
    pub query: Query,
    pub output_format: OutputFormat,
    pub root_path: Option<String>,
    pub limit: Option<usize>,
}

pub open spec fn ends_with_slash(s: Seq<char>) -> bool {
    s.len() > 0 && s.last() == '/'
}

/// The keyword that a token describes.
pub open spec fn keyword_of_token(s: Seq<char>, k: Keyword) -> bool {
    k.word@ == keyword_text(s) && k.exact_match == ends_with_slash(s)
}

/// The parameter that a token describes.
pub open spec fn parses_to(s: Seq<char>, r: QueryParameter) -> bool {
    if s == seq!['/'] {
        r == QueryParameter::Type(FileType::DirOnly)
    } else if s == seq!['f', '/'] {
        r == QueryParameter::Type(FileType::FilesOnly)
    } else {
        match r {
            QueryParameter::DirectParent(k) => is_prefix(seq!['/', '/'], s) && keyword_of_token(s, k),
            QueryParameter::PathKeyword(k) => !is_prefix(seq!['/', '/'], s) && is_prefix(seq!['/'], s)
                && keyword_of_token(s, k),
            QueryParameter::Keyword(k) => !is_prefix(seq!['/'], s) && keyword_of_token(s, k),
            QueryParameter::Type(_) => false,
        }
    }
}

pub open spec fn is_type_param(p: QueryParameter) -> bool {
    p is Type
}

/// The parameters that are not type constraints, in order.
pub open spec fn without_types(ps: Seq<QueryParameter>) -> Seq<QueryParameter>
    decreases ps.len(),
{
    if ps.len() == 0 {
        ps
    } else if is_type_param(ps.last()) {
        without_types(ps.drop_last())
    } else {
        without_types(ps.drop_last()).push(ps.last())
    }
}

/// What one parameter does to a score: `(true, v)` ends scoring with `v`,
/// `(false, k)` adds `k`.
pub open spec fn type_effect(ft: FileType, is_dir: bool) -> (bool, int) {
    match ft {
        FileType::FilesOnly => if is_dir { (true, -8888) } else { (false, 0) },
        FileType::DirOnly => if !is_dir { (true, -8888) } else { (false, 0) },
        FileType::All => (false, 0),
    }
}

pub open spec fn keyword_effect(k: Keyword, path: Seq<char>, opt: CaseOption) -> (bool, int) {
    let b = basename(path);
    if !k.exact_match && begins_with_word(k.word@, b, opt) {
        (false, 50)
    } else if holds_word(k.word@, k.exact_match, b, opt) {
        (false, 10)
    } else {
        (true, -2222)
    }
}

/// The points of the first `j` directories, deepest first: the directory
/// at step `i` is worth `20 - 4 * i` when it holds the keyword.
pub open spec fn dir_points(k: Keyword, dirs: Seq<Seq<char>>, opt: CaseOption, j: int) -> int
    decreases j,
{
    if j <= 0 {
        0
    } else {
        dir_points(k, dirs, opt, j - 1) + if holds_word(k.word@, k.exact_match, dirs[j - 1], opt) {
            20 - 4 * (j - 1)
        } else {
            0
        }
    }
}

pub open spec fn some_dir_holds(k: Keyword, dirs: Seq<Seq<char>>, opt: CaseOption) -> bool {
    exists|j: int| 0 <= j < dirs.len() && holds_word(k.word@, k.exact_match, dirs[j], opt)
}

pub open spec fn path_effect(k: Keyword, path: Seq<char>, opt: CaseOption) -> (bool, int) {
    let d = dirs_deepest_first(path);
    if some_dir_holds(k, d, opt) {
        (false, dir_points(k, d, opt, d.len() as int))
    } else {
        (true, -5555)
    }
}

pub open spec fn parent_effect(k: Keyword, path: Seq<char>, opt: CaseOption) -> (bool, int) {
    if holds_word(k.word@, k.exact_match, parent_name(path), opt) {
        (false, 1)
    } else {
        (true, -9999)
    }
}

pub open spec fn effect(p: QueryParameter, path: Seq<char>, is_dir: bool, opt: CaseOption) -> (bool, int) {
    match p {
        QueryParameter::Type(ft) => type_effect(ft, is_dir),
        QueryParameter::Keyword(k) => keyword_effect(k, path, opt),
        QueryParameter::PathKeyword(k) => path_effect(k, path, opt),
        QueryParameter::DirectParent(k) => parent_effect(k, path, opt),
    }
}

/// The parameters applied in order: `(true, v)` when one of them ended
/// scoring with `v`, else `(false, total)`.
pub open spec fn run(ps: Seq<QueryParameter>, path: Seq<char>, is_dir: bool, opt: CaseOption) -> (bool, int)
    decreases ps.len(),
{
    if ps.len() == 0 {
        (false, 0)
    } else {
        let r = run(ps.drop_last(), path, is_dir, opt);
        let e = effect(ps.last(), path, is_dir, opt);
        if r.0 {
            r
        } else if e.0 {
            e
        } else {
            (false, r.1 + e.1)
        }
    }
}

/// The score of a candidate under a query.
pub open spec fn score(q: Query, path: Seq<char>, is_dir: bool) -> int {
    run(q.params(), path, is_dir, q.case_mode()).1
}

/// Whether a character sequence is this literal text.
fn is_text(cs: &Vec<char>, a: char, b: Option<char>) -> (r: bool)
    ensures
        r == (match b {
            Some(b) => cs@ == seq![a, b],
            None => cs@ == seq![a],
        }),
{
    match b {
        Some(b) => {
            if cs.len() == 2 && cs[0] == a && cs[1] == b {
                assert(cs@ =~= seq![a, b]);
                true
            } else {
                false
            }
        },
        None => {
            if cs.len() == 1 && cs[0] == a {
                assert(cs@ =~= seq![a]);
                true
            } else {
                false
            }
        },
    }
}

impl Query {
    /// The parameters, in the order they are applied.
    pub closed spec fn params(&self) -> Seq<QueryParameter> {
        self.parameters@
    }

    /// How case is compared.
    pub closed spec fn case_mode(&self) -> CaseOption {
        self.case_option
    }
}

impl QueryParameter {
    /// Parses one token: `/` admits directories only, `f/` files only,
    /// `//word` looks at the direct parent, `/word` at the components above
    /// the basename, and `word` at the basename; a trailing `/` asks for an
    /// exact match.
    pub fn from_str(s: &str) -> (r: QueryParameter)
        ensures
            parses_to(s@, r),
    {
        let cs = chars_of(s);
        let n = cs.len();
        let keyword = Keyword::new(s, n > 0 && cs[n - 1] == '/');
        let slash = vec!['/'];
        let two = vec!['/', '/'];
        let lead_one = starts_with(&cs, &slash);
        let lead_two = starts_with(&cs, &two);
        assert(slash@ =~= seq!['/']);
        assert(two@ =~= seq!['/', '/']);
        if is_text(&cs, '/', None) {
            QueryParameter::Type(FileType::DirOnly)
        } else if is_text(&cs, 'f', Some('/')) {
            QueryParameter::Type(FileType::FilesOnly)
        } else if lead_two {
            QueryParameter::DirectParent(keyword)
        } else if lead_one {
            QueryParameter::PathKeyword(keyword)
        } else {
            QueryParameter::Keyword(keyword)
        }
    }
}

/// The largest size of one parameter's effect on a score.
pub open spec fn effect_bound() -> int {
    0x400_0000_0000int + 0x200_0000int
}

/// Points of one directory-path keyword, walking the directories deepest first.
fn path_keyword_points(k: &Keyword, cs: &Vec<String>, opt: &CaseOption) -> (r: (bool, i64))
    requires
        cs@.len() <= MAX_PATH_CHARS + 1,
    ensures
        (r.0, r.1 as int) == path_effect_in(*k, views(cs@), *opt),
        -effect_bound() <= r.1 <= effect_bound(),
{
    let m = cs.len();
    if m == 0 {
        return (true, -5555);
    }
    let ghost dirs = dirs_of(views(cs@));
    let d = m - 1;
    let mut j: usize = 0;
    let mut sum: i64 = 0;
    let mut any = false;
    let mut backdepth: i64 = 20;
    while j < d
        invariant
            m == cs@.len(),
            d == m - 1,
            m <= MAX_PATH_CHARS + 1,
            dirs == dirs_of(views(cs@)),
            dirs.len() == d,
            j <= d,
            sum == dir_points(*k, dirs, *opt, j as int),
            backdepth == 20 - 4 * j,
            any == (exists|i: int| 0 <= i < j && holds_word(k.word@, k.exact_match, dirs[i], *opt)),
            -(j * (20 + 4 * j)) <= sum <= j * (20 + 4 * j),
        decreases d - j,
    {
        assert(dirs[j as int] == cs@[m - 2 - j]@);
        let hit = k.is_in(cs[m - 2 - j].as_str(), opt);
        if hit {
            proof {
                assert(-(j * (20 + 4 * j)) - (20 + 4 * j) >= -((j + 1) * (20 + 4 * (j + 1))))
                    by (nonlinear_arith);
                assert(j * (20 + 4 * j) + (20 + 4 * j) <= (j + 1) * (20 + 4 * (j + 1))) by (nonlinear_arith);
                assert((j + 1) * (20 + 4 * (j + 1)) <= 0x100001 * (20 + 4 * 0x100001)) by (nonlinear_arith)
                    requires j + 1 <= 0x100001;
            }
            sum = sum + backdepth;
            any = true;
        } else {
            proof {
                assert(j * (20 + 4 * j) <= (j + 1) * (20 + 4 * (j + 1))) by (nonlinear_arith);
            }
        }
        backdepth = backdepth - 4;
        j = j + 1;
    }
    proof {
        assert(d * (20 + 4 * d) <= 0x100000 * (20 + 4 * 0x100000)) by (nonlinear_arith)
            requires d <= 0x100000;
    }
    if any {
        (false, sum)
    } else {
        (true, -5555)
    }
}

/// `path_effect` read off the components.
pub open spec fn path_effect_in(k: Keyword, c: Seq<Seq<char>>, opt: CaseOption) -> (bool, int) {
    let d = dirs_of(c);
    if some_dir_holds(k, d, opt) {
        (false, dir_points(k, d, opt, d.len() as int))
    } else {
        (true, -5555)
    }
}

impl Query {
    /// An empty query that compares case smartly.
    pub fn new() -> (r: Query)
        ensures
            r.params() == Seq::<QueryParameter>::empty(),
            r.case_mode() == CaseOption::Smart,
    {
        Query { parameters: Vec::new(), case_option: CaseOption::Smart }
    }

    /// The parameters, in the order they are applied.
    pub fn parameters(&self) -> (r: &Vec<QueryParameter>)
        ensures
            r@ == self.params(),
    {
        &self.parameters
    }

    /// Sets how case is compared.
    pub fn set_case_option(&mut self, case_option: CaseOption)
        ensures
            final(self).params() == old(self).params(),
            final(self).case_mode() == case_option,
    {
        self.case_option = case_option;
    }

    /// Appends a parameter; a type constraint replaces the earlier ones.
    pub fn add_parameter(&mut self, param: QueryParameter)
        ensures
            final(self).params() == (if is_type_param(param) {
                without_types(old(self).params())
            } else {
                old(self).params()
            }).push(param),
            final(self).case_mode() == old(self).case_mode(),
    {
        if matches!(param, QueryParameter::Type(_)) {
            let mut rest: Vec<QueryParameter> = Vec::new();
            std::mem::swap(&mut rest, &mut self.parameters);
            let ghost all = rest@;
            let n = rest.len();
            let mut i: usize = 0;
            assert(all.subrange(0, 0) =~= Seq::<QueryParameter>::empty());
            while i < n
                invariant
                    n == all.len(),
                    i <= n,
                    rest@ == all.subrange(i as int, n as int),
                    self.parameters@ == without_types(all.subrange(0, i as int)),
                    self.case_option == old(self).case_option,
                decreases n - i,
            {
                let p = rest.remove(0);
                proof {
                    assert(all.subrange(0, i + 1).drop_last() =~= all.subrange(0, i as int));
                    assert(rest@ =~= all.subrange(i + 1, n as int));
                }
                if !matches!(p, QueryParameter::Type(_)) {
                    self.parameters.push(p);
                }
                i = i + 1;
            }
            assert(all.subrange(0, n as int) =~= all);
        }
        self.parameters.push(param);
    }

    /// A query built from positional tokens, each parsed and added in turn.
    pub fn from_query_elements(args: Vec<String>) -> (r: Query)
        ensures
            r.case_mode() == CaseOption::Smart,
            r.params().len() <= args@.len(),
            exists|ps: Seq<QueryParameter>|
                ps.len() == args@.len() && (forall|i: int| 0 <= i < args@.len() ==> parses_to(args@[i]@, #[trigger] ps[i]))
                    && r.params() == added_all(Seq::empty(), ps),
    {
        let mut q = Query::new();
        let mut i: usize = 0;
        let ghost mut ps: Seq<QueryParameter> = Seq::empty();
        while i < args.len()
            invariant
                i <= args@.len(),
                ps.len() == i,
                forall|j: int| 0 <= j < i ==> parses_to(args@[j]@, #[trigger] ps[j]),
                q.params() == added_all(Seq::empty(), ps),
                q.params().len() <= i,
                q.case_mode() == CaseOption::Smart,
            decreases args@.len() - i,
        {
            let p = QueryParameter::from_str(args[i].as_str());
            proof {
                lemma_without_types_len(q.params());
                assert(ps.push(p).drop_last() =~= ps);
            }
            q.add_parameter(p);
            proof {
                ps = ps.push(p);
            }
            i = i + 1;
        }
        q
    }

    /// The score of a candidate path: the parameters are applied in order;
    /// a type mismatch ends with -8888, a basename keyword that is missing
    /// with -2222, a path keyword found in no directory with -5555, and a
    /// direct-parent keyword that does not match with -9999.
    pub fn calc_score(&self, path: &str, is_dir: bool) -> (r: i64)
        requires
            path@.len() <= MAX_PATH_CHARS,
            self.params().len() <= MAX_PARAMETERS,
        ensures
            r == score(*self, path@, is_dir),
    {
        let cs = path_components(path);
        proof {
            lemma_components_len(path@);
        }
        let base = last_name_of(&cs);
        let above = above_name_of(&cs);
        let opt = &self.case_option;
        let n = self.parameters.len();
        let mut i: usize = 0;
        let mut total: i64 = 0;
        let ghost ps = self.params();
        assert(ps.subrange(0, 0) =~= Seq::<QueryParameter>::empty());
        while i < n
            invariant
                n == ps.len(),
                ps == self.parameters@,
                *opt == self.case_option,
                n <= MAX_PARAMETERS,
                i <= n,
                views(cs@) == components(path@),
                cs@.len() <= MAX_PATH_CHARS + 1,
                base@ == basename(path@),
                above@ == parent_name(path@),
                run(ps.subrange(0, i as int), path@, is_dir, *opt) == (false, total as int),
                -(i * effect_bound()) <= total <= i * effect_bound(),
            decreases n - i,
        {
            let ghost pre = ps.subrange(0, i as int);
            let ghost pre1 = ps.subrange(0, i + 1);
            proof {
                assert(pre1.drop_last() =~= pre);
                assert(pre1.last() == ps[i as int]);
            }
            let step: (bool, i64) = match &self.parameters[i] {
                QueryParameter::Type(ft) => {
                    match ft {
                        FileType::FilesOnly => if is_dir { (true, -8888) } else { (false, 0) },
                        FileType::DirOnly => if !is_dir { (true, -8888) } else { (false, 0) },
                        FileType::All => (false, 0),
                    }
                },
                QueryParameter::Keyword(k) => {
                    if !k.exact_match && k.is_at_beginning(base, opt) {
                        (false, 50)
                    } else if k.is_in(base, opt) {
                        (false, 10)
                    } else {
                        (true, -2222)
                    }
                },
                QueryParameter::PathKeyword(k) => path_keyword_points(k, &cs, opt),
                QueryParameter::DirectParent(k) => {
                    if k.is_in(above, opt) {
                        (false, 1)
                    } else {
                        (true, -9999)
                    }
                },
            };
            assert((step.0, step.1 as int) == effect(ps[i as int], path@, is_dir, *opt));
            if step.0 {
                proof {
                    lemma_run_stops(ps, i as int, path@, is_dir, *opt);
                    assert(*opt == self.case_mode());
                    assert(run(ps, path@, is_dir, *opt).1 == step.1 as int);
                }
                return step.1;
            }
            proof {
                assert(i * effect_bound() + effect_bound() == (i + 1) * effect_bound()) by (nonlinear_arith);
                assert((i + 1) * effect_bound() <= 0x100000 * effect_bound()) by (nonlinear_arith)
                    requires i + 1 <= 0x100000;
            }
            total = total + step.1;
            i = i + 1;
        }
        assert(ps.subrange(0, n as int) =~= ps);
        total
    }
}

/// The parameters after each of `ps` was added in turn to `start`.
pub open spec fn added_all(start: Seq<QueryParameter>, ps: Seq<QueryParameter>) -> Seq<QueryParameter>
    decreases ps.len(),
{
    if ps.len() == 0 {
        start
    } else {
        let before = added_all(start, ps.drop_last());
        if is_type_param(ps.last()) {
            without_types(before).push(ps.last())
        } else {
            before.push(ps.last())
        }
    }
}

proof fn lemma_without_types_len(ps: Seq<QueryParameter>)
    ensures
        without_types(ps).len() <= ps.len(),
    decreases ps.len(),
{
    if ps.len() > 0 {
        lemma_without_types_len(ps.drop_last());
    }
}

/// Once a parameter ends scoring, the rest do not matter.
proof fn lemma_run_stops(ps: Seq<QueryParameter>, i: int, path: Seq<char>, is_dir: bool, opt: CaseOption)
    requires
        0 <= i < ps.len(),
        run(ps.subrange(0, i), path, is_dir, opt).0 == false,
        effect(ps[i], path, is_dir, opt).0,
    ensures
        run(ps, path, is_dir, opt) == effect(ps[i], path, is_dir, opt),
    decreases ps.len() - i,
{
    if i + 1 == ps.len() {
        assert(ps.drop_last() =~= ps.subrange(0, i));
    } else {
        assert(ps.drop_last().subrange(0, i) =~= ps.subrange(0, i));
        lemma_run_stops(ps.drop_last(), i, path, is_dir, opt);
    }
}

/// A query without parameters gives every candidate the score 0.
pub proof fn lemma_no_parameters_scores_zero(q: Query, path: Seq<char>, is_dir: bool)
    requires
        q.params().len() == 0,
    ensures
        score(q, path, is_dir) == 0,
{
}

/// A type constraint that the candidate does not meet gives -8888, when no
/// parameter before it has already ended scoring.
pub proof fn lemma_type_mismatch_scores_sentinel(q: Query, i: int, path: Seq<char>, is_dir: bool)
    requires
        0 <= i < q.params().len(),
        q.params()[i] == QueryParameter::Type(FileType::FilesOnly) && is_dir
            || q.params()[i] == QueryParameter::Type(FileType::DirOnly) && !is_dir,
        !run(q.params().subrange(0, i), path, is_dir, q.case_mode()).0,
    ensures
        score(q, path, is_dir) == -8888,
{
    lemma_run_stops(q.params(), i, path, is_dir, q.case_mode());
}

impl Default for Query {
    fn default() -> (r: Query)
        ensures
            r.params() == Seq::<QueryParameter>::empty(),
            r.case_mode() == CaseOption::Smart,
    {
        Query::new()
    }
}

impl Default for QueryOptions {
    fn default() -> (r: QueryOptions)
        ensures
            r.query.params() == Seq::<QueryParameter>::empty(),
            r.query.case_mode() == CaseOption::Smart,
            r.output_format == OutputFormat::Json,
            r.root_path is None,
            r.limit is None,
    {
        QueryOptions { query: Query::new(), output_format: OutputFormat::Json, root_path: None, limit: None }
    }
}

impl QueryOptions {
    /// Default options whose query holds the one parameter that `s` parses to.
    pub fn from_str(s: &str) -> (r: QueryOptions)
        ensures
            r.query.params().len() == 1,
            parses_to(s@, r.query.params()[0]),
            r.query.case_mode() == CaseOption::Smart,
            r.output_format == OutputFormat::Json,
            r.root_path is None,
            r.limit is None,
    {
        let mut query = Query::new();
        let p = QueryParameter::from_str(s);
        query.add_parameter(p);
        proof {
            assert(without_types(Seq::<QueryParameter>::empty()) =~= Seq::<QueryParameter>::empty());
        }
        QueryOptions { query, output_format: OutputFormat::Json, root_path: None, limit: None }
    }
}

} // verus!
