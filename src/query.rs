//! The query: a positive pattern, exclusion patterns and a level mask, and the
//! parser of the query line typed by the user.

use vstd::prelude::*;
use vstd::string::*;
use crate::level::{Level, LevelMask};
use crate::message::Message;
use crate::text::chars_of;

verus! {

#[verifier::external_type_specification]
#[verifier::external_body]
pub struct ExRegex(regex::Regex);

/// Whether `regex::Regex::new` accepts `pattern`.
pub uninterp spec fn regex_compiles(pattern: Seq<char>) -> bool;

/// Whether the regex compiled from `pattern` matches somewhere in `text`.
pub uninterp spec fn regex_matches(pattern: Seq<char>, text: Seq<char>) -> bool;

/// A compiled regular expression together with the text it was compiled
/// from.
pub struct Pattern {
    source: String,
    re: regex::Regex,
}

impl Pattern {
    /// The text the pattern was compiled from.
    pub closed spec fn text(self) -> Seq<char> {
        self.source@
    }

    /// Relies on `regex::Regex::new`: it accepts or refuses a pattern by the
    /// pattern alone.
    #[verifier::external_body]
    fn compile(pattern: String) -> (r: Option<Pattern>)
        ensures
            r is Some <==> regex_compiles(pattern@),
            r matches Some(p) ==> p.text() == pattern@,
    {
        match regex::Regex::new(pattern.as_str()) {
            Ok(re) => Some(Pattern { source: pattern, re }),
            Err(_) => None,
        }
    }

    /// Relies on `regex::Regex::is_match`: whether the regex matches somewhere
    /// in `text` depends on the pattern and the text alone.
    #[verifier::external_body]
    fn is_match(&self, text: &str) -> (r: bool)
        ensures
            r == regex_matches(self.text(), text@),
    {
        self.re.is_match(text)
    }
}

/// A filter as a value: `None` matches every text (it stands for `.*`).
pub open spec fn filter_matches(f: Option<Seq<char>>, text: Seq<char>) -> bool {
    match f {
        None => true,
        Some(p) => regex_matches(p, text),
    }
}

/// What the user's text `s` is compiled as: `.*s.*`.
pub open spec fn wrapped(s: Seq<char>) -> Seq<char> {
    ".*"@ + s + ".*"@
}

/// The filter made from the user's text `s`: `.*s.*` when it compiles, else
/// the filter that matches everything.
pub open spec fn compiled_filter(s: Seq<char>) -> Option<Seq<char>> {
    if regex_compiles(wrapped(s)) {
        Some(wrapped(s))
    } else {
        None
    }
}

/// A query as a value.
pub struct QueryModel {
    pub positive: Option<Seq<char>>,
    pub negative: Seq<Option<Seq<char>>>,
    pub mask: LevelMask,
}

/// Whether a record's text passes the query's patterns: the positive one
/// matches and no negative one does. (The level mask is applied when buckets
/// are chosen.)
pub open spec fn passes(q: QueryModel, m: Message) -> bool {
    &&& filter_matches(q.positive, m.value@)
    &&& !exists|i: int| 0 <= i < q.negative.len() && filter_matches(#[trigger] q.negative[i], m.value@)
}

pub open spec fn pattern_filter(p: Option<Pattern>) -> Option<Seq<char>> {
    match p {
        None => None,
        Some(p) => Some(p.text()),
    }
}

/// The positive pattern, the negative patterns and the level mask.
pub struct Query {
    positive: Option<Pattern>,
    negative: Vec<Option<Pattern>>,
    mask: LevelMask,
}

impl View for Query {
    type V = QueryModel;

    closed spec fn view(&self) -> QueryModel {
        QueryModel {
            positive: pattern_filter(self.positive),
            negative: self.negative@.map_values(|p: Option<Pattern>| pattern_filter(p)),
            mask: self.mask,
        }
    }
}

/// Compiles the user's text `s` as `.*s.*`, or gives the filter that matches
/// everything when that does not compile.
fn compile_filter(s: &str) -> (r: Option<Pattern>)
    ensures
        pattern_filter(r) == compiled_filter(s@),
{
    let mut p = String::from_str(".*");
    p.append(s);
    p.append(".*");
    Pattern::compile(p)
}

impl Query {
    /// The query that passes every record and shows every level.
    pub fn new() -> (r: Query)
        ensures
            r@.positive is None,
            r@.negative.len() == 0,
            forall|l: Level| r@.mask.shows(l),
    {
        let r = Query { positive: None, negative: Vec::new(), mask: LevelMask::all() };
        r
    }

    /// Replaces the positive pattern with the one made from `s`.
    pub fn set_filter(&mut self, s: &str)
        ensures
            final(self)@ == (QueryModel { positive: compiled_filter(s@), ..old(self)@ }),
    {
        self.positive = compile_filter(s);
    }

    /// Replaces the negative patterns with those made from `list`, in order.
    pub fn set_exclusions(&mut self, list: &Vec<String>)
        ensures
            final(self)@ == (QueryModel {
                negative: list@.map_values(|s: String| compiled_filter(s@)),
                ..old(self)@
            }),
    {
        let mut out: Vec<Option<Pattern>> = Vec::new();
        let mut i: usize = 0;
        while i < list.len()
            invariant
                i <= list.len(),
                out.len() == i,
                out@.map_values(|p: Option<Pattern>| pattern_filter(p)) =~= list@.subrange(0, i as int).map_values(
                    |s: String| compiled_filter(s@),
                ),
            decreases list.len() - i,
        {
            let f = compile_filter(list[i].as_str());
            let ghost before = out@;
            out.push(f);
            proof {
                let got = out@.map_values(|p: Option<Pattern>| pattern_filter(p));
                let want = list@.subrange(0, i + 1).map_values(|s: String| compiled_filter(s@));
                assert forall|k: int| 0 <= k < i + 1 implies got[k] == want[k] by {
                    if k < i {
                        assert(out@[k] == before[k]);
                        assert(before.map_values(|p: Option<Pattern>| pattern_filter(p))[k]
                            == list@.subrange(0, i as int).map_values(|s: String| compiled_filter(s@))[k]);
                    }
                }
                assert(got =~= want);
            }
            i = i + 1;
        }
        assert(list@.subrange(0, list.len() as int) =~= list@);
        self.negative = out;
    }

    /// Switches level `l` on or off.
    pub fn toggle_level(&mut self, l: Level)
        ensures
            final(self)@ == (QueryModel { mask: old(self)@.mask.toggled(l), ..old(self)@ }),
    {
        self.mask.toggle(l);
    }

    /// The levels shown.
    pub fn mask(&self) -> (r: LevelMask)
        ensures
            r == self@.mask,
    {
        self.mask
    }

    /// Whether `m`'s text passes the patterns.
    pub fn matches(&self, m: &Message) -> (r: bool)
        ensures
            r == passes(self@, *m),
    {
        let text = m.value.as_str();
        let pos = match &self.positive {
            None => true,
            Some(p) => p.is_match(text),
        };
        if !pos {
            return false;
        }
        let mut i: usize = 0;
        while i < self.negative.len()
            invariant
                i <= self.negative.len(),
                text@ == m.value@,
                forall|k: int| 0 <= k < i ==> !filter_matches(#[trigger] self@.negative[k], m.value@),
            decreases self.negative.len() - i,
        {
            let hit = match &self.negative[i] {
                None => true,
                Some(p) => p.is_match(text),
            };
            if hit {
                assert(filter_matches(self@.negative[i as int], m.value@));
                return false;
            }
            i = i + 1;
        }
        true
    }
}

/// The pieces of `s` between single spaces, as `str::split(" ")` gives them.
pub open spec fn split_spaces(s: Seq<char>) -> Seq<Seq<char>>
    decreases s.len(),
{
    if s.len() == 0 {
        seq![Seq::empty()]
    } else {
        let t = split_spaces(s.drop_last());
        if s.last() == ' ' {
            t.push(Seq::empty())
        } else {
            t.update(t.len() - 1, t.last().push(s.last()))
        }
    }
}

/// A token that excludes: `!` followed by at least one character.
pub open spec fn is_exclusion(t: Seq<char>) -> bool {
    t.len() > 1 && t[0] == '!'
}

/// A token that belongs to the positive pattern: any that does not exclude.
pub open spec fn is_inclusion(t: Seq<char>) -> bool {
    !is_exclusion(t)
}

pub open spec fn inclusions(ts: Seq<Seq<char>>) -> Seq<Seq<char>>
    decreases ts.len(),
{
    if ts.len() == 0 {
        Seq::empty()
    } else if is_inclusion(ts.last()) {
        inclusions(ts.drop_last()).push(ts.last())
    } else {
        inclusions(ts.drop_last())
    }
}

/// The exclusion tokens, each without its `!`.
pub open spec fn exclusions(ts: Seq<Seq<char>>) -> Seq<Seq<char>>
    decreases ts.len(),
{
    if ts.len() == 0 {
        Seq::empty()
    } else if is_exclusion(ts.last()) {
        exclusions(ts.drop_last()).push(ts.last().drop_first())
    } else {
        exclusions(ts.drop_last())
    }
}

/// The tokens joined with single spaces.
pub open spec fn join_spaces(ts: Seq<Seq<char>>) -> Seq<char>
    decreases ts.len(),
{
    if ts.len() == 0 {
        Seq::empty()
    } else if ts.len() == 1 {
        ts[0]
    } else {
        join_spaces(ts.drop_last()) + seq![' '] + ts.last()
    }
}

/// The query line split into the positive pattern's text and the texts of the
/// exclusions.
pub struct QueryText {
    pub positive: String,
    pub negatives: Vec<String>,
}

/// Splits the query line on spaces: each token `!x` with `x` not empty
/// excludes `x`; every other token (a lone `!` too) is joined again with
/// single spaces into the positive pattern's text.
pub fn parse_query(input: &str) -> (r: QueryText)
    ensures
        r.positive@ == join_spaces(inclusions(split_spaces(input@))),
        r.negatives@.map_values(|s: String| s@) == exclusions(split_spaces(input@)),
{
    let cs = chars_of(input);
    let mut positive = String::new();
    let mut negatives: Vec<String> = Vec::new();
    let mut any = false;
    let mut start: usize = 0;
    let mut i: usize = 0;
    proof {
        assert(input@.subrange(0, 0) =~= Seq::<char>::empty());
        assert(split_spaces(input@.subrange(0, 0)).drop_last() =~= Seq::<Seq<char>>::empty());
        assert(negatives@.map_values(|s: String| s@) =~= Seq::<Seq<char>>::empty());
    }
    while i < cs.len()
        invariant
            cs@ == input@,
            start <= i <= cs.len(),
            split_spaces(input@.subrange(0, i as int)).last() == input@.subrange(start as int, i as int),
            any == (inclusions(split_spaces(input@.subrange(0, i as int)).drop_last()).len() > 0),
            positive@ == join_spaces(inclusions(split_spaces(input@.subrange(0, i as int)).drop_last())),
            negatives@.map_values(|s: String| s@) == exclusions(
                split_spaces(input@.subrange(0, i as int)).drop_last(),
            ),
        decreases cs.len() - i,
    {
        let ghost prefix = input@.subrange(0, i as int);
        let ghost toks = split_spaces(prefix);
        let ghost next = input@.subrange(0, i + 1);
        proof {
            lemma_split_nonempty(prefix);
            assert(next.drop_last() =~= prefix);
            assert(next.last() == cs@[i as int]);
        }
        if cs[i] == ' ' {
            let tok = input.substring_char(start, i);
            take_token(tok, &mut positive, &mut negatives, &mut any, Ghost(toks.drop_last()));
            proof {
                assert(toks.drop_last().push(toks.last()) =~= toks);
                assert(split_spaces(next) == toks.push(Seq::<char>::empty()));
                assert(split_spaces(next).drop_last() =~= toks);
                assert(input@.subrange((i + 1) as int, (i + 1) as int) =~= Seq::<char>::empty());
            }
            start = i + 1;
        } else {
            proof {
                assert(split_spaces(next).drop_last() =~= toks.drop_last());
                assert(input@.subrange(start as int, i + 1) =~= input@.subrange(start as int, i as int).push(
                    cs@[i as int],
                ));
            }
        }
        i = i + 1;
    }
    let tok = input.substring_char(start, i);
    proof {
        let toks = split_spaces(input@.subrange(0, i as int));
        lemma_split_nonempty(input@.subrange(0, i as int));
        assert(input@.subrange(0, i as int) =~= input@);
        assert(toks.drop_last().push(toks.last()) =~= toks);
    }
    take_token(tok, &mut positive, &mut negatives, &mut any, Ghost(split_spaces(input@).drop_last()));
    QueryText { positive, negatives }
}

/// Adds one token of the query line to what the tokens before it gave.
fn take_token(
    tok: &str,
    positive: &mut String,
    negatives: &mut Vec<String>,
    any: &mut bool,
    Ghost(done): Ghost<Seq<Seq<char>>>,
)
    requires
        old(positive)@ == join_spaces(inclusions(done)),
        old(negatives)@.map_values(|s: String| s@) == exclusions(done),
        *old(any) == (inclusions(done).len() > 0),
    ensures
        final(positive)@ == join_spaces(inclusions(done.push(tok@))),
        final(negatives)@.map_values(|s: String| s@) == exclusions(done.push(tok@)),
        *final(any) == (inclusions(done.push(tok@)).len() > 0),
{
    let toks = Ghost(done.push(tok@));
    proof {
        assert(toks@.drop_last() =~= done);
        assert(toks@.last() == tok@);
    }
    let n = tok.unicode_len();
    let bang = n > 1 && tok.get_char(0) == '!';
    if !bang {
        if *any {
            positive.append(" ");
        }
        positive.append(tok);
        *any = true;
        proof {
            reveal_strlit(" ");
            let inc = inclusions(done);
            assert(inclusions(toks@) == inc.push(tok@));
            assert(inc.push(tok@).drop_last() =~= inc);
            if inc.len() == 0 {
                assert(positive@ =~= tok@);
            } else {
                assert(positive@ =~= join_spaces(inc) + seq![' '] + tok@);
            }
        }
    } else {
        let rest = tok.substring_char(1, n);
        let owned = String::from_str(rest);
        let ghost before = negatives@;
        negatives.push(owned);
        proof {
            assert(tok@.drop_first() =~= rest@);
            assert(exclusions(toks@) == exclusions(done).push(rest@));
            assert(negatives@.map_values(|s: String| s@) =~= before.map_values(|s: String| s@).push(
                rest@,
            ));
        }
    }
}

proof fn lemma_split_nonempty(s: Seq<char>)
    ensures
        split_spaces(s).len() > 0,
    decreases s.len(),
{
    if s.len() > 0 {
        lemma_split_nonempty(s.drop_last());
    }
}

} // verus!
