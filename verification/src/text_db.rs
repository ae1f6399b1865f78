//! Text database: owns the bounded corpus and derives the token sequence
//! and the context map from it. The corpus is append-only up to a fixed
//! size ceiling; an append that would overflow the ceiling cuts the corpus
//! from the front, at a whitespace boundary when one exists, so that no
//! word is split at the new start.

use crate::context_map::context_map_of;
use crate::context_map::context_map_upto;
use crate::context_map::ContextMap;
use crate::tokenizer::is_space;
use crate::tokenizer::tokenize_chars;
use crate::tokenizer::tokenize_text;
use crate::tokenizer::str_to_chars;
use crate::tokenizer::Token;
use vstd::prelude::*;

verus! {

/// The ceiling on the corpus length, in characters.
pub const LENGTH_LIMIT: usize = 524288;

/// Whether some character of `s[from..to)` is whitespace.
pub open spec fn has_space_in(s: Seq<char>, from: int, to: int) -> bool {
    exists|k: int| from <= k < to && is_space(s[k])
}

/// The position of the first whitespace character at or after `from`, or
/// the text's length if there is none.
pub open spec fn first_space_from(s: Seq<char>, from: int) -> int
    decreases s.len() - from,
{
    if from >= s.len() {
        s.len() as int
    } else if is_space(s[from]) {
        from
    } else {
        first_space_from(s, from + 1)
    }
}

/// The corpus kept after an append. Text within the ceiling is kept whole.
/// Longer text is cut from the front: at the first whitespace character at
/// or after the overflow point, so that the kept text starts at a
/// whitespace boundary, or exactly at the overflow point when no
/// whitespace follows it.
pub open spec fn truncate_text(s: Seq<char>) -> Seq<char> {
    if s.len() <= LENGTH_LIMIT {
        s
    } else {
        let cut = s.len() - LENGTH_LIMIT;
        let w = first_space_from(s, cut);
        if w < s.len() {
            s.skip(w)
        } else {
            s.skip(cut)
        }
    }
}

proof fn lemma_first_space_props(s: Seq<char>, from: int)
    requires
        0 <= from <= s.len(),
    ensures
        from <= first_space_from(s, from) <= s.len(),
        first_space_from(s, from) < s.len() ==> is_space(s[first_space_from(s, from)]),
        forall|k: int| from <= k < first_space_from(s, from) ==> !is_space(s[k]),
    decreases s.len() - from,
{
    if from >= s.len() {
    } else if is_space(s[from]) {
    } else {
        lemma_first_space_props(s, from + 1);
    }
}

proof fn lemma_first_space_is(s: Seq<char>, from: int, w: int)
    requires
        0 <= from <= w <= s.len(),
        forall|k: int| from <= k < w ==> !is_space(s[k]),
        w < s.len() ==> is_space(s[w]),
    ensures
        first_space_from(s, from) == w,
    decreases w - from,
{
    if from == w {
    } else {
        assert(!is_space(s[from]));
        lemma_first_space_is(s, from + 1, w);
    }
}

/// The truncation policy keeps the corpus within the ceiling, keeps short
/// text whole, and cuts long text at a whitespace boundary whenever the
/// truncated region has one.
pub proof fn lemma_truncate_bounds(s: Seq<char>)
    ensures
        truncate_text(s).len() <= LENGTH_LIMIT,
        s.len() <= LENGTH_LIMIT ==> truncate_text(s) == s,
        s.len() > LENGTH_LIMIT ==> (if has_space_in(s, s.len() - LENGTH_LIMIT, s.len() as int) {
            truncate_text(s).len() > 0 && is_space(truncate_text(s)[0])
        } else {
            truncate_text(s) == s.skip(s.len() - LENGTH_LIMIT)
        }),
{
    if s.len() > LENGTH_LIMIT {
        let cut = s.len() - LENGTH_LIMIT;
        lemma_first_space_props(s, cut);
        let w = first_space_from(s, cut);
        if w < s.len() {
            assert(has_space_in(s, cut, s.len() as int));
        } else {
            assert(!has_space_in(s, cut, s.len() as int));
        }
    }
}

/// The characters `cs[from..]`, gathered into a new vector.
fn chars_suffix(cs: &Vec<char>, from: usize) -> (r: Vec<char>)
    requires
        from <= cs@.len(),
    ensures
        r@ == cs@.skip(from as int),
{
    let mut r: Vec<char> = Vec::new();
    let mut k = from;
    while k < cs.len()
        invariant
            from <= k <= cs@.len(),
            r@ == cs@.subrange(from as int, k as int),
        decreases cs@.len() - k,
    {
        r.push(cs[k]);
        k += 1;
        proof {
            assert(r@ =~= cs@.subrange(from as int, k as int));
        }
    }
    proof {
        assert(r@ =~= cs@.skip(from as int));
    }
    r
}

/// Applies the truncation policy to a character vector.
fn truncate_chars(cs: Vec<char>) -> (r: Vec<char>)
    ensures
        r@ == truncate_text(cs@),
{
    if cs.len() <= LENGTH_LIMIT {
        return cs;
    }
    let n = cs.len();
    let cut = n - LENGTH_LIMIT;
    let mut w = cut;
    while w < n
        invariant
            n == cs@.len(),
            n > LENGTH_LIMIT,
            cut == n - LENGTH_LIMIT,
            cut <= w <= n,
            forall|k: int| cut <= k < w ==> !is_space(cs@[k]),
        decreases n - w,
    {
        if is_space_at(&cs, w) {
            proof {
                lemma_first_space_is(cs@, cut as int, w as int);
            }
            return chars_suffix(&cs, w);
        }
        w += 1;
    }
    proof {
        lemma_first_space_is(cs@, cut as int, n as int);
    }
    chars_suffix(&cs, cut)
}

fn is_space_at(cs: &Vec<char>, k: usize) -> (r: bool)
    requires
        k < cs@.len(),
    ensures
        r == is_space(cs@[k as int]),
{
    let u = cs[k] as u32;
    u == 32 || u == 9 || u == 10 || u == 13
}

/// The bounded reference text together with the window size used to
/// index it.
pub struct TextDB {
    source: Vec<char>,
    context_size: usize,
}

impl View for TextDB {
    type V = Seq<char>;

    closed spec fn view(&self) -> Seq<char> {
        self.source@
    }
}

impl TextDB {
    /// The number of tokens in a context window.
    pub closed spec fn spec_context_size(&self) -> usize {
        self.context_size
    }

    /// The window size currently in force.
    pub fn context_size(&self) -> (r: usize)
        ensures
            r == self.spec_context_size(),
    {
        self.context_size
    }

    /// The corpus respects the ceiling and the window size is positive.
    pub open spec fn wf(&self) -> bool {
        self@.len() <= LENGTH_LIMIT && self.spec_context_size() >= 1
    }

    /// A database over `src`: the text, truncated to the ceiling.
    pub fn new(src: String, context_size: usize) -> (r: Self)
        requires
            context_size >= 1,
        ensures
            r@ == truncate_text(src@),
            r.spec_context_size() == context_size,
            r.wf(),
    {
        let cs = str_to_chars(src.as_str());
        let cs = truncate_chars(cs);
        proof {
            lemma_truncate_bounds(src@);
        }
        TextDB { source: cs, context_size }
    }

    /// Appends a fragment to the corpus, re-applies the truncation policy,
    /// and adopts the given window size. Never fails.
    pub fn update(&mut self, fragment: &str, context_size: usize)
        requires
            context_size >= 1,
        ensures
            final(self)@ == truncate_text(old(self)@ + fragment@),
            final(self).spec_context_size() == context_size,
            final(self).wf(),
    {
        let mut joined = chars_suffix(&self.source, 0);
        proof {
            assert(joined@ =~= self.source@);
        }
        let mut frag = str_to_chars(fragment);
        joined.append(&mut frag);
        let cs = truncate_chars(joined);
        proof {
            lemma_truncate_bounds(old(self)@ + fragment@);
        }
        self.source = cs;
        self.context_size = context_size;
    }

    /// The token sequence of the current corpus.
    pub fn get_tokens(&self) -> (r: Vec<Token>)
        ensures
            r.deep_view() == tokenize_text(self@),
    {
        tokenize_chars(&self.source)
    }

    /// The context map of the current corpus for the current window size:
    /// every full window followed by one more token maps to its observed
    /// successors, duplicates kept.
    pub fn get_context_map(&self) -> (r: ContextMap)
        ensures
            r@ == context_map_of(tokenize_text(self@), self.spec_context_size() as nat),
            r.wf(),
    {
        let tokens = self.get_tokens();
        let ghost tv = tokens.deep_view();
        let n = self.context_size;
        let mut map = ContextMap::new();
        if tokens.len() <= n {
            return map;
        }
        let mut i: usize = 0;
        while i + n < tokens.len()
            invariant
                n < tokens@.len(),
                tokens@.len() <= usize::MAX,
                i <= tokens@.len() - n,
                tv == tokens.deep_view(),
                map.wf(),
                map@ == context_map_upto(tv, n as nat, i as int),
            decreases tokens@.len() - n - i,
        {
            let key = clone_window(&tokens, i, n);
            let succ = tokens[i + n].clone();
            map.insert_successor(key, succ);
            proof {
                assert(tv[i as int + n as int] == tokens@[i as int + n as int].deep_view());
                assert(map@ == context_map_upto(tv, n as nat, i as int + 1));
            }
            i += 1;
        }
        map
    }
}

/// The tokens `tokens[i..i+n]`, cloned into a new vector: one context
/// window as a map key.
fn clone_window(tokens: &Vec<Token>, i: usize, n: usize) -> (r: Vec<Token>)
    requires
        i + n <= tokens@.len(),
    ensures
        r.deep_view() == tokens.deep_view().subrange(i as int, i as int + n as int),
{
    let total = tokens.len();
    let mut r: Vec<Token> = Vec::new();
    let mut k: usize = 0;
    proof {
        assert(total == tokens@.len());
        assert(r.deep_view() =~= tokens.deep_view().subrange(i as int, i as int));
    }
    while k < n
        invariant
            i + n <= tokens@.len(),
            tokens@.len() <= usize::MAX,
            k <= n,
            r.deep_view() == tokens.deep_view().subrange(i as int, i as int + k as int),
        decreases n - k,
    {
        let ghost pre = r.deep_view();
        let ghost prev_raw = r@;
        let tok = tokens[i + k].clone();
        let ghost tok_view = tok@;
        r.push(tok);
        k += 1;
        proof {
            assert forall|m: int| 0 <= m < r.deep_view().len() implies r.deep_view()[m]
                == pre.push(tok_view)[m] by {
                if m < pre.len() {
                    assert(r@[m] == prev_raw[m]);
                }
            }
            assert(r.deep_view() =~= pre.push(tok_view));
            assert(tokens.deep_view()[i as int + k as int - 1] == tokens@[i as int + k as int
                - 1].deep_view());
            assert(r.deep_view() =~= tokens.deep_view().subrange(i as int, i as int + k as int));
        }
    }
    r
}

} // verus!
