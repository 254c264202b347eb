//! Glob patterns over root-relative paths: literal bytes, `*` for any
//! run of bytes within one segment, `**` for any run of whole
//! segments. A set of patterns combines with OR semantics to decide
//! whether a path is ignored.

use vstd::prelude::*;

verus! {

/// One unit of a single-segment pattern: a literal byte or a `*`
/// that stands for any run of bytes without a separator.
#[derive(Clone, Copy, Debug, PartialEq, Eq, Structural)]
pub enum Token {
    Lit(u8),
    Star,
}

/// One compiled pattern segment: `**`, or a run of tokens matched
/// against exactly one path segment.
#[derive(Clone, Debug)]
pub enum Segment {
    AnyDepth,
    Single(Vec<Token>),
}

/// A compiled pattern: the `/`-separated segments of its source text.
#[derive(Clone, Debug)]
pub struct Pattern {
    pub segs: Vec<Segment>,
}

/// A set of ignore patterns; a path matching any of them is ignored.
#[derive(Clone, Debug)]
pub struct GlobSet {
    pub patterns: Vec<Pattern>,
}

/// Token-level matching of one path segment: `*` may swallow any run
/// of bytes, a literal must meet itself.
pub open spec fn seg_matches(toks: Seq<Token>, s: Seq<u8>) -> bool
    decreases toks.len(), s.len(),
{
    if toks.len() == 0 {
        s.len() == 0
    } else {
        match toks[0] {
            Token::Star => seg_matches(toks.drop_first(), s) || (s.len() > 0 && seg_matches(
                toks,
                s.drop_first(),
            )),
            Token::Lit(c) => s.len() > 0 && s[0] == c && seg_matches(
                toks.drop_first(),
                s.drop_first(),
            ),
        }
    }
}

/// Segment-level matching of a whole path: `**` may swallow any run
/// of segments, any other pattern segment must match exactly one.
pub open spec fn segs_match(pat: Seq<Segment>, parts: Seq<Seq<u8>>) -> bool
    decreases pat.len(), parts.len(),
{
    if pat.len() == 0 {
        parts.len() == 0
    } else {
        match pat[0] {
            Segment::AnyDepth => segs_match(pat.drop_first(), parts) || (parts.len() > 0
                && segs_match(pat, parts.drop_first())),
            Segment::Single(toks) => parts.len() > 0 && seg_matches(toks@, parts[0]) && segs_match(
                pat.drop_first(),
                parts.drop_first(),
            ),
        }
    }
}

/// Splitting a byte string on `/`: the empty string is one empty
/// segment, and every separator opens a new one.
pub open spec fn spec_split(s: Seq<u8>) -> Seq<Seq<u8>>
    decreases s.len(),
{
    if s.len() == 0 {
        seq![Seq::empty()]
    } else if s[0] == 47u8 {
        seq![Seq::<u8>::empty()] + spec_split(s.drop_first())
    } else {
        let rest = spec_split(s.drop_first());
        seq![seq![s[0]] + rest[0]] + rest.drop_first()
    }
}

pub proof fn lemma_split_nonempty(s: Seq<u8>)
    ensures
        spec_split(s).len() >= 1,
    decreases s.len(),
{
    if s.len() > 0 {
        lemma_split_nonempty(s.drop_first());
    }
}

/// A compiled pattern segment reflects its source text: `**` compiles
/// to the any-depth marker, anything else to its tokens, byte for
/// byte.
pub open spec fn seg_compiled_from(seg: Segment, src: Seq<u8>) -> bool {
    if src == seq![42u8, 42u8] {
        seg == Segment::AnyDepth
    } else {
        match seg {
            Segment::AnyDepth => false,
            Segment::Single(toks) => toks@.len() == src.len() && forall|i: int|
                0 <= i < src.len() ==> toks@[i] == (if src[i] == 42u8 {
                    Token::Star
                } else {
                    Token::Lit(src[i])
                }),
        }
    }
}

/// A compiled pattern reflects its source text, segment by segment.
pub open spec fn compiled_from(segs: Seq<Segment>, src: Seq<u8>) -> bool {
    &&& segs.len() == spec_split(src).len()
    &&& forall|i: int|
        0 <= i < segs.len() ==> seg_compiled_from(#[trigger] segs[i], spec_split(src)[i])
}

/// A path is ignored by a set when some pattern of the set matches
/// its split form.
pub open spec fn spec_ignored(patterns: Seq<Pattern>, path: Seq<u8>) -> bool {
    exists|i: int| 0 <= i < patterns.len() && segs_match(#[trigger] patterns[i].segs@, spec_split(path))
}

/// Splits a relative path on `/`.
pub fn split_path(path: &Vec<u8>, from: usize) -> (r: Vec<Vec<u8>>)
    requires
        from <= path@.len(),
    ensures
        r@.map_values(|v: Vec<u8>| v@) == spec_split(path@.skip(from as int)),
    decreases path@.len() - from,
{
    let ghost tail = path@.skip(from as int);
    if from == path.len() {
        let mut r: Vec<Vec<u8>> = Vec::new();
        r.push(Vec::new());
        proof {
            assert(tail =~= Seq::<u8>::empty());
            assert(r@.map_values(|v: Vec<u8>| v@) =~= spec_split(tail));
        }
        r
    } else if path[from] == 47u8 {
        let mut r = split_path(path, from + 1);
        let ghost sub = r@.map_values(|v: Vec<u8>| v@);
        r.insert(0, Vec::new());
        proof {
            assert(tail.drop_first() =~= path@.skip(from as int + 1));
            assert(r@.map_values(|v: Vec<u8>| v@) =~= seq![Seq::<u8>::empty()] + sub);
        }
        r
    } else {
        let c = path[from];
        let mut r = split_path(path, from + 1);
        let ghost sub = r@.map_values(|v: Vec<u8>| v@);
        proof {
            assert(tail.drop_first() =~= path@.skip(from as int + 1));
            lemma_split_nonempty(tail.drop_first());
        }
        let mut first = r.remove(0);
        first.insert(0, c);
        r.insert(0, first);
        proof {
            assert(first@ =~= seq![c] + sub[0]);
            assert(r@.map_values(|v: Vec<u8>| v@) =~= seq![seq![c] + sub[0]] + sub.drop_first());
        }
        r
    }
}

/// Token-level matcher, the executable twin of `seg_matches`.
fn seg_matches_exec(toks: &Vec<Token>, ti: usize, s: &Vec<u8>, si: usize) -> (r: bool)
    requires
        ti <= toks@.len(),
        si <= s@.len(),
    ensures
        r == seg_matches(toks@.skip(ti as int), s@.skip(si as int)),
    decreases toks@.len() - ti, s@.len() - si,
{
    let ghost tp = toks@.skip(ti as int);
    let ghost ss = s@.skip(si as int);
    if ti == toks.len() {
        proof {
            assert(tp =~= Seq::<Token>::empty());
        }
        si == s.len()
    } else {
        proof {
            assert(tp.drop_first() =~= toks@.skip(ti as int + 1));
            assert(tp[0] == toks@[ti as int]);
            if si < s@.len() {
                assert(ss.drop_first() =~= s@.skip(si as int + 1));
                assert(ss[0] == s@[si as int]);
            }
        }
        match toks[ti] {
            Token::Star => {
                if seg_matches_exec(toks, ti + 1, s, si) {
                    true
                } else if si < s.len() {
                    seg_matches_exec(toks, ti, s, si + 1)
                } else {
                    false
                }
            },
            Token::Lit(c) => {
                si < s.len() && s[si] == c && seg_matches_exec(toks, ti + 1, s, si + 1)
            },
        }
    }
}

/// Segment-level matcher, the executable twin of `segs_match`.
fn segs_match_exec(pat: &Vec<Segment>, pi: usize, parts: &Vec<Vec<u8>>, si: usize) -> (r: bool)
    requires
        pi <= pat@.len(),
        si <= parts@.len(),
    ensures
        r == segs_match(
            pat@.skip(pi as int),
            parts@.map_values(|v: Vec<u8>| v@).skip(si as int),
        ),
    decreases pat@.len() - pi, parts@.len() - si,
{
    let ghost pp = pat@.skip(pi as int);
    let ghost ps = parts@.map_values(|v: Vec<u8>| v@).skip(si as int);
    if pi == pat.len() {
        proof {
            assert(pp =~= Seq::<Segment>::empty());
        }
        si == parts.len()
    } else {
        proof {
            assert(pp.drop_first() =~= pat@.skip(pi as int + 1));
            assert(pp[0] == pat@[pi as int]);
            if si < parts@.len() {
                assert(ps.drop_first() =~= parts@.map_values(|v: Vec<u8>| v@).skip(si as int + 1));
                assert(ps[0] == parts@[si as int]@);
            }
        }
        match &pat[pi] {
            Segment::AnyDepth => {
                if segs_match_exec(pat, pi + 1, parts, si) {
                    true
                } else if si < parts.len() {
                    segs_match_exec(pat, pi, parts, si + 1)
                } else {
                    false
                }
            },
            Segment::Single(toks) => {
                if si < parts.len() {
                    proof {
                        assert(toks@.skip(0) =~= toks@);
                        assert(parts@[si as int]@.skip(0) =~= parts@[si as int]@);
                    }
                    seg_matches_exec(toks, 0, &parts[si], 0) && segs_match_exec(
                        pat,
                        pi + 1,
                        parts,
                        si + 1,
                    )
                } else {
                    proof {
                        assert(ps =~= Seq::<Seq<u8>>::empty());
                    }
                    false
                }
            },
        }
    }
}

impl Pattern {
    /// Compiles pattern source text: `/`-separated segments, where a
    /// segment that is exactly `**` crosses any depth and `*` inside
    /// any other segment stands for a run of bytes.
    pub fn new(src: &Vec<u8>) -> (r: Pattern)
        ensures
            compiled_from(r.segs@, src@),
    {
        let parts = split_path(src, 0);
        let ghost srcparts = spec_split(src@);
        proof {
            assert(src@.skip(0) =~= src@);
        }
        let mut segs: Vec<Segment> = Vec::new();
        let mut i: usize = 0;
        while i < parts.len()
            invariant
                i <= parts@.len(),
                parts@.map_values(|v: Vec<u8>| v@) == srcparts,
                segs@.len() == i,
                forall|j: int|
                    0 <= j < i ==> seg_compiled_from(#[trigger] segs@[j], srcparts[j]),
            decreases parts@.len() - i,
        {
            let part = &parts[i];
            proof {
                assert(srcparts[i as int] == parts@[i as int]@);
            }
            if part.len() == 2 && part[0] == 42u8 && part[1] == 42u8 {
                proof {
                    assert(parts@[i as int]@ =~= seq![42u8, 42u8]);
                }
                segs.push(Segment::AnyDepth);
            } else {
                let mut toks: Vec<Token> = Vec::new();
                let mut k: usize = 0;
                while k < part.len()
                    invariant
                        k <= part@.len(),
                        toks@.len() == k,
                        forall|t: int|
                            0 <= t < k ==> toks@[t] == (if part@[t] == 42u8 {
                                Token::Star
                            } else {
                                Token::Lit(part@[t])
                            }),
                    decreases part@.len() - k,
                {
                    if part[k] == 42u8 {
                        toks.push(Token::Star);
                    } else {
                        toks.push(Token::Lit(part[k]));
                    }
                    k += 1;
                }
                proof {
                    if parts@[i as int]@ == seq![42u8, 42u8] {
                        assert(part@.len() == 2 && part@[0] == 42u8 && part@[1] == 42u8);
                    }
                }
                segs.push(Segment::Single(toks));
            }
            i += 1;
        }
        Pattern { segs }
    }

    /// Whether the pattern matches a root-relative path.
    pub fn matches(&self, path: &Vec<u8>) -> (r: bool)
        ensures
            r == segs_match(self.segs@, spec_split(path@)),
    {
        let parts = split_path(path, 0);
        proof {
            assert(path@.skip(0) =~= path@);
            assert(self.segs@.skip(0) =~= self.segs@);
            assert(parts@.map_values(|v: Vec<u8>| v@).skip(0) =~= parts@.map_values(
                |v: Vec<u8>| v@,
            ));
        }
        segs_match_exec(&self.segs, 0, &parts, 0)
    }
}

impl GlobSet {
    pub fn new() -> (r: GlobSet)
        ensures
            r.patterns@.len() == 0,
    {
        GlobSet { patterns: Vec::new() }
    }

    pub fn add(&mut self, p: Pattern)
        ensures
            final(self).patterns@ == old(self).patterns@.push(p),
    {
        self.patterns.push(p);
    }

    /// Whether some pattern of the set matches the path.
    pub fn ignored(&self, path: &Vec<u8>) -> (r: bool)
        ensures
            r == spec_ignored(self.patterns@, path@),
    {
        let mut i: usize = 0;
        while i < self.patterns.len()
            invariant
                i <= self.patterns@.len(),
                forall|j: int|
                    0 <= j < i ==> !segs_match(#[trigger] self.patterns@[j].segs@, spec_split(path@)),
            decreases self.patterns@.len() - i,
        {
            if self.patterns[i].matches(path) {
                return true;
            }
            i += 1;
        }
        false
    }
}

/// An empty ignore set includes every path: nothing is ignored.
pub proof fn lemma_empty_ignore_includes_all(patterns: Seq<Pattern>, path: Seq<u8>)
    requires
        patterns.len() == 0,
    ensures
        !spec_ignored(patterns, path),
{
}

} // verus!
