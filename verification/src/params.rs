//! The configuration bag the pipeline is driven by.

use vstd::prelude::*;
use vstd::string::StrSliceExecFns;
use vstd::string::StringExecFns;

verus! {

/// The run's configuration, as the command line hands it over.
#[derive(Debug, Clone)]
pub struct Params {
    /// File types never deduplicated, as a comma-separated list.
    pub exclude_types: Option<String>,
    /// File types deduplicated (absent: all), as a comma-separated list.
    pub types: Option<String>,
    /// Directory scanned in place of the working directory.
    pub dir: Option<String>,
    /// Whether duplicates are handled interactively afterwards.
    pub interactive: bool,
    /// Smallest file size scanned, in a form such as "100B", "1K" or "2M".
    pub min_size: Option<String>,
    /// Largest directory depth scanned.
    pub max_depth: Option<usize>,
    /// Smallest directory depth scanned.
    pub min_depth: Option<usize>,
    /// Whether symbolic links are followed while scanning.
    pub follow_links: bool,
    /// Whether the whole content is digested rather than the first pages.
    pub strict: bool,
    /// Whether progress is reported while the pipeline runs.
    pub progress: bool,
}

impl Default for Params {
    /// The default run: everything scanned, fast digests, no interaction.
    fn default() -> (r: Self)
        ensures
            r.exclude_types is None,
            r.types is None,
            r.dir is None,
            !r.interactive,
            r.min_size is None,
            r.max_depth is None,
            r.min_depth is None,
            !r.follow_links,
            !r.strict,
            !r.progress,
    {
        Params {
            exclude_types: None,
            types: None,
            dir: None,
            interactive: false,
            min_size: None,
            max_depth: None,
            min_depth: None,
            follow_links: false,
            strict: false,
            progress: false,
        }
    }
}

/// The number of bytes a size expression such as "100B", "1K" or "2M"
/// denotes, or nothing when it parses as no size.  A pure function of the
/// text.
pub uninterp spec fn parsed_size(s: Seq<char>) -> Option<u64>;

/// Relies on bytesize's `FromStr`: parses a byte-count expression; the
/// result depends on the text alone.
#[verifier::external_body]
fn parse_size(s: &str) -> (r: Option<u64>)
    ensures
        r == parsed_size(s@),
{
    match s.parse::<bytesize::ByteSize>() {
        Ok(b) => Some(b.as_u64()),
        Err(_) => None,
    }
}

/// The comma-separated tokens of a type list, in order.  An empty list
/// is one empty token, as splitting gives it.
pub open spec fn split_commas(s: Seq<char>) -> Seq<Seq<char>>
    decreases s.len(),
{
    if s.len() == 0 {
        seq![Seq::empty()]
    } else if s.last() == ',' {
        split_commas(s.drop_last()).push(Seq::empty())
    } else {
        let ts = split_commas(s.drop_last());
        ts.update(ts.len() - 1, ts.last().push(s.last()))
    }
}

/// Tokens joined back with commas between them.
pub open spec fn join_commas(ts: Seq<Seq<char>>) -> Seq<char>
    decreases ts.len(),
{
    if ts.len() == 0 {
        Seq::empty()
    } else if ts.len() == 1 {
        ts[0]
    } else {
        join_commas(ts.drop_last()) + seq![','] + ts.last()
    }
}

/// The abstract value of a token list.
pub open spec fn tokens_view(v: Seq<String>) -> Seq<Seq<char>> {
    v.map_values(|t: String| t@)
}

/// Splitting a list never yields an empty token sequence.
proof fn lemma_split_nonempty(s: Seq<char>)
    ensures
        split_commas(s).len() >= 1,
    decreases s.len(),
{
    if s.len() > 0 {
        lemma_split_nonempty(s.drop_last());
    }
}

/// Splits a comma-separated list into its tokens.
pub fn split_tokens(s: &str) -> (r: Vec<String>)
    ensures
        tokens_view(r@) == split_commas(s@),
{
    let n = s.unicode_len();
    let mut r: Vec<String> = Vec::new();
    let mut cur: String = String::new();
    let mut i: usize = 0;
    proof {
        assert(s@.take(0) =~= Seq::<char>::empty());
        assert(tokens_view(r@) =~= Seq::<Seq<char>>::empty());
        assert(split_commas(s@.take(0)) == seq![Seq::<char>::empty()]);
    }
    while i < n
        invariant
            0 <= i <= n,
            n == s@.len(),
            split_commas(s@.take(i as int)).len() >= 1,
            tokens_view(r@) == split_commas(s@.take(i as int)).drop_last(),
            cur@ == split_commas(s@.take(i as int)).last(),
        decreases n - i,
    {
        let ghost pieces = split_commas(s@.take(i as int));
        let c = s.get_char(i);
        proof {
            assert(s@.take(i + 1).drop_last() =~= s@.take(i as int));
            assert(s@.take(i + 1).last() == s@[i as int]);
            lemma_split_nonempty(s@.take(i + 1));
        }
        if c == ',' {
            let ghost rprev = r@;
            let ghost curv = cur@;
            r.push(cur);
            cur = String::new();
            proof {
                assert(split_commas(s@.take(i + 1)) == pieces.push(Seq::<char>::empty()));
                assert(tokens_view(r@) =~= tokens_view(rprev).push(curv));
                assert(tokens_view(r@) =~= pieces.drop_last().push(pieces.last()));
                assert(pieces.drop_last().push(pieces.last()) =~= pieces);
                assert(tokens_view(r@) =~= split_commas(s@.take(i + 1)).drop_last());
            }
        } else {
            let piece = s.substring_char(i, i + 1);
            proof {
                assert(piece@ =~= seq![s@[i as int]]);
            }
            cur.append(piece);
            proof {
                let updated = pieces.update(pieces.len() - 1, pieces.last().push(s@[i as int]));
                assert(split_commas(s@.take(i + 1)) == updated);
                assert(cur@ =~= updated.last());
                assert(tokens_view(r@) =~= updated.drop_last());
            }
        }
        i = i + 1;
    }
    proof {
        assert(s@.take(n as int) =~= s@);
        lemma_split_nonempty(s@);
        assert(tokens_view(r@.push(cur)) =~= tokens_view(r@).push(cur@));
        assert(tokens_view(r@).push(cur@) =~= split_commas(s@).drop_last().push(split_commas(
            s@,
        ).last()));
        assert(split_commas(s@).drop_last().push(split_commas(s@).last()) =~= split_commas(s@));
    }
    r.push(cur);
    r
}

/// Whether a token list holds this token.
pub fn contains_token(toks: &Vec<String>, t: &String) -> (r: bool)
    ensures
        r == tokens_view(toks@).contains(t@),
{
    let n = toks.len();
    let mut i: usize = 0;
    while i < n
        invariant
            0 <= i <= n,
            n == toks.len(),
            forall|j: int| 0 <= j < i ==> tokens_view(toks@)[j] != t@,
        decreases n - i,
    {
        if toks[i] == *t {
            proof {
                assert(tokens_view(toks@)[i as int] == t@);
            }
            return true;
        }
        proof {
            assert(tokens_view(toks@)[i as int] == toks@[i as int]@);
        }
        i = i + 1;
    }
    proof {
        if tokens_view(toks@).contains(t@) {
            let j = choose|j: int|
                0 <= j < tokens_view(toks@).len() && tokens_view(toks@)[j] == t@;
            assert(tokens_view(toks@)[j] != t@);
        }
    }
    false
}

/// Joins tokens back into a comma-separated list.
pub fn join_tokens(toks: &Vec<String>) -> (r: String)
    ensures
        r@ == join_commas(tokens_view(toks@)),
{
    let n = toks.len();
    let mut r = String::new();
    if n == 0 {
        proof {
            assert(r@ =~= join_commas(tokens_view(toks@)));
        }
        return r;
    }
    r.append(toks[0].as_str());
    let mut i: usize = 1;
    proof {
        assert(tokens_view(toks@).take(1).len() == 1);
        assert(tokens_view(toks@).take(1)[0] == toks@[0]@);
        assert(r@ == join_commas(tokens_view(toks@).take(1)));
    }
    while i < n
        invariant
            1 <= i <= n,
            n == toks.len(),
            r@ == join_commas(tokens_view(toks@).take(i as int)),
        decreases n - i,
    {
        r.append(",");
        r.append(toks[i].as_str());
        proof {
            let tv = tokens_view(toks@);
            assert(tv.take(i + 1).drop_last() =~= tv.take(i as int));
            assert(tv.take(i + 1).last() == toks@[i as int]@);
            reveal_strlit(",");
            assert(r@ =~= join_commas(tv.take(i as int)) + seq![','] + toks@[i as int]@);
            assert(r@ == join_commas(tv.take(i + 1)));
        }
        i = i + 1;
    }
    proof {
        assert(tokens_view(toks@).take(n as int) =~= tokens_view(toks@));
    }
    r
}

/// The set difference of two token lists: the tokens of `ts` that `xs`
/// does not hold, each kept once, at its first occurrence.
pub open spec fn diff_tokens(ts: Seq<Seq<char>>, xs: Seq<Seq<char>>) -> Seq<Seq<char>>
    decreases ts.len(),
{
    if ts.len() == 0 {
        Seq::empty()
    } else if xs.contains(ts.last()) || ts.drop_last().contains(ts.last()) {
        diff_tokens(ts.drop_last(), xs)
    } else {
        diff_tokens(ts.drop_last(), xs).push(ts.last())
    }
}

/// The include list with the excluded types removed, joined back with
/// commas: the set difference of the two comma-separated lists, in the
/// include list's order of first occurrence.
pub open spec fn types_diff(i: Seq<char>, x: Seq<char>) -> Seq<char> {
    join_commas(diff_tokens(split_commas(i), split_commas(x)))
}

/// The set difference holds exactly the tokens of `ts` that `xs` does
/// not hold.
pub proof fn lemma_diff_tokens_membership(ts: Seq<Seq<char>>, xs: Seq<Seq<char>>, t: Seq<char>)
    ensures
        diff_tokens(ts, xs).contains(t) <==> (ts.contains(t) && !xs.contains(t)),
    decreases ts.len(),
{
    if ts.len() == 0 {
        if ts.contains(t) {
            let i = choose|i: int| 0 <= i < ts.len() && ts[i] == t;
            assert(false);
        }
    } else {
        let rest = ts.drop_last();
        lemma_diff_tokens_membership(rest, xs, t);
        // A token of the whole list is the last one or one of the rest.
        if ts.contains(t) {
            let i = choose|i: int| 0 <= i < ts.len() && ts[i] == t;
            if i < rest.len() {
                assert(rest[i] == t);
                assert(rest.contains(t));
            }
        }
        if rest.contains(t) {
            let i = choose|i: int| 0 <= i < rest.len() && rest[i] == t;
            assert(ts[i] == t);
            assert(ts.contains(t));
        }
        if ts.last() == t {
            assert(ts.contains(t));
        }
        let d = diff_tokens(ts, xs);
        let drest = diff_tokens(rest, xs);
        if xs.contains(ts.last()) || rest.contains(ts.last()) {
            assert(d == drest);
        } else {
            assert(d == drest.push(ts.last()));
            if drest.contains(t) {
                let i = choose|i: int| 0 <= i < drest.len() && drest[i] == t;
                assert(d[i] == t);
                assert(d.contains(t));
            }
            assert(d[d.len() - 1] == ts.last());
            if d.contains(t) && t != ts.last() {
                let i = choose|i: int| 0 <= i < d.len() && d[i] == t;
                assert(drest[i] == t);
                assert(drest.contains(t));
            }
        }
    }
}

/// The set difference lists no token twice.
pub proof fn lemma_diff_tokens_no_duplicates(ts: Seq<Seq<char>>, xs: Seq<Seq<char>>)
    ensures
        diff_tokens(ts, xs).no_duplicates(),
    decreases ts.len(),
{
    if ts.len() > 0 {
        let rest = ts.drop_last();
        lemma_diff_tokens_no_duplicates(rest, xs);
        if !(xs.contains(ts.last()) || rest.contains(ts.last())) {
            let d = diff_tokens(ts, xs);
            let drest = diff_tokens(rest, xs);
            assert forall|i: int, j: int|
                0 <= i < d.len() && 0 <= j < d.len() && i != j implies d[i] != d[j] by {
                if i < drest.len() && j < drest.len() {
                    assert(drest[i] != drest[j]);
                } else {
                    let other = if i < drest.len() {
                        i
                    } else {
                        j
                    };
                    if 0 <= other < drest.len() {
                        assert(drest[other] == d[other]);
                        lemma_diff_tokens_membership(rest, xs, drest[other]);
                        assert(rest.contains(drest[other]));
                    }
                }
            }
        }
    }
}

impl Params {
    /// The configured minimum file size in bytes: the parsed `min_size`
    /// expression, or nothing when none was given or it does not parse.
    pub fn get_min_size(&self) -> (r: Option<u64>)
        ensures
            r == (match self.min_size {
                Some(msize) => parsed_size(msize@),
                None => None::<u64>,
            }),
    {
        match &self.min_size {
            Some(msize) => parse_size(msize.as_str()),
            None => None,
        }
    }

    /// The include list with the excluded types removed.  When both an
    /// include and an exclude list are given, the types scanned are their
    /// set difference: each include token that the exclude list does not
    /// hold, once, in order of first occurrence.
    pub fn types_intersection(itypes: &str, xtypes: &str) -> (r: String)
        ensures
            r@ == types_diff(itypes@, xtypes@),
    {
        let itoks = split_tokens(itypes);
        let xtoks = split_tokens(xtypes);
        let mut keep: Vec<String> = Vec::new();
        let n = itoks.len();
        let mut i: usize = 0;
        proof {
            assert(tokens_view(itoks@).take(0) =~= Seq::<Seq<char>>::empty());
            assert(tokens_view(keep@) =~= Seq::<Seq<char>>::empty());
        }
        while i < n
            invariant
                0 <= i <= n,
                n == itoks.len(),
                tokens_view(itoks@) == split_commas(itypes@),
                tokens_view(xtoks@) == split_commas(xtypes@),
                tokens_view(keep@) == diff_tokens(
                    tokens_view(itoks@).take(i as int),
                    tokens_view(xtoks@),
                ),
            decreases n - i,
        {
            let ghost iv = tokens_view(itoks@);
            let ghost xv = tokens_view(xtoks@);
            let ghost kprev = keep@;
            proof {
                assert(iv.take(i + 1).drop_last() =~= iv.take(i as int));
                assert(iv.take(i + 1).last() == iv[i as int]);
                assert(iv[i as int] == itoks@[i as int]@);
                lemma_diff_tokens_membership(iv.take(i as int), xv, iv[i as int]);
            }
            // A token is kept when the exclude list does not hold it and
            // it was not already kept; the kept list holds exactly the
            // earlier tokens outside the exclude list, so this skips
            // exactly the repeats.
            if !contains_token(&xtoks, &itoks[i]) && !contains_token(&keep, &itoks[i]) {
                keep.push(itoks[i].clone());
                proof {
                    assert(!iv.take(i as int).contains(iv[i as int]));
                    assert(tokens_view(keep@) =~= tokens_view(kprev).push(itoks@[i as int]@));
                }
            }
            i = i + 1;
        }
        proof {
            assert(tokens_view(itoks@).take(n as int) =~= tokens_view(itoks@));
        }
        join_tokens(&keep)
    }

    /// The effective type list: the include list with the exclusions
    /// removed when both are given, else whichever of the two was given,
    /// else nothing.
    pub fn get_types(&self) -> (r: Option<String>)
        ensures
            (match self.types {
                Some(i) => match self.exclude_types {
                    Some(x) => (r matches Some(s) && s@ == types_diff(i@, x@)),
                    None => (r matches Some(s) && s@ == i@),
                },
                None => match self.exclude_types {
                    Some(x) => (r matches Some(s) && s@ == x@),
                    None => r is None,
                },
            }),
    {
        match &self.types {
            Some(itypes) => match &self.exclude_types {
                Some(xtypes) => Some(
                    Self::types_intersection(itypes.as_str(), xtypes.as_str()),
                ),
                None => Some(itypes.clone()),
            },
            None => match &self.exclude_types {
                Some(xtypes) => Some(xtypes.clone()),
                None => None,
            },
        }
    }
}

} // verus!
