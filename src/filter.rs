use vstd::prelude::*;
use vstd::utf8::encode_utf8;
use regex::bytes::Regex;

verus! {

#[verifier::external_type_specification]
#[verifier::external_body]
pub struct ExRegex(Regex);

#[verifier::external_type_specification]
#[verifier::external_body]
pub struct ExRegexError(regex::Error);

/// Whether the byte regex engine accepts a pattern: a function of the
/// pattern alone.
pub uninterp spec fn pattern_compiles(p: Seq<char>) -> bool;

/// Whether the text regex engine accepts a pattern (it refuses patterns that
/// could match inside a UTF-8 character): a function of the pattern alone.
pub uninterp spec fn text_pattern_compiles(p: Seq<char>) -> bool;

/// Whether pattern `p` matches somewhere in haystack `h`.
pub uninterp spec fn pattern_matches(p: Seq<char>, h: Seq<u8>) -> bool;

/// Haystack `h` with the leftmost match of `p` replaced by `rep`.
pub uninterp spec fn pattern_replaced(p: Seq<char>, h: Seq<u8>, rep: Seq<u8>) -> Seq<u8>;

/// The span of the group called `name` in the leftmost match of `p` in `h`.
pub uninterp spec fn pattern_capture(p: Seq<char>, h: Seq<u8>, name: Seq<char>) -> Option<(nat, nat)>;

/// A pattern is usable when both engines accept it.
pub open spec fn pattern_accepted(p: Seq<char>) -> bool {
    text_pattern_compiles(p) && pattern_compiles(p)
}

/// Relies on `regex::bytes::Regex::new`: compiles a pattern, or says why not.
#[verifier::external_body]
fn compile_regex(pattern: &str) -> (r: Result<Regex, regex::Error>)
    ensures
        r.is_ok() == pattern_compiles(pattern@),
{
    Regex::new(pattern)
}

/// Relies on `regex::Regex::new`: whether the text engine accepts the pattern.
#[verifier::external_body]
fn check_text_regex(pattern: &str) -> (r: Result<(), regex::Error>)
    ensures
        r.is_ok() == text_pattern_compiles(pattern@),
{
    regex::Regex::new(pattern).map(|_| ())
}

/// Relies on `regex::Error`'s `Display`: the engine's account of a refused pattern.
#[verifier::external_body]
fn regex_error_text(e: &regex::Error) -> String {
    e.to_string()
}

/// A pattern that the regex engine refused.
#[derive(Debug, Clone, PartialEq, Eq)]
pub struct PatternError {
    pub pattern: String,
    pub reason: String,
}

/// A compiled pattern together with its text. Only `compile` builds one, so
/// the regex is always the one compiled from `text`.
pub struct Pattern {
    text: String,
    re: Regex,
}

impl Pattern {
    /// The text the pattern was compiled from.
    pub closed spec fn source(&self) -> Seq<char> {
        self.text@
    }

    /// Compiles a pattern; the error carries the pattern and the engine's reason.
    pub fn compile(pattern: &String) -> (r: Result<Pattern, PatternError>)
        ensures
            r.is_ok() == pattern_accepted(pattern@),
            r matches Ok(p) ==> p.source() == pattern@,
            r matches Err(e) ==> e.pattern@ == pattern@,
    {
        match check_text_regex(pattern.as_str()) {
            Ok(_) => {},
            Err(e) => {
                return Err(PatternError { pattern: pattern.clone(), reason: regex_error_text(&e) });
            },
        }
        match compile_regex(pattern.as_str()) {
            Ok(re) => Ok(Pattern { text: pattern.clone(), re }),
            Err(e) => Err(PatternError { pattern: pattern.clone(), reason: regex_error_text(&e) }),
        }
    }

    /// The text the pattern was compiled from.
    pub fn text(&self) -> (r: &String)
        ensures
            r@ == self.source(),
    {
        &self.text
    }
}

/// Relies on `regex::bytes::Regex::is_match`: whether the pattern matches
/// somewhere in the haystack.
#[verifier::external_body]
fn regex_is_match(p: &Pattern, haystack: &[u8]) -> (r: bool)
    ensures
        r == pattern_matches(p.source(), haystack@),
{
    p.re.is_match(haystack)
}

/// Relies on `regex::bytes::Regex::replace`: the haystack with its leftmost
/// match replaced (`$name` references expanded).
#[verifier::external_body]
fn regex_replace(p: &Pattern, haystack: &[u8], rep: &[u8]) -> (r: Vec<u8>)
    ensures
        r@ == pattern_replaced(p.source(), haystack@, rep@),
{
    p.re.replace(haystack, rep).into_owned()
}

/// Relies on `regex::bytes::Regex::captures` and `Captures::name`: the span of
/// the named group in the leftmost match, if both exist. `Match` documents
/// `start <= end` and that `&haystack[start..end]` is the matched text.
#[verifier::external_body]
pub(crate) fn regex_capture_span(p: &Pattern, haystack: &[u8], name: &str) -> (r: Option<(usize, usize)>)
    ensures
        match r {
            Some((s, e)) => pattern_capture(p.source(), haystack@, name@) == Some((s as nat, e as nat))
                && s <= e <= haystack@.len(),
            None => pattern_capture(p.source(), haystack@, name@).is_none(),
        },
{
    p.re.captures(haystack).and_then(|c| c.name(name)).map(|m| (m.start(), m.end()))
}

pub open spec fn source_of(p: Option<Pattern>) -> Option<Seq<char>> {
    match p {
        Some(x) => Some(x.source()),
        None => None,
    }
}

pub open spec fn opt_text(p: Option<String>) -> Option<Seq<char>> {
    match p {
        Some(s) => Some(s@),
        None => None,
    }
}

pub open spec fn opt_accepted(p: Option<String>) -> bool {
    match p {
        Some(s) => pattern_accepted(s@),
        None => true,
    }
}

/// What a filter emits: without a pattern, the item; with one, nothing when
/// the pattern does not match the haystack `item[..end]`, the item when there
/// is no replacement, else the replaced haystack followed by the rest.
pub open spec fn filter_result(pattern: Option<Seq<char>>, item: Seq<u8>, end: int, replace: Option<Seq<u8>>) -> Option<Seq<u8>> {
    match pattern {
        None => Some(item),
        Some(p) => {
            let hay = item.subrange(0, end);
            if !pattern_matches(p, hay) {
                None
            } else {
                match replace {
                    None => Some(item),
                    Some(rep) => Some(pattern_replaced(p, hay, rep) + item.subrange(end, item.len() as int)),
                }
            }
        },
    }
}

/// What a filter does with an item.
#[derive(Debug, Clone, PartialEq, Eq)]
pub enum FilterOutcome {
    /// The item matched and goes on unchanged.
    Pass(Vec<u8>),
    /// The item matched and its haystack was rewritten.
    Rewritten(Vec<u8>),
    /// The item did not match.
    Drop,
}

impl FilterOutcome {
    pub open spec fn emitted(self) -> Option<Seq<u8>> {
        match self {
            FilterOutcome::Pass(v) => Some(v@),
            FilterOutcome::Rewritten(v) => Some(v@),
            FilterOutcome::Drop => None,
        }
    }

    /// The bytes that go on, if the item is sent.
    pub fn into_emitted(self) -> (r: Option<Vec<u8>>)
        ensures
            match r {
                Some(v) => self.emitted() == Some(v@),
                None => self.emitted().is_none(),
            },
    {
        match self {
            FilterOutcome::Pass(v) => Some(v),
            FilterOutcome::Rewritten(v) => Some(v),
            FilterOutcome::Drop => None,
        }
    }
}

/// A compiled filter: pattern, cut-off marker, prefix limit and replacement.
pub struct Filter {
    pub regex: Option<Pattern>,
    pub until: Option<Vec<u8>>,
    pub limit: Option<usize>,
    pub replace: Option<Vec<u8>>,
}

/// `u` stands in `s` at index `i`.
pub open spec fn occurs_at(s: Seq<u8>, u: Seq<u8>, i: int) -> bool {
    0 <= i && i + u.len() <= s.len() && s.subrange(i, i + u.len()) == u
}

/// The first index from `i` on where `u` stands in `s`.
pub open spec fn find_from(s: Seq<u8>, u: Seq<u8>, i: int) -> Option<int>
    decreases s.len() + 1 - i,
{
    if i < 0 || i + u.len() > s.len() {
        None
    } else if occurs_at(s, u, i) {
        Some(i)
    } else {
        find_from(s, u, i + 1)
    }
}

/// A byte that continues a UTF-8 character rather than starting one.
pub open spec fn is_continuation(b: u8) -> bool {
    128 <= b && b < 192
}

/// The largest index not above `i` that does not fall inside a character.
pub open spec fn floor_boundary(s: Seq<u8>, i: int) -> int
    decreases i,
{
    if i <= 0 {
        0
    } else if i >= s.len() {
        s.len() as int
    } else if !is_continuation(s[i]) {
        i
    } else {
        floor_boundary(s, i - 1)
    }
}

/// The length of the prefix that `limit` keeps: the first `limit` bytes when
/// it is set and positive, backed off so as not to cut a character; else the
/// whole item.
pub open spec fn limit_end(item: Seq<u8>, limit: Option<usize>) -> int {
    match limit {
        Some(l) => if l > 0 && l < item.len() { floor_boundary(item, l as int) } else { item.len() as int },
        None => item.len() as int,
    }
}

/// Index `i` of `s` does not fall inside a UTF-8 character.
pub open spec fn at_boundary(s: Seq<u8>, i: int) -> bool {
    i == 0 || i == s.len() || (0 < i < s.len() && !is_continuation(s[i]))
}

/// A marker that, when non-empty, begins with the first byte of a character
/// (as every non-empty UTF-8 text does).
pub open spec fn starts_a_character(until: Option<Seq<u8>>) -> bool {
    match until {
        Some(u) => u.len() > 0 ==> !is_continuation(u[0]),
        None => true,
    }
}

/// The length of the prefix of `item` that `limit` keeps.
pub fn prefix_len(item: &[u8], limit: Option<usize>) -> (r: usize)
    ensures
        r as int == limit_end(item@, limit),
        r <= item@.len(),
        at_boundary(item@, r as int),
{
    match limit {
        Some(l) => if l > 0 && l < item.len() {
            let mut i: usize = l;
            while i > 0 && (item[i] >= 128 && item[i] < 192)
                invariant
                    0 <= i <= l < item@.len(),
                    floor_boundary(item@, l as int) == floor_boundary(item@, i as int),
                decreases i,
            {
                i = i - 1;
            }
            i
        } else {
            item.len()
        },
        None => item.len(),
    }
}

/// The end of the haystack that a filter looks at: the limited prefix, cut
/// at the first occurrence of a non-empty `until` within it.
pub open spec fn haystack_end(item: Seq<u8>, limit: Option<usize>, until: Option<Seq<u8>>) -> int {
    let lim = limit_end(item, limit);
    match until {
        Some(u) => if u.len() > 0 {
            match find_from(item.subrange(0, lim), u, 0) {
                Some(i) => i,
                None => lim,
            }
        } else {
            lim
        },
        None => lim,
    }
}

pub open spec fn opt_view(o: Option<Vec<u8>>) -> Option<Seq<u8>> {
    match o {
        Some(v) => Some(v@),
        None => None,
    }
}

impl Filter {
    pub open spec fn haystack_end(&self, item: Seq<u8>) -> int {
        haystack_end(item, self.limit, opt_view(self.until))
    }

    /// What the filter emits for `item`, `None` when it drops it.
    pub open spec fn result(&self, item: Seq<u8>) -> Option<Seq<u8>> {
        filter_result(source_of(self.regex), item, self.haystack_end(item), opt_view(self.replace))
    }

    /// Builds a filter from its options; the pattern is compiled once.
    pub fn compile(
        filter: &Option<String>,
        until: &Option<String>,
        limit: Option<usize>,
        replace: &Option<String>,
    ) -> (r: Result<Filter, PatternError>)
        ensures
            r.is_ok() == opt_accepted(*filter),
            match r {
                Ok(f) => {
                    &&& source_of(f.regex) == opt_text(*filter)
                    &&& f.limit == limit
                    &&& opt_view(f.until) == str_bytes(*until)
                    &&& opt_view(f.replace) == str_bytes(*replace)
                },
                Err(e) => filter.is_some() && e.pattern@ == filter.unwrap()@,
            },
    {
        let regex = match filter {
            Some(p) => match Pattern::compile(p) {
                Ok(re) => Some(re),
                Err(e) => {
                    return Err(e);
                },
            },
            None => None,
        };
        Ok(Filter { regex, until: bytes_of(until), limit, replace: bytes_of(replace) })
    }
}

pub open spec fn str_bytes(s: Option<String>) -> Option<Seq<u8>> {
    match s {
        Some(v) => Some(encode_utf8(v@)),
        None => None,
    }
}

fn bytes_of(s: &Option<String>) -> (r: Option<Vec<u8>>)
    ensures
        opt_view(r) == str_bytes(*s),
{
    match s {
        Some(v) => Some(copy_bytes(v.as_str().as_bytes())),
        None => None,
    }
}

/// A fresh vector with the bytes of a slice.
pub fn copy_bytes(b: &[u8]) -> (r: Vec<u8>)
    ensures
        r@ == b@,
{
    let mut r: Vec<u8> = Vec::with_capacity(b.len());
    let mut i: usize = 0;
    while i < b.len()
        invariant
            0 <= i <= b@.len(),
            r@ == b@.subrange(0, i as int),
        decreases b@.len() - i,
    {
        r.push(b[i]);
        i = i + 1;
        assert(r@ == b@.subrange(0, i as int));
    }
    r
}

/// A fresh vector with the bytes `b[from..to]`.
pub fn copy_range(b: &[u8], from: usize, to: usize) -> (r: Vec<u8>)
    requires
        from <= to <= b@.len(),
    ensures
        r@ == b@.subrange(from as int, to as int),
{
    let mut r: Vec<u8> = Vec::with_capacity(to - from);
    let mut i: usize = from;
    while i < to
        invariant
            from <= i <= to <= b@.len(),
            r@ == b@.subrange(from as int, i as int),
        decreases to - i,
    {
        r.push(b[i]);
        i = i + 1;
        assert(r@ == b@.subrange(from as int, i as int));
    }
    r
}

/// Whether `u` stands in `s` at index `i`.
fn bytes_at(s: &[u8], u: &[u8], i: usize) -> (r: bool)
    ensures
        r == occurs_at(s@, u@, i as int),
{
    if u.len() > s.len() || i > s.len() - u.len() {
        return false;
    }
    let slen = s.len();
    let mut j: usize = 0;
    while j < u.len()
        invariant
            slen == s@.len(),
            0 <= j <= u@.len(),
            i + u@.len() <= s@.len(),
            forall|k: int| 0 <= k < j ==> s@[i + k] == u@[k],
        decreases u@.len() - j,
    {
        if s[i + j] != u[j] {
            assert(s@.subrange(i as int, i + u@.len())[j as int] != u@[j as int]);
            return false;
        }
        j = j + 1;
    }
    assert(s@.subrange(i as int, i + u@.len()) =~= u@);
    true
}

/// The first index where `u` stands within `s[..end]`.
pub fn find_bytes(s: &[u8], end: usize, u: &[u8]) -> (r: Option<usize>)
    requires
        end <= s@.len(),
        u@.len() > 0,
    ensures
        match r {
            Some(i) => find_from(s@.subrange(0, end as int), u@, 0) == Some(i as int),
            None => find_from(s@.subrange(0, end as int), u@, 0).is_none(),
        },
{
    let ghost h = s@.subrange(0, end as int);
    if u.len() > end {
        return None;
    }
    let mut i: usize = 0;
    while i <= end - u.len()
        invariant
            0 < u@.len() <= end <= s@.len(),
            h == s@.subrange(0, end as int),
            0 <= i <= end - u@.len() + 1,
            find_from(h, u@, 0) == find_from(h, u@, i as int),
        decreases end - u@.len() + 1 - i,
    {
        let hit = bytes_at(s, u, i);
        assert(occurs_at(h, u@, i as int) == occurs_at(s@, u@, i as int)) by {
            assert(h.subrange(i as int, i + u@.len()) =~= s@.subrange(i as int, i + u@.len()));
        }
        if hit {
            return Some(i);
        }
        i = i + 1;
    }
    None
}

/// The end of the haystack of `item` under `limit` and `until`.
pub fn haystack_len(item: &[u8], limit: Option<usize>, until: &Option<Vec<u8>>) -> (r: usize)
    ensures
        r as int == haystack_end(item@, limit, opt_view(*until)),
        r <= item@.len(),
        starts_a_character(opt_view(*until)) ==> at_boundary(item@, r as int),
{
    let lim = prefix_len(item, limit);
    match until {
        Some(u) => if u.len() > 0 {
            match find_bytes(item, lim, u.as_slice()) {
                Some(i) => {
                    proof {
                        let h = item@.subrange(0, lim as int);
                        lemma_find_bounds(h, u@, 0);
                        assert(h[i as int] == u@[0]);
                    }
                    i
                },
                None => lim,
            }
        } else {
            lim
        },
        None => lim,
    }
}

proof fn lemma_find_bounds(s: Seq<u8>, u: Seq<u8>, i: int)
    ensures
        find_from(s, u, i) matches Some(k) ==> i <= k && k + u.len() <= s.len() && occurs_at(s, u, k),
    decreases s.len() + 1 - i,
{
    if i < 0 || i + u.len() > s.len() {
    } else if occurs_at(s, u, i) {
    } else {
        lemma_find_bounds(s, u, i + 1);
    }
}

/// The outcome of a filter, given what the pattern did with the haystack
/// `item[..haystack_end]`: no match drops the item; a match without
/// replacement passes it unchanged; a replacement of the haystack is followed
/// by the rest of the item, verbatim.
pub fn rewrite_outcome(item: Vec<u8>, haystack_end: usize, matched: bool, replaced: Option<Vec<u8>>) -> (r: FilterOutcome)
    requires
        haystack_end <= item@.len(),
    ensures
        !matched ==> r == FilterOutcome::Drop,
        matched && replaced.is_none() ==> r == FilterOutcome::Pass(item),
        matched && replaced.is_some() ==> (r matches FilterOutcome::Rewritten(out)
            && out@ == replaced.unwrap()@ + item@.subrange(haystack_end as int, item@.len() as int)),
{
    if !matched {
        return FilterOutcome::Drop;
    }
    match replaced {
        None => FilterOutcome::Pass(item),
        Some(head) => {
            let mut out = head;
            let mut i: usize = haystack_end;
            let ghost head_view = out@;
            while i < item.len()
                invariant
                    haystack_end <= i <= item@.len(),
                    out@ == head_view + item@.subrange(haystack_end as int, i as int),
                decreases item@.len() - i,
            {
                out.push(item[i]);
                i = i + 1;
                assert(out@ =~= head_view + item@.subrange(haystack_end as int, i as int));
            }
            FilterOutcome::Rewritten(out)
        },
    }
}

/// Applies a filter to an item. Without a pattern every item passes. With
/// one, the pattern looks at the haystack only: a match passes the item, or,
/// with a replacement, rewrites the haystack and keeps every byte after it.
pub fn match_filter(filter: &Filter, item: Vec<u8>) -> (r: FilterOutcome)
    ensures
        filter.regex.is_none() ==> r == FilterOutcome::Pass(item),
        r matches FilterOutcome::Pass(v) ==> v == item,
        filter.replace.is_none() ==> !(r is Rewritten),
        r matches FilterOutcome::Rewritten(out) ==> filter.replace.is_some() && exists|head: Seq<u8>|
            out@ == head + item@.subrange(filter.haystack_end(item@), item@.len() as int),
        r.emitted() == filter.result(item@),
{
    match &filter.regex {
        None => FilterOutcome::Pass(item),
        Some(re) => {
            let end = haystack_len(item.as_slice(), filter.limit, &filter.until);
            let haystack = copy_range(item.as_slice(), 0, end);
            let matched = regex_is_match(re, haystack.as_slice());
            let replaced = match &filter.replace {
                Some(rep) => if matched {
                    Some(regex_replace(re, haystack.as_slice(), rep.as_slice()))
                } else {
                    None
                },
                None => None,
            };
            assert(haystack@ == item@.subrange(0, end as int));
            let r = rewrite_outcome(item, end, matched, replaced);
            proof {
                if r is Rewritten {
                    let out = r->Rewritten_0;
                    let head = replaced.unwrap()@;
                    assert(out@ == head + item@.subrange(filter.haystack_end(item@), item@.len() as int));
                }
            }
            r
        },
    }
}

} // verus!
