//! Parsing of an HTTP request as the server reads it from a connection.
//!
//! The bytes are decoded as UTF-8, with each invalid sequence replaced; the
//! text is cut into lines at CRLF, the first line into fields at single
//! spaces, and each following line but the last into a name and a value at
//! the first `": "`.
use vstd::prelude::*;

verus! {

/// The text that `String::from_utf8_lossy` makes of bytes `b`.
pub uninterp spec fn lossy_text(b: Seq<u8>) -> Seq<char>;

/// Relies on `String::from_utf8_lossy`: the text of the bytes, with each
/// invalid sequence replaced by U+FFFD, as a function of the bytes alone.
#[verifier::external_body]
fn decode_lossy(b: &[u8]) -> (r: Vec<char>)
    ensures
        r@ == lossy_text(b@),
{
    String::from_utf8_lossy(b).chars().collect()
}

/// Whether `sep` occurs in `s` at position `i`.
pub open spec fn occurs_at(s: Seq<char>, sep: Seq<char>, i: int) -> bool {
    0 <= i && i + sep.len() <= s.len() && s.subrange(i, i + sep.len()) == sep
}

/// The pieces of `s[start..]` cut at each occurrence of `sep` found from
/// position `i` on, scanning left to right without overlap.
pub open spec fn split_from(s: Seq<char>, sep: Seq<char>, start: int, i: int) -> Seq<Seq<char>>
    recommends
        sep.len() > 0,
        0 <= start <= i <= s.len(),
    decreases s.len() - i,
    when sep.len() > 0 && 0 <= i <= s.len()
{
    if i + sep.len() > s.len() {
        seq![s.subrange(start, s.len() as int)]
    } else if occurs_at(s, sep, i) {
        seq![s.subrange(start, i)] + split_from(s, sep, i + sep.len(), i + sep.len())
    } else {
        split_from(s, sep, start, i + 1)
    }
}

/// `s` cut at every occurrence of `sep`, as `str::split` cuts it.
pub open spec fn split(s: Seq<char>, sep: Seq<char>) -> Seq<Seq<char>> {
    split_from(s, sep, 0, 0)
}

/// The views of a sequence of character vectors.
pub open spec fn char_views(v: Seq<Vec<char>>) -> Seq<Seq<char>> {
    v.map_values(|x: Vec<char>| x@)
}

proof fn lemma_split_from_nonempty(s: Seq<char>, sep: Seq<char>, start: int, i: int)
    requires
        sep.len() > 0,
        0 <= start <= i <= s.len(),
    ensures
        split_from(s, sep, start, i).len() >= 1,
    decreases s.len() - i,
{
    if i + sep.len() > s.len() {
    } else if occurs_at(s, sep, i) {
        lemma_split_from_nonempty(s, sep, i + sep.len(), i + sep.len());
    } else {
        lemma_split_from_nonempty(s, sep, start, i + 1);
    }
}

/// Whether `sep` occurs in `s` at position `i`.
fn matches_at(s: &Vec<char>, sep: &Vec<char>, i: usize) -> (r: bool)
    requires
        i <= s@.len(),
        sep@.len() <= s@.len() - i,
    ensures
        r == occurs_at(s@, sep@, i as int),
{
    let n = s.len();
    let mut k: usize = 0;
    while k < sep.len()
        invariant
            n == s@.len(),
            i + sep@.len() <= n,
            k <= sep@.len(),
            forall|j: int| 0 <= j < k ==> s@[i + j] == sep@[j],
        decreases sep@.len() - k,
    {
        if s[i + k] != sep[k] {
            assert(s@.subrange(i as int, i + sep@.len())[k as int] != sep@[k as int]);
            return false;
        }
        k = k + 1;
    }
    assert(s@.subrange(i as int, i + sep@.len()) =~= sep@);
    true
}

/// The characters of `s` from `from` up to `to`.
fn copy_range(s: &Vec<char>, from: usize, to: usize) -> (r: Vec<char>)
    requires
        from <= to <= s@.len(),
    ensures
        r@ == s@.subrange(from as int, to as int),
{
    let mut r: Vec<char> = Vec::with_capacity(to - from);
    let mut k: usize = from;
    while k < to
        invariant
            from <= k <= to <= s@.len(),
            r@ == s@.subrange(from as int, k as int),
        decreases to - k,
    {
        r.push(s[k]);
        k = k + 1;
        assert(r@ =~= s@.subrange(from as int, k as int));
    }
    r
}

/// Cuts `s` at every occurrence of `sep`, scanning left to right.
pub fn split_chars(s: &Vec<char>, sep: &Vec<char>) -> (r: Vec<Vec<char>>)
    requires
        sep@.len() > 0,
    ensures
        char_views(r@) == split(s@, sep@),
{
    let mut pieces: Vec<Vec<char>> = Vec::new();
    let mut start: usize = 0;
    let mut i: usize = 0;
    while sep.len() <= s.len() - i
        invariant
            sep@.len() > 0,
            0 <= start <= i <= s@.len(),
            char_views(pieces@) + split_from(s@, sep@, start as int, i as int) == split(s@, sep@),
        decreases s@.len() - i,
    {
        if matches_at(s, sep, i) {
            let piece = copy_range(s, start, i);
            let ghost before = pieces@;
            pieces.push(piece);
            proof {
                assert(char_views(pieces@) =~= char_views(before).push(piece@));
                assert(char_views(pieces@) + split_from(s@, sep@, (i + sep@.len()) as int, (i
                    + sep@.len()) as int) =~= char_views(before) + split_from(
                    s@,
                    sep@,
                    start as int,
                    i as int,
                ));
            }
            i = i + sep.len();
            start = i;
        } else {
            i = i + 1;
        }
    }
    let last = copy_range(s, start, s.len());
    let ghost before = pieces@;
    pieces.push(last);
    assert(char_views(pieces@) =~= char_views(before) + split_from(
        s@,
        sep@,
        start as int,
        i as int,
    ));
    pieces
}

/// The line separator of a request.
pub open spec fn crlf() -> Seq<char> {
    seq!['\r', '\n']
}

/// The separator of the fields of the request line.
pub open spec fn space() -> Seq<char> {
    seq![' ']
}

/// The separator of a header's name from its value.
pub open spec fn colon_space() -> Seq<char> {
    seq![':', ' ']
}

/// The headers that `lines` hold, in order: each line with a `": "` gives the
/// text before its first `": "` and the text between that and the next one.
pub open spec fn header_pairs(lines: Seq<Seq<char>>) -> Seq<(Seq<char>, Seq<char>)>
    decreases lines.len(),
{
    if lines.len() == 0 {
        Seq::empty()
    } else {
        let rest = header_pairs(lines.drop_last());
        let h = split(lines.last(), colon_space());
        if h.len() > 1 {
            rest.push((h[0], h[1]))
        } else {
            rest
        }
    }
}

/// Pairs read as a map: where a key comes more than once, the last wins.
pub open spec fn last_wins(pairs: Seq<(Seq<char>, Seq<char>)>) -> Map<Seq<char>, Seq<char>>
    decreases pairs.len(),
{
    if pairs.len() == 0 {
        Map::empty()
    } else {
        last_wins(pairs.drop_last()).insert(pairs.last().0, pairs.last().1)
    }
}

/// The lines of a request that may hold headers: all but the first and the
/// last.
pub open spec fn header_lines(lines: Seq<Seq<char>>) -> Seq<Seq<char>> {
    if lines.len() >= 2 {
        lines.subrange(1, lines.len() - 1)
    } else {
        Seq::empty()
    }
}

pub struct RequestView {
    pub method: Seq<char>,
    pub url: Seq<char>,
    pub version: Seq<char>,
    pub headers: Seq<(Seq<char>, Seq<char>)>,
}

/// The request that `text` holds: `None` where its first line has fewer
/// than three fields. Fields past the third are ignored, and so is the last
/// line, which is the body (empty after a final CRLF).
pub open spec fn request_of(text: Seq<char>) -> Option<RequestView> {
    let lines = split(text, crlf());
    let fields = split(lines[0], space());
    if fields.len() < 3 {
        None
    } else {
        Some(
            RequestView {
                method: fields[0],
                url: fields[1],
                version: fields[2],
                headers: header_pairs(header_lines(lines)),
            },
        )
    }
}

proof fn lemma_last_wins_prefix(
    p: Seq<(Seq<char>, Seq<char>)>,
    i: int,
    key: Seq<char>,
)
    requires
        0 <= i <= p.len(),
        forall|k: int| i <= k < p.len() ==> (#[trigger] p[k]).0 != key,
    ensures
        last_wins(p).contains_key(key) == last_wins(p.subrange(0, i)).contains_key(key),
        last_wins(p).contains_key(key) ==> last_wins(p)[key] == last_wins(p.subrange(0, i))[key],
    decreases p.len(),
{
    if p.len() == i {
        assert(p.subrange(0, i) =~= p);
    } else {
        assert(p.drop_last().subrange(0, i) =~= p.subrange(0, i));
        assert(p.last() == p[p.len() - 1]);
        lemma_last_wins_prefix(p.drop_last(), i, key);
    }
}

/// Whether two character vectors hold the same text.
pub(crate) fn chars_eq(a: &Vec<char>, b: &Vec<char>) -> (r: bool)
    ensures
        r == (a@ == b@),
{
    if a.len() != b.len() {
        return false;
    }
    let mut k: usize = 0;
    while k < a.len()
        invariant
            a@.len() == b@.len(),
            k <= a@.len(),
            forall|j: int| 0 <= j < k ==> a@[j] == b@[j],
        decreases a@.len() - k,
    {
        if a[k] != b[k] {
            return false;
        }
        k = k + 1;
    }
    assert(a@ =~= b@);
    true
}

/// The views of a vector of pairs of character vectors.
pub open spec fn pair_views(v: Seq<(Vec<char>, Vec<char>)>) -> Seq<(Seq<char>, Seq<char>)> {
    v.map_values(|p: (Vec<char>, Vec<char>)| (p.0@, p.1@))
}

/// The value of the last pair whose key is `key`.
pub(crate) fn lookup_last<'a>(pairs: &'a Vec<(Vec<char>, Vec<char>)>, key: &Vec<char>) -> (r: Option<
    &'a Vec<char>,
>)
    ensures
        match r {
            Some(v) => last_wins(pair_views(pairs@)).contains_key(key@) && last_wins(
                pair_views(pairs@),
            )[key@] == v@,
            None => !last_wins(pair_views(pairs@)).contains_key(key@),
        },
{
    let ghost pv = pair_views(pairs@);
    let mut i: usize = pairs.len();
    while i > 0
        invariant
            i <= pairs@.len(),
            pv == pair_views(pairs@),
            forall|k: int| i <= k < pv.len() ==> (#[trigger] pv[k]).0 != key@,
        decreases i,
    {
        let j = i - 1;
        if chars_eq(&pairs[j].0, key) {
            proof {
                lemma_last_wins_prefix(pv, i as int, key@);
                assert(pv.subrange(0, i as int).drop_last() =~= pv.subrange(0, j as int));
                assert(pv.subrange(0, i as int).last() == pv[j as int]);
            }
            return Some(&pairs[j].1);
        }
        i = j;
    }
    proof {
        lemma_last_wins_prefix(pv, 0, key@);
        assert(pv.subrange(0, 0) =~= Seq::<(Seq<char>, Seq<char>)>::empty());
    }
    None
}

/// A request read from a connection.
pub struct HttpRequest {
    method: Vec<char>,
    url: Vec<char>,
    version: Vec<char>,
    headers: Vec<(Vec<char>, Vec<char>)>,
}

impl View for HttpRequest {
    type V = RequestView;

    closed spec fn view(&self) -> RequestView {
        RequestView {
            method: self.method@,
            url: self.url@,
            version: self.version@,
            headers: pair_views(self.headers@),
        }
    }
}

impl HttpRequest {
    /// Parses the bytes read from a connection; `None` where the request
    /// line has fewer than three fields.
    pub fn parse(buffer: &[u8]) -> (r: Option<HttpRequest>)
        ensures
            match r {
                Some(q) => request_of(lossy_text(buffer@)) == Some(q@),
                None => request_of(lossy_text(buffer@)) is None,
            },
    {
        let text = decode_lossy(buffer);
        HttpRequest::from_text(&text)
    }

    /// Parses a request from its decoded text; `None` where the request line
    /// has fewer than three fields.
    pub fn from_text(text: &Vec<char>) -> (r: Option<HttpRequest>)
        ensures
            match r {
                Some(q) => request_of(text@) == Some(q@),
                None => request_of(text@) is None,
            },
    {
        let crlf_sep: Vec<char> = vec!['\r', '\n'];
        let space_sep: Vec<char> = vec![' '];
        let lines = split_chars(text, &crlf_sep);
        proof {
            lemma_split_from_nonempty(text@, crlf(), 0, 0);
            assert(crlf_sep@ =~= crlf());
            assert(space_sep@ =~= space());
            assert(char_views(lines@)[0] == lines@[0]@);
        }
        let fields = split_chars(&lines[0], &space_sep);
        if fields.len() < 3 {
            return None;
        }
        proof {
            assert(char_views(fields@)[0] == fields@[0]@);
            assert(char_views(fields@)[1] == fields@[1]@);
            assert(char_views(fields@)[2] == fields@[2]@);
        }
        let headers = header_list(&lines);
        let q = HttpRequest {
            method: copy_range(&fields[0], 0, fields[0].len()),
            url: copy_range(&fields[1], 0, fields[1].len()),
            version: copy_range(&fields[2], 0, fields[2].len()),
            headers,
        };
        proof {
            assert(fields@[0]@.subrange(0, fields@[0]@.len() as int) =~= fields@[0]@);
            assert(fields@[1]@.subrange(0, fields@[1]@.len() as int) =~= fields@[1]@);
            assert(fields@[2]@.subrange(0, fields@[2]@.len() as int) =~= fields@[2]@);
        }
        Some(q)
    }

    pub fn method(&self) -> (r: &Vec<char>)
        ensures
            r@ == self@.method,
    {
        &self.method
    }

    pub fn url(&self) -> (r: &Vec<char>)
        ensures
            r@ == self@.url,
    {
        &self.url
    }

    pub fn version(&self) -> (r: &Vec<char>)
        ensures
            r@ == self@.version,
    {
        &self.version
    }

    /// The number of header lines that were read.
    pub fn header_count(&self) -> (r: usize)
        ensures
            r == self@.headers.len(),
    {
        self.headers.len()
    }

    /// The value of header `name`; where it came more than once, the last.
    pub fn header(&self, name: &Vec<char>) -> (r: Option<&Vec<char>>)
        ensures
            match r {
                Some(v) => last_wins(self@.headers).contains_key(name@) && last_wins(
                    self@.headers,
                )[name@] == v@,
                None => !last_wins(self@.headers).contains_key(name@),
            },
    {
        lookup_last(&self.headers, name)
    }
}

/// The headers of the lines of a request: those of every line but the first
/// and the last.
fn header_list(lines: &Vec<Vec<char>>) -> (r: Vec<(Vec<char>, Vec<char>)>)
    requires
        lines@.len() >= 1,
    ensures
        pair_views(r@) == header_pairs(header_lines(char_views(lines@))),
{
    let sep: Vec<char> = vec![':', ' '];
    assert(sep@ =~= colon_space());
    let ghost ls = char_views(lines@);
    let mut r: Vec<(Vec<char>, Vec<char>)> = Vec::new();
    let mut i: usize = 1;
    while i < lines.len() - 1
        invariant
            lines@.len() >= 1,
            1 <= i <= lines@.len() - 1 || (i == 1 && lines@.len() == 1),
            ls == char_views(lines@),
            sep@ == colon_space(),
            pair_views(r@) == header_pairs(ls.subrange(1, i as int)),
        decreases lines@.len() - i,
    {
        let ghost before = r@;
        let h = split_chars(&lines[i], &sep);
        assert(ls.subrange(1, i + 1).drop_last() =~= ls.subrange(1, i as int));
        assert(ls.subrange(1, i + 1).last() == lines@[i as int]@);
        if h.len() > 1 {
            proof {
                assert(char_views(h@)[0] == h@[0]@);
                assert(char_views(h@)[1] == h@[1]@);
                assert(h@[0]@.subrange(0, h@[0]@.len() as int) =~= h@[0]@);
                assert(h@[1]@.subrange(0, h@[1]@.len() as int) =~= h@[1]@);
            }
            let name = copy_range(&h[0], 0, h[0].len());
            let value = copy_range(&h[1], 0, h[1].len());
            r.push((name, value));
            assert(pair_views(r@) =~= pair_views(before).push((name@, value@)));
        }
        i = i + 1;
    }
    proof {
        if lines@.len() == 1 {
            assert(ls.subrange(1, 1) =~= Seq::<Seq<char>>::empty());
        }
    }
    r
}

} // verus!
