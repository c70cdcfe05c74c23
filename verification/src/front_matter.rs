//! The front-matter parser: a page starts with a line of three or more
//! dashes, a block of `key: value` lines, and a closing line of three
//! or more dashes; the rest of the file is the body. The body is
//! rendered to HTML and stored under the reserved `content` key, which
//! wins over any explicit key of that name; the metadata must then hold
//! a `template` key, or the page is rejected.

use vstd::prelude::*;

use crate::bytes::{
    copy_range, dash_run, dash_run_from, find_byte, find_byte_from, is_ws, lemma_dash_run_is,
    lemma_dash_run_shift, lemma_find_byte, lemma_find_byte_is, trim_back, trim_front, trim_range,
    trim_ws,
};
use crate::md::{html_of, markdown_to_html};
use crate::meta::{insert_pair, lemma_lookup_insert, lookup, Metadata};

verus! {

/// A position where the closing delimiter may start: the start of a
/// line at or after `start` that holds three or more dashes.
pub open spec fn valid_close(s: Seq<u8>, start: int, p: int) -> bool {
    start <= p <= s.len() && (p == start || s[p - 1] == 10) && dash_run(s, p) >= 3
}

/// The last closing-delimiter position at or before `hi`: the block is
/// closed greedily, by the final candidate line.
pub open spec fn last_close_upto(s: Seq<u8>, start: int, hi: int) -> Option<int>
    decreases hi - start,
{
    if hi < start {
        None
    } else if valid_close(s, start, hi) {
        Some(hi)
    } else if hi == start {
        None
    } else {
        last_close_upto(s, start, hi - 1)
    }
}

pub open spec fn last_close(s: Seq<u8>, start: int) -> Option<int> {
    last_close_upto(s, start, s.len() as int)
}

pub proof fn lemma_last_close_upto(s: Seq<u8>, start: int, hi: int)
    ensures
        match last_close_upto(s, start, hi) {
            Some(p) => start <= p <= hi && valid_close(s, start, p) && (forall|q: int|
                p < q <= hi ==> !valid_close(s, start, q)),
            None => forall|q: int| start <= q <= hi ==> !valid_close(s, start, q),
        },
    decreases hi - start,
{
    if hi > start && !valid_close(s, start, hi) {
        lemma_last_close_upto(s, start, hi - 1);
    }
}

/// A candidate with no later candidate is the one found.
pub proof fn lemma_last_close_is(s: Seq<u8>, start: int, hi: int, p: int)
    requires
        start <= p <= hi,
        valid_close(s, start, p),
        forall|q: int| p < q <= hi ==> !valid_close(s, start, q),
    ensures
        last_close_upto(s, start, hi) == Some(p),
    decreases hi - start,
{
    if hi > p {
        lemma_last_close_is(s, start, hi - 1, p);
    }
}

fn find_last_close(s: &Vec<u8>, start: usize) -> (r: Option<usize>)
    requires
        start <= s@.len(),
    ensures
        match last_close(s@, start as int) {
            Some(p) => r == Some(p as usize),
            None => r is None,
        },
{
    let mut hi: usize = s.len();
    loop
        invariant
            start <= hi <= s@.len(),
            last_close(s@, start as int) == last_close_upto(s@, start as int, hi as int),
        decreases hi,
    {
        let at_line_start = hi == start || s[hi - 1] == 10;
        if at_line_start {
            let run = dash_run_from(s, hi);
            if run >= 3 {
                return Some(hi);
            }
        }
        if hi == start {
            return None;
        }
        hi = hi - 1;
    }
}

/// The split of a page into its metadata block and its body: the text
/// must open with a dashed line; the block then runs to the last line
/// that starts with three or more dashes; the body is what follows that
/// line's dashes, less the line break that ends the delimiter line.
pub open spec fn fm_split(s: Seq<u8>) -> Option<(Seq<u8>, Seq<u8>)> {
    let d = dash_run(s, 0);
    if 3 <= d && d < s.len() && s[d] == 10 {
        match last_close(s, d + 1) {
            Some(p) => {
                let e = p + dash_run(s, p);
                let tail = s.skip(e);
                let body = if tail.len() > 0 && tail[0] == 10 {
                    tail.drop_first()
                } else {
                    tail
                };
                Some((s.subrange(d + 1, p), body))
            },
            None => None,
        }
    } else {
        None
    }
}

/// End of the line that starts at `k`: the first line feed at or after
/// `k`, or the end of the text.
pub open spec fn line_end(s: Seq<u8>, k: int) -> int {
    match find_byte(s, k, 10) {
        Some(x) => x,
        None => s.len() as int,
    }
}

/// The key/value pair of one metadata line, if the line holds a colon:
/// the key is the trimmed text before the first colon, the value the
/// trimmed remainder of the line. A line without a colon yields none.
pub open spec fn line_pair(s: Seq<u8>, k: int, e: int) -> Option<(Seq<u8>, Seq<u8>)> {
    match find_byte(s, k, 58) {
        Some(c) => if c < e {
            Some((trim_ws(s.subrange(k, c)), trim_ws(s.subrange(c + 1, e))))
        } else {
            None
        },
        None => None,
    }
}

/// The key/value pairs of the metadata block, line by line, in order.
pub open spec fn parse_pairs(data: Seq<u8>, k: int) -> Seq<(Seq<u8>, Seq<u8>)>
    decreases data.len() - k,
    via parse_pairs_decreases
{
    if !(0 <= k < data.len()) {
        Seq::empty()
    } else {
        let e = line_end(data, k);
        let rest = if e + 1 < data.len() {
            parse_pairs(data, e + 1)
        } else {
            Seq::empty()
        };
        match line_pair(data, k, e) {
            Some(pr) => seq![pr] + rest,
            None => rest,
        }
    }
}

#[via_fn]
proof fn parse_pairs_decreases(data: Seq<u8>, k: int) {
    if 0 <= k < data.len() {
        lemma_find_byte(data, k, 10);
    }
}

/// The pairs folded, in order, into a mapping: a later duplicate key
/// overwrites an earlier one.
pub open spec fn meta_fold(acc: Seq<(Seq<u8>, Seq<u8>)>, ps: Seq<(Seq<u8>, Seq<u8>)>) -> Seq<
    (Seq<u8>, Seq<u8>),
>
    decreases ps.len(),
{
    if ps.len() == 0 {
        acc
    } else {
        meta_fold(insert_pair(acc, ps[0].0, ps[0].1), ps.drop_first())
    }
}

pub open spec fn meta_of_pairs(ps: Seq<(Seq<u8>, Seq<u8>)>) -> Seq<(Seq<u8>, Seq<u8>)> {
    meta_fold(Seq::empty(), ps)
}

/// The reserved key that holds the HTML-rendered body.
pub open spec fn content_key() -> Seq<u8> {
    seq![99u8, 111u8, 110u8, 116u8, 101u8, 110u8, 116u8]
}

/// The key that names the template a page is rendered into.
pub open spec fn template_key() -> Seq<u8> {
    seq![116u8, 101u8, 109u8, 112u8, 108u8, 97u8, 116u8, 101u8]
}

/// The full metadata of a page whose text splits into `data` and
/// `body`: the parsed pairs, then the rendered body under `content`.
pub open spec fn page_meta(data: Seq<u8>, body: Seq<u8>) -> Seq<(Seq<u8>, Seq<u8>)> {
    insert_pair(meta_of_pairs(parse_pairs(data, 0)), content_key(), html_of(body))
}

fn content_key_vec() -> (r: Vec<u8>)
    ensures
        r@ == content_key(),
{
    let mut r: Vec<u8> = Vec::new();
    r.push(99u8);
    r.push(111u8);
    r.push(110u8);
    r.push(116u8);
    r.push(101u8);
    r.push(110u8);
    r.push(116u8);
    proof {
        assert(r@ =~= content_key());
    }
    r
}

fn template_key_vec() -> (r: Vec<u8>)
    ensures
        r@ == template_key(),
{
    let mut r: Vec<u8> = Vec::new();
    r.push(116u8);
    r.push(101u8);
    r.push(109u8);
    r.push(112u8);
    r.push(108u8);
    r.push(97u8);
    r.push(116u8);
    r.push(101u8);
    proof {
        assert(r@ =~= template_key());
    }
    r
}

/// Why a page fails to load.
#[derive(Clone, Copy, Debug, PartialEq, Eq, Structural)]
pub enum PageError {
    /// The text does not open with a delimited metadata block.
    MissingFrontMatter,
    /// The metadata block does not bind the `template` key.
    MissingTemplateKey,
}

/// A loaded page: the name of its template and its metadata, which
/// holds the rendered body under `content`.
pub struct Page {
    pub template: Vec<u8>,
    pub meta: Metadata,
}

/// Parse a page's raw text into a `Page`.
#[verifier::loop_isolation(false)]
pub fn parse_page(content: &Vec<u8>) -> (r: Result<Page, PageError>)
    ensures
        match fm_split(content@) {
            None => r == Err::<Page, PageError>(PageError::MissingFrontMatter),
            Some((data, body)) => {
                let m = page_meta(data, body);
                match lookup(m, template_key()) {
                    Some(t) => r matches Ok(p) && p.meta@ == m && p.meta.wf() && p.template@ == t,
                    None => r == Err::<Page, PageError>(PageError::MissingTemplateKey),
                }
            },
        },
{
    let d = dash_run_from(content, 0);
    if !(d >= 3 && d < content.len() && content[d] == 10) {
        return Err(PageError::MissingFrontMatter);
    }
    let p = match find_last_close(content, d + 1) {
        Some(p) => p,
        None => {
            return Err(PageError::MissingFrontMatter);
        },
    };
    proof {
        lemma_last_close_upto(content@, d + 1, content@.len() as int);
    }
    let run = dash_run_from(content, p);
    let e = p + run;
    let data = copy_range(content, d + 1, p);
    let body = if e < content.len() && content[e] == 10 {
        copy_range(content, e + 1, content.len())
    } else {
        copy_range(content, e, content.len())
    };
    proof {
        let tail = content@.skip(e as int);
        let sbody = fm_split(content@)->Some_0.1;
        if tail.len() > 0 && tail[0] == 10 {
            assert(tail.drop_first() =~= content@.subrange(e + 1, content@.len() as int));
        }
        assert(body@ == sbody);
    }

    let mut meta = Metadata::new();
    let mut k: usize = 0;
    proof {
        assert(data@.subrange(0, data@.len() as int) =~= data@);
    }
    while k < data.len()
        invariant
            k <= data@.len(),
            meta.wf(),
            meta_fold(meta@, parse_pairs(data@, k as int)) == meta_of_pairs(
                parse_pairs(data@, 0),
            ),
        decreases data@.len() - k,
    {
        let e_line = match find_byte_from(&data, k, 10) {
            Some(x) => x,
            None => data.len(),
        };
        proof {
            lemma_find_byte(data@, k as int, 10);
            assert(e_line as int == line_end(data@, k as int));
            lemma_find_byte(data@, k as int, 58);
        }
        let ghost ps = parse_pairs(data@, k as int);
        match find_byte_from(&data, k, 58) {
            Some(c) if c < e_line => {
                let key = trim_range(&data, k, c);
                let val = trim_range(&data, c + 1, e_line);
                proof {
                    let pr = line_pair(data@, k as int, e_line as int)->Some_0;
                    assert(ps[0] == pr);
                    assert(ps.drop_first() =~= if e_line + 1 < data@.len() {
                        parse_pairs(data@, e_line + 1)
                    } else {
                        Seq::<(Seq<u8>, Seq<u8>)>::empty()
                    });
                }
                meta.insert(key, val);
            },
            _ => {},
        }
        if e_line < data.len() {
            k = e_line + 1;
        } else {
            k = data.len();
        }
    }

    let html = markdown_to_html(&body);
    meta.insert(content_key_vec(), html);
    proof {
        assert(meta@ == page_meta(data@, body@));
    }
    let tk = template_key_vec();
    match meta.get(&tk) {
        Some(t) => Ok(Page { template: t, meta }),
        None => Err(PageError::MissingTemplateKey),
    }
}

/// Missing front matter: a page that does not open with a dashed line
/// fails the split as a whole — no partial metadata comes back.
pub proof fn lemma_missing_front_matter(s: Seq<u8>)
    requires
        s.len() == 0 || s[0] != 45,
    ensures
        fm_split(s) is None,
{
    assert(dash_run(s, 0) == 0);
}

/// Front-matter round trip: for a page of the shape
/// `---\nkey: value\n---\nbody`, the split yields exactly `body`, and
/// the page metadata binds `key` to `value` and `content` to the
/// rendered body. The body must not hold a line that itself starts
/// with three or more dashes: such a line would close the block later.
pub proof fn lemma_front_matter_round_trip(key: Seq<u8>, value: Seq<u8>, body: Seq<u8>)
    requires
        key.len() > 0,
        !is_ws(key[0]),
        !is_ws(key.last()),
        forall|i: int| 0 <= i < key.len() ==> #[trigger] key[i] != 58 && key[i] != 10,
        value.len() == 0 || (!is_ws(value[0]) && !is_ws(value.last())),
        forall|i: int| 0 <= i < value.len() ==> #[trigger] value[i] != 10,
        key != content_key(),
        forall|q: int|
            0 <= q < body.len() && (q == 0 || body[q - 1] == 10) ==> #[trigger] dash_run(body, q)
                < 3,
    ensures
        ({
            let s = seq![45u8, 45u8, 45u8, 10u8] + key + seq![58u8, 32u8] + value + seq![
                10u8,
                45u8,
                45u8,
                45u8,
                10u8,
            ] + body;
            let data = key + seq![58u8, 32u8] + value + seq![10u8];
            let m = page_meta(data, body);
            fm_split(s) == Some((data, body)) && lookup(m, key) == Some(value) && lookup(
                m,
                content_key(),
            ) == Some(html_of(body))
        }),
{
    let s = seq![45u8, 45u8, 45u8, 10u8] + key + seq![58u8, 32u8] + value + seq![
        10u8,
        45u8,
        45u8,
        45u8,
        10u8,
    ] + body;
    let data = key + seq![58u8, 32u8] + value + seq![10u8];
    let klen = key.len() as int;
    let vlen = value.len() as int;
    let p0 = 4 + klen + 2 + vlen + 1;

    assert(s.len() == p0 + 4 + body.len());
    assert(s[0] == 45 && s[1] == 45 && s[2] == 45 && s[3] == 10);
    assert(forall|m: int| 0 <= m < klen ==> s[4 + m] == key[m]);
    assert(s[4 + klen] == 58 && s[5 + klen] == 32);
    assert(forall|m: int| 0 <= m < vlen ==> s[6 + klen + m] == value[m]);
    assert(s[p0 - 1] == 10);
    assert(s[p0] == 45 && s[p0 + 1] == 45 && s[p0 + 2] == 45 && s[p0 + 3] == 10);
    assert(forall|m: int| 0 <= m < body.len() ==> s[p0 + 4 + m] == body[m]);

    lemma_dash_run_is(s, 0, 3);
    lemma_dash_run_is(s, p0, 3);
    assert(valid_close(s, 4, p0));
    assert forall|q: int| p0 < q <= s.len() implies !valid_close(s, 4, q) by {
        if q <= p0 + 3 {
            assert(s[q - 1] == 45);
        } else if q == p0 + 4 || s[q - 1] == 10 {
            let t = q - (p0 + 4);
            assert(0 <= t <= body.len());
            if t > 0 {
                assert(body[t - 1] == s[q - 1]);
            }
            lemma_dash_run_shift(s, p0 + 4, body, t);
            if t < body.len() {
                assert(dash_run(body, t) < 3);
            } else {
                assert(dash_run(body, t) == 0);
            }
        }
    }
    lemma_last_close_is(s, 4, s.len() as int, p0);

    let e = p0 + 3;
    assert(s.skip(e).len() > 0 && s.skip(e)[0] == 10);
    assert(s.skip(e).drop_first() =~= body);
    assert(s.subrange(4, p0) =~= data);
    assert(fm_split(s) == Some((data, body)));

    let e_line = klen + 2 + vlen;
    assert(data.len() == e_line + 1);
    assert(forall|m: int| 0 <= m < klen ==> data[m] == key[m]);
    assert(data[klen] == 58 && data[klen + 1] == 32);
    assert(forall|m: int| 0 <= m < vlen ==> data[klen + 2 + m] == value[m]);
    assert(data[e_line] == 10);
    lemma_find_byte_is(data, 0, e_line, 10);
    lemma_find_byte_is(data, 0, klen, 58);
    assert(line_end(data, 0) == e_line);

    assert(data.subrange(0, klen) =~= key);
    assert(trim_front(key) == key);
    assert(trim_back(key) == key);
    assert(data.subrange(klen + 1, e_line) =~= seq![32u8] + value);
    assert((seq![32u8] + value).drop_first() =~= value);
    assert(trim_front(seq![32u8] + value) == trim_front(value));
    assert(trim_front(value) == value);
    assert(trim_back(value) == value);
    assert(line_pair(data, 0, e_line) == Some((key, value)));
    assert(parse_pairs(data, 0) =~= seq![(key, value)]);

    let ps = seq![(key, value)];
    assert(ps[0] == (key, value));
    assert(insert_pair(Seq::empty(), key, value) == seq![(key, value)]);
    assert(ps.drop_first() =~= Seq::<(Seq<u8>, Seq<u8>)>::empty());
    assert(meta_of_pairs(ps) == meta_fold(insert_pair(Seq::empty(), key, value), ps.drop_first()));
    assert(meta_of_pairs(ps) == seq![(key, value)]);
    assert(meta_of_pairs(parse_pairs(data, 0)) == seq![(key, value)]);

    let m0 = seq![(key, value)];
    let m = page_meta(data, body);
    assert(m0[0] == (key, value));
    assert(lookup(m0, key) == Some(value));
    lemma_lookup_insert(m0, content_key(), html_of(body), key);
    lemma_lookup_insert(m0, content_key(), html_of(body), content_key());
}

} // verus!
