//! The content renderer: placeholders of the form `{{= key}}` in a
//! composed template are replaced by the page metadata value bound to
//! the exact key text, in a single left-to-right scan of the template,
//! so no substituted value is ever re-scanned. A placeholder whose key
//! is unknown is left in place.

use vstd::prelude::*;

use crate::bytes::{copy_range, find_close, find_close_from};
use crate::front_matter::Page;
use crate::meta::{lookup, Metadata};

verus! {

/// A placeholder starts at `k`: the marker `{{= ` and a closing `}}`.
pub open spec fn placeholder_token_at(s: Seq<u8>, k: int) -> bool {
    &&& 0 <= k
    &&& k + 4 <= s.len()
    &&& s[k] == 123
    &&& s[k + 1] == 123
    &&& s[k + 2] == 61
    &&& s[k + 3] == 32
    &&& (find_close(s, k + 4) matches Some(j) && k + 4 <= j && j + 2 <= s.len())
}

/// The rendered text, scanning from `k`: each placeholder whose key is
/// bound becomes its value; every other byte is kept as it stands.
pub open spec fn render_from(s: Seq<u8>, meta: Seq<(Seq<u8>, Seq<u8>)>, k: int) -> Seq<u8>
    decreases s.len() - k,
{
    if !(0 <= k < s.len()) {
        Seq::empty()
    } else if placeholder_token_at(s, k) {
        match find_close(s, k + 4) {
            Some(j) => {
                let key = s.subrange(k + 4, j);
                let rest = render_from(s, meta, j + 2);
                match lookup(meta, key) {
                    Some(v) => v + rest,
                    None => s.subrange(k, j + 2) + rest,
                }
            },
            None => Seq::empty(),
        }
    } else {
        seq![s[k]] + render_from(s, meta, k + 1)
    }
}

/// Substitute every bound `{{= key}}` placeholder of the composed
/// template with the page metadata value of `key`.
#[verifier::loop_isolation(false)]
pub fn create_content(template: &Vec<u8>, keys: &Metadata) -> (r: Vec<u8>)
    ensures
        r@ == render_from(template@, keys@, 0),
{
    let mut out: Vec<u8> = Vec::new();
    let mut k: usize = 0;
    while k < template.len()
        invariant
            k <= template@.len(),
            render_from(template@, keys@, 0) == out@ + render_from(template@, keys@, k as int),
        decreases template@.len() - k,
    {
        let ghost pre = render_from(template@, keys@, k as int);
        let mut is_token = false;
        let mut close: usize = 0;
        if template.len() - k >= 4 && template[k] == 123 && template[k + 1] == 123
            && template[k + 2] == 61 && template[k + 3] == 32 {
            match find_close_from(template, k + 4) {
                Some(j) => {
                    is_token = true;
                    close = j;
                },
                None => {},
            }
        }
        if is_token {
            let ghost j = close as int;
            proof {
                assert(placeholder_token_at(template@, k as int));
            }
            let ghost rest = render_from(template@, keys@, j + 2);
            let key = copy_range(template, k + 4, close);
            match keys.get(&key) {
                Some(v) => {
                    proof {
                        assert(pre == v@ + rest);
                    }
                    let mut vv = v;
                    out.append(&mut vv);
                },
                None => {
                    proof {
                        assert(pre == template@.subrange(k as int, j + 2) + rest);
                    }
                    let mut tok = copy_range(template, k, close + 2);
                    out.append(&mut tok);
                },
            }
            proof {
                assert(out@ + rest =~= render_from(template@, keys@, 0));
            }
            k = close + 2;
        } else {
            proof {
                assert(!placeholder_token_at(template@, k as int));
                assert(pre == seq![template@[k as int]] + render_from(
                    template@,
                    keys@,
                    k + 1,
                ));
            }
            out.push(template[k]);
            proof {
                assert(out@ + render_from(template@, keys@, k + 1) =~= render_from(
                    template@,
                    keys@,
                    0,
                ));
            }
            k = k + 1;
        }
    }
    proof {
        assert(out@ + render_from(template@, keys@, k as int) =~= out@);
    }
    out
}

/// What a page renders to against a template mapping: the rendered text
/// when its template's name is bound, nothing when it is not.
pub open spec fn page_output(templates: Seq<(Seq<u8>, Seq<u8>)>, p: Page) -> Option<Seq<u8>> {
    match lookup(templates, p.template@) {
        Some(t) => Some(render_from(t, p.meta@, 0)),
        None => None,
    }
}

/// The rendered text matches the planned output.
pub open spec fn output_matches(o: Option<Vec<u8>>, s: Option<Seq<u8>>) -> bool {
    match (o, s) {
        (Some(v), Some(t)) => v@ == t,
        (None, None) => true,
        _ => false,
    }
}

/// Render every page against its named template. A page whose template
/// name is unknown is skipped, and every other page still renders.
#[verifier::loop_isolation(false)]
pub fn render_all(templates: &Metadata, pages: &Vec<Page>) -> (r: Vec<Option<Vec<u8>>>)
    ensures
        r@.len() == pages@.len(),
        forall|i: int|
            0 <= i < pages@.len() ==> output_matches(
                #[trigger] r@[i],
                page_output(templates@, pages@[i]),
            ),
{
    let mut r: Vec<Option<Vec<u8>>> = Vec::new();
    let mut i: usize = 0;
    while i < pages.len()
        invariant
            i == r@.len(),
            i <= pages@.len(),
            forall|n: int|
                0 <= n < i ==> output_matches(#[trigger] r@[n], page_output(templates@, pages@[n])),
        decreases pages@.len() - i,
    {
        match templates.get(&pages[i].template) {
            Some(t) => {
                let rendered = create_content(&t, &pages[i].meta);
                r.push(Some(rendered));
            },
            None => {
                r.push(None);
            },
        }
        i = i + 1;
    }
    r
}

} // verus!
