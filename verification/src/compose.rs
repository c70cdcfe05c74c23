//! The template composer: partial references of the form `{{p name}}`
//! are replaced, in a single left-to-right pass, by the named partial's
//! text. Substituted text is not re-scanned for further references, and
//! an unresolved reference is left in place and reported as a warning.

use vstd::prelude::*;

use crate::bytes::{
    copy_range, is_ws, lemma_scan_name_is, scan_name, scan_name_from, trim_range, trim_ws,
    views_of, ws_byte,
};
use crate::meta::{lookup, Metadata};

verus! {

/// A partial reference starts at `k`: the marker `{{p`, one whitespace
/// byte, and a closing `}}` with no line break in between.
pub open spec fn partial_token_at(s: Seq<u8>, k: int) -> bool {
    &&& 0 <= k
    &&& k + 4 <= s.len()
    &&& s[k] == 123
    &&& s[k + 1] == 123
    &&& s[k + 2] == 112
    &&& is_ws(s[k + 3])
    &&& (scan_name(s, k + 4) matches Some(j) && k + 4 <= j && j + 2 <= s.len())
}

/// The composed text and the missing partial names, scanning from `k`.
/// The referenced name is trimmed before lookup; a found partial's text
/// is emitted whole and scanning resumes after the reference.
pub open spec fn compose_from(s: Seq<u8>, parts: Seq<(Seq<u8>, Seq<u8>)>, k: int) -> (
    Seq<u8>,
    Seq<Seq<u8>>,
)
    decreases s.len() - k,
{
    if !(0 <= k < s.len()) {
        (Seq::empty(), Seq::empty())
    } else if partial_token_at(s, k) {
        match scan_name(s, k + 4) {
            Some(j) => {
                let name = trim_ws(s.subrange(k + 4, j));
                let rest = compose_from(s, parts, j + 2);
                match lookup(parts, name) {
                    Some(b) => (b + rest.0, rest.1),
                    None => (s.subrange(k, j + 2) + rest.0, seq![name] + rest.1),
                }
            },
            None => (Seq::empty(), Seq::empty()),
        }
    } else {
        let rest = compose_from(s, parts, k + 1);
        (seq![s[k]] + rest.0, rest.1)
    }
}

/// Compose one raw template against the partial mapping. Returns the
/// composed text and the names of referenced partials that were absent.
#[verifier::loop_isolation(false)]
pub fn compose_template(raw: &Vec<u8>, partials: &Metadata) -> (r: (Vec<u8>, Vec<Vec<u8>>))
    ensures
        r.0@ == compose_from(raw@, partials@, 0).0,
        views_of(r.1@) == compose_from(raw@, partials@, 0).1,
{
    let mut out: Vec<u8> = Vec::new();
    let mut warns: Vec<Vec<u8>> = Vec::new();
    let mut k: usize = 0;
    proof {
        assert(views_of(warns@) =~= Seq::<Seq<u8>>::empty());
    }
    while k < raw.len()
        invariant
            k <= raw@.len(),
            compose_from(raw@, partials@, 0).0 == out@ + compose_from(
                raw@,
                partials@,
                k as int,
            ).0,
            compose_from(raw@, partials@, 0).1 == views_of(warns@) + compose_from(
                raw@,
                partials@,
                k as int,
            ).1,
        decreases raw@.len() - k,
    {
        let ghost pre = compose_from(raw@, partials@, k as int);
        let mut is_token = false;
        let mut close: usize = 0;
        if raw.len() - k >= 4 && raw[k] == 123 && raw[k + 1] == 123 && raw[k + 2] == 112
            && ws_byte(raw[k + 3]) {
            match scan_name_from(raw, k + 4) {
                Some(j) => {
                    is_token = true;
                    close = j;
                },
                None => {},
            }
        }
        if is_token {
            let ghost j = close as int;
            proof {
                assert(partial_token_at(raw@, k as int));
                assert(pre == compose_from(raw@, partials@, k as int));
            }
            let ghost rest = compose_from(raw@, partials@, j + 2);
            let name = trim_range(raw, k + 4, close);
            match partials.get(&name) {
                Some(b) => {
                    proof {
                        assert(pre.0 == b@ + rest.0 && pre.1 == rest.1);
                    }
                    let mut bb = b;
                    out.append(&mut bb);
                    proof {
                        assert(out@ + rest.0 =~= compose_from(raw@, partials@, 0).0);
                    }
                },
                None => {
                    proof {
                        assert(pre.0 == raw@.subrange(k as int, j + 2) + rest.0);
                        assert(pre.1 == seq![name@] + rest.1);
                    }
                    let mut tok = copy_range(raw, k, close + 2);
                    out.append(&mut tok);
                    let ghost oldw = warns@;
                    let ghost namev = name@;
                    warns.push(name);
                    proof {
                        assert(out@ + rest.0 =~= compose_from(raw@, partials@, 0).0);
                        assert(views_of(warns@) =~= views_of(oldw) + seq![namev]);
                        assert(views_of(warns@) + rest.1 =~= compose_from(raw@, partials@, 0).1);
                    }
                },
            }
            k = close + 2;
        } else {
            proof {
                assert(!partial_token_at(raw@, k as int));
                assert(pre.0 == seq![raw@[k as int]] + compose_from(raw@, partials@, k + 1).0);
            }
            out.push(raw[k]);
            proof {
                assert(out@ + compose_from(raw@, partials@, k + 1).0 =~= compose_from(
                    raw@,
                    partials@,
                    0,
                ).0);
            }
            k = k + 1;
        }
    }
    proof {
        assert(out@ + compose_from(raw@, partials@, k as int).0 =~= out@);
        assert(views_of(warns@) + compose_from(raw@, partials@, k as int).1 =~= views_of(warns@));
    }
    (out, warns)
}

/// Partial inlining is single-pass: a reference to a known partial is
/// replaced by the partial's text exactly as it stands — even when that
/// text itself contains partial references, they are not expanded — and
/// scanning resumes only after the reference.
pub proof fn lemma_compose_single_pass(
    name: Seq<u8>,
    body: Seq<u8>,
    parts: Seq<(Seq<u8>, Seq<u8>)>,
    rest: Seq<u8>,
)
    requires
        lookup(parts, name) == Some(body),
        trim_ws(name) == name,
        forall|i: int| 0 <= i < name.len() ==> #[trigger] name[i] != 125 && name[i] != 10,
    ensures
        ({
            let s = seq![123u8, 123u8, 112u8, 32u8] + name + seq![125u8, 125u8] + rest;
            compose_from(s, parts, 0).0 == body + compose_from(s, parts, name.len() + 6 as int).0
        }),
{
    let s = seq![123u8, 123u8, 112u8, 32u8] + name + seq![125u8, 125u8] + rest;
    let j = 4 + name.len() as int;
    assert(s.len() == name.len() + 6 + rest.len());
    assert(s[0] == 123 && s[1] == 123 && s[2] == 112 && s[3] == 32);
    assert(forall|m: int| 0 <= m < name.len() ==> s[4 + m] == name[m]);
    assert(s[j] == 125 && s[j + 1] == 125);
    assert(forall|m: int| 4 <= m < j ==> s[m] != 125 && s[m] != 10) by {
        assert(forall|m: int| 4 <= m < j ==> s[m] == name[m - 4]);
    }
    lemma_scan_name_is(s, 4, j);
    assert(partial_token_at(s, 0));
    assert(s.subrange(4, j) =~= name);
    assert(compose_from(s, parts, 0).0 == body + compose_from(s, parts, j + 2).0);
}

} // verus!
