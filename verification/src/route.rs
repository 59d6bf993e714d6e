//! Route resolution: maps a request's path segments to the path of a source
//! document under the content root, rejecting traversal attempts.

use vstd::prelude::*;
use crate::text::contains_seq;
use crate::text::occurs_at;
use crate::text::to_chars;
use crate::text::chars_to_string;
use crate::text::str_eq;
use crate::text::push_str_chars;

verus! {

/// A segment that must not take part in a file path: empty, holding a path
/// separator, or holding `..`.
pub open spec fn bad_segment(seg: Seq<char>) -> bool {
    ||| seg.len() == 0
    ||| (exists|i: int| 0 <= i < seg.len() && (#[trigger] seg[i]) == '/')
    ||| (exists|i: int| 0 <= i < seg.len() && (#[trigger] seg[i]) == '\\')
    ||| contains_seq(seg, ".."@)
}

pub open spec fn any_bad(segs: Seq<Seq<char>>) -> bool {
    exists|i: int| 0 <= i < segs.len() && bad_segment(#[trigger] segs[i])
}

/// `/<seg>` for every segment from `i` on, in order.
pub open spec fn path_of(segs: Seq<Seq<char>>, i: int) -> Seq<char>
    decreases segs.len() - i,
{
    if i < 0 || i >= segs.len() {
        Seq::empty()
    } else {
        seq!['/'] + segs[i] + path_of(segs, i + 1)
    }
}

/// The segments name the root document.
pub open spec fn is_root_request(segs: Seq<Seq<char>>) -> bool {
    segs.len() == 0 || (segs.len() == 1 && segs[0] == "index"@)
}

/// The source file that a request's segments name: the root document for an
/// empty request or `index`, none when a segment is empty, holds a path
/// separator or `..`, and `<root>/<segments joined by `/`>.md` otherwise.
pub open spec fn spec_resolve(root: Seq<char>, segs: Seq<Seq<char>>) -> Option<Seq<char>> {
    if is_root_request(segs) {
        Some(root + "/index.md"@)
    } else if any_bad(segs) {
        None
    } else {
        Some(root + path_of(segs, 0) + ".md"@)
    }
}

pub open spec fn segs_view(v: Seq<String>) -> Seq<Seq<char>> {
    Seq::new(v.len(), |i: int| v[i]@)
}

/// `..` occurs at `i` exactly when two dots stand at `i` and `i + 1`.
pub proof fn lemma_dotdot_at(s: Seq<char>, i: int)
    requires
        0 <= i,
        i + 2 <= s.len(),
    ensures
        occurs_at(s, ".."@, i) <==> (s[i] == '.' && s[i + 1] == '.'),
{
    reveal_strlit("..");
    if s[i] == '.' && s[i + 1] == '.' {
        assert(s.subrange(i, i + 2) =~= ".."@);
    }
    if occurs_at(s, ".."@, i) {
        assert(s.subrange(i, i + 2)[0] == '.');
        assert(s.subrange(i, i + 2)[1] == '.');
    }
}

/// Whether `seg` is rejected by the resolver.
pub fn is_bad_segment(seg: &str) -> (r: bool)
    ensures
        r == bad_segment(seg@),
{
    let v = to_chars(seg);
    let n = v.len();
    if n == 0 {
        return true;
    }
    let mut i: usize = 0;
    while i < n
        invariant
            n == seg@.len(),
            v@ == seg@,
            0 <= i <= n,
            forall|j: int| 0 <= j < i ==> seg@[j] != '/' && seg@[j] != '\\',
            forall|j: int|
                0 <= j && j + 1 < i ==> !((#[trigger] seg@[j]) == '.' && seg@[j + 1] == '.'),
        decreases n - i,
    {
        let c = v[i];
        if c == '/' || c == '\\' {
            return true;
        }
        if i >= 1 && c == '.' && v[i - 1] == '.' {
            proof {
                lemma_dotdot_at(seg@, i - 1);
            }
            return true;
        }
        i += 1;
    }
    proof {
        assert forall|k: int| !occurs_at(seg@, ".."@, k) by {
            if 0 <= k && k + 2 <= seg@.len() {
                lemma_dotdot_at(seg@, k);
            } else {
                reveal_strlit("..");
            }
        }
        assert(!contains_seq(seg@, ".."@));
    }
    false
}

/// Resolves request segments to the path of the source document, or to
/// `None` when the request must be answered with the not-found page.
pub fn resolve(content_root: &str, segments: &Vec<String>) -> (r: Option<String>)
    ensures
        r is Some <==> spec_resolve(content_root@, segs_view(segments@)) is Some,
        r is Some ==> r->0@ == spec_resolve(content_root@, segs_view(segments@))->0,
{
    let ghost gsegs = segs_view(segments@);
    if segments.len() == 0 || (segments.len() == 1 && str_eq(segments[0].as_str(), "index")) {
        let mut out = to_chars(content_root);
        push_str_chars(&mut out, "/index.md");
        return Some(chars_to_string(&out));
    }
    assert(!is_root_request(gsegs));
    let n = segments.len();
    let mut i: usize = 0;
    while i < n
        invariant
            n == segments@.len(),
            gsegs == segs_view(segments@),
            !is_root_request(gsegs),
            0 <= i <= n,
            forall|j: int| 0 <= j < i ==> !bad_segment(#[trigger] gsegs[j]),
        decreases n - i,
    {
        if is_bad_segment(segments[i].as_str()) {
            assert(bad_segment(gsegs[i as int]));
            return None;
        }
        i += 1;
    }
    assert(!any_bad(gsegs));
    let mut out = to_chars(content_root);
    let mut k: usize = 0;
    while k < n
        invariant
            n == segments@.len(),
            gsegs == segs_view(segments@),
            0 <= k <= n,
            out@ + path_of(gsegs, k as int) == content_root@ + path_of(gsegs, 0),
        decreases n - k,
    {
        let ghost pre = out@;
        out.push('/');
        push_str_chars(&mut out, segments[k].as_str());
        proof {
            assert(pre + (seq!['/'] + gsegs[k as int] + path_of(gsegs, k + 1)) =~= out@ + path_of(
                gsegs,
                k + 1,
            ));
        }
        k += 1;
    }
    proof {
        assert(out@ + path_of(gsegs, n as int) =~= out@);
    }
    push_str_chars(&mut out, ".md");
    Some(chars_to_string(&out))
}

/// Law: a request in which any segment holds `..` resolves to nothing.
pub proof fn lemma_traversal_rejected(root: Seq<char>, segs: Seq<Seq<char>>)
    requires
        exists|i: int| 0 <= i < segs.len() && contains_seq(#[trigger] segs[i], ".."@),
    ensures
        spec_resolve(root, segs) is None,
{
    let i = choose|i: int| 0 <= i < segs.len() && contains_seq(#[trigger] segs[i], ".."@);
    assert(bad_segment(segs[i]));
    if is_root_request(segs) {
        assert(segs[0] == "index"@);
        let k = choose|k: int| occurs_at(segs[0], ".."@, k);
        reveal_strlit("index");
        reveal_strlit("..");
        assert(segs[0].subrange(k, k + 2)[0] == '.');
        assert(segs[0][k] == '.');
        assert(false);
    }
}

} // verus!
