//! Image post-processing over rendered HTML: every `<img ...>` tag is
//! rewritten to a normalized form, and images with a non-empty `alt` text
//! are wrapped in a numbered `<figure>` with a caption. Numbering starts at
//! 1 and follows document order.
//!
//! This is a textual pass over the rendered page. A tag matches when
//! `<img` is followed by at least one whitespace character and at least one
//! further character before the next `>`. The `src`, `alt` and `title`
//! attributes are picked out independently of their order, each at the
//! first occurrence of `src="`, `alt="` or `title="` before a closing
//! quote; `src` requires a non-empty value. The `title` value, when
//! present, becomes the image's width style.

use vstd::prelude::*;
use crate::text::find_char_from;
use crate::text::lemma_find_char_from;
use crate::text::occurs_at;
use crate::text::to_chars;
use crate::text::chars_to_string;
use crate::text::push_str_chars;
use crate::text::push_chars;
use crate::text::copy_range;
use crate::text::occurs_at_vec;
use crate::text::find_char_vec;

verus! {

/// Whitespace that may separate `<img` from its attributes.
pub open spec fn is_ws(c: char) -> bool {
    c == ' ' || c == '\t' || c == '\n' || c == '\r'
}

/// First index at or after `i` that does not hold whitespace, or `s.len()`.
pub open spec fn ws_run_end(s: Seq<char>, i: int) -> int
    decreases s.len() - i,
{
    if i < s.len() && is_ws(s[i]) {
        ws_run_end(s, i + 1)
    } else {
        i
    }
}

pub proof fn lemma_ws_run_end(s: Seq<char>, i: int)
    requires
        0 <= i <= s.len(),
    ensures
        i <= ws_run_end(s, i) <= s.len(),
        forall|j: int| i <= j < ws_run_end(s, i) ==> is_ws(s[j]),
        ws_run_end(s, i) < s.len() ==> !is_ws(s[ws_run_end(s, i)]),
    decreases s.len() - i,
{
    if i < s.len() && is_ws(s[i]) {
        lemma_ws_run_end(s, i + 1);
    }
}

/// An image tag begins at `i`: `<img`, one whitespace character, and at
/// least two further characters up to a closing `>` (so that at least one
/// attribute character stands between the whitespace and the `>`).
pub open spec fn img_tag_at(s: Seq<char>, i: int) -> bool {
    &&& occurs_at(s, "<img"@, i)
    &&& i + 4 < s.len()
    &&& is_ws(s[i + 4])
    &&& find_char_from(s, '>', i + 4) < s.len()
    &&& find_char_from(s, '>', i + 4) >= i + 6
}

/// Index where the tag's attribute text begins: past the whitespace run
/// that follows `<img`, kept at least one character short of the `>`.
pub open spec fn attrs_start(s: Seq<char>, i: int) -> int {
    let g = find_char_from(s, '>', i + 4);
    let w = ws_run_end(s, i + 4);
    if w < g {
        w
    } else {
        g - 1
    }
}

/// The attribute text of the image tag that begins at `i`.
pub open spec fn attrs_of(s: Seq<char>, i: int) -> Seq<char> {
    s.subrange(attrs_start(s, i), find_char_from(s, '>', i + 4))
}

/// The attribute key `key` matches at `i` in `a`: the key occurs there and
/// a closing quote follows, with at least one value character when
/// `nonempty` asks for it.
pub open spec fn attr_match_at(a: Seq<char>, key: Seq<char>, nonempty: bool, i: int) -> bool {
    occurs_at(a, key, i) && {
        let q = find_char_from(a, '"', i + key.len() as int);
        q < a.len() && (!nonempty || q > i + key.len())
    }
}

/// First index at or after `i` where `key` matches, if any.
pub open spec fn find_attr_from(a: Seq<char>, key: Seq<char>, nonempty: bool, i: int) -> Option<
    int,
>
    decreases a.len() + 1 - i,
{
    if i < 0 || i + key.len() > a.len() {
        None
    } else if attr_match_at(a, key, nonempty, i) {
        Some(i)
    } else {
        find_attr_from(a, key, nonempty, i + 1)
    }
}

/// The value of the first match of `key` in `a`, or empty when none.
pub open spec fn attr_value(a: Seq<char>, key: Seq<char>, nonempty: bool) -> Seq<char> {
    match find_attr_from(a, key, nonempty, 0) {
        Some(i) => a.subrange(
            i + key.len() as int,
            find_char_from(a, '"', i + key.len() as int),
        ),
        None => Seq::empty(),
    }
}

pub open spec fn src_of(a: Seq<char>) -> Seq<char> {
    attr_value(a, "src=\""@, true)
}

pub open spec fn alt_of(a: Seq<char>) -> Seq<char> {
    attr_value(a, "alt=\""@, false)
}

pub open spec fn title_of(a: Seq<char>) -> Seq<char> {
    attr_value(a, "title=\""@, false)
}

/// Decimal digit character for `d < 10`.
pub open spec fn digit_char(d: nat) -> char {
    (((48 + d) as u8) as char)
}

/// Decimal text of `n`.
pub open spec fn dec_str(n: nat) -> Seq<char>
    decreases n,
{
    if n < 10 {
        seq![digit_char(n)]
    } else {
        dec_str(n / 10) + seq![digit_char(n % 10)]
    }
}

/// The width style derived from a tag's `title` value.
pub open spec fn spec_style(title: Seq<char>) -> Seq<char> {
    if title.len() > 0 {
        "width: "@ + title + ";"@
    } else {
        Seq::empty()
    }
}

/// The normalized image tag rebuilt from the attribute text `a`.
pub open spec fn spec_img_html(a: Seq<char>) -> Seq<char> {
    "<img src=\""@ + src_of(a) + "\" alt=\""@ + alt_of(a) + "\" style=\""@ + spec_style(
        title_of(a),
    ) + "\">"@
}

/// The rewritten tag: wrapped in a numbered figure when `alt` is non-empty.
pub open spec fn spec_figure(a: Seq<char>, n: nat) -> Seq<char> {
    if alt_of(a).len() > 0 {
        "<figure class=\"image-container\">\n"@ + spec_img_html(a)
            + "\n<figcaption><strong>Fig. "@ + dec_str(n) + ":</strong> "@ + alt_of(a)
            + "</figcaption>\n</figure>"@
    } else {
        spec_img_html(a)
    }
}

/// How many figure numbers the tag with attribute text `a` consumes.
pub open spec fn fig_used(a: Seq<char>) -> nat {
    if alt_of(a).len() > 0 {
        1
    } else {
        0
    }
}

/// The rewritten document from position `i` on, with `n` the next figure
/// number.
pub open spec fn spec_caption_from(s: Seq<char>, i: int, n: nat) -> Seq<char>
    decreases s.len() - i,
{
    if i < 0 || i >= s.len() {
        Seq::empty()
    } else if img_tag_at(s, i) {
        let g = find_char_from(s, '>', i + 4);
        spec_figure(attrs_of(s, i), n) + spec_caption_from(s, g + 1, n + fig_used(attrs_of(s, i)))
    } else {
        seq![s[i]] + spec_caption_from(s, i + 1, n)
    }
}

/// The whole rewritten document, figures numbered from 1.
pub open spec fn spec_caption(s: Seq<char>) -> Seq<char> {
    spec_caption_from(s, 0, 1)
}

/// The first match of `key` in `a`, with its value: `(found, value)`.
fn find_attr(a: &Vec<char>, key: &Vec<char>, nonempty: bool) -> (res: (bool, Vec<char>))
    requires
        key@.len() >= 1,
    ensures
        res.0 == (find_attr_from(a@, key@, nonempty, 0) is Some),
        res.1@ == attr_value(a@, key@, nonempty),
{
    let n = a.len();
    let m = key.len();
    if m > n {
        return (false, Vec::new());
    }
    let mut i: usize = 0;
    while i <= n - m
        invariant
            n == a@.len(),
            m == key@.len(),
            1 <= m <= n,
            0 <= i <= n - m + 1,
            find_attr_from(a@, key@, nonempty, 0) == find_attr_from(a@, key@, nonempty, i as int),
        decreases n - i,
    {
        if occurs_at_vec(a, key, i) {
            let q = find_char_vec(a, '"', i + m);
            proof {
                lemma_find_char_from(a@, '"', i + m);
            }
            if q < n && (!nonempty || q > i + m) {
                assert(attr_match_at(a@, key@, nonempty, i as int));
                let value = copy_range(a, i + m, q);
                return (true, value);
            }
            assert(!attr_match_at(a@, key@, nonempty, i as int));
        } else {
            assert(!attr_match_at(a@, key@, nonempty, i as int));
        }
        i += 1;
    }
    (false, Vec::new())
}

/// Decimal text of `n`.
fn dec_chars(n: u64) -> (r: Vec<char>)
    ensures
        r@ == dec_str(n as nat),
{
    let mut out: Vec<char> = Vec::new();
    let mut m: u64 = n;
    loop
        invariant_except_break
            (out@ =~= Seq::<char>::empty() && m == n) || (m >= 1 && dec_str(n as nat) == dec_str(
                m as nat,
            ) + out@),
        ensures
            out@ == dec_str(n as nat),
        decreases m,
    {
        let ghost pre = out@;
        let d = m % 10;
        out.insert(0, ((48 + d) as u8) as char);
        proof {
            assert(out@ =~= seq![digit_char((m % 10) as nat)] + pre);
        }
        m = m / 10;
        if m == 0 {
            proof {
                if pre =~= Seq::<char>::empty() {
                    assert(out@ =~= dec_str(n as nat));
                } else {
                    assert(dec_str(n as nat) =~= out@);
                }
            }
            break;
        }
        proof {
            if pre =~= Seq::<char>::empty() {
                assert(dec_str(n as nat) =~= dec_str(m as nat) + out@);
            } else {
                assert(dec_str(n as nat) =~= dec_str(m as nat) + out@);
            }
        }
    }
    out
}

/// The rewritten form of the tag with attribute text `attrs`, numbered `n`
/// when it takes a figure number, and whether it took one.
fn rewrite_img(attrs: &Vec<char>, n: u64) -> (res: (Vec<char>, bool))
    ensures
        res.0@ == spec_figure(attrs@, n as nat),
        res.1 == (fig_used(attrs@) == 1),
{
    proof {
        reveal_strlit("src=\"");
        reveal_strlit("alt=\"");
        reveal_strlit("title=\"");
    }
    let src_key = to_chars("src=\"");
    let alt_key = to_chars("alt=\"");
    let title_key = to_chars("title=\"");
    let src = find_attr(attrs, &src_key, true).1;
    let alt = find_attr(attrs, &alt_key, false).1;
    let title = find_attr(attrs, &title_key, false).1;
    assert(src@ == src_of(attrs@));
    assert(alt@ == alt_of(attrs@));
    assert(title@ == title_of(attrs@));
    let mut img: Vec<char> = Vec::new();
    push_str_chars(&mut img, "<img src=\"");
    push_chars(&mut img, &src);
    push_str_chars(&mut img, "\" alt=\"");
    push_chars(&mut img, &alt);
    push_str_chars(&mut img, "\" style=\"");
    if title.len() > 0 {
        push_str_chars(&mut img, "width: ");
        push_chars(&mut img, &title);
        push_str_chars(&mut img, ";");
    }
    push_str_chars(&mut img, "\">");
    proof {
        assert(img@ =~= spec_img_html(attrs@));
    }
    if alt.len() > 0 {
        let mut fig: Vec<char> = Vec::new();
        push_str_chars(&mut fig, "<figure class=\"image-container\">\n");
        push_chars(&mut fig, &img);
        push_str_chars(&mut fig, "\n<figcaption><strong>Fig. ");
        let num = dec_chars(n);
        push_chars(&mut fig, &num);
        push_str_chars(&mut fig, ":</strong> ");
        push_chars(&mut fig, &alt);
        push_str_chars(&mut fig, "</figcaption>\n</figure>");
        proof {
            assert(fig@ =~= spec_figure(attrs@, n as nat));
        }
        (fig, true)
    } else {
        (img, false)
    }
}

/// Rewrites every image tag of the rendered page, wrapping images that
/// carry a non-empty `alt` text in figures numbered from 1 in document
/// order. Images with an empty `alt` are normalized but take no number.
pub fn caption_images(html: &str) -> (r: String)
    ensures
        r@ == spec_caption(html@),
{
    let v = to_chars(html);
    let n = v.len();
    let mut out: Vec<char> = Vec::new();
    let mut i: usize = 0;
    let mut fig: u64 = 1;
    proof {
        assert(Seq::<char>::empty() + spec_caption_from(v@, 0, 1) =~= spec_caption_from(v@, 0, 1));
    }
    while i < n
        invariant
            n == v@.len(),
            v@ == html@,
            0 <= i <= n,
            1 <= fig <= 1 + i,
            spec_caption(html@) == out@ + spec_caption_from(v@, i as int, fig as nat),
        decreases n - i,
    {
        let ghost pre = out@;
        let mut tag = false;
        if v[i] == '<' && n - i > 4 {
            if v[i + 1] == 'i' && v[i + 2] == 'm' && v[i + 3] == 'g' {
                let c4 = v[i + 4];
                if c4 == ' ' || c4 == '\t' || c4 == '\n' || c4 == '\r' {
                    proof {
                        reveal_strlit("<img");
                        assert(v@.subrange(i as int, i + 4) =~= "<img"@);
                        assert(occurs_at(v@, "<img"@, i as int));
                    }
                    let g = find_char_vec(&v, '>', i + 4);
                    proof {
                        lemma_find_char_from(v@, '>', i + 4);
                    }
                    if g < n && g >= i + 6 {
                        tag = true;
                        assert(img_tag_at(v@, i as int));
                        // the whitespace run after `<img`, capped before `>`
                        let mut w: usize = i + 4;
                        while w < n && (v[w] == ' ' || v[w] == '\t' || v[w] == '\n' || v[w] == '\r')
                            invariant
                                n == v@.len(),
                                i + 4 <= w <= n,
                                ws_run_end(v@, i + 4) == ws_run_end(v@, w as int),
                            decreases n - w,
                        {
                            w += 1;
                        }
                        assert(ws_run_end(v@, w as int) == w);
                        proof {
                            lemma_ws_run_end(v@, i + 4);
                        }
                        let a_start = if w < g {
                            w
                        } else {
                            g - 1
                        };
                        assert(a_start as int == attrs_start(v@, i as int));
                        let attrs = copy_range(&v, a_start, g);
                        assert(attrs@ == attrs_of(v@, i as int));
                        let (piece, captioned) = rewrite_img(&attrs, fig);
                        push_chars(&mut out, &piece);
                        proof {
                            assert(pre + (spec_figure(attrs@, fig as nat) + spec_caption_from(
                                v@,
                                g + 1,
                                fig as nat + fig_used(attrs@),
                            )) =~= out@ + spec_caption_from(
                                v@,
                                g + 1,
                                fig as nat + fig_used(attrs@),
                            ));
                        }
                        if captioned {
                            fig = fig + 1;
                        }
                        i = g + 1;
                    }
                }
            }
        }
        if !tag {
            assert(!img_tag_at(v@, i as int)) by {
                reveal_strlit("<img");
                if img_tag_at(v@, i as int) {
                    assert(v@.subrange(i as int, i + 4)[0] == '<');
                    assert(v@.subrange(i as int, i + 4)[1] == 'i');
                    assert(v@.subrange(i as int, i + 4)[2] == 'm');
                    assert(v@.subrange(i as int, i + 4)[3] == 'g');
                }
            }
            out.push(v[i]);
            proof {
                assert(pre + (seq![v@[i as int]] + spec_caption_from(v@, i + 1, fig as nat)) =~= out@
                    + spec_caption_from(v@, i + 1, fig as nat));
            }
            i += 1;
        }
    }
    proof {
        assert(out@ + spec_caption_from(v@, n as int, fig as nat) =~= out@);
    }
    chars_to_string(&out)
}

} // verus!

// The laws of the post-processor: regions without an image tag pass
// through verbatim, and consecutive captioned images take consecutive
// figure numbers, whatever the order of attributes inside each tag.

verus! {

/// `find_char_from` lands exactly on the first occurrence.
proof fn lemma_find_char_is(s: Seq<char>, c: char, i: int, k: int)
    requires
        0 <= i <= k <= s.len(),
        forall|j: int| i <= j < k ==> s[j] != c,
        k < s.len() ==> s[k] == c,
        k == s.len() ==> (forall|j: int| i <= j < s.len() ==> s[j] != c),
    ensures
        find_char_from(s, c, i) == k,
    decreases k - i,
{
    if i < k {
        lemma_find_char_is(s, c, i + 1, k);
    }
}

/// `ws_run_end` lands exactly on the first non-whitespace position.
proof fn lemma_ws_run_is(s: Seq<char>, i: int, k: int)
    requires
        0 <= i <= k <= s.len(),
        forall|j: int| i <= j < k ==> is_ws(s[j]),
        k < s.len() ==> !is_ws(s[k]),
    ensures
        ws_run_end(s, i) == k,
    decreases k - i,
{
    if i < k {
        lemma_ws_run_is(s, i + 1, k);
    }
}

/// Law: a region in which no image tag begins passes through the
/// post-processor verbatim, and the figure counter does not move.
pub proof fn lemma_caption_copies(s: Seq<char>, i: int, j: int, n: nat)
    requires
        0 <= i <= j <= s.len(),
        forall|k: int| i <= k < j ==> !img_tag_at(s, k),
    ensures
        spec_caption_from(s, i, n) == s.subrange(i, j) + spec_caption_from(s, j, n),
    decreases j - i,
{
    if i == j {
        assert(s.subrange(i, i) + spec_caption_from(s, i, n) =~= spec_caption_from(s, i, n));
    } else {
        lemma_caption_copies(s, i + 1, j, n);
        assert(seq![s[i]] + (s.subrange(i + 1, j) + spec_caption_from(s, j, n)) =~= s.subrange(
            i,
            j,
        ) + spec_caption_from(s, j, n));
    }
}

/// A complete image tag, standing alone: `<img`, whitespace, attribute
/// text without `>`, and the closing `>` as its last character.
pub open spec fn well_formed_tag(t: Seq<char>) -> bool {
    &&& t.len() >= 7
    &&& t.subrange(0, 4) == "<img"@
    &&& is_ws(t[4])
    &&& t[t.len() - 1] == '>'
    &&& forall|j: int| 4 <= j < t.len() - 1 ==> s_at(t, j) != '>'
}

/// Helper naming an index, so that quantifiers over tag text trigger.
pub open spec fn s_at(s: Seq<char>, j: int) -> char {
    s[j]
}

/// A well-formed tag embedded at `p` is recognized there, ends at its own
/// `>`, and carries its own attribute text.
proof fn lemma_tag_at_offset(s: Seq<char>, t: Seq<char>, p: int)
    requires
        well_formed_tag(t),
        0 <= p,
        p + t.len() <= s.len(),
        s.subrange(p, p + t.len()) == t,
    ensures
        img_tag_at(s, p),
        find_char_from(s, '>', p + 4) == p + t.len() - 1,
        attrs_of(s, p) == attrs_of(t, 0),
{
    let l = t.len() as int;
    assert forall|j: int| 0 <= j < l implies s[p + j] == t[j] by {
        assert(s.subrange(p, p + l)[j] == s[p + j]);
    }
    reveal_strlit("<img");
    assert(s.subrange(p, p + 4) =~= "<img"@) by {
        assert(t.subrange(0, 4) =~= "<img"@);
        assert(forall|j: int| 0 <= j < 4 ==> (#[trigger] s.subrange(p, p + 4)[j]) == s[p + j]);
        assert(forall|j: int| 0 <= j < 4 ==> (#[trigger] t.subrange(0, 4)[j]) == t[j]);
    }
    assert(occurs_at(s, "<img"@, p));
    assert(is_ws(s[p + 4]));
    // the tag's own `>` is the first one in both views
    assert forall|j: int| 4 <= j < l - 1 implies t[j] != '>' by {
        assert(s_at(t, j) == t[j]);
    }
    lemma_find_char_is(t, '>', 4, l - 1);
    assert forall|j: int| p + 4 <= j < p + l - 1 implies s[j] != '>' by {
        assert(s[j] == t[j - p]);
        assert(s_at(t, j - p) == t[j - p]);
    }
    lemma_find_char_is(s, '>', p + 4, p + l - 1);
    assert(img_tag_at(s, p));
    assert(img_tag_at(t, 0));
    // the whitespace runs agree
    lemma_ws_run_end(t, 4);
    let w = ws_run_end(t, 4);
    assert(w < l) by {
        assert(!is_ws(t[l - 1]));
    }
    assert forall|j: int| p + 4 <= j < p + w implies is_ws(s[j]) by {
        assert(s[p + (j - p)] == t[j - p]);
        assert(is_ws(t[j - p]));
    }
    assert(s[p + w] == t[w]);
    lemma_ws_run_is(s, p + 4, p + w);
    // hence the attribute regions agree
    assert(attrs_start(s, p) == p + attrs_start(t, 0));
    assert(attrs_of(s, p) =~= attrs_of(t, 0)) by {
        let a0 = attrs_start(t, 0);
        assert(forall|j: int|
            0 <= j < l - 1 - a0 ==> (#[trigger] attrs_of(s, p)[j]) == s[p + a0 + j]);
        assert(forall|j: int| 0 <= j < l - 1 - a0 ==> (#[trigger] attrs_of(t, 0)[j]) == t[a0 + j]);
    }
}

/// Law: two complete image tags with non-empty `alt` text, separated by
/// text that opens no tag, take the figure numbers 1 and then 2 — whatever
/// order the attributes stand in inside each tag.
pub proof fn lemma_two_figures(t1: Seq<char>, mid: Seq<char>, t2: Seq<char>)
    requires
        well_formed_tag(t1),
        well_formed_tag(t2),
        alt_of(attrs_of(t1, 0)).len() > 0,
        alt_of(attrs_of(t2, 0)).len() > 0,
        forall|i: int| 0 <= i < mid.len() ==> (#[trigger] mid[i]) != '<',
    ensures
        spec_caption(t1 + mid + t2) == spec_figure(attrs_of(t1, 0), 1) + mid + spec_figure(
            attrs_of(t2, 0),
            2,
        ),
{
    let s = t1 + mid + t2;
    let p2 = t1.len() + mid.len();
    assert(s.subrange(0, t1.len() as int) =~= t1);
    assert(s.subrange(p2 as int, (p2 + t2.len()) as int) =~= t2);
    lemma_tag_at_offset(s, t1, 0);
    lemma_tag_at_offset(s, t2, p2 as int);
    assert(fig_used(attrs_of(s, 0)) == 1);
    assert(spec_caption_from(s, 0, 1) == spec_figure(attrs_of(t1, 0), 1) + spec_caption_from(
        s,
        t1.len() as int,
        2,
    ));
    reveal_strlit("<img");
    assert forall|k: int| t1.len() <= k < p2 implies !img_tag_at(s, k) by {
        if img_tag_at(s, k) {
            assert(s.subrange(k, k + 4)[0] == '<');
            assert(s[k] == mid[k - t1.len()]);
        }
    }
    lemma_caption_copies(s, t1.len() as int, p2 as int, 2);
    assert(s.subrange(t1.len() as int, p2 as int) =~= mid);
    assert(fig_used(attrs_of(s, p2 as int)) == 1);
    assert(spec_caption_from(s, p2 as int, 2) == spec_figure(attrs_of(t2, 0), 2)
        + spec_caption_from(s, (p2 + t2.len()) as int, 3));
    assert(spec_caption_from(s, s.len() as int, 3) =~= Seq::<char>::empty());
    assert(spec_figure(attrs_of(t1, 0), 1) + (mid + (spec_figure(attrs_of(t2, 0), 2) + Seq::<
        char,
    >::empty())) =~= spec_figure(attrs_of(t1, 0), 1) + mid + spec_figure(attrs_of(t2, 0), 2));
}

} // verus!
