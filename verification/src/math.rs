//! Math typesetting over rendered HTML.
//!
//! The Markdown renderer emits a math expression as a
//! `<span class="math math-inline">...</span>` (or `math-display`) holding
//! the expression source, HTML-escaped. This pass typesets a LaTeX subset
//! inside every such span: `^` and `_` followed by one plain character or
//! by a flat brace group become `<sup>`/`<sub>` markup; every other plain
//! character passes through. When an expression falls outside the subset
//! (any other use of `\`, `{` or `}`, a nested group, or an unclosed
//! group), the conversion fails and the span is emitted verbatim, raw
//! source intact — a failed expression never fails the page.

use vstd::prelude::*;
use crate::text::find_char_from;
use crate::text::lemma_find_char_from;
use crate::text::occurs_at;
use crate::text::to_chars;
use crate::text::chars_to_string;
use crate::text::push_str_chars;
use crate::text::push_chars;
use crate::text::copy_range;
use crate::text::occurs_at_vec;
use crate::text::find_char_vec;

verus! {

/// Where the converter stands: in plain text, or inside a brace group that
/// the given tag will close.
pub enum ConvMode {
    Plain,
    Group { close: Seq<char> },
}

/// Characters that carry meaning in the supported LaTeX subset.
pub open spec fn special(c: char) -> bool {
    c == '^' || c == '_' || c == '{' || c == '}' || c == '\\'
}

/// The conversion of the expression `e` from position `i` in mode `m`:
/// the typeset text, or nothing when the expression falls outside the
/// subset.
pub open spec fn conv_from(e: Seq<char>, i: int, m: ConvMode) -> Option<Seq<char>>
    decreases e.len() - i,
{
    if i < 0 {
        None
    } else if i >= e.len() {
        match m {
            ConvMode::Plain => Some(Seq::empty()),
            ConvMode::Group { close } => None,
        }
    } else {
        let c = e[i];
        match m {
            ConvMode::Plain => {
                if c == '^' || c == '_' {
                    let tag_open: Seq<char> = if c == '^' {
                        "<sup>"@
                    } else {
                        "<sub>"@
                    };
                    let tag_close: Seq<char> = if c == '^' {
                        "</sup>"@
                    } else {
                        "</sub>"@
                    };
                    if i + 1 >= e.len() {
                        None
                    } else if e[i + 1] == '{' {
                        match conv_from(e, i + 2, ConvMode::Group { close: tag_close }) {
                            Some(r) => Some(tag_open + r),
                            None => None,
                        }
                    } else if special(e[i + 1]) {
                        None
                    } else {
                        match conv_from(e, i + 2, ConvMode::Plain) {
                            Some(r) => Some(tag_open + seq![e[i + 1]] + tag_close + r),
                            None => None,
                        }
                    }
                } else if special(c) {
                    None
                } else {
                    match conv_from(e, i + 1, ConvMode::Plain) {
                        Some(r) => Some(seq![c] + r),
                        None => None,
                    }
                }
            },
            ConvMode::Group { close } => {
                if c == '}' {
                    match conv_from(e, i + 1, ConvMode::Plain) {
                        Some(r) => Some(close + r),
                        None => None,
                    }
                } else if special(c) {
                    None
                } else {
                    match conv_from(e, i + 1, ConvMode::Group { close }) {
                        Some(r) => Some(seq![c] + r),
                        None => None,
                    }
                }
            },
        }
    }
}

/// The conversion of a whole expression.
pub open spec fn spec_conv(e: Seq<char>) -> Option<Seq<char>> {
    conv_from(e, 0, ConvMode::Plain)
}

pub open spec fn inline_open() -> Seq<char> {
    "<span class=\"math math-inline\">"@
}

pub open spec fn display_open() -> Seq<char> {
    "<span class=\"math math-display\">"@
}

pub open spec fn span_close() -> Seq<char> {
    "</span>"@
}

/// Length of the math span opening tag at `i`.
pub open spec fn span_open_len(s: Seq<char>, i: int) -> int {
    if occurs_at(s, inline_open(), i) {
        inline_open().len() as int
    } else {
        display_open().len() as int
    }
}

/// End of the expression: the first `<` past the opening tag.
pub open spec fn span_expr_end(s: Seq<char>, i: int) -> int {
    find_char_from(s, '<', i + span_open_len(s, i))
}

/// A math span begins at `i`: an opening tag, expression text without `<`,
/// and the closing tag.
pub open spec fn math_span_at(s: Seq<char>, i: int) -> bool {
    &&& (occurs_at(s, inline_open(), i) || occurs_at(s, display_open(), i))
    &&& i < span_expr_end(s, i)
    &&& i + span_open_len(s, i) <= span_expr_end(s, i)
    &&& occurs_at(s, span_close(), span_expr_end(s, i))
}

/// The document from `i` on with every math span typeset, spans whose
/// expression falls outside the subset kept verbatim.
pub open spec fn spec_typeset_from(s: Seq<char>, i: int) -> Seq<char>
    decreases s.len() - i,
{
    if i < 0 || i >= s.len() {
        Seq::empty()
    } else if math_span_at(s, i) {
        let b = i + span_open_len(s, i);
        let e = span_expr_end(s, i);
        let expr = s.subrange(b, e);
        let rendered = match spec_conv(expr) {
            Some(r) => r,
            None => expr,
        };
        s.subrange(i, b) + rendered + span_close() + spec_typeset_from(
            s,
            e + span_close().len(),
        )
    } else {
        seq![s[i]] + spec_typeset_from(s, i + 1)
    }
}

/// The whole document with math spans typeset.
pub open spec fn spec_typeset(s: Seq<char>) -> Seq<char> {
    spec_typeset_from(s, 0)
}

/// The mode that the group marker `g` stands for: 1 inside a `<sup>`
/// group, 2 inside a `<sub>` group, anything else plain.
pub open spec fn mode_of(g: u8) -> ConvMode {
    if g == 1 {
        ConvMode::Group { close: "</sup>"@ }
    } else if g == 2 {
        ConvMode::Group { close: "</sub>"@ }
    } else {
        ConvMode::Plain
    }
}

/// `o` with `p` prepended to its content.
pub open spec fn opt_prepend(p: Seq<char>, o: Option<Seq<char>>) -> Option<Seq<char>> {
    match o {
        Some(r) => Some(p + r),
        None => None,
    }
}

/// Converts one expression: `(converted, text)`; when the expression falls
/// outside the subset, `converted` is false and the text is unspecified.
fn conv_expr(e: &Vec<char>) -> (res: (bool, Vec<char>))
    ensures
        res.0 == (spec_conv(e@) is Some),
        res.0 ==> res.1@ == spec_conv(e@)->0,
{
    let n = e.len();
    let mut out: Vec<char> = Vec::new();
    let mut i: usize = 0;
    let mut grp: u8 = 0;
    proof {
        assert(opt_prepend(out@, conv_from(e@, 0, ConvMode::Plain)) == spec_conv(e@)) by {
            if conv_from(e@, 0, ConvMode::Plain) is Some {
                assert(Seq::<char>::empty() + conv_from(e@, 0, ConvMode::Plain)->0 =~= conv_from(
                    e@,
                    0,
                    ConvMode::Plain,
                )->0);
            }
        }
    }
    while i < n
        invariant
            n == e@.len(),
            0 <= i <= n,
            grp <= 2,
            spec_conv(e@) == opt_prepend(out@, conv_from(e@, i as int, mode_of(grp))),
        decreases n - i,
    {
        let ghost pre = out@;
        let c = e[i];
        if grp == 0 {
            if c == '^' || c == '_' {
                if i + 1 >= n {
                    return (false, out);
                }
                let c2 = e[i + 1];
                if c2 == '{' {
                    if c == '^' {
                        push_str_chars(&mut out, "<sup>");
                        grp = 1;
                        proof {
                            let rest = conv_from(e@, i + 2, mode_of(1));
                            if rest is Some {
                                assert(pre + ("<sup>"@ + rest->0) =~= out@ + rest->0);
                            }
                        }
                    } else {
                        push_str_chars(&mut out, "<sub>");
                        grp = 2;
                        proof {
                            let rest = conv_from(e@, i + 2, mode_of(2));
                            if rest is Some {
                                assert(pre + ("<sub>"@ + rest->0) =~= out@ + rest->0);
                            }
                        }
                    }
                    i += 2;
                } else if c2 == '^' || c2 == '_' || c2 == '}' || c2 == '\\' {
                    return (false, out);
                } else {
                    if c == '^' {
                        push_str_chars(&mut out, "<sup>");
                        out.push(c2);
                        push_str_chars(&mut out, "</sup>");
                        proof {
                            let rest = conv_from(e@, i + 2, ConvMode::Plain);
                            if rest is Some {
                                assert(pre + ("<sup>"@ + seq![e@[i + 1]] + "</sup>"@ + rest->0)
                                    =~= out@ + rest->0);
                            }
                        }
                    } else {
                        push_str_chars(&mut out, "<sub>");
                        out.push(c2);
                        push_str_chars(&mut out, "</sub>");
                        proof {
                            let rest = conv_from(e@, i + 2, ConvMode::Plain);
                            if rest is Some {
                                assert(pre + ("<sub>"@ + seq![e@[i + 1]] + "</sub>"@ + rest->0)
                                    =~= out@ + rest->0);
                            }
                        }
                    }
                    i += 2;
                }
            } else if c == '{' || c == '}' || c == '\\' {
                return (false, out);
            } else {
                out.push(c);
                proof {
                    let rest = conv_from(e@, i + 1, ConvMode::Plain);
                    if rest is Some {
                        assert(pre + (seq![e@[i as int]] + rest->0) =~= out@ + rest->0);
                    }
                }
                i += 1;
            }
        } else {
            if c == '}' {
                if grp == 1 {
                    push_str_chars(&mut out, "</sup>");
                    proof {
                        let rest = conv_from(e@, i + 1, ConvMode::Plain);
                        if rest is Some {
                            assert(pre + ("</sup>"@ + rest->0) =~= out@ + rest->0);
                        }
                    }
                } else {
                    push_str_chars(&mut out, "</sub>");
                    proof {
                        let rest = conv_from(e@, i + 1, ConvMode::Plain);
                        if rest is Some {
                            assert(pre + ("</sub>"@ + rest->0) =~= out@ + rest->0);
                        }
                    }
                }
                grp = 0;
                i += 1;
            } else if c == '^' || c == '_' || c == '{' || c == '\\' {
                return (false, out);
            } else {
                out.push(c);
                proof {
                    let rest = conv_from(e@, i + 1, mode_of(grp));
                    if rest is Some {
                        assert(pre + (seq![e@[i as int]] + rest->0) =~= out@ + rest->0);
                    }
                }
                i += 1;
            }
        }
    }
    if grp != 0 {
        return (false, out);
    }
    proof {
        assert(out@ + Seq::<char>::empty() =~= out@);
    }
    (true, out)
}

/// Typesets every math span of the rendered page; a span whose expression
/// falls outside the subset is kept verbatim.
pub fn typeset_math(html: &str) -> (r: String)
    ensures
        r@ == spec_typeset(html@),
{
    proof {
        reveal_strlit("<span class=\"math math-inline\">");
        reveal_strlit("<span class=\"math math-display\">");
        reveal_strlit("</span>");
    }
    let v = to_chars(html);
    let n = v.len();
    let open_i = to_chars("<span class=\"math math-inline\">");
    let open_d = to_chars("<span class=\"math math-display\">");
    let close = to_chars("</span>");
    let mut out: Vec<char> = Vec::new();
    let mut i: usize = 0;
    proof {
        assert(Seq::<char>::empty() + spec_typeset_from(v@, 0) =~= spec_typeset_from(v@, 0));
    }
    while i < n
        invariant
            n == v@.len(),
            v@ == html@,
            open_i@ == inline_open(),
            open_d@ == display_open(),
            close@ == span_close(),
            open_i@.len() == 31,
            open_d@.len() == 32,
            close@.len() == 7,
            0 <= i <= n,
            spec_typeset(html@) == out@ + spec_typeset_from(v@, i as int),
        decreases n - i,
    {
        let ghost pre = out@;
        let mut open_len: usize = 0;
        if n - i >= 31 && occurs_at_vec(&v, &open_i, i) {
            open_len = 31;
        } else if n - i >= 32 && occurs_at_vec(&v, &open_d, i) {
            open_len = 32;
        }
        let mut span = false;
        if open_len > 0 {
            assert(open_len as int == span_open_len(v@, i as int));
            let b = i + open_len;
            let e = find_char_vec(&v, '<', b);
            proof {
                lemma_find_char_from(v@, '<', b as int);
            }
            if n - e >= 7 && occurs_at_vec(&v, &close, e) {
                span = true;
                assert(math_span_at(v@, i as int));
                let expr = copy_range(&v, b, e);
                assert(expr@ == v@.subrange(i + span_open_len(v@, i as int), span_expr_end(
                    v@,
                    i as int,
                )));
                let (converted, text) = conv_expr(&expr);
                let opening = copy_range(&v, i, b);
                push_chars(&mut out, &opening);
                if converted {
                    push_chars(&mut out, &text);
                } else {
                    push_chars(&mut out, &expr);
                }
                push_str_chars(&mut out, "</span>");
                proof {
                    let rendered = match spec_conv(expr@) {
                        Some(r) => r,
                        None => expr@,
                    };
                    assert(pre + (v@.subrange(i as int, b as int) + rendered + span_close()
                        + spec_typeset_from(v@, e + 7)) =~= out@ + spec_typeset_from(v@, e + 7));
                }
                i = e + 7;
            }
        }
        if !span {
            assert(!math_span_at(v@, i as int)) by {
                if math_span_at(v@, i as int) {
                    if occurs_at(v@, inline_open(), i as int) || occurs_at(
                        v@,
                        display_open(),
                        i as int,
                    ) {
                    }
                }
            }
            out.push(v[i]);
            proof {
                assert(pre + (seq![v@[i as int]] + spec_typeset_from(v@, i + 1)) =~= out@
                    + spec_typeset_from(v@, i + 1));
            }
            i += 1;
        }
    }
    proof {
        assert(out@ + spec_typeset_from(v@, n as int) =~= out@);
    }
    chars_to_string(&out)
}

} // verus!
