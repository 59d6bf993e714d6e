use notes_site::math::typeset_math;
use notes_site::render::markdown_to_html;
use notes_site::figures::caption_images;

#[test]
fn superscript_is_typeset() {
    let out = typeset_math("<span class=\"math math-inline\">x^2</span>");
    assert_eq!(out, "<span class=\"math math-inline\">x<sup>2</sup></span>");
}

#[test]
fn subscript_group_is_typeset() {
    let out = typeset_math("<span class=\"math math-inline\">E_{tot}=mc^2</span>");
    assert_eq!(
        out,
        "<span class=\"math math-inline\">E<sub>tot</sub>=mc<sup>2</sup></span>"
    );
}

#[test]
fn display_spans_are_typeset_too() {
    let out = typeset_math("<span class=\"math math-display\">a_n</span>");
    assert_eq!(out, "<span class=\"math math-display\">a<sub>n</sub></span>");
}

#[test]
fn unsupported_expression_is_kept_verbatim() {
    let src = "<span class=\"math math-inline\">\\frac{a}{b}</span>";
    assert_eq!(typeset_math(src), src);
}

#[test]
fn unclosed_group_is_kept_verbatim() {
    let src = "<span class=\"math math-inline\">x^{2</span>";
    assert_eq!(typeset_math(src), src);
}

#[test]
fn nested_group_is_kept_verbatim() {
    let src = "<span class=\"math math-inline\">x^{a^b}</span>";
    assert_eq!(typeset_math(src), src);
}

#[test]
fn text_outside_math_spans_is_untouched() {
    let src = "<p>no math here, just x^2 in prose</p>";
    assert_eq!(typeset_math(src), src);
}

#[test]
fn rendered_markdown_math_gets_typeset() {
    let page = typeset_math(&markdown_to_html("inline $x^2$ math"));
    assert!(page.contains("<span class=\"math math-inline\">x<sup>2</sup></span>"));
}

#[test]
fn typesetting_and_captioning_compose() {
    let html = markdown_to_html("$y_1$\n\n<img src=\"a.png\" alt=\"Cat\">\n");
    let body = caption_images(&typeset_math(&html));
    assert!(body.contains("y<sub>1</sub>"));
    assert!(body.contains("<strong>Fig. 1:</strong> Cat"));
}
