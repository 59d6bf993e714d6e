use notes_site::figures::caption_images;
use notes_site::render::markdown_to_html;

#[test]
fn captioned_image_becomes_numbered_figure() {
    let out = caption_images("<img src=\"a.png\" alt=\"Cat\" title=\"300px\">");
    assert!(out.contains("<figure class=\"image-container\">"));
    assert!(out.contains("<figcaption><strong>Fig. 1:</strong> Cat</figcaption>"));
    assert!(out.contains("style=\"width: 300px;\""));
    assert!(out.contains("<img src=\"a.png\" alt=\"Cat\""));
}

#[test]
fn two_images_number_one_then_two() {
    let out = caption_images(
        "<p><img src=\"a.png\" alt=\"Cat\"> and <img src=\"b.png\" alt=\"Dog\"></p>",
    );
    assert!(out.contains("<strong>Fig. 1:</strong> Cat"));
    assert!(out.contains("<strong>Fig. 2:</strong> Dog"));
}

#[test]
fn attribute_order_does_not_matter() {
    let out = caption_images(
        "<img alt=\"Cat\" title=\"300px\" src=\"a.png\"><img title=\"10%\" src=\"b.png\" alt=\"Dog\">",
    );
    assert!(out.contains("<img src=\"a.png\" alt=\"Cat\" style=\"width: 300px;\">"));
    assert!(out.contains("<strong>Fig. 1:</strong> Cat"));
    assert!(out.contains("<img src=\"b.png\" alt=\"Dog\" style=\"width: 10%;\">"));
    assert!(out.contains("<strong>Fig. 2:</strong> Dog"));
}

#[test]
fn empty_alt_takes_no_figure_number() {
    let out = caption_images("<img src=\"a.png\" alt=\"\"><img src=\"b.png\" alt=\"Dog\">");
    assert!(!out.contains("Fig. 1:</strong> </figcaption>"));
    assert!(out.contains("<img src=\"a.png\" alt=\"\" style=\"\">"));
    assert!(out.contains("<strong>Fig. 1:</strong> Dog"));
}

#[test]
fn missing_title_gives_empty_style() {
    let out = caption_images("<img src=\"a.png\" alt=\"Cat\">");
    assert!(out.contains("<img src=\"a.png\" alt=\"Cat\" style=\"\">"));
}

#[test]
fn text_without_images_passes_through() {
    let out = caption_images("<p>plain paragraph with < and > text</p>");
    assert_eq!(out, "<p>plain paragraph with < and > text</p>");
}

#[test]
fn bare_img_without_attributes_is_left_alone() {
    let out = caption_images("<img>");
    assert_eq!(out, "<img>");
}

#[test]
fn markdown_renders_to_html() {
    let out = markdown_to_html("# Heading\n\nSome *text*.");
    assert!(out.contains("<h1>Heading</h1>"));
    assert!(out.contains("<em>text</em>"));
}

#[test]
fn markdown_extensions_are_enabled() {
    let table = markdown_to_html("|a|b|\n|-|-|\n|1|2|\n");
    assert!(table.contains("<table>"));
    let strike = markdown_to_html("~~gone~~");
    assert!(strike.contains("<del>gone</del>"));
    let task = markdown_to_html("- [x] done\n");
    assert!(task.contains("type=\"checkbox\""));
}

#[test]
fn math_spans_become_embedded_markup() {
    let out = markdown_to_html("inline $x^2$ math");
    assert!(out.contains("class=\"math math-inline\""));
    assert!(out.contains("x^2"));
}

#[test]
fn raw_html_passes_through_renderer() {
    let out = markdown_to_html("text\n\n<img src=\"a.png\" alt=\"Cat\">\n");
    assert!(out.contains("<img src=\"a.png\" alt=\"Cat\">"));
}

#[test]
fn rendered_image_gets_captioned() {
    let page = caption_images(&markdown_to_html("<img src=\"a.png\" alt=\"Cat\">\n"));
    assert!(page.contains("<figcaption><strong>Fig. 1:</strong> Cat</figcaption>"));
}
