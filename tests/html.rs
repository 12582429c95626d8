use krevetka::html::diff_line_html;

#[test]
fn added_line_is_escaped_without_its_sign() {
    assert_eq!(diff_line_html("+a<b"), "<div class=\"diff-line added\">a&lt;b</div>");
}

#[test]
fn removed_and_changed_lines_get_their_class() {
    assert_eq!(diff_line_html("-k = v"), "<div class=\"diff-line deleted\">k = v</div>");
    assert_eq!(diff_line_html("~x = <i>"), "<div class=\"diff-line modified\">x = &lt;i&gt;</div>");
}

#[test]
fn line_without_sign_is_kept_whole() {
    assert_eq!(diff_line_html("x & y"), "<div class=\"diff-line \">x &amp; y</div>");
    assert_eq!(diff_line_html("жук"), "<div class=\"diff-line \">жук</div>");
    assert_eq!(diff_line_html(""), "<div class=\"diff-line \"></div>");
}
