//! The HTML page that shows the converted text of every document part.
use vstd::prelude::*;

verus! {

/// Appends the HTML of one document part, in a `<div>` named after the part.
pub fn html_part(html_content: &mut String, docx_sub_file: &str, html_converted: &str)
    ensures
        final(html_content)@ == old(html_content)@ + "<div class=\""@ + docx_sub_file@ + "\">\n"@
            + html_converted@ + "</div>\n<br />\n"@,
{
    html_content.append("<div class=\"");
    html_content.append(docx_sub_file);
    html_content.append("\">\n");
    html_content.append(html_converted);
    html_content.append("</div>\n<br />\n");
}

/// The whole HTML page around the parts' HTML.
pub fn html_page(body: &str) -> (page: String)
    ensures
        page@ == "<!DOCTYPE html>\n<html>\n<body>\n"@ + body@ + "</body>\n</html>"@,
{
    let mut page = String::new();
    page.append("<!DOCTYPE html>\n<html>\n<body>\n");
    page.append(body);
    page.append("</body>\n</html>");
    page
}

} // verus!
