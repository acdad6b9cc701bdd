//! A sample page.

use vstd::prelude::*;

verus! {

/// The markup of the sample page.
pub const PAGE_SRC: &'static str =
    "\n<div>\n<h1>Hello, world!</h1>\n\n<custom class=\"custom-element\">\n    <p data-target=\"test-attr\">我是一个自定义元素</p>\n    <a class=\"Microsoft\" href=\"https://www.bing.com\">Bing 一下</a>\n</custom>\n\n<another-custom class=\"custom-element\">\n    <div>\n        <p>我是另一个自定义元素</p>\n    </div>\n</another-custom>\n<a class=\"AlphaBeta\" href=\"https://www.google.com\">Google 一下</a>\n<a class=\"git code github\" href=\"https://www.github.com\">Github 一下</a>\n</div>\n";

/// The markup of the page at `url`. No page is fetched: whatever the address, the result is
/// the sample page, [`PAGE_SRC`].
pub fn get_page_src(url: &str) -> (r: String)
    ensures
        r@ == PAGE_SRC@,
{
    let _ = url;
    String::from_str(PAGE_SRC)
}

} // verus!
