//! Site configuration consumed by the build pipeline.  Loading and saving
//! the configuration file is the caller's concern; the pipeline only reads
//! these plain values.
use vstd::prelude::*;
use vstd::string::StringSliceAdditionalSpecFns;

verus! {

pub struct Config {
    /// Account whose remote entries are fetched.
    pub github_username: Vec<u8>,
    pub blog_title: Vec<u8>,
    pub blog_description: Vec<u8>,
    pub blog_url: Vec<u8>,
    /// Template for each page's title; its one variable is `blog_title`.
    pub pages_title: Vec<u8>,
    pub minify_html: bool,
    pub show_comments: bool,
}

impl Config {
    /// The configuration a fresh site starts from.
    pub fn default() -> (r: Self)
        ensures
            r.github_username@ == "octocat".spec_bytes(),
            r.blog_title@ == "John Wick's Pencil".spec_bytes(),
            r.blog_description@ == "Rusty, I Guess.".spec_bytes(),
            r.blog_url@ == "https://blog.johnwickspencil.com/".spec_bytes(),
            r.pages_title@ == "{{ blog_title }} | John Wick's Pencil".spec_bytes(),
            r.minify_html == false,
            r.show_comments == true,
    {
        Config {
            github_username: vstd::slice::slice_to_vec("octocat".as_bytes()),
            blog_title: vstd::slice::slice_to_vec("John Wick's Pencil".as_bytes()),
            blog_description: vstd::slice::slice_to_vec("Rusty, I Guess.".as_bytes()),
            blog_url: vstd::slice::slice_to_vec("https://blog.johnwickspencil.com/".as_bytes()),
            pages_title: vstd::slice::slice_to_vec(
                "{{ blog_title }} | John Wick's Pencil".as_bytes(),
            ),
            minify_html: false,
            show_comments: true,
        }
    }
}

} // verus!
