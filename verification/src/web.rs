//! What the search service is asked, and what it answers.

use vstd::prelude::*;

verus! {

/// How much of a page's text is wanted.
#[derive(Debug, Clone, Copy, PartialEq, Eq, Structural)]
pub struct TextOptions {
    pub max_characters: usize,
    pub include_html_tags: bool,
}

#[derive(Debug, Clone, Copy, PartialEq, Eq, Structural)]
pub struct Contents {
    pub text: TextOptions,
}

/// One search.
#[derive(Debug, Clone, PartialEq, Eq)]
pub struct SearchRequest {
    pub query: String,
    pub num_results: usize,
    pub contents: Contents,
    pub start_published_date: Option<String>,
    pub end_published_date: Option<String>,
    pub category: Option<String>,
    pub include_domains: Option<Vec<String>>,
}

/// One page that was found.
#[derive(Debug, Clone, PartialEq, Eq)]
pub struct Found {
    pub title: Option<String>,
    pub url: String,
    pub text: Option<String>,
    pub published: Option<String>,
    pub author: Option<String>,
}

#[derive(Debug, Clone, PartialEq, Eq)]
pub struct SearchResponse {
    pub results: Vec<Found>,
}

} // verus!
