//! Serving queries: what to answer to a request.
//!
//! The transport is outside this library. A request comes in as its method,
//! its URL and, for a query, its body; what goes out is the page to send or
//! the JSON text of the ranking.

use vstd::prelude::*;
use vstd::string::{StrSliceExecFns, StringExecFns};
use crate::index::TermFrequencyIndex;
use crate::lexical_analysis::tokenize;
use crate::ranking::{rank, ranking_of, ranking_view, ScoredDocument};
use crate::snapshot::failure_message;

verus! {

/// The method of a request, as far as the answers differ by it.
#[derive(Clone, Copy, Debug, PartialEq, Eq, Structural)]
pub enum Method {
    Get,
    Post,
    Other,
}

/// What to do with a request.
pub enum Route {
    /// Send the page in the file `file` with the status `status`.
    Page { status: u16, file: String },
    /// Answer the query in the body of the request.
    Query,
    /// Nothing: the method is not served.
    NotImplemented,
}

/// Why a query was not answered.
pub enum QueryError {
    /// The body holds no query between its quotes.
    EmptyQuery,
    /// The ranking could not be written as JSON.
    SerializationFailure { message: String },
}

/// The directory that holds the pages.
pub open spec fn web_file_dir() -> Seq<char> {
    "files/web_files"@
}

/// The file of the page for `url`: the front page for the root, and the
/// page that says "not found" for anything else.
pub open spec fn page_file(url: Seq<char>) -> Seq<char> {
    if url == "/"@ {
        web_file_dir() + "/"@ + "index.html"@
    } else {
        web_file_dir() + "/"@ + "404.html"@
    }
}

/// The status that goes with the page for `url`.
pub open spec fn page_status(url: Seq<char>) -> u16 {
    if url == "/"@ {
        200
    } else {
        404
    }
}

/// The body of a request without its first and its last character, which
/// are the quotes around the query; empty where the body is too short to
/// hold both.
pub open spec fn unquoted(body: Seq<char>) -> Seq<char> {
    if body.len() >= 2 {
        body.subrange(1, body.len() - 1)
    } else {
        Seq::empty()
    }
}

/// The JSON text that `serde_json::to_string` gives for `ranking` as a list
/// of pairs of a path and a score; `None` where it fails.
pub uninterp spec fn json_ranking(ranking: Seq<(Seq<char>, nat)>) -> Option<Seq<char>>;

/// Calls `serde_json::to_string` on the list of the pairs of id and score
/// of `ranking`. The outcome depends on those pairs alone.
#[verifier::external_body]
fn render_ranking(ranking: &Vec<ScoredDocument>) -> (text: Result<String, serde_json::Error>)
    ensures
        match text {
            Ok(text) => json_ranking(ranking_view(ranking@)) == Some(text@),
            Err(_) => json_ranking(ranking_view(ranking@)) is None,
        },
{
    let pairs: Vec<(&str, u128)> = ranking.iter().map(|document| (document.id.as_str(), document.score)).collect();
    serde_json::to_string(&pairs)
}

/// The query in the body of a request: the body without the quotes around
/// it.
pub fn query_text(body: &str) -> (query: String)
    ensures
        query@ == unquoted(body@),
{
    let length = body.unicode_len();
    if length >= 2 {
        String::from_str(body.substring_char(1, length - 1))
    } else {
        String::new()
    }
}

/// A request, as far as the answer depends on it before its body is read.
pub struct Serve {
    pub method: Method,
    pub url: String,
}

impl Serve {
    /// A request with the method `method` for `url`.
    pub fn new(method: Method, url: String) -> (serve: Self)
        ensures
            serve.method == method,
            serve.url == url,
    {
        Self { method, url }
    }

    /// What to do with the request: a `GET` is answered with a page, a
    /// `POST` is a query, and no other method is served.
    pub fn handle_connection(&self) -> (route: Route)
        ensures
            match self.method {
                Method::Get => route matches Route::Page { status, file } && status == page_status(self.url@)
                    && file@ == page_file(self.url@),
                Method::Post => route is Query,
                Method::Other => route is NotImplemented,
            },
    {
        match self.method {
            Method::Get => {
                let root = self.url.as_str().unicode_len() == 1 && self.url.as_str().get_char(0) == '/';
                proof {
                    reveal_strlit("/");
                    if root {
                        assert(self.url@ =~= "/"@);
                    }
                }
                let (status, name) = if root {
                    (200u16, "index.html")
                } else {
                    (404u16, "404.html")
                };
                let file = String::from_str("files/web_files").concat("/").concat(name);
                Route::Page { status, file }
            },
            Method::Post => Route::Query,
            Method::Other => Route::NotImplemented,
        }
    }

    /// Answers the query in `body` from `index`: the JSON text of the
    /// ranking of `index` for the query. A body without a query between its
    /// quotes is an error.
    pub fn handle_post_method(&self, body: &str, index: &TermFrequencyIndex) -> (answer: Result<
        String,
        QueryError,
    >)
        ensures
            unquoted(body@).len() == 0 ==> answer is Err && answer->Err_0 is EmptyQuery,
            unquoted(body@).len() > 0 ==> match json_ranking(ranking_of(index@, tokenize(unquoted(body@)))) {
                Some(text) => answer is Ok && answer->Ok_0@ == text,
                None => answer is Err && answer->Err_0 is SerializationFailure,
            },
    {
        let query = query_text(body);
        if query.as_str().is_empty() {
            return Err(QueryError::EmptyQuery);
        }
        let ranking = rank(query.as_str(), index);
        match render_ranking(&ranking) {
            Ok(text) => Ok(text),
            Err(error) => Err(QueryError::SerializationFailure { message: failure_message(&error) }),
        }
    }
}

} // verus!
