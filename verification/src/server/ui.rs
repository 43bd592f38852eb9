//! The built-in web pages: which file a path is answered with.
//!
//! Routing is client-side, so every path that is not an asset is answered with the
//! shell. Assets come from a fixed table, so there is no path that could escape a
//! directory.
use vstd::prelude::*;

use crate::server::http::{header, length_header, Method, Reply, ReplyBody, BodyView, Said};
use crate::server::query::first_value;
use crate::text::{decimal, decimal_text, str_eq};

verus! {

/// The files that are served.
#[derive(Debug, Clone, Copy, PartialEq, Eq, Structural)]
pub enum Asset {
    Shell,
    Style,
    Script,
    Logo,
}

impl Asset {
    /// The file that a path is answered with.
    pub open spec fn at(path: Seq<char>) -> Asset {
        if path == "/app.css"@ {
            Asset::Style
        } else if path == "/app.js"@ {
            Asset::Script
        } else if path == "/logo.svg"@ {
            Asset::Logo
        } else {
            Asset::Shell
        }
    }

    /// The media type of a file.
    pub open spec fn kind(self) -> Seq<char> {
        match self {
            Asset::Shell => "text/html; charset=utf-8"@,
            Asset::Style => "text/css; charset=utf-8"@,
            Asset::Script => "text/javascript; charset=utf-8"@,
            Asset::Logo => "image/svg+xml; charset=utf-8"@,
        }
    }

    pub fn content_type(self) -> (r: &'static str)
        ensures
            r@ == self.kind(),
    {
        match self {
            Asset::Shell => "text/html; charset=utf-8",
            Asset::Style => "text/css; charset=utf-8",
            Asset::Script => "text/javascript; charset=utf-8",
            Asset::Logo => "image/svg+xml; charset=utf-8",
        }
    }
}

/// The file that a path is answered with.
pub fn asset(path: &str) -> (r: Asset)
    ensures
        r == Asset::at(path@),
{
    if str_eq(path, "/app.css") {
        Asset::Style
    } else if str_eq(path, "/app.js") {
        Asset::Script
    } else if str_eq(path, "/logo.svg") {
        Asset::Logo
    } else {
        Asset::Shell
    }
}

/// The answer that carries a file. It is served under a stable name, so a cached
/// copy would survive an upgrade; hence `no-cache`.
pub open spec fn served<C>(method: Method, asset: Asset, body: Seq<u8>) -> Said<C> {
    let headers = seq![
        ("content-type"@, asset.kind()),
        length_header(body.len()),
        ("cache-control"@, "no-cache"@),
    ];
    match method {
        Method::Get => Said { status: 200, headers, body: BodyView::Bytes(body) },
        Method::Head => Said { status: 200, headers, body: BodyView::Empty },
        _ => Said {
            status: 405,
            headers: seq![("allow"@, "GET, HEAD"@)],
            body: BodyView::Empty,
        },
    }
}

/// Serve a file whose content is `body`.
pub fn serve<C>(method: Method, asset: Asset, body: Vec<u8>) -> (r: Reply<C>)
    ensures
        r.deep_view() == served::<C>(method, asset, body@),
{
    let mut headers: Vec<(String, String)> = Vec::new();
    if method != Method::Get && method != Method::Head {
        headers.push(header("allow", "GET, HEAD".to_owned()));
        assert(headers.deep_view() =~= seq![("allow"@, "GET, HEAD"@)]);
        return Reply { status: 405, headers, body: ReplyBody::Empty };
    }
    headers.push(header("content-type", asset.content_type().to_owned()));
    headers.push(header("content-length", decimal_text(body.len() as u64)));
    headers.push(header("cache-control", "no-cache".to_owned()));
    assert(headers.deep_view() =~= seq![
        ("content-type"@, asset.kind()),
        length_header(body@.len()),
        ("cache-control"@, "no-cache"@),
    ]);
    if method == Method::Head {
        return Reply { status: 200, headers, body: ReplyBody::Empty };
    }
    Reply { status: 200, headers, body: ReplyBody::Bytes(body) }
}

/// Each of the three assets has its own path and every other path is the shell's; what is
/// sent is the file, under its own type, and a `HEAD` says the same without it. Nothing
/// can be written.
pub proof fn a_page_is_its_file<C>(method: Method, path: Seq<char>, body: Seq<u8>)
    ensures
        path != "/app.css"@ && path != "/app.js"@ && path != "/logo.svg"@ ==> Asset::at(path)
            == Asset::Shell,
        Asset::at("/app.css"@) == Asset::Style,
        Asset::at("/app.js"@) == Asset::Script,
        Asset::at("/logo.svg"@) == Asset::Logo,
        ({
            let said = served::<C>(method, Asset::at(path), body);
            &&& method == Method::Get ==> said.status == 200 && said.body == BodyView::<C>::Bytes(
                body,
            )
            &&& method == Method::Head ==> said.status == 200 && said.body == BodyView::<C>::Empty
            &&& method == Method::Get || method == Method::Head ==> first_value(
                said.headers,
                "content-type"@,
            ) == Some(Asset::at(path).kind()) && first_value(said.headers, "content-length"@)
                == Some(decimal(body.len())) && first_value(said.headers, "cache-control"@) == Some(
                "no-cache"@,
            )
            &&& method != Method::Get && method != Method::Head ==> said.status == 405 && said.body
                == BodyView::<C>::Empty
        }),
{
    reveal_strlit("/app.css");
    reveal_strlit("/app.js");
    reveal_strlit("/logo.svg");
    assert("/app.css"@.len() == 8 && "/app.js"@.len() == 7 && "/logo.svg"@.len() == 9);
    reveal_strlit("content-type");
    reveal_strlit("content-length");
    reveal_strlit("cache-control");
    assert("content-type"@.len() == 12 && "content-length"@.len() == 14 && "cache-control"@.len()
        == 13);
    reveal_with_fuel(first_value, 4);
    let said = served::<C>(method, Asset::at(path), body);
    if method == Method::Get || method == Method::Head {
        let h = said.headers;
        assert(h.drop_first()[0] == h[1]);
        assert(h.drop_first().drop_first()[0] == h[2]);
    }
}

} // verus!
