//! What counts as a pull.
//!
//! A `GET` that was answered with a manifest, or with a blob or a window of one. A
//! `HEAD` is not a pull: clients issue `HEAD` then `GET`, so counting both would
//! double every number. A manifest is counted at once, a blob by the bytes that reach
//! the socket.
use vstd::prelude::*;

use crate::digest::Digest;
use crate::server::app::{Endpoint, Target};
use crate::server::config::ServerConfig;
use crate::server::error::Failure;
use crate::server::handlers::dispatch::handles;
use crate::server::http::{answer, Asked, Handled, Method, ReplyBody, Said};
use crate::server::query::{first, first_value};
use crate::server::reference::{
    digest_request, digests_are_requested_by_their_text, parse_digest, parse_reference,
    reference_request, Reference, Referred,
};
use crate::server::seam::Event;

verus! {

/// A pull to be counted.
#[derive(Debug)]
pub enum Pull {
    /// For the manifest, for its repository, and for the tag it was asked for by.
    Manifest { repo: String, tag: Option<String>, digest: Digest },
    /// For the repository alone: attributing a shared layer's bytes to one manifest
    /// would be a lie.
    Blob { repo: String },
}

/// What is pulled.
pub enum Pulled {
    Manifest { repo: Seq<char>, tag: Option<Seq<char>>, digest: Digest },
    Blob { repo: Seq<char> },
}

impl DeepView for Pull {
    type V = Pulled;

    open spec fn deep_view(&self) -> Pulled {
        match *self {
            Pull::Manifest { repo, tag, digest } => Pulled::Manifest {
                repo: repo@,
                tag: tag.deep_view(),
                digest,
            },
            Pull::Blob { repo } => Pulled::Blob { repo: repo@ },
        }
    }
}

/// The tag that a reference is, if it is one: a pull by digest must not invent a
/// tag.
pub open spec fn tag_in(reference: Seq<char>) -> Option<Seq<char>> {
    match reference_request(reference) {
        Ok(Referred::Tag(t)) => Some(t),
        _ => None,
    }
}

/// The digest that an answer says it carries.
pub open spec fn digest_said(headers: Seq<(Seq<char>, Seq<char>)>) -> Option<Digest> {
    match first_value(headers, "docker-content-digest"@) {
        Some(text) => match digest_request(text) {
            Ok(d) => Some(d),
            Err(_) => None,
        },
        None => None,
    }
}

/// What was pulled by a request that was answered so, if anything was.
pub open spec fn pull_made<C>(method: Method, target: Target, said: Result<Said<C>, Failure>) -> Option<
    Pulled,
> {
    match (method, target, said) {
        (Method::Get, Target::Manifest { name, reference }, Ok(said)) => match digest_said(
            said.headers,
        ) {
            Some(digest) if said.status == 200 => Some(
                Pulled::Manifest { repo: name, tag: tag_in(reference), digest },
            ),
            _ => None,
        },
        (Method::Get, Target::Blob { name, .. }, Ok(said)) => if said.body is Blob {
            Some(Pulled::Blob { repo: name })
        } else {
            None
        },
        _ => None,
    }
}

/// What a request has pulled, if anything, from how it was answered.
pub fn pull_of<C>(method: Method, endpoint: &Endpoint, handled: &Handled<C>) -> (r: Option<Pull>)
    ensures
        r.deep_view() == pull_made(method, endpoint.deep_view(), answer(*handled)),
{
    let reply = match handled {
        Ok(reply) => reply,
        Err(_) => return None,
    };
    if method != Method::Get {
        return None;
    }
    match endpoint {
        Endpoint::Manifest { name, reference } => {
            if reply.status != 200 {
                return None;
            }
            assert(reply.headers@.map_values(|p: (String, String)| p.deep_view())
                =~= reply.headers.deep_view());
            let text = match first(reply.headers.as_slice(), "docker-content-digest") {
                Some(text) => text,
                None => return None,
            };
            let digest = match parse_digest(text) {
                Ok(digest) => digest,
                Err(_) => return None,
            };
            let tag = match parse_reference(reference.as_str()) {
                Ok(Reference::Tag(tag)) => Some(tag),
                _ => None,
            };
            Some(Pull::Manifest { repo: name.as_str().to_owned(), tag, digest })
        },
        Endpoint::Blob { name, .. } => match &reply.body {
            ReplyBody::Blob(_) => Some(Pull::Blob { repo: name.as_str().to_owned() }),
            _ => None,
        },
        _ => None,
    }
}

/// Nothing but a `GET` is a pull, and nothing that failed is one.
pub proof fn only_a_get_that_succeeds_is_a_pull<C>(
    method: Method,
    target: Target,
    said: Result<Said<C>, Failure>,
)
    requires
        method != Method::Get || said is Err,
    ensures
        pull_made(method, target, said) is None,
{
}

/// A manifest that was sent was pulled: under the digest that the registry gave, and
/// under the tag if it was asked for by one. A client that already had it pulled
/// nothing.
pub proof fn a_manifest_that_was_sent_was_pulled<B, C>(
    asked: Asked,
    config: ServerConfig,
    name: Seq<char>,
    reference: Seq<char>,
    id: Seq<char>,
    body: B,
    talk: Seq<Event<B, C>>,
    said: Said<C>,
)
    requires
        asked.method == Method::Get,
        handles(
            asked,
            config,
            Target::Manifest { name, reference },
            id,
            body,
            talk,
            Ok::<Said<C>, Failure>(said),
        ),
    ensures
        talk.len() == 1,
        talk[0] matches Event::GetManifest(_, what, Ok((stat, _))) && pull_made(
            asked.method,
            Target::Manifest { name, reference },
            Ok::<Said<C>, Failure>(said),
        ) == if said.status == 200 {
            Some(
                Pulled::Manifest {
                    repo: name,
                    tag: match what {
                        Referred::Tag(t) => Some(t),
                        Referred::Digest(_) => None,
                    },
                    digest: stat.digest,
                },
            )
        } else {
            None
        },
{
    if let Event::GetManifest(_, _, Ok((stat, _))) = talk[0] {
        digests_are_requested_by_their_text(stat.digest);
        reveal_strlit("content-type");
        reveal_strlit("content-length");
        reveal_strlit("docker-content-digest");
        reveal_with_fuel(first_value, 4);
        let hs = said.headers;
        if said.status == 200 {
            assert("content-type"@.len() != "docker-content-digest"@.len());
            assert("content-length"@.len() != "docker-content-digest"@.len());
            assert(hs.drop_first()[0] == hs[1]);
            assert(hs.drop_first().drop_first()[0] == hs[2]);
        }
    }
}

/// A blob that was sent, or a window of one, was pulled, and is counted for the
/// repository alone.
pub proof fn a_blob_that_was_sent_was_pulled<B, C>(
    asked: Asked,
    config: ServerConfig,
    name: Seq<char>,
    digest: Seq<char>,
    id: Seq<char>,
    body: B,
    talk: Seq<Event<B, C>>,
    said: Said<C>,
)
    requires
        asked.method == Method::Get,
        handles(
            asked,
            config,
            Target::Blob { name, digest },
            id,
            body,
            talk,
            Ok::<Said<C>, Failure>(said),
        ),
    ensures
        pull_made(
            asked.method,
            Target::Blob { name, digest },
            Ok::<Said<C>, Failure>(said),
        ) == Some(Pulled::Blob { repo: name }),
{
}

} // verus!
