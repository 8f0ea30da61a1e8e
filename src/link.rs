//! Finding the video identifier in a YouTube link.

use vstd::prelude::*;
use crate::text::views;

verus! {

/// The parts of a parsed URL that identify a video.
pub struct LinkParts {
    /// The host, if the URL has one.
    pub host: Option<String>,
    /// The path split at each `/` after the leading one, if the URL has a
    /// path of that form.
    pub segments: Option<Vec<String>>,
    /// The decoded key and value of each query pair, in order.
    pub query: Vec<(String, String)>,
}

/// [`LinkParts`] as character sequences.
pub struct LinkView {
    pub host: Option<Seq<char>>,
    pub segments: Option<Seq<Seq<char>>>,
    pub query: Seq<(Seq<char>, Seq<char>)>,
}

impl LinkParts {
    pub open spec fn view(&self) -> LinkView {
        LinkView {
            host: match self.host {
                Some(h) => Some(h@),
                None => None,
            },
            segments: match self.segments {
                Some(s) => Some(views(s@)),
                None => None,
            },
            query: self.query@.map_values(|p: (String, String)| (p.0@, p.1@)),
        }
    }
}

/// What `url::Url::parse` finds in a text, as the parts that [`LinkParts`]
/// holds; none when the text is not a URL.
pub uninterp spec fn parsed_link(s: Seq<char>) -> Option<LinkView>;

/// [`LinkParts`] as character sequences, if there are any.
pub open spec fn parts_view(p: Option<LinkParts>) -> Option<LinkView> {
    match p {
        Some(p) => Some(p.view()),
        None => None,
    }
}

/// Relies on `url::Url::parse`, and on the parsed URL's `host_str`,
/// `path_segments` and `query_pairs`, to read the parts of `link`; the
/// result depends on the text of `link` alone.
#[verifier::external_body]
fn parse_link(link: &str) -> (r: Option<LinkParts>)
    ensures
        parts_view(r) == parsed_link(link@),
{
    let url = url::Url::parse(link).ok()?;
    Some(LinkParts {
        host: url.host_str().map(|h| h.to_string()),
        segments: url.path_segments().map(|s| s.map(|p| p.to_string()).collect()),
        query: url.query_pairs().map(|(k, v)| (k.into_owned(), v.into_owned())).collect(),
    })
}

/// The value of the first query pair whose key is `key`.
pub open spec fn first_value(
    query: Seq<(Seq<char>, Seq<char>)>,
    key: Seq<char>,
) -> Option<Seq<char>>
    decreases query.len(),
{
    if query.len() == 0 {
        None
    } else if query[0].0 == key {
        Some(query[0].1)
    } else {
        first_value(query.drop_first(), key)
    }
}

/// The segment after the first `embed` segment, if there is one.
pub open spec fn after_embed(segs: Seq<Seq<char>>) -> Option<Seq<char>>
    decreases segs.len(),
{
    if segs.len() == 0 {
        None
    } else if segs[0] == "embed"@ {
        if segs.len() > 1 {
            Some(segs[1])
        } else {
            None
        }
    } else {
        after_embed(segs.drop_first())
    }
}

/// Whether `h` is one of the hosts that serve the full site.
pub open spec fn is_site_host(h: Seq<char>) -> bool {
    h == "www.youtube.com"@ || h == "youtube.com"@ || h == "m.youtube.com"@
}

/// The video identifier in a link: the first path segment of a short
/// `youtu.be` link; for the full site the `v` query value, or else the
/// segment after `embed`; nothing for any other host.
pub open spec fn youtube_id_of(v: LinkView) -> Option<Seq<char>> {
    match v.host {
        None => None,
        Some(h) => if h == "youtu.be"@ {
            match v.segments {
                Some(s) => if s.len() > 0 {
                    Some(s[0])
                } else {
                    None
                },
                None => None,
            }
        } else if is_site_host(h) {
            match first_value(v.query, "v"@) {
                Some(id) => Some(id),
                None => match v.segments {
                    Some(s) => after_embed(s),
                    None => None,
                },
            }
        } else {
            None
        },
    }
}

/// An optional string as a character sequence.
pub open spec fn opt_view(s: Option<String>) -> Option<Seq<char>> {
    match s {
        Some(s) => Some(s@),
        None => None,
    }
}

/// Whether two strings hold the same text.
fn same_text(a: &String, b: &str) -> (r: bool)
    ensures
        r == (a@ == b@),
{
    *a == String::from_str(b)
}

/// The value of the first query pair of `query` whose key is `key`.
fn query_value(query: &Vec<(String, String)>, key: &str) -> (r: Option<String>)
    ensures
        opt_view(r) == first_value(query@.map_values(|p: (String, String)| (p.0@, p.1@)), key@),
{
    let ghost q = query@.map_values(|p: (String, String)| (p.0@, p.1@));
    let mut i: usize = 0;
    proof {
        assert(q.skip(0) =~= q);
    }
    while i < query.len()
        invariant
            i <= query@.len(),
            q == query@.map_values(|p: (String, String)| (p.0@, p.1@)),
            first_value(q.skip(i as int), key@) == first_value(q, key@),
        decreases query@.len() - i,
    {
        proof {
            assert(q.skip(i as int).drop_first() =~= q.skip(i + 1));
            assert(q.skip(i as int)[0] == q[i as int]);
        }
        if same_text(&query[i].0, key) {
            return Some(query[i].1.clone());
        }
        i = i + 1;
    }
    proof {
        assert(q.skip(i as int).len() == 0);
    }
    None
}

/// The segment after the first `embed` segment of `segs`.
fn segment_after_embed(segs: &Vec<String>) -> (r: Option<String>)
    ensures
        opt_view(r) == after_embed(views(segs@)),
{
    let ghost s = views(segs@);
    let mut i: usize = 0;
    proof {
        assert(s.skip(0) =~= s);
    }
    while i < segs.len()
        invariant
            i <= segs@.len(),
            s == views(segs@),
            after_embed(s.skip(i as int)) == after_embed(s),
        decreases segs@.len() - i,
    {
        proof {
            assert(s.skip(i as int).drop_first() =~= s.skip(i + 1));
            assert(s.skip(i as int)[0] == s[i as int]);
        }
        if same_text(&segs[i], "embed") {
            if i + 1 < segs.len() {
                proof {
                    assert(s.skip(i as int)[1] == s[i + 1]);
                }
                return Some(segs[i + 1].clone());
            }
            return None;
        }
        i = i + 1;
    }
    proof {
        assert(s.skip(i as int).len() == 0);
    }
    None
}

/// The video identifier that the parts of a parsed link carry.
pub fn youtube_id_from_parts(parts: &LinkParts) -> (r: Option<String>)
    ensures
        opt_view(r) == youtube_id_of(parts.view()),
{
    let host = match &parts.host {
        Some(h) => h,
        None => return None,
    };
    if same_text(host, "youtu.be") {
        return match &parts.segments {
            Some(s) => if s.len() > 0 {
                Some(s[0].clone())
            } else {
                None
            },
            None => None,
        };
    }
    if same_text(host, "www.youtube.com") || same_text(host, "youtube.com") || same_text(
        host,
        "m.youtube.com",
    ) {
        if let Some(id) = query_value(&parts.query, "v") {
            return Some(id);
        }
        return match &parts.segments {
            Some(s) => segment_after_embed(s),
            None => None,
        };
    }
    None
}

/// The video identifier in a YouTube link; none when the text is not a URL
/// or names no video.
pub fn get_youtube_id(link: &str) -> (r: Option<String>)
    ensures
        opt_view(r) == match parsed_link(link@) {
            Some(v) => youtube_id_of(v),
            None => None,
        },
{
    match parse_link(link) {
        Some(parts) => youtube_id_from_parts(&parts),
        None => None,
    }
}

} // verus!
