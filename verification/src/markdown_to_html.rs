//! Turning an update note written in markdown into HTML for the web site:
//! the YAML front matter is read and left out, image links relative to the
//! note's folder are made absolute, and images that are videos become
//! `<video>` elements. pulldown-cmark reads the events and writes the HTML;
//! the decisions taken at each event are made here.
use vstd::prelude::*;
use crate::text_bytes::{utf8_bytes, bytes_start_with, bytes_end_with, starts_with_bytes, ends_with_bytes, append_str};
use pulldown_cmark::{html, Event, MetadataBlockKind, Options, Parser, Tag, TagEnd};

verus! {

/// The front matter of an update note.
#[derive(Debug, Clone, PartialEq, Eq)]
pub struct Metadata {
    pub date: String,
    pub title: String,
}

/// The lowercase form of a text, as std's `str::to_lowercase` gives it.
pub uninterp spec fn lowercase(s: Seq<char>) -> Seq<char>;

/// std's `str::to_lowercase`: the result is named, not stated.
#[verifier::external_body]
fn to_lowercase(s: &str) -> (r: String)
    ensures
        r@ == lowercase(s@),
{
    s.to_lowercase()
}

/// A link is absolute when it starts with `http://`, `https://` or `/`.
pub open spec fn is_absolute_link(url: Seq<char>) -> bool {
    ||| bytes_start_with(utf8_bytes(url), utf8_bytes("http://"@))
    ||| bytes_start_with(utf8_bytes(url), utf8_bytes("https://"@))
    ||| bytes_start_with(utf8_bytes(url), utf8_bytes("/"@))
}

/// Where an image link of a note in the folder `base_path` points on the web
/// site: absolute links stay as they are, relative ones are put under
/// `/<base_path>/`.
pub open spec fn resolve_image_path_spec(url: Seq<char>, base_path: Seq<char>) -> Seq<char> {
    if is_absolute_link(url) {
        url
    } else {
        "/"@ + base_path + "/"@ + url
    }
}

/// Resolves an image link of a note in the folder `base_path` (see
/// [`resolve_image_path_spec`]).
pub fn resolve_image_path(url: &str, base_path: &str) -> (r: String)
    ensures
        r@ == resolve_image_path_spec(url@, base_path@),
{
    let b = url.as_bytes();
    if starts_with_bytes(b, "http://".as_bytes()) || starts_with_bytes(b, "https://".as_bytes())
        || starts_with_bytes(b, "/".as_bytes()) {
        url.to_owned()
    } else {
        let mut web_path = String::new();
        append_str(&mut web_path, "/");
        append_str(&mut web_path, base_path);
        append_str(&mut web_path, "/");
        append_str(&mut web_path, url);
        assert(web_path@ =~= "/"@ + base_path@ + "/"@ + url@);
        web_path
    }
}

/// The lowercase link ends with `ext`.
pub open spec fn has_ext(url: Seq<char>, ext: Seq<char>) -> bool {
    bytes_end_with(utf8_bytes(lowercase(url)), utf8_bytes(ext))
}

/// A link points to a video when, in lowercase, it ends with one of the video
/// extensions.
pub open spec fn is_video_spec(url: Seq<char>) -> bool {
    ||| has_ext(url, ".mp4"@)
    ||| has_ext(url, ".webm"@)
    ||| has_ext(url, ".ogg"@)
    ||| has_ext(url, ".mov"@)
    ||| has_ext(url, ".avi"@)
    ||| has_ext(url, ".mkv"@)
}

/// Each of the six video extensions makes a link a video, and a video link
/// gets the MIME type of its extension: the MP4 type only for `.mp4` links
/// (or links with no known extension, which are no videos).
pub proof fn law_video_extensions(url: Seq<char>)
    ensures
        has_ext(url, ".mp4"@) ==> is_video_spec(url),
        has_ext(url, ".webm"@) ==> is_video_spec(url),
        has_ext(url, ".ogg"@) ==> is_video_spec(url),
        has_ext(url, ".mov"@) ==> is_video_spec(url),
        has_ext(url, ".avi"@) ==> is_video_spec(url),
        has_ext(url, ".mkv"@) ==> is_video_spec(url),
        !is_video_spec(url) ==> video_mime_spec(url) == "video/mp4"@,
        is_video_spec(url) && !has_ext(url, ".mp4"@) ==> video_mime_spec(url) != "video/mp4"@,
{
    reveal_strlit("video/mp4");
    reveal_strlit("video/webm");
    reveal_strlit("video/ogg");
    reveal_strlit("video/quicktime");
    reveal_strlit("video/x-msvideo");
    reveal_strlit("video/x-matroska");
    if is_video_spec(url) && !has_ext(url, ".mp4"@) {
        let m = video_mime_spec(url);
        assert(m.len() != 9 || m[6] != 'm');
        assert(m != "video/mp4"@);
    }
}

/// True when the link points to a video (see [`is_video_spec`]): every link
/// ending, in lowercase, with `.mp4`, `.webm`, `.ogg`, `.mov`, `.avi` or
/// `.mkv`.
pub fn is_video_file(url: &str) -> (r: bool)
    ensures
        r == is_video_spec(url@),
        has_ext(url@, ".mp4"@) || has_ext(url@, ".webm"@) || has_ext(url@, ".ogg"@) || has_ext(url@, ".mov"@)
            || has_ext(url@, ".avi"@) || has_ext(url@, ".mkv"@) ==> r,
{
    proof {
        law_video_extensions(url@);
    }
    let lower = to_lowercase(url);
    let b = lower.as_str().as_bytes();
    ends_with_bytes(b, ".mp4".as_bytes()) || ends_with_bytes(b, ".webm".as_bytes())
        || ends_with_bytes(b, ".ogg".as_bytes()) || ends_with_bytes(b, ".mov".as_bytes())
        || ends_with_bytes(b, ".avi".as_bytes()) || ends_with_bytes(b, ".mkv".as_bytes())
}

/// The MIME type of a video link, by its extension; MP4 when none is known.
pub open spec fn video_mime_spec(url: Seq<char>) -> Seq<char> {
    if has_ext(url, ".mp4"@) {
        "video/mp4"@
    } else if has_ext(url, ".webm"@) {
        "video/webm"@
    } else if has_ext(url, ".ogg"@) {
        "video/ogg"@
    } else if has_ext(url, ".mov"@) {
        "video/quicktime"@
    } else if has_ext(url, ".avi"@) {
        "video/x-msvideo"@
    } else if has_ext(url, ".mkv"@) {
        "video/x-matroska"@
    } else {
        "video/mp4"@
    }
}

/// The MIME type of a video link (see [`video_mime_spec`]).
pub fn get_video_mime_type(url: &str) -> (r: &'static str)
    ensures
        r@ == video_mime_spec(url@),
{
    let lower = to_lowercase(url);
    let b = lower.as_str().as_bytes();
    if ends_with_bytes(b, ".mp4".as_bytes()) {
        "video/mp4"
    } else if ends_with_bytes(b, ".webm".as_bytes()) {
        "video/webm"
    } else if ends_with_bytes(b, ".ogg".as_bytes()) {
        "video/ogg"
    } else if ends_with_bytes(b, ".mov".as_bytes()) {
        "video/quicktime"
    } else if ends_with_bytes(b, ".avi".as_bytes()) {
        "video/x-msvideo"
    } else if ends_with_bytes(b, ".mkv".as_bytes()) {
        "video/x-matroska"
    } else {
        "video/mp4"
    }
}

/// The `<video>` element that plays `src` of type `mime`.
pub open spec fn video_html_spec(src: Seq<char>, mime: Seq<char>) -> Seq<char> {
    "<video controls autoplay loop muted>\n  <source src=\""@ + src + "\" type=\""@ + mime
        + "\">\n  Your browser does not support the video tag.\n</video>"@
}

/// Writes the `<video>` element that plays `src` of type `mime`.
pub fn video_html(src: &str, mime: &str) -> (r: String)
    ensures
        r@ == video_html_spec(src@, mime@),
{
    let mut html = String::new();
    append_str(&mut html, "<video controls autoplay loop muted>\n  <source src=\"");
    append_str(&mut html, src);
    append_str(&mut html, "\" type=\"");
    append_str(&mut html, mime);
    append_str(&mut html, "\">\n  Your browser does not support the video tag.\n</video>");
    assert(html@ =~= video_html_spec(src@, mime@));
    html
}

/// What the converter remembers between markdown events: whether it is
/// inside the front matter, the front matter once read, and the link of a
/// video whose image tag is open.
pub struct MdState {
    pub inside_yaml_meta: bool,
    pub metadata: Option<Metadata>,
    pub video_dest_url: Option<String>,
}

impl MdState {
    pub fn new() -> (r: Self)
        ensures
            !r.inside_yaml_meta,
            r.metadata is None,
            r.video_dest_url is None,
    {
        MdState { inside_yaml_meta: false, metadata: None, video_dest_url: None }
    }
}

/// A markdown event as far as the converter looks at it.
pub enum MdEventKind {
    /// The start of a YAML front matter block.
    YamlMetadataStart,
    /// The end of a YAML front matter block.
    YamlMetadataEnd,
    Text,
    /// The start of an image, with its link.
    ImageStart(String),
    ImageEnd,
    Other,
}

/// What to do with a markdown event.
pub enum MdAction {
    /// Leave the event out.
    Skip,
    /// Leave the event out, and read its text as the front matter.
    ParseMetadata,
    /// Keep the event as it is.
    Keep,
    /// Keep the image, pointing it to this link.
    KeepImageAt(String),
    /// Put this HTML in place of the event.
    EmitHtml(String),
}

/// Decides what to do with a markdown event, and updates the state: the
/// front matter is read and left out; the text of a video image is left out
/// and its end becomes a `<video>` element; other images get their link
/// resolved; every other event is kept.
pub fn next_action(state: &mut MdState, event: MdEventKind, base_path: &str) -> (r: MdAction)
    ensures
        match event {
            MdEventKind::YamlMetadataStart => r is Skip && final(state).inside_yaml_meta
                && final(state).metadata == old(state).metadata && final(state).video_dest_url
                == old(state).video_dest_url,
            MdEventKind::YamlMetadataEnd => r is Skip && !final(state).inside_yaml_meta
                && final(state).metadata == old(state).metadata && final(state).video_dest_url
                == old(state).video_dest_url,
            MdEventKind::Text => *final(state) == *old(state) && (if old(state).metadata is None
                && old(state).inside_yaml_meta {
                r is ParseMetadata
            } else if old(state).video_dest_url is Some {
                r is Skip
            } else {
                r is Keep
            }),
            MdEventKind::ImageStart(dest) => final(state).inside_yaml_meta
                == old(state).inside_yaml_meta && final(state).metadata == old(state).metadata && (
            if is_video_spec(dest@) {
                r is Skip && (final(state).video_dest_url matches Some(v) && v@ == dest@)
            } else {
                final(state).video_dest_url == old(state).video_dest_url && (r matches MdAction::KeepImageAt(
                    url,
                ) && url@ == resolve_image_path_spec(dest@, base_path@))
            }),
            MdEventKind::ImageEnd => final(state).inside_yaml_meta == old(state).inside_yaml_meta
                && final(state).metadata == old(state).metadata && final(state).video_dest_url is None
                && match old(state).video_dest_url {
                Some(dest) => r matches MdAction::EmitHtml(html) && html@ == video_html_spec(
                    resolve_image_path_spec(dest@, base_path@),
                    video_mime_spec(dest@),
                ),
                None => r is Keep,
            },
            MdEventKind::Other => *final(state) == *old(state) && r is Keep,
        },
{
    match event {
        MdEventKind::YamlMetadataStart => {
            state.inside_yaml_meta = true;
            MdAction::Skip
        },
        MdEventKind::YamlMetadataEnd => {
            state.inside_yaml_meta = false;
            MdAction::Skip
        },
        MdEventKind::Text => {
            if state.metadata.is_none() && state.inside_yaml_meta {
                MdAction::ParseMetadata
            } else if state.video_dest_url.is_some() {
                MdAction::Skip
            } else {
                MdAction::Keep
            }
        },
        MdEventKind::ImageStart(dest_url) => {
            if is_video_file(dest_url.as_str()) {
                state.video_dest_url = Some(dest_url);
                MdAction::Skip
            } else {
                MdAction::KeepImageAt(resolve_image_path(dest_url.as_str(), base_path))
            }
        },
        MdEventKind::ImageEnd => {
            match state.video_dest_url.take() {
                Some(dest_url) => {
                    let resolved_url = resolve_image_path(dest_url.as_str(), base_path);
                    let mime = get_video_mime_type(dest_url.as_str());
                    MdAction::EmitHtml(video_html(resolved_url.as_str(), mime))
                },
                None => MdAction::Keep,
            }
        },
        MdEventKind::Other => MdAction::Keep,
    }
}


// ---- the whole conversion ----

#[verifier::external_type_specification]
#[verifier::external_body]
pub struct ExMarkdownEvent<'a>(Event<'a>);

/// A markdown event as the converter sees it: the kinds it acts on with the
/// text it reads, and every other event carried through as the parser gave it.
pub enum MdEvent {
    YamlMetadataStart,
    YamlMetadataEnd,
    Text(String),
    /// The start of an image: its link, and the whole start event.
    ImageStart(String, Event<'static>),
    ImageEnd,
    /// HTML written in place of events.
    Html(String),
    Other(Event<'static>),
}

/// A markdown event as plain values.
pub enum MdEventView {
    YamlMetadataStart,
    YamlMetadataEnd,
    Text(Seq<char>),
    ImageStart(Seq<char>, Event<'static>),
    ImageEnd,
    Html(Seq<char>),
    Other(Event<'static>),
}

pub open spec fn md_view(e: MdEvent) -> MdEventView {
    match e {
        MdEvent::YamlMetadataStart => MdEventView::YamlMetadataStart,
        MdEvent::YamlMetadataEnd => MdEventView::YamlMetadataEnd,
        MdEvent::Text(t) => MdEventView::Text(t@),
        MdEvent::ImageStart(d, raw) => MdEventView::ImageStart(d@, raw),
        MdEvent::ImageEnd => MdEventView::ImageEnd,
        MdEvent::Html(h) => MdEventView::Html(h@),
        MdEvent::Other(raw) => MdEventView::Other(raw),
    }
}

pub open spec fn md_views(es: Seq<MdEvent>) -> Seq<MdEventView> {
    es.map_values(|e: MdEvent| md_view(e))
}

/// The events pulldown-cmark reads in a markdown text (with YAML front matter
/// blocks and all its extensions on).
pub uninterp spec fn md_events(markdown: Seq<char>) -> Seq<MdEventView>;

/// The HTML pulldown-cmark writes for a sequence of events.
pub uninterp spec fn html_of(events: Seq<MdEventView>) -> Seq<char>;

/// pulldown-cmark's `Parser::new_ext`, each event taken as an `MdEvent`.
#[verifier::external_body]
fn parse_markdown(markdown: &str) -> (r: Vec<MdEvent>)
    ensures
        md_views(r@) == md_events(markdown@),
{
    let options = Options::ENABLE_YAML_STYLE_METADATA_BLOCKS | Options::all();
    Parser::new_ext(markdown, options).map(|e| match e.into_static() {
        Event::Start(Tag::MetadataBlock(MetadataBlockKind::YamlStyle)) => MdEvent::YamlMetadataStart,
        Event::End(TagEnd::MetadataBlock(MetadataBlockKind::YamlStyle)) => MdEvent::YamlMetadataEnd,
        Event::Text(t) => MdEvent::Text(t.to_string()),
        Event::Start(Tag::Image { link_type, dest_url, title, id }) => MdEvent::ImageStart(
            dest_url.to_string(), Event::Start(Tag::Image { link_type, dest_url, title, id })),
        Event::End(TagEnd::Image) => MdEvent::ImageEnd,
        other => MdEvent::Other(other),
    }).collect()
}

/// pulldown-cmark's `html::push_html` on the events, each `MdEvent` taken
/// back as the event it stands for.
#[verifier::external_body]
fn render_html(events: Vec<MdEvent>) -> (r: String)
    ensures
        r@ == html_of(md_views(events@)),
{
    let mut out = String::new();
    html::push_html(&mut out, events.into_iter().map(|e| match e {
        MdEvent::YamlMetadataStart => Event::Start(Tag::MetadataBlock(MetadataBlockKind::YamlStyle)),
        MdEvent::YamlMetadataEnd => Event::End(TagEnd::MetadataBlock(MetadataBlockKind::YamlStyle)),
        MdEvent::Text(t) => Event::Text(t.into()),
        MdEvent::ImageStart(d, Event::Start(Tag::Image { link_type, title, id, .. })) => Event::Start(
            Tag::Image { link_type, dest_url: d.into(), title, id }),
        MdEvent::ImageStart(_, raw) | MdEvent::Other(raw) => raw,
        MdEvent::ImageEnd => Event::End(TagEnd::Image),
        MdEvent::Html(h) => Event::Html(h.into()),
    }));
    out
}

/// Where the conversion stands after some events: inside a front matter
/// block or not, the front matter text once one has been read, the link of an
/// open video image, and the events to write. `parses` says whether the
/// event's text reads as front matter. Inside a YAML block, while no front
/// matter has been read, each text is left out and the first one that reads
/// becomes the front matter; once it has been read, later texts are written
/// like any other.
pub open spec fn md_step(
    st: (bool, Option<Seq<char>>, Option<Seq<char>>, Seq<MdEventView>),
    ev: MdEventView,
    base: Seq<char>,
    parses: bool,
) -> (bool, Option<Seq<char>>, Option<Seq<char>>, Seq<MdEventView>) {
    let (y, f, v, out) = st;
    match ev {
        MdEventView::YamlMetadataStart => (true, f, v, out),
        MdEventView::YamlMetadataEnd => (false, f, v, out),
        MdEventView::Text(t) => if y && f is None {
            (y, if parses { Some(t) } else { f }, v, out)
        } else if v is Some {
            st
        } else {
            (y, f, v, out.push(ev))
        },
        MdEventView::ImageStart(d, raw) => if is_video_spec(d) {
            (y, f, Some(d), out)
        } else {
            (y, f, v, out.push(MdEventView::ImageStart(resolve_image_path_spec(d, base), raw)))
        },
        MdEventView::ImageEnd => match v {
            Some(d) => (y, f, None, out.push(
                MdEventView::Html(video_html_spec(resolve_image_path_spec(d, base), video_mime_spec(d))),
            )),
            None => (y, f, None, out.push(ev)),
        },
        _ => (y, f, v, out.push(ev)),
    }
}

/// Whether the `k`-th event's text reads as front matter.
pub open spec fn parses_at(parses: Seq<bool>, k: int) -> bool {
    0 <= k < parses.len() && parses[k]
}

pub open spec fn md_fold(evs: Seq<MdEventView>, base: Seq<char>, parses: Seq<bool>, k: int) -> (
    bool,
    Option<Seq<char>>,
    Option<Seq<char>>,
    Seq<MdEventView>,
)
    decreases k,
{
    if k <= 0 || k > evs.len() {
        (false, None, None, Seq::empty())
    } else {
        md_step(md_fold(evs, base, parses, k - 1), evs[k - 1], base, parses_at(parses, k - 1))
    }
}

/// The events pulldown-cmark reads in `markdown`.
pub fn parse_events(markdown: &str) -> (r: Vec<MdEvent>)
    ensures
        md_views(r@) == md_events(markdown@),
{
    parse_markdown(markdown)
}

/// Converts markdown events to HTML: the front matter is left out, image
/// links are resolved against `base_path`, video images are written as
/// `<video>` elements, and the other events are written as they are (see
/// `md_step`). `metadata_parses[k]` says whether the text of the `k`-th event
/// reads as front matter. Also gives the front matter's text.
pub fn convert_events(events: Vec<MdEvent>, base_path: &str, metadata_parses: &Vec<bool>) -> (r: (
    String,
    Option<String>,
))
    ensures
        ({
            let evs = md_views(events@);
            let st = md_fold(evs, base_path@, metadata_parses@, evs.len() as int);
            &&& r.0@ == html_of(st.3)
            &&& match st.1 {
                Some(f) => r.1 matches Some(t) && t@ == f,
                None => r.1 is None,
            }
        }),
{
    let ghost evs = md_views(events@);
    let mut rest = events;
    let mut rev: Vec<MdEvent> = Vec::new();
    while rest.len() > 0
        invariant
            md_views(rest@) + md_views(rev@).reverse() == evs,
        decreases rest@.len(),
    {
        let ghost before_rest = rest@;
        let ghost before_rev = rev@;
        let e = rest.pop().unwrap();
        rev.push(e);
        proof {
            assert(md_views(before_rest) =~= md_views(rest@).push(md_view(e)));
            assert(md_views(rev@) =~= md_views(before_rev).push(md_view(e)));
            assert(md_views(rev@).reverse() =~= seq![md_view(e)] + md_views(before_rev).reverse());
            assert(md_views(rest@) + md_views(rev@).reverse() =~= md_views(before_rest) + md_views(before_rev).reverse());
        }
    }
    assert(md_views(rev@).reverse() =~= evs);
    assert(rev@.len() == evs.len());
    let total: usize = rev.len();
    let mut state = MdState::new();
    let mut front: Option<String> = None;
    let mut out: Vec<MdEvent> = Vec::new();
    let mut k: usize = 0;
    while rev.len() > 0
        invariant
            0 <= k <= evs.len(),
            evs.len() - k == rev@.len(),
            evs.len() == total,
            md_views(rev@).reverse() == evs.subrange(k as int, evs.len() as int),
            state.metadata is None,
            ({
                let st = md_fold(evs, base_path@, metadata_parses@, k as int);
                &&& st.0 == state.inside_yaml_meta
                &&& (match st.1 {
                    Some(f) => front matches Some(t) && t@ == f,
                    None => front is None,
                })
                &&& (match st.2 {
                    Some(d) => state.video_dest_url matches Some(u) && u@ == d,
                    None => state.video_dest_url is None,
                })
                &&& st.3 == md_views(out@)
            }),
        decreases rev@.len(),
    {
        let ghost before_rev = rev@;
        let ghost before_out = md_views(out@);
        let e = rev.pop().unwrap();
        proof {
            assert(md_views(before_rev) =~= md_views(rev@).push(md_view(e)));
            assert(md_views(before_rev).reverse() =~= seq![md_view(e)] + md_views(rev@).reverse());
            assert(evs[k as int] == md_view(e)) by {
                assert(evs.subrange(k as int, evs.len() as int)[0] == evs[k as int]);
            }
            assert(md_views(rev@).reverse() =~= evs.subrange(k + 1, evs.len() as int)) by {
                assert(evs.subrange(k + 1, evs.len() as int) =~= evs.subrange(k as int, evs.len() as int).drop_first());
            }
        }
        match e {
            MdEvent::YamlMetadataStart => {
                next_action(&mut state, MdEventKind::YamlMetadataStart, base_path);
            },
            MdEvent::YamlMetadataEnd => {
                next_action(&mut state, MdEventKind::YamlMetadataEnd, base_path);
            },
            MdEvent::Text(t) => {
                if state.inside_yaml_meta && front.is_none() {
                    let parses = k < metadata_parses.len() && metadata_parses[k];
                    if parses {
                        front = Some(t);
                    }
                } else if state.video_dest_url.is_some() {
                } else {
                    out.push(MdEvent::Text(t));
                }
            },
            MdEvent::ImageStart(dest, raw) => {
                match next_action(&mut state, MdEventKind::ImageStart(dest), base_path) {
                    MdAction::KeepImageAt(url) => {
                        out.push(MdEvent::ImageStart(url, raw));
                    },
                    _ => {},
                }
            },
            MdEvent::ImageEnd => {
                match next_action(&mut state, MdEventKind::ImageEnd, base_path) {
                    MdAction::EmitHtml(h) => {
                        out.push(MdEvent::Html(h));
                    },
                    _ => {
                        out.push(MdEvent::ImageEnd);
                    },
                }
            },
            other => {
                next_action(&mut state, MdEventKind::Other, base_path);
                out.push(other);
            },
        }
        proof {
            assert(md_views(out@) =~= md_step(
                md_fold(evs, base_path@, metadata_parses@, k as int),
                evs[k as int],
                base_path@,
                parses_at(metadata_parses@, k as int),
            ).3);
        }
        k = k + 1;
    }
    assert(k == evs.len()) by {
        if k < evs.len() {
            assert(evs.subrange(k as int, evs.len() as int).len() > 0);
        }
    }
    let html = render_html(out);
    (html, front)
}

/// Converts an update note to HTML (see `convert_events`) from the events
/// pulldown-cmark reads in it; `metadata_parses[k]` says whether the text of
/// the `k`-th of those events reads as front matter.
pub fn markdown_to_html(markdown: &str, base_path: &str, metadata_parses: &Vec<bool>) -> (r: (
    String,
    Option<String>,
))
    ensures
        ({
            let evs = md_events(markdown@);
            let st = md_fold(evs, base_path@, metadata_parses@, evs.len() as int);
            &&& r.0@ == html_of(st.3)
            &&& match st.1 {
                Some(f) => r.1 matches Some(t) && t@ == f,
                None => r.1 is None,
            }
        }),
{
    let events = parse_events(markdown);
    convert_events(events, base_path, metadata_parses)
}

} // verus!
