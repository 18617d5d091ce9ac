//! The favicon fetcher as a state machine: it is told what a cache read, a
//! download or a file write gave, and answers with the next thing to do.
//! The order of attempts: the cached file, `/favicon.ico` over HTTPS then
//! HTTP, the icon links of the page (the bookmark's own address, then the
//! site root over HTTPS and HTTP, stopping at the first page that has any
//! text), the DuckDuckGo icon service, and Google's (whose answer counts
//! only above 68 bytes).

use vstd::prelude::*;
use vstd::string::{StringExecFns, StringSliceAdditionalSpecFns};
use vstd::utf8::*;
use crate::icons::{find_icon_links, icon_scan, string_bytes};
use crate::markup::lower_bytes;
use crate::net::{extract_domain, file_name_char, host_bytes, icon_to_store, png_magic, prepare_image, is_valid_image, sanitize_domain};
use crate::text::{str_lowercase, str_trim, trim, utf8};

verus! {

/// The text `String::from_utf8_lossy` makes of `bytes`.
pub uninterp spec fn utf8_lossy(bytes: Seq<u8>) -> Seq<char>;

/// `String::from_utf8_lossy`: the bytes as text, invalid sequences replaced
/// by U+FFFD. Stated: valid UTF-8 is decoded as it is, and the text is empty
/// exactly where the bytes are; the rest is named.
#[verifier::external_body]
fn lossy_text(bytes: &[u8]) -> (r: String)
    ensures
        r@ == utf8_lossy(bytes@),
        valid_utf8(bytes@) ==> r@ == decode_utf8(bytes@),
        r@.len() == 0 <==> bytes@.len() == 0,
{
    String::from_utf8_lossy(bytes).into_owned()
}

// ── The addresses tried ────────────────────────────────────────────────────

pub open spec fn ico_url(https: bool, domain: Seq<char>) -> Seq<char> {
    (if https {
        "https"@
    } else {
        "http"@
    }) + "://"@ + domain + "/favicon.ico"@
}

pub open spec fn page_url(k: int, url: Seq<char>, domain: Seq<char>) -> Seq<char> {
    if k == 0 {
        url
    } else if k == 1 {
        "https://"@ + domain + "/"@
    } else {
        "http://"@ + domain + "/"@
    }
}

pub open spec fn duck_url(domain: Seq<char>) -> Seq<char> {
    "https://icons.duckduckgo.com/ip3/"@ + domain + ".ico"@
}

pub open spec fn google_url(domain: Seq<char>) -> Seq<char> {
    "https://www.google.com/s2/favicons?domain="@ + domain + "&sz=32"@
}

fn make_ico_url(https: bool, domain: &str) -> (r: String)
    ensures
        r@ == ico_url(https, domain@),
{
    let mut s = String::from_str(
        if https {
            "https"
        } else {
            "http"
        },
    );
    s.append("://");
    s.append(domain);
    s.append("/favicon.ico");
    s
}

fn make_page_url(k: u8, url: &str, domain: &str) -> (r: String)
    ensures
        r@ == page_url(k as int, url@, domain@),
{
    if k == 0 {
        return url.to_owned();
    }
    let mut s = String::from_str(
        if k == 1 {
            "https://"
        } else {
            "http://"
        },
    );
    s.append(domain);
    s.append("/");
    s
}

fn make_duck_url(domain: &str) -> (r: String)
    ensures
        r@ == duck_url(domain@),
{
    let mut s = String::from_str("https://icons.duckduckgo.com/ip3/");
    s.append(domain);
    s.append(".ico");
    s
}

fn make_google_url(domain: &str) -> (r: String)
    ensures
        r@ == google_url(domain@),
{
    let mut s = String::from_str("https://www.google.com/s2/favicons?domain=");
    s.append(domain);
    s.append("&sz=32");
    s
}

// ── The machine ────────────────────────────────────────────────────────────

/// Where a fetch stands.
pub enum Stage {
    /// The cached file is being read.
    Cache,
    /// A stale cached file is being removed.
    DropCache,
    /// `/favicon.ico` over HTTPS (`true`) or HTTP.
    Ico(bool),
    /// Page `k` (see [`page_url`]) is being downloaded.
    Page(u8),
    /// Icon `next` of the `links` of page `page` is being downloaded; whether
    /// that page had text.
    Icons { page: u8, links: Vec<String>, next: usize, had_text: bool },
    Duck,
    Google,
    Done,
}

/// A fetch for one site: its address, host and file name, its stage, and
/// whether the last download is being written to the file.
pub struct Fetch {
    pub url: String,
    pub domain: String,
    pub file_name: String,
    pub stage: Stage,
    pub saving: bool,
}

/// What to do next.
pub enum Step {
    /// Read the cached file, if there is one.
    ReadCache,
    /// Remove the cached file.
    RemoveCache,
    /// Download this address (after making the icon folder).
    Get(String),
    /// Write these PNG bytes to the cached file.
    Save(Vec<u8>),
    /// Stop: the file name where an icon is stored, else nothing.
    Finish(Option<String>),
    /// Stop: the page text gave a cut inside a character.
    Fault,
}

/// What the last step gave.
pub enum Outcome {
    /// The cached file's bytes, or none where it is missing or unreadable.
    Cached(Option<Vec<u8>>),
    /// The stale file is gone (or could not be removed).
    Removed,
    /// The downloaded bytes, or none where the download failed.
    Got(Option<Vec<u8>>),
    /// Whether the icon file was written.
    Saved(bool),
}

/// The mathematical form of a [`Stage`].
pub enum StageView {
    Cache,
    DropCache,
    Ico(bool),
    Page(u8),
    Icons { page: u8, links: Seq<Seq<char>>, next: int, had_text: bool },
    Duck,
    Google,
    Done,
}

pub open spec fn string_views(v: Seq<String>) -> Seq<Seq<char>> {
    v.map_values(|s: String| s@)
}

impl View for Stage {
    type V = StageView;

    open spec fn view(&self) -> StageView {
        match self {
            Stage::Cache => StageView::Cache,
            Stage::DropCache => StageView::DropCache,
            Stage::Ico(h) => StageView::Ico(*h),
            Stage::Page(k) => StageView::Page(*k),
            Stage::Icons { page, links, next, had_text } => StageView::Icons {
                page: *page,
                links: string_views(links@),
                next: *next as int,
                had_text: *had_text,
            },
            Stage::Duck => StageView::Duck,
            Stage::Google => StageView::Google,
            Stage::Done => StageView::Done,
        }
    }
}

pub struct FetchView {
    pub url: Seq<char>,
    pub domain: Seq<char>,
    pub file_name: Seq<char>,
    pub stage: StageView,
    pub saving: bool,
}

impl View for Fetch {
    type V = FetchView;

    open spec fn view(&self) -> FetchView {
        FetchView {
            url: self.url@,
            domain: self.domain@,
            file_name: self.file_name@,
            stage: self.stage@,
            saving: self.saving,
        }
    }
}

/// The mathematical form of a [`Step`].
pub enum StepView {
    ReadCache,
    RemoveCache,
    Get(Seq<char>),
    Save(Seq<u8>),
    Finish(Option<Seq<char>>),
    Fault,
}

impl View for Step {
    type V = StepView;

    open spec fn view(&self) -> StepView {
        match self {
            Step::ReadCache => StepView::ReadCache,
            Step::RemoveCache => StepView::RemoveCache,
            Step::Get(u) => StepView::Get(u@),
            Step::Save(b) => StepView::Save(b@),
            Step::Finish(Some(n)) => StepView::Finish(Some(n@)),
            Step::Finish(None) => StepView::Finish(None),
            Step::Fault => StepView::Fault,
        }
    }
}

/// A fetch that can go on: pages are numbered 0 to 2 and an icon position
/// lies within its links.
pub open spec fn fetch_ok(f: FetchView) -> bool {
    match f.stage {
        StageView::Page(k) => k <= 2,
        StageView::Icons { page, links, next, .. } => page <= 2 && 0 <= next < links.len(),
        _ => true,
    }
}

/// The stage and step after the current attempt gave nothing usable.
pub open spec fn after_miss(f: FetchView) -> (StageView, StepView) {
    let d = f.domain;
    match f.stage {
        StageView::Cache | StageView::DropCache => (StageView::Ico(true), StepView::Get(ico_url(true, d))),
        StageView::Ico(true) => (StageView::Ico(false), StepView::Get(ico_url(false, d))),
        StageView::Ico(false) => (StageView::Page(0), StepView::Get(page_url(0, f.url, d))),
        StageView::Page(k) => if k < 2 {
            (StageView::Page((k + 1) as u8), StepView::Get(page_url(k + 1, f.url, d)))
        } else {
            (StageView::Duck, StepView::Get(duck_url(d)))
        },
        StageView::Icons { page, links, next, had_text } => if next + 1 < links.len() {
            (StageView::Icons { page, links, next: next + 1, had_text }, StepView::Get(links[next + 1]))
        } else if had_text || page >= 2 {
            (StageView::Duck, StepView::Get(duck_url(d)))
        } else {
            (StageView::Page((page + 1) as u8), StepView::Get(page_url(page + 1, f.url, d)))
        },
        StageView::Duck => (StageView::Google, StepView::Get(google_url(d))),
        _ => (StageView::Done, StepView::Finish(None)),
    }
}

pub open spec fn missed(f: FetchView) -> (FetchView, StepView) {
    (FetchView { stage: after_miss(f).0, saving: false, ..f }, after_miss(f).1)
}

/// Downloaded bytes kept where they make a PNG (then written), else the
/// next attempt.
pub open spec fn try_store(f: FetchView, b: Seq<u8>) -> (FetchView, StepView) {
    match icon_to_store(b) {
        Some(png) => (FetchView { saving: true, ..f }, StepView::Save(png)),
        None => missed(f),
    }
}

pub open spec fn decoded_links(v: Seq<Seq<u8>>) -> Seq<Seq<char>> {
    v.map_values(|b: Seq<u8>| decode_utf8(b))
}

/// The answer of the machine to what the last step gave.
pub open spec fn respond(f: FetchView, ev: Outcome) -> (FetchView, StepView) {
    let done = FetchView { stage: StageView::Done, saving: false, ..f };
    if f.saving {
        match ev {
            Outcome::Saved(true) => (done, StepView::Finish(Some(f.file_name))),
            _ => missed(f),
        }
    } else {
        match (f.stage, ev) {
            (StageView::Cache, Outcome::Cached(Some(b))) => if png_magic(b@) {
                (done, StepView::Finish(Some(f.file_name)))
            } else {
                (FetchView { stage: StageView::DropCache, ..f }, StepView::RemoveCache)
            },
            (StageView::Cache, Outcome::Cached(None)) => missed(f),
            (StageView::DropCache, Outcome::Removed) => missed(f),
            (StageView::Done, _) => (done, StepView::Fault),
            (StageView::Cache, _) | (StageView::DropCache, _) => (done, StepView::Fault),
            (_, Outcome::Got(None)) => missed(f),
            (StageView::Google, Outcome::Got(Some(b))) => if b@.len() > 68 {
                try_store(f, b@)
            } else {
                (done, StepView::Finish(None))
            },
            (StageView::Page(k), Outcome::Got(Some(b))) => {
                let text = utf8_lossy(b@);
                match icon_scan(
                    utf8(text),
                    lower_bytes(text),
                    utf8(page_url(k as int, f.url, f.domain)),
                    0,
                    Seq::empty(),
                    Seq::empty(),
                ) {
                    None => (done, StepView::Fault),
                    Some(links) => if links.len() > 0 {
                        (
                            FetchView {
                                stage: StageView::Icons {
                                    page: k,
                                    links: decoded_links(links),
                                    next: 0,
                                    had_text: text.len() > 0,
                                },
                                ..f
                            },
                            StepView::Get(decode_utf8(links[0])),
                        )
                    } else if text.len() > 0 {
                        (FetchView { stage: StageView::Duck, ..f }, StepView::Get(duck_url(f.domain)))
                    } else {
                        missed(f)
                    },
                }
            },
            (_, Outcome::Got(Some(b))) => try_store(f, b@),
            _ => (done, StepView::Fault),
        }
    }
}

/// The file an icon for `url` is stored in: its host with unsafe characters
/// replaced, and `.png`; none for an address without `http://`/`https://`
/// or without a host.
pub open spec fn icon_file(url: Seq<char>) -> Option<(Seq<char>, Seq<char>)> {
    let t = str_trim(url);
    if !((t.len() >= 7 && t.subrange(0, 7) == "http://"@) || (t.len() >= 8 && t.subrange(0, 8) == "https://"@)) {
        None
    } else {
        let h = host_bytes(utf8(str_trim(t)));
        if h.len() == 0 {
            None
        } else {
            let d = str_lowercase(decode_utf8(h));
            Some((d, d.map_values(|c: char| file_name_char(c)) + ".png"@))
        }
    }
}

fn take_stage(f: &mut Fetch) -> (st: Stage)
    ensures
        st == old(f).stage,
        final(f).stage == Stage::Done,
        final(f).url == old(f).url,
        final(f).domain == old(f).domain,
        final(f).file_name == old(f).file_name,
        final(f).saving == old(f).saving,
{
    let mut st = Stage::Done;
    std::mem::swap(&mut st, &mut f.stage);
    st
}

fn miss(f: &mut Fetch) -> (s: Step)
    requires
        fetch_ok(old(f)@),
    ensures
        (final(f)@, s@) == missed(old(f)@),
        fetch_ok(final(f)@),
{
    let ghost f0 = f@;
    f.saving = false;
    let st = take_stage(f);
    match st {
        Stage::Cache | Stage::DropCache => {
            f.stage = Stage::Ico(true);
            Step::Get(make_ico_url(true, f.domain.as_str()))
        },
        Stage::Ico(true) => {
            f.stage = Stage::Ico(false);
            Step::Get(make_ico_url(false, f.domain.as_str()))
        },
        Stage::Ico(false) => {
            f.stage = Stage::Page(0);
            Step::Get(make_page_url(0, f.url.as_str(), f.domain.as_str()))
        },
        Stage::Page(k) => {
            if k < 2 {
                f.stage = Stage::Page(k + 1);
                Step::Get(make_page_url(k + 1, f.url.as_str(), f.domain.as_str()))
            } else {
                f.stage = Stage::Duck;
                Step::Get(make_duck_url(f.domain.as_str()))
            }
        },
        Stage::Icons { page, links, next, had_text } => {
            let n = links.len();
            assert(next < n);
            if next + 1 < n {
                let u = links[next + 1].clone();
                f.stage = Stage::Icons { page, links, next: next + 1, had_text };
                Step::Get(u)
            } else if had_text || page >= 2 {
                f.stage = Stage::Duck;
                Step::Get(make_duck_url(f.domain.as_str()))
            } else {
                f.stage = Stage::Page(page + 1);
                Step::Get(make_page_url(page + 1, f.url.as_str(), f.domain.as_str()))
            }
        },
        Stage::Duck => {
            f.stage = Stage::Google;
            Step::Get(make_google_url(f.domain.as_str()))
        },
        Stage::Google | Stage::Done => {
            f.stage = Stage::Done;
            Step::Finish(None)
        },
    }
}

fn store_or_miss(f: &mut Fetch, b: Vec<u8>) -> (s: Step)
    requires
        fetch_ok(old(f)@),
    ensures
        (final(f)@, s@) == try_store(old(f)@, b@),
        fetch_ok(final(f)@),
        s@ matches StepView::Save(p) ==> png_magic(p),
{
    match prepare_image(b) {
        Some(png) => {
            f.saving = true;
            Step::Save(png)
        },
        None => miss(f),
    }
}

fn finish_with(f: &mut Fetch, s: Step) -> (r: Step)
    ensures
        final(f)@ == (FetchView { stage: StageView::Done, saving: false, ..old(f)@ }),
        r == s,
{
    f.stage = Stage::Done;
    f.saving = false;
    s
}

/// The machine's answer to what the last step gave (see [`respond`]).
pub fn favicon_step(f: &mut Fetch, ev: Outcome) -> (s: Step)
    requires
        fetch_ok(old(f)@),
    ensures
        (final(f)@, s@) == respond(old(f)@, ev),
        fetch_ok(final(f)@),
        s@ matches StepView::Save(p) ==> png_magic(p),
{
    let ghost f0 = f@;
    if f.saving {
        match ev {
            Outcome::Saved(true) => {
                let name = f.file_name.clone();
                return finish_with(f, Step::Finish(Some(name)));
            },
            _ => {
                return miss(f);
            },
        }
    }
    let st = take_stage(f);
    match st {
        Stage::Done => finish_with(f, Step::Fault),
        Stage::Cache => {
            match ev {
                Outcome::Cached(Some(b)) => {
                    if is_valid_image(b.as_slice()) {
                        let name = f.file_name.clone();
                        finish_with(f, Step::Finish(Some(name)))
                    } else {
                        f.stage = Stage::DropCache;
                        Step::RemoveCache
                    }
                },
                Outcome::Cached(None) => {
                    f.stage = Stage::Cache;
                    miss(f)
                },
                _ => finish_with(f, Step::Fault),
            }
        },
        Stage::DropCache => {
            match ev {
                Outcome::Removed => {
                    f.stage = Stage::DropCache;
                    miss(f)
                },
                _ => finish_with(f, Step::Fault),
            }
        },
        Stage::Google => {
            match ev {
                Outcome::Got(None) => {
                    f.stage = Stage::Google;
                    miss(f)
                },
                Outcome::Got(Some(b)) => {
                    if b.len() > 68 {
                        f.stage = Stage::Google;
                        store_or_miss(f, b)
                    } else {
                        finish_with(f, Step::Finish(None))
                    }
                },
                _ => finish_with(f, Step::Fault),
            }
        },
        Stage::Page(k) => {
            match ev {
                Outcome::Got(None) => {
                    f.stage = Stage::Page(k);
                    miss(f)
                },
                Outcome::Got(Some(b)) => {
                    let text = lossy_text(b.as_slice());
                    let pu = make_page_url(k, f.url.as_str(), f.domain.as_str());
                    let links = find_icon_links(text.as_str(), pu.as_str());
                    let ghost lv = string_bytes(links@);
                    proof {
                        assert forall|i: int| 0 <= i < links@.len() implies #[trigger] string_views(links@)[i]
                            == decoded_links(lv)[i] by {
                            encode_utf8_decode_utf8(links@[i]@);
                        }
                        assert(string_views(links@) =~= decoded_links(lv));
                    }
                    if links.len() > 0 {
                        let first = links[0].clone();
                        let had_text = text.as_str().as_bytes().len() > 0;
                        proof {
                            encode_utf8_decode_utf8(first@);
                        }
                        f.stage = Stage::Icons { page: k, links, next: 0, had_text };
                        Step::Get(first)
                    } else if text.as_str().as_bytes().len() > 0 {
                        f.stage = Stage::Duck;
                        Step::Get(make_duck_url(f.domain.as_str()))
                    } else {
                        f.stage = Stage::Page(k);
                        miss(f)
                    }
                },
                _ => finish_with(f, Step::Fault),
            }
        },
        st => {
            match ev {
                Outcome::Got(None) => {
                    f.stage = st;
                    miss(f)
                },
                Outcome::Got(Some(b)) => {
                    f.stage = st;
                    store_or_miss(f, b)
                },
                _ => finish_with(f, Step::Fault),
            }
        },
    }
}

/// A fetch for the bookmark address `url`, and its first step; or, for an
/// address without `http://`/`https://` or without a host, none and
/// `Finish(None)`.
pub fn favicon_start(url: &str) -> (r: (Option<Fetch>, Step))
    ensures
        match icon_file(url@) {
            None => r.0 is None && r.1@ == StepView::Finish(None),
            Some((d, name)) => r.0 matches Some(f) && f@ == (FetchView {
                url: str_trim(url@),
                domain: d,
                file_name: name,
                stage: StageView::Cache,
                saving: false,
            }) && r.1@ == StepView::ReadCache,
        },
{
    let t = trim(url);
    let http = crate::album::starts_with_str(t, "http://");
    let https = crate::album::starts_with_str(t, "https://");
    proof {
        reveal_strlit("http://");
        reveal_strlit("https://");
    }
    if !(http || https) {
        return (None, Step::Finish(None));
    }
    match extract_domain(t) {
        None => (None, Step::Finish(None)),
        Some(domain) => {
            let mut name = sanitize_domain(domain.as_str());
            name.append(".png");
            (
                Some(Fetch { url: t.to_owned(), domain, file_name: name, stage: Stage::Cache, saving: false }),
                Step::ReadCache,
            )
        },
    }
}

// ── Every fetch ends ───────────────────────────────────────────────────────

/// A state the machine can be in: a sound fetch that is writing only
/// after a download.
pub open spec fn fetch_sane(f: FetchView) -> bool {
    &&& fetch_ok(f)
    &&& f.saving ==> (f.stage is Ico || f.stage is Icons || f.stage is Duck || f.stage is Google)
}

/// How far a fetch is from its end: the attempts left in order, then the
/// icon links left on the current page, then whether a write is pending.
pub open spec fn phase(s: StageView) -> int {
    match s {
        StageView::Cache => 12,
        StageView::DropCache => 11,
        StageView::Ico(h) => if h {
            10
        } else {
            9
        },
        StageView::Page(k) => 8 - 2 * (k as int),
        StageView::Icons { page, .. } => 7 - 2 * (page as int),
        StageView::Duck => 2,
        StageView::Google => 1,
        StageView::Done => 0,
    }
}

pub open spec fn links_left(s: StageView) -> int {
    match s {
        StageView::Icons { links, next, .. } => links.len() - next,
        _ => 0,
    }
}

/// `g` is strictly nearer the end than `f`.
pub open spec fn nearer(g: FetchView, f: FetchView) -> bool {
    ||| phase(g.stage) < phase(f.stage)
    ||| phase(g.stage) == phase(f.stage) && links_left(g.stage) < links_left(f.stage)
    ||| phase(g.stage) == phase(f.stage) && links_left(g.stage) == links_left(f.stage) && g.saving && !f.saving
}

pub open spec fn finishes(s: StepView) -> bool {
    s is Finish || s is Fault
}

proof fn lemma_missed(f: FetchView)
    requires
        fetch_sane(f),
    ensures
        finishes(missed(f).1) || (fetch_sane(missed(f).0) && nearer(missed(f).0, f)),
{
}

/// Every answer of the machine either ends the fetch or moves it strictly
/// nearer its end (fewer attempts, fewer links, or a pending write), so
/// every fetch ends.
pub proof fn law_fetch_ends(f: FetchView, ev: Outcome)
    requires
        fetch_sane(f),
    ensures
        finishes(respond(f, ev).1) || (fetch_sane(respond(f, ev).0) && nearer(respond(f, ev).0, f)),
{
    lemma_missed(f);
}

} // verus!
