//! What to do about a command. The caller reads the list files, hands over
//! what they hold, writes what comes back and words the reply.

use crate::entries::{difference, sort, sorted};
use crate::matcher::{find_match, folded, normalize, normalized, resolve, Match, MatchResult};
use crate::recommender::recommend;
use crate::store::{added, load, stored, text_of};
use crate::text::{trim, trimmed};
use vstd::prelude::*;

verus! {

/// The two kinds of things to watch. Each has a catalog and a list of what
/// has been watched.
#[derive(Debug, Clone, Copy, PartialEq, Eq, Structural)]
pub enum Kind {
    Film,
    Series,
}

/// A command of the user, with the name it speaks of where it has one.
#[derive(Debug)]
pub enum Command {
    Help,
    Recommend(Kind),
    MarkWatched(Kind, String),
    AddToCatalog(Kind, String),
    ListWatched(Kind),
    ListAll(Kind),
    ListUnwatched(Kind),
    Hello,
}

/// What to tell the user.
#[derive(Debug, PartialEq, Eq)]
pub enum Reply {
    /// The list of commands.
    Help,
    /// A greeting.
    Hello,
    /// Something to watch.
    Recommendation(String),
    /// Everything in the catalog has been watched.
    Exhausted,
    /// The entry is now among the watched ones.
    MarkedWatched(String),
    /// The entry was among the watched ones already.
    AlreadyWatched(String),
    /// The catalog has no entry of that name; it may have some that hold it.
    NotFound { name: String, suggestions: Vec<String> },
    /// The entry is now in the catalog.
    Added(String),
    /// The entry was in the catalog already.
    AlreadyPresent(String),
    /// The entries asked for, in dictionary order.
    Listing(Vec<String>),
    /// The list asked for is empty.
    NothingToList,
}

/// What to write, if anything: the new contents of one list file.
#[derive(Debug, PartialEq, Eq)]
pub enum Update {
    Nothing,
    Catalog(String),
    Watched(String),
}

/// The answer to a command: a reply, and what to write before it is sent.
#[derive(Debug, PartialEq, Eq)]
pub struct Reaction {
    pub reply: Reply,
    pub update: Update,
}

/// A reply as plain text.
pub enum ReplyView {
    Help,
    Hello,
    Recommendation(Seq<char>),
    Exhausted,
    MarkedWatched(Seq<char>),
    AlreadyWatched(Seq<char>),
    NotFound { name: Seq<char>, suggestions: Seq<Seq<char>> },
    Added(Seq<char>),
    AlreadyPresent(Seq<char>),
    Listing(Seq<Seq<char>>),
    NothingToList,
}

/// An update as plain text.
pub enum UpdateView {
    Nothing,
    Catalog(Seq<char>),
    Watched(Seq<char>),
}

impl View for Reply {
    type V = ReplyView;

    open spec fn view(&self) -> ReplyView {
        match self {
            Reply::Help => ReplyView::Help,
            Reply::Hello => ReplyView::Hello,
            Reply::Recommendation(entry) => ReplyView::Recommendation(entry@),
            Reply::Exhausted => ReplyView::Exhausted,
            Reply::MarkedWatched(entry) => ReplyView::MarkedWatched(entry@),
            Reply::AlreadyWatched(entry) => ReplyView::AlreadyWatched(entry@),
            Reply::NotFound { name, suggestions } => ReplyView::NotFound {
                name: name@,
                suggestions: suggestions.deep_view(),
            },
            Reply::Added(entry) => ReplyView::Added(entry@),
            Reply::AlreadyPresent(entry) => ReplyView::AlreadyPresent(entry@),
            Reply::Listing(entries) => ReplyView::Listing(entries.deep_view()),
            Reply::NothingToList => ReplyView::NothingToList,
        }
    }
}

impl View for Update {
    type V = UpdateView;

    open spec fn view(&self) -> UpdateView {
        match self {
            Update::Nothing => UpdateView::Nothing,
            Update::Catalog(text) => UpdateView::Catalog(text@),
            Update::Watched(text) => UpdateView::Watched(text@),
        }
    }
}

impl View for Reaction {
    type V = (ReplyView, UpdateView);

    open spec fn view(&self) -> (ReplyView, UpdateView) {
        (self.reply@, self.update@)
    }
}

/// The answer to "mark as watched": the entry that the name stands for goes
/// into the list of watched entries, unless it is there; where the catalog
/// has no such entry, nothing is written and the suggestions are passed on.
pub open spec fn marking(
    raw: Seq<char>,
    catalog: Option<Seq<char>>,
    watched: Option<Seq<char>>,
) -> (ReplyView, UpdateView) {
    match resolve(normalize(raw), folded(stored(catalog))) {
        Match::Exact(entry) => match added(watched, entry) {
            Some(text) => (ReplyView::MarkedWatched(entry), UpdateView::Watched(text)),
            None => (ReplyView::AlreadyWatched(entry), UpdateView::Nothing),
        },
        Match::Suggestions(suggestions) => (
            ReplyView::NotFound { name: normalize(raw), suggestions },
            UpdateView::Nothing,
        ),
    }
}

/// The answer to "add to the catalog": the trimmed name, as typed, goes
/// into the catalog unless it is there.
pub open spec fn extension(raw: Seq<char>, catalog: Option<Seq<char>>) -> (ReplyView, UpdateView) {
    match added(catalog, trim(raw)) {
        Some(text) => (ReplyView::Added(trim(raw)), UpdateView::Catalog(text)),
        None => (ReplyView::AlreadyPresent(trim(raw)), UpdateView::Nothing),
    }
}

/// The reply that lists `entries`.
pub open spec fn listed(entries: Seq<Seq<char>>) -> ReplyView {
    if entries.len() == 0 {
        ReplyView::NothingToList
    } else {
        ReplyView::Listing(sort(entries))
    }
}

/// The entries of the catalog that have not been watched.
pub open spec fn unwatched(catalog: Option<Seq<char>>, watched: Option<Seq<char>>) -> Seq<
    Seq<char>,
> {
    difference(stored(catalog), stored(watched).to_set())
}

/// Whether `reply` is in order as a recommendation: an entry that has not
/// been watched, or word that there is none.
pub open spec fn is_recommendation(
    reply: ReplyView,
    catalog: Option<Seq<char>>,
    watched: Option<Seq<char>>,
) -> bool {
    match reply {
        ReplyView::Recommendation(entry) => unwatched(catalog, watched).contains(entry),
        ReplyView::Exhausted => unwatched(catalog, watched).len() == 0,
        _ => false,
    }
}

/// The kind that a command is about, where it is about one.
pub fn kind_of(command: &Command) -> (kind: Option<Kind>)
    ensures
        kind == match *command {
            Command::Help => None::<Kind>,
            Command::Hello => None,
            Command::Recommend(k) => Some(k),
            Command::MarkWatched(k, _) => Some(k),
            Command::AddToCatalog(k, _) => Some(k),
            Command::ListWatched(k) => Some(k),
            Command::ListAll(k) => Some(k),
            Command::ListUnwatched(k) => Some(k),
        },
{
    match command {
        Command::Help => None,
        Command::Hello => None,
        Command::Recommend(k) => Some(*k),
        Command::MarkWatched(k, _) => Some(*k),
        Command::AddToCatalog(k, _) => Some(*k),
        Command::ListWatched(k) => Some(*k),
        Command::ListAll(k) => Some(*k),
        Command::ListUnwatched(k) => Some(*k),
    }
}

/// Whether the answer to a command depends on what the catalog holds.
pub fn uses_catalog(command: &Command) -> (b: bool)
    ensures
        b == match *command {
            Command::Recommend(_) => true,
            Command::MarkWatched(_, _) => true,
            Command::AddToCatalog(_, _) => true,
            Command::ListAll(_) => true,
            Command::ListUnwatched(_) => true,
            _ => false,
        },
{
    match command {
        Command::Recommend(_) => true,
        Command::MarkWatched(_, _) => true,
        Command::AddToCatalog(_, _) => true,
        Command::ListAll(_) => true,
        Command::ListUnwatched(_) => true,
        _ => false,
    }
}

/// Whether the answer to a command depends on what has been watched.
pub fn uses_watched(command: &Command) -> (b: bool)
    ensures
        b == match *command {
            Command::Recommend(_) => true,
            Command::MarkWatched(_, _) => true,
            Command::ListWatched(_) => true,
            Command::ListUnwatched(_) => true,
            _ => false,
        },
{
    match command {
        Command::Recommend(_) => true,
        Command::MarkWatched(_, _) => true,
        Command::ListWatched(_) => true,
        Command::ListUnwatched(_) => true,
        _ => false,
    }
}

/// The file that holds the catalog of a kind.
pub fn catalog_file(kind: Kind) -> (name: &'static str)
    ensures
        name@ == match kind {
            Kind::Film => "filmler.txt"@,
            Kind::Series => "diziler.txt"@,
        },
{
    match kind {
        Kind::Film => "filmler.txt",
        Kind::Series => "diziler.txt",
    }
}

/// The file that holds what has been watched of a kind.
pub fn watched_file(kind: Kind) -> (name: &'static str)
    ensures
        name@ == match kind {
            Kind::Film => "izlenen_filmler.txt"@,
            Kind::Series => "izlenen_diziler.txt"@,
        },
{
    match kind {
        Kind::Film => "izlenen_filmler.txt",
        Kind::Series => "izlenen_diziler.txt",
    }
}

/// Marks as watched the entry of the catalog that the user means by `raw`.
/// `catalog` and `watched` are what the two list files hold.
pub fn mark_watched(raw: &str, catalog: Option<&str>, watched: Option<&str>) -> (r: Reaction)
    ensures
        r@ == marking(raw@, text_of(catalog), text_of(watched)),
{
    let known = load(catalog);
    match find_match(raw, &known) {
        MatchResult::ExactMatch(entry) => {
            match crate::store::add(watched, entry.as_str()) {
                Some(text) => Reaction {
                    reply: Reply::MarkedWatched(entry),
                    update: Update::Watched(text),
                },
                None => Reaction { reply: Reply::AlreadyWatched(entry), update: Update::Nothing },
            }
        },
        MatchResult::Suggestions(suggestions) => Reaction {
            reply: Reply::NotFound { name: normalized(raw), suggestions },
            update: Update::Nothing,
        },
    }
}

/// Adds the name `raw`, trimmed and otherwise as typed, to the catalog.
pub fn add_to_catalog(raw: &str, catalog: Option<&str>) -> (r: Reaction)
    ensures
        r@ == extension(raw@, text_of(catalog)),
{
    let entry = trimmed(raw);
    match crate::store::add(catalog, entry.as_str()) {
        Some(text) => Reaction { reply: Reply::Added(entry), update: Update::Catalog(text) },
        None => Reaction { reply: Reply::AlreadyPresent(entry), update: Update::Nothing },
    }
}

/// The reply that lists `entries`, in dictionary order.
pub fn list(entries: &Vec<String>) -> (reply: Reply)
    ensures
        reply@ == listed(entries.deep_view()),
{
    if entries.len() == 0 {
        Reply::NothingToList
    } else {
        Reply::Listing(sorted(entries))
    }
}

/// Answers a command. `catalog` and `watched` are what the list files of
/// the command's kind hold, `None` for a file that is not there.
pub fn answer(command: &Command, catalog: Option<&str>, watched: Option<&str>) -> (r: Reaction)
    ensures
        match *command {
            Command::Help => r@ == (ReplyView::Help, UpdateView::Nothing),
            Command::Hello => r@ == (ReplyView::Hello, UpdateView::Nothing),
            Command::Recommend(_) => r@.1 == UpdateView::Nothing && is_recommendation(
                r@.0,
                text_of(catalog),
                text_of(watched),
            ),
            Command::MarkWatched(_, name) => r@ == marking(
                name@,
                text_of(catalog),
                text_of(watched),
            ),
            Command::AddToCatalog(_, name) => r@ == extension(name@, text_of(catalog)),
            Command::ListWatched(_) => r@ == (
                listed(stored(text_of(watched))),
                UpdateView::Nothing,
            ),
            Command::ListAll(_) => r@ == (listed(stored(text_of(catalog))), UpdateView::Nothing),
            Command::ListUnwatched(_) => r@ == (
                listed(unwatched(text_of(catalog), text_of(watched))),
                UpdateView::Nothing,
            ),
        },
{
    match command {
        Command::Help => Reaction { reply: Reply::Help, update: Update::Nothing },
        Command::Hello => Reaction { reply: Reply::Hello, update: Update::Nothing },
        Command::Recommend(_) => {
            let reply = match recommend(&load(catalog), &load(watched)) {
                Some(entry) => Reply::Recommendation(entry),
                None => Reply::Exhausted,
            };
            Reaction { reply, update: Update::Nothing }
        },
        Command::MarkWatched(_, name) => mark_watched(name.as_str(), catalog, watched),
        Command::AddToCatalog(_, name) => add_to_catalog(name.as_str(), catalog),
        Command::ListWatched(_) => Reaction {
            reply: list(load(watched).entries()),
            update: Update::Nothing,
        },
        Command::ListAll(_) => Reaction {
            reply: list(load(catalog).entries()),
            update: Update::Nothing,
        },
        Command::ListUnwatched(_) => Reaction {
            reply: list(&load(catalog).without(&load(watched))),
            update: Update::Nothing,
        },
    }
}

} // verus!
