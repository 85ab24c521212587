//! The errors of the library.
use crate::text;
use vstd::prelude::*;

verus! {

#[derive(Debug, Clone)]
pub enum ZettelError {
    Git(String),
    Yaml(String),
    Sql(String),
    Automerge(String),
    Io(String),
    Toml(String),
    Parse(String),
    NotFound(String),
    Validation(String),
    InvalidPath(String),
    SqlEngine(String),
    VersionMismatch { repo: u32, driver: u32 },
    Redb(String),
}

/// What an error says.
pub enum ErrorView {
    Git(Seq<char>),
    Yaml(Seq<char>),
    Sql(Seq<char>),
    Automerge(Seq<char>),
    Io(Seq<char>),
    Toml(Seq<char>),
    Parse(Seq<char>),
    NotFound(Seq<char>),
    Validation(Seq<char>),
    InvalidPath(Seq<char>),
    SqlEngine(Seq<char>),
    VersionMismatch { repo: u32, driver: u32 },
    Redb(Seq<char>),
}

impl View for ZettelError {
    type V = ErrorView;

    open spec fn view(&self) -> ErrorView {
        match *self {
            ZettelError::Git(m) => ErrorView::Git(m@),
            ZettelError::Yaml(m) => ErrorView::Yaml(m@),
            ZettelError::Sql(m) => ErrorView::Sql(m@),
            ZettelError::Automerge(m) => ErrorView::Automerge(m@),
            ZettelError::Io(m) => ErrorView::Io(m@),
            ZettelError::Toml(m) => ErrorView::Toml(m@),
            ZettelError::Parse(m) => ErrorView::Parse(m@),
            ZettelError::NotFound(m) => ErrorView::NotFound(m@),
            ZettelError::Validation(m) => ErrorView::Validation(m@),
            ZettelError::InvalidPath(m) => ErrorView::InvalidPath(m@),
            ZettelError::SqlEngine(m) => ErrorView::SqlEngine(m@),
            ZettelError::VersionMismatch { repo, driver } => ErrorView::VersionMismatch {
                repo,
                driver,
            },
            ZettelError::Redb(m) => ErrorView::Redb(m@),
        }
    }
}

/// The two format versions of a mismatch, in words.
pub open spec fn versions_text(repo: u32, driver: u32) -> Seq<char> {
    "repo format v"@ + text::decimal(repo as nat) + ", driver supports up to v"@ + text::decimal(
        driver as nat,
    )
}

/// The message that an error is shown with.
pub open spec fn error_text(e: ErrorView) -> Seq<char> {
    match e {
        ErrorView::Git(m) => "git: "@ + m,
        ErrorView::Yaml(m) => "yaml: "@ + m,
        ErrorView::Sql(m) => "sql: "@ + m,
        ErrorView::Automerge(m) => "automerge: "@ + m,
        ErrorView::Io(m) => "io: "@ + m,
        ErrorView::Toml(m) => "toml: "@ + m,
        ErrorView::Parse(m) => "parse: "@ + m,
        ErrorView::NotFound(m) => "not found: "@ + m,
        ErrorView::Validation(m) => "validation: "@ + m,
        ErrorView::InvalidPath(m) => "invalid path: "@ + m,
        ErrorView::SqlEngine(m) => "sql engine: "@ + m,
        ErrorView::VersionMismatch { repo, driver } => "version mismatch: "@ + versions_text(
            repo,
            driver,
        ),
        ErrorView::Redb(m) => "redb: "@ + m,
    }
}

fn versions(repo: u32, driver: u32) -> (r: String)
    ensures
        r@ == versions_text(repo, driver),
{
    let a = text::to_decimal(repo as u64);
    let b = text::to_decimal(driver as u64);
    let mut r = text::cat3("repo format v", a.as_str(), ", driver supports up to v");
    r.append(b.as_str());
    r
}

impl ZettelError {
    /// The message that the error is shown with.
    pub fn message(&self) -> (r: String)
        ensures
            r@ == error_text(self@),
    {
        match self {
            ZettelError::Git(m) => text::cat("git: ", m.as_str()),
            ZettelError::Yaml(m) => text::cat("yaml: ", m.as_str()),
            ZettelError::Sql(m) => text::cat("sql: ", m.as_str()),
            ZettelError::Automerge(m) => text::cat("automerge: ", m.as_str()),
            ZettelError::Io(m) => text::cat("io: ", m.as_str()),
            ZettelError::Toml(m) => text::cat("toml: ", m.as_str()),
            ZettelError::Parse(m) => text::cat("parse: ", m.as_str()),
            ZettelError::NotFound(m) => text::cat("not found: ", m.as_str()),
            ZettelError::Validation(m) => text::cat("validation: ", m.as_str()),
            ZettelError::InvalidPath(m) => text::cat("invalid path: ", m.as_str()),
            ZettelError::SqlEngine(m) => text::cat("sql engine: ", m.as_str()),
            ZettelError::VersionMismatch { repo, driver } => {
                let v = versions(*repo, *driver);
                text::cat("version mismatch: ", v.as_str())
            },
            ZettelError::Redb(m) => text::cat("redb: ", m.as_str()),
        }
    }
}

/// The errors that callers in other languages see.
#[derive(Debug, Clone)]
pub enum ZdbError {
    Git { msg: String },
    Yaml { msg: String },
    Sql { msg: String },
    Automerge { msg: String },
    Io { msg: String },
    Parse { msg: String },
    NotFound { msg: String },
    Config { msg: String },
    Validation { msg: String },
    SqlEngine { msg: String },
    VersionMismatch { msg: String },
}

impl ZdbError {
    /// Whether this is the outward form of `e`.
    pub open spec fn stands_for(self, e: ErrorView) -> bool {
        match e {
            ErrorView::Git(m) => self matches ZdbError::Git { msg } && msg@ == m,
            ErrorView::Yaml(m) => self matches ZdbError::Yaml { msg } && msg@ == m,
            ErrorView::Sql(m) => self matches ZdbError::Sql { msg } && msg@ == m,
            ErrorView::Automerge(m) => self matches ZdbError::Automerge { msg } && msg@ == m,
            ErrorView::Io(m) => self matches ZdbError::Io { msg } && msg@ == m,
            ErrorView::Toml(m) => self matches ZdbError::Config { msg } && msg@ == m,
            ErrorView::Parse(m) => self matches ZdbError::Parse { msg } && msg@ == m,
            ErrorView::NotFound(m) => self matches ZdbError::NotFound { msg } && msg@ == m,
            ErrorView::Validation(m) => self matches ZdbError::Validation { msg } && msg@ == m,
            ErrorView::InvalidPath(m) => self matches ZdbError::Validation { msg } && msg@ == m,
            ErrorView::SqlEngine(m) => self matches ZdbError::SqlEngine { msg } && msg@ == m,
            ErrorView::VersionMismatch { repo, driver } => self matches ZdbError::VersionMismatch {
                msg,
            } && msg@ == versions_text(repo, driver),
            ErrorView::Redb(m) => self matches ZdbError::Io { msg } && msg@ == m,
        }
    }

    /// The outward form of an error of the library.
    pub fn from_error(e: ZettelError) -> (r: ZdbError)
        ensures
            r.stands_for(e@),
    {
        match e {
            ZettelError::Git(msg) => ZdbError::Git { msg },
            ZettelError::Yaml(msg) => ZdbError::Yaml { msg },
            ZettelError::Sql(msg) => ZdbError::Sql { msg },
            ZettelError::Automerge(msg) => ZdbError::Automerge { msg },
            ZettelError::Io(msg) => ZdbError::Io { msg },
            ZettelError::Toml(msg) => ZdbError::Config { msg },
            ZettelError::Parse(msg) => ZdbError::Parse { msg },
            ZettelError::NotFound(msg) => ZdbError::NotFound { msg },
            ZettelError::Validation(msg) => ZdbError::Validation { msg },
            ZettelError::InvalidPath(msg) => ZdbError::Validation { msg },
            ZettelError::SqlEngine(msg) => ZdbError::SqlEngine { msg },
            ZettelError::VersionMismatch { repo, driver } => ZdbError::VersionMismatch {
                msg: versions(repo, driver),
            },
            ZettelError::Redb(msg) => ZdbError::Io { msg },
        }
    }
}

} // verus!
