use vstd::prelude::*;

use crate::ledger::{entry_line, is_entry_for, parse_entry, valid_reference};

verus! {

/// One feed: its name, the page that lists its recordings, and the folder its
/// files go to.
#[derive(Clone, Debug)]
pub struct PodcastConfig {
    pub name: String,
    pub url: String,
    pub download_folder: String,
}

/// A feed ready for downloading: its configuration and the path of its
/// ledger file inside the download folder.
pub struct PodcastDownloader {
    config: PodcastConfig,
    index_file: String,
}

/// `file` inside the folder `dir`.
pub open spec fn join_path(dir: Seq<char>, file: Seq<char>) -> Seq<char> {
    if dir.len() == 0 {
        file
    } else if dir.last() == '/' {
        dir + file
    } else {
        dir + seq!['/'] + file
    }
}

/// The address a reference is fetched from: a protocol-relative reference
/// (`//host/path`) is completed with `https:`; any other is used as it is.
pub open spec fn fetch_url_of(reference: Seq<char>) -> Seq<char> {
    if reference.len() >= 2 && reference[0] == '/' && reference[1] == '/' {
        "https:"@ + reference
    } else {
        reference
    }
}

/// The name of the ledger file inside a download folder.
pub open spec fn index_name() -> Seq<char> {
    ".podcast_index"@
}

/// Joins a folder and a file name with one `/`.
pub fn join(dir: &str, file: &str) -> (r: String)
    ensures
        r@ == join_path(dir@, file@),
{
    let n = dir.unicode_len();
    let mut out = String::from_str(dir);
    if n > 0 && dir.get_char(n - 1) != '/' {
        out.append("/");
        proof {
            reveal_strlit("/");
        }
    }
    out.append(file);
    proof {
        if n == 0 {
            assert(out@ =~= file@);
        } else if dir@.last() == '/' {
            assert(out@ =~= dir@ + file@);
        } else {
            assert(out@ =~= dir@ + seq!['/'] + file@);
        }
    }
    out
}

/// The address that `reference` is fetched from.
pub fn fetch_url(reference: &str) -> (r: String)
    ensures
        r@ == fetch_url_of(reference@),
{
    let n = reference.unicode_len();
    if n >= 2 && reference.get_char(0) == '/' && reference.get_char(1) == '/' {
        let mut out = String::from_str("https:");
        out.append(reference);
        out
    } else {
        String::from_str(reference)
    }
}

/// The last second, counted from 1970 in UTC, that the clock stamps: two
/// days before the year 10000, so that the local date stays within four-digit
/// years in every time zone.
pub const LAST_STAMP_SECS: u64 = 253402128000;

/// Relies on std's `SystemTime::now` and `SystemTime::duration_since`: the
/// whole seconds since 1970 in UTC, or `None` when the clock reads earlier.
/// Nothing is promised of the number, which depends on the clock.
#[verifier::external_body]
fn unix_seconds() -> (r: Option<u64>) {
    std::time::SystemTime::now().duration_since(std::time::UNIX_EPOCH).ok().map(|d| d.as_secs())
}

/// Relies on chrono's `DateTime::from_timestamp`, `DateTime::with_timezone`
/// with `Local`, and `DateTime::format`: the local date and time of `secs` as
/// year, month, day, hour, minute and second; `None` when chrono cannot hold
/// the instant. Nothing is promised of the text, which depends on the
/// machine's time zone. Below the bound chrono's time-zone lookup does not
/// fail.
#[verifier::external_body]
fn local_stamp_at(secs: u64) -> (r: Option<String>)
    requires
        secs <= LAST_STAMP_SECS,
{
    chrono::DateTime::from_timestamp(secs as i64, 0).map(
        |t| t.with_timezone(&chrono::Local).format("%Y%m%d%H%M%S").to_string(),
    )
}

/// A ledger line that records `reference` with the local time now: a
/// non-empty run of digits, a space, then the reference. `None` when the
/// reference cannot be held on one ledger line, or the clock gives no time,
/// or no stamp of digits.
pub fn entry_now(reference: &str) -> (r: Option<String>)
    ensures
        r matches Some(l) ==> is_entry_for(l@, reference@),
        r matches Some(l) ==> parse_entry(l@) == Some(reference@),
        !valid_reference(reference@) ==> r is None,
{
    let secs = match unix_seconds() {
        None => {
            return None;
        },
        Some(s) => s,
    };
    if secs > LAST_STAMP_SECS {
        return None;
    }
    let stamp = match local_stamp_at(secs) {
        None => {
            return None;
        },
        Some(t) => t,
    };
    let r = entry_line(stamp.as_str(), reference);
    proof {
        if r is Some {
            let l = r->Some_0@;
            let n = l.len() - reference@.len() - 1;
            assert(l.take(n) =~= stamp@);
            assert(l =~= l.take(n) + seq![' '] + reference@);
        }
    }
    r
}

impl PodcastDownloader {
    /// A downloader for the feed `name`, listed at `url`, saving into
    /// `folder`, with its ledger at `folder/.podcast_index`.
    pub fn new(name: &str, url: &str, folder: &str) -> (r: PodcastDownloader)
        ensures
            r.config_spec().name@ == name@,
            r.config_spec().url@ == url@,
            r.config_spec().download_folder@ == folder@,
            r.index_file_spec() == join_path(folder@, index_name()),
    {
        let index_file = join(folder, ".podcast_index");
        PodcastDownloader {
            config: PodcastConfig {
                name: String::from_str(name),
                url: String::from_str(url),
                download_folder: String::from_str(folder),
            },
            index_file,
        }
    }

    pub closed spec fn config_spec(&self) -> PodcastConfig {
        self.config
    }

    pub closed spec fn index_file_spec(&self) -> Seq<char> {
        self.index_file@
    }

    /// The feed's configuration.
    pub fn config(&self) -> (r: &PodcastConfig)
        ensures
            *r == self.config_spec(),
    {
        &self.config
    }

    /// The path of the feed's ledger file.
    pub fn index_file(&self) -> (r: &str)
        ensures
            r@ == self.index_file_spec(),
    {
        self.index_file.as_str()
    }

    /// The path that a file named `filename` is saved at.
    pub fn media_path(&self, filename: &str) -> (r: String)
        ensures
            r@ == join_path(self.config_spec().download_folder@, filename@),
    {
        join(self.config.download_folder.as_str(), filename)
    }
}

} // verus!
