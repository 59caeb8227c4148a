//! Downloads of repository files: what is asked of the transfer and what its
//! course means.

use vstd::prelude::*;

use crate::error::Error;
use crate::text::{split, split_spec, str_views};
use crate::units::{ByteSize, UnixTime};

verus! {

broadcast use vstd::string::group_string_axioms;

/// How a download ended well.
#[derive(Debug, Clone, Copy, PartialEq, Eq, Structural)]
pub enum FetchOutcome {
    /// A new copy is there.
    Downloaded,
    /// The copy on disk is current.
    Unchanged,
}

/// How far a transfer has come.
#[derive(Debug, Clone, Copy, PartialEq, Eq, Structural)]
pub struct DownloadProgress {
    /// What has been received.
    pub downloaded: ByteSize,
    /// What there is in all, once the server has said so.
    pub total: Option<ByteSize>,
}

/// One file to download.
#[derive(Debug)]
pub struct FetchSpec {
    /// Where it comes from.
    pub url: String,
    /// Download it even if the copy on disk is current.
    pub force: bool,
}

/// The names that a download has in its directory.
#[derive(Debug)]
pub struct Staging {
    /// The name of the whole file.
    pub dest: String,
    /// The name while bytes are still coming in.
    pub part: String,
}

/// The copy that is on disk already.
#[derive(Debug, Clone, Copy)]
pub struct Existing {
    /// Its size.
    pub len: u64,
    /// When it was modified, in seconds since the epoch, where that is known and
    /// not before the epoch.
    pub modified: Option<u64>,
}

/// What is asked of the transfer.
#[derive(Debug)]
pub struct TransferOptions {
    /// Where the file comes from.
    pub url: String,
    /// What the client calls itself.
    pub useragent: String,
    /// Go where the server sends us.
    pub follow_location: bool,
    /// How often.
    pub max_redirections: u32,
    /// An error page is an error.
    pub fail_on_error: bool,
    /// How long a connection may take, in seconds.
    pub connect_timeout_secs: u64,
    /// Fewer bytes per second than this count as silence.
    pub low_speed_limit: u32,
    /// How many seconds of silence end the transfer.
    pub low_speed_secs: u64,
    /// Ask when the file was modified.
    pub fetch_filetime: bool,
    /// Send nothing unless the file was modified after this.
    pub if_modified_since: Option<i64>,
}

/// The last part of a URL.
pub open spec fn basename(url: Seq<char>) -> Seq<char> {
    split_spec(url, '/').last()
}

/// The last part of a URL.
pub fn url_basename<'a>(url: &'a str) -> (r: &'a str)
    ensures
        r@ == basename(url@),
{
    let parts = split(url, '/');
    proof {
        crate::text::lemma_split_nonempty(url@, '/');
        assert(str_views(parts@).len() == parts@.len());
    }
    let last = parts[parts.len() - 1];
    assert(str_views(parts@).last() == last@);
    last
}

/// What has been done for a download, and how it went.
#[derive(Debug)]
pub enum FetchEvent {
    /// The staging file was made, or could not be: the error's text.
    Created(Option<String>),
    /// The transfer ran.
    Transferred(Transfer),
    /// The transfer was asked whether the server held the file back because it is
    /// not newer; the error's text where that cannot be told.
    Checked(Result<bool, String>),
    /// The staging file was flushed, or could not be.
    Flushed(Option<String>),
    /// The staging file got its final name, or could not get it.
    Renamed(Option<String>),
}

/// How a transfer went.
#[derive(Debug)]
pub struct Transfer {
    /// Why it failed, where it did.
    pub error: Option<String>,
    /// Whether it failed because a callback ended it.
    pub aborted: bool,
    /// Whether the user has interrupted.
    pub interrupted: bool,
    /// Why bytes could not be written, where that happened.
    pub write_error: Option<String>,
}

/// What to do next for a download.
#[derive(Debug, Clone, Copy, PartialEq, Eq, Structural)]
pub enum FetchStep {
    /// Run the transfer.
    Transfer,
    /// Ask whether the file was held back.
    Check,
    /// Flush the staging file.
    Flush,
    /// Give the staging file the server's time and its final name.
    Rename,
}

/// How a download goes on.
#[derive(Debug)]
pub enum Verdict {
    /// Do this next.
    Go(FetchStep),
    /// It is over; the staging file is removed or not.
    End {
        /// Whether the staging file is to be removed.
        remove_part: bool,
        /// What came of it.
        result: Result<FetchOutcome, Error>,
    },
}

/// Whether `r` is the message `text` as an error.
pub open spec fn is_other(r: Result<FetchOutcome, Error>, text: Seq<char>) -> bool {
    r matches Err(Error::Other(m)) && m@ == text
}

impl FetchSpec {
    /// The names in the directory, or an error where the URL ends in a slash.
    pub fn staging(&self) -> (r: Result<Staging, Error>)
        ensures
            match r {
                Ok(s) => {
                    &&& basename(self.url@).len() > 0
                    &&& s.dest@ == basename(self.url@)
                    &&& s.part@ == basename(self.url@) + ".part"@
                },
                Err(e) => {
                    &&& basename(self.url@).len() == 0
                    &&& e matches Error::Other(m) && m@ == "download "@ + self.url@
                        + ": no filename in URL"@
                },
            },
    {
        let name = url_basename(self.url.as_str());
        if name.is_empty() {
            let mut m = "download ".to_owned();
            m.append(self.url.as_str());
            m.append(": no filename in URL");
            return Err(Error::Other(m));
        }
        let mut part = name.to_owned();
        part.append(".part");
        Ok(Staging { dest: name.to_owned(), part })
    }

    /// The time after which the file must have been modified to be sent: that of
    /// the copy on disk, unless a download is forced or the copy is empty.
    pub open spec fn since(self, existing: Option<Existing>) -> Option<i64> {
        match existing {
            Some(e) => match e.modified {
                Some(secs) => if !self.force && e.len > 0 && secs <= i64::MAX {
                    Some(secs as i64)
                } else {
                    None
                },
                None => None,
            },
            None => None,
        }
    }

    /// The time after which the file must have been modified to be sent.
    pub fn if_modified_since(&self, existing: Option<Existing>) -> (r: Option<UnixTime>)
        ensures
            match r {
                Some(t) => self.since(existing) == Some(t.0),
                None => self.since(existing) is None,
            },
    {
        if self.force {
            return None;
        }
        match existing {
            Some(e) => {
                if e.len == 0 {
                    return None;
                }
                match e.modified {
                    Some(secs) => {
                        if secs <= i64::MAX as u64 {
                            Some(UnixTime::new(secs as i64))
                        } else {
                            None
                        }
                    },
                    None => None,
                }
            },
            None => None,
        }
    }

    /// What is asked of the transfer, by a client of this version.
    pub fn options(&self, existing: Option<Existing>, version: &str) -> (r: TransferOptions)
        ensures
            r.url@ == self.url@,
            r.useragent@ == "aurox/"@ + version@,
            r.follow_location,
            r.max_redirections == 10,
            r.fail_on_error,
            r.connect_timeout_secs == 10,
            r.low_speed_limit == 1,
            r.low_speed_secs == 10,
            r.fetch_filetime,
            r.if_modified_since == self.since(existing),
    {
        let mut useragent = "aurox/".to_owned();
        useragent.append(version);
        let since: Option<i64> = match self.if_modified_since(existing) {
            Some(t) => Some(t.0),
            None => None,
        };
        TransferOptions {
            url: self.url.clone(),
            useragent,
            follow_location: true,
            max_redirections: 10,
            fail_on_error: true,
            connect_timeout_secs: 10,
            low_speed_limit: 1,
            low_speed_secs: 10,
            fetch_filetime: true,
            if_modified_since: since,
        }
    }

    /// Whether a download goes on as it should after `event`.
    pub open spec fn goes_on(self, part: Seq<char>, dest: Seq<char>, event: FetchEvent, v: Verdict) -> bool {
        match event {
            FetchEvent::Created(None) => v matches Verdict::Go(FetchStep::Transfer),
            FetchEvent::Created(Some(e)) => v matches Verdict::End { remove_part, result }
                && !remove_part && is_other(result, "create "@ + part + ": "@ + e@),
            FetchEvent::Transferred(t) => match t.error {
                None => v matches Verdict::Go(FetchStep::Check),
                Some(e) => {
                    &&& v matches Verdict::End { remove_part, result }
                    &&& remove_part
                    &&& if t.interrupted || t.aborted {
                        result matches Err(Error::Interrupted)
                    } else {
                        match t.write_error {
                            Some(io) => is_other(
                                result,
                                "download "@ + self.url@ + ": write "@ + part + ": "@ + io@,
                            ),
                            None => is_other(result, "download "@ + self.url@ + ": "@ + e@),
                        }
                    }
                },
            },
            FetchEvent::Checked(Ok(false)) => v matches Verdict::Go(FetchStep::Flush),
            FetchEvent::Checked(Ok(true)) => v matches Verdict::End { remove_part, result }
                && remove_part && result matches Ok(FetchOutcome::Unchanged),
            FetchEvent::Checked(Err(e)) => v matches Verdict::End { remove_part, result }
                && remove_part && is_other(result, e@),
            FetchEvent::Flushed(None) => v matches Verdict::Go(FetchStep::Rename),
            FetchEvent::Flushed(Some(e)) => v matches Verdict::End { remove_part, result }
                && remove_part && is_other(result, "flush "@ + part + ": "@ + e@),
            FetchEvent::Renamed(None) => v matches Verdict::End { remove_part, result }
                && !remove_part && result matches Ok(FetchOutcome::Downloaded),
            FetchEvent::Renamed(Some(e)) => v matches Verdict::End { remove_part, result }
                && remove_part && is_other(
                result,
                "rename "@ + part + " -> "@ + dest + ": "@ + e@,
            ),
        }
    }

    /// How the download goes on after `event`. `part` and `dest` are the paths that
    /// messages show.
    pub fn after(&self, part: &str, dest: &str, event: FetchEvent) -> (r: Verdict)
        ensures
            self.goes_on(part@, dest@, event, r),
    {
        match event {
            FetchEvent::Created(None) => Verdict::Go(FetchStep::Transfer),
            FetchEvent::Created(Some(e)) => {
                let mut m = "create ".to_owned();
                m.append(part);
                m.append(": ");
                m.append(e.as_str());
                Verdict::End { remove_part: false, result: Err(Error::Other(m)) }
            },
            FetchEvent::Transferred(t) => match t.error {
                None => Verdict::Go(FetchStep::Check),
                Some(e) => {
                    if t.interrupted || t.aborted {
                        return Verdict::End {
                            remove_part: true,
                            result: Err(Error::Interrupted),
                        };
                    }
                    let mut m = "download ".to_owned();
                    m.append(self.url.as_str());
                    match t.write_error {
                        Some(io) => {
                            m.append(": write ");
                            m.append(part);
                            m.append(": ");
                            m.append(io.as_str());
                        },
                        None => {
                            m.append(": ");
                            m.append(e.as_str());
                        },
                    }
                    Verdict::End { remove_part: true, result: Err(Error::Other(m)) }
                },
            },
            FetchEvent::Checked(Ok(unmet)) => {
                if unmet {
                    Verdict::End { remove_part: true, result: Ok(FetchOutcome::Unchanged) }
                } else {
                    Verdict::Go(FetchStep::Flush)
                }
            },
            FetchEvent::Checked(Err(e)) => Verdict::End {
                remove_part: true,
                result: Err(Error::Other(e)),
            },
            FetchEvent::Flushed(None) => Verdict::Go(FetchStep::Rename),
            FetchEvent::Flushed(Some(e)) => {
                let mut m = "flush ".to_owned();
                m.append(part);
                m.append(": ");
                m.append(e.as_str());
                Verdict::End { remove_part: true, result: Err(Error::Other(m)) }
            },
            FetchEvent::Renamed(None) => Verdict::End {
                remove_part: false,
                result: Ok(FetchOutcome::Downloaded),
            },
            FetchEvent::Renamed(Some(e)) => {
                let mut m = "rename ".to_owned();
                m.append(part);
                m.append(" -> ");
                m.append(dest);
                m.append(": ");
                m.append(e.as_str());
                Verdict::End { remove_part: true, result: Err(Error::Other(m)) }
            },
        }
    }
}

/// What one beat of the progress meter reports; nothing, and the transfer ends,
/// once the user has interrupted. A size of zero is one that is not known yet.
pub fn beat(interrupted: bool, total: u64, now: u64) -> (r: Option<DownloadProgress>)
    ensures
        r == (if interrupted {
            None
        } else {
            Some(
                (DownloadProgress {
                    downloaded: ByteSize(now),
                    total: if total > 0 {
                        Some(ByteSize(total))
                    } else {
                        None
                    },
                }),
            )
        }),
{
    if interrupted {
        return None;
    }
    let total = if total > 0 {
        Some(ByteSize::new(total))
    } else {
        None
    };
    Some(DownloadProgress { downloaded: ByteSize::new(now), total })
}

/// The modification time that a downloaded file is given, in seconds since the
/// epoch: what the server said, where it said something.
pub fn stamp(remote: Option<i64>) -> (r: Option<u64>)
    ensures
        r == (match remote {
            Some(t) => if t > 0 {
                Some(t as u64)
            } else {
                None
            },
            None => None,
        }),
{
    match remote {
        Some(t) => {
            if t > 0 {
                Some(t as u64)
            } else {
                None
            }
        },
        None => None,
    }
}

/// The final name never holds part of a file: a download goes on to give it only
/// after its bytes were flushed.
pub proof fn law_only_flushed_files_are_renamed(
    spec: FetchSpec,
    part: Seq<char>,
    dest: Seq<char>,
    event: FetchEvent,
    v: Verdict,
)
    requires
        spec.goes_on(part, dest, event, v),
        v matches Verdict::Go(FetchStep::Rename),
    ensures
        event matches FetchEvent::Flushed(None),
{
}

/// It is flushed only after the transfer went well and the server sent the file.
pub proof fn law_only_whole_files_are_flushed(
    spec: FetchSpec,
    part: Seq<char>,
    dest: Seq<char>,
    event: FetchEvent,
    v: Verdict,
)
    requires
        spec.goes_on(part, dest, event, v),
    ensures
        v matches Verdict::Go(FetchStep::Flush) ==> event matches FetchEvent::Checked(Ok(false)),
        v matches Verdict::Go(FetchStep::Check) ==> event matches FetchEvent::Transferred(t)
            && t.error is None,
{
}

/// Once the staging file is there, it is removed however the download ends, unless
/// it became the file that was asked for.
pub proof fn law_no_debris(
    spec: FetchSpec,
    part: Seq<char>,
    dest: Seq<char>,
    event: FetchEvent,
    v: Verdict,
)
    requires
        spec.goes_on(part, dest, event, v),
        !(event is Created),
        v is End,
    ensures
        v matches Verdict::End { remove_part, result } && (remove_part <==> !(result matches Ok(
            FetchOutcome::Downloaded,
        ))),
        (v matches Verdict::End { result: Ok(FetchOutcome::Downloaded), .. }) ==> event
            matches FetchEvent::Renamed(None),
{
}

/// An interrupt is the story of a failed transfer, whatever else went wrong.
pub proof fn law_interrupt_is_authoritative(
    spec: FetchSpec,
    part: Seq<char>,
    dest: Seq<char>,
    transfer: Transfer,
    v: Verdict,
)
    requires
        transfer.error is Some,
        transfer.interrupted,
        spec.goes_on(part, dest, FetchEvent::Transferred(transfer), v),
    ensures
        v matches Verdict::End { result: Err(Error::Interrupted), .. },
{
}

} // verus!
