use vstd::prelude::*;
use vstd::string::*;

verus! {

/// Where a download goes: `{wd}/data/{directory}/{id}.json`.
pub open spec fn spec_filename(wd: Seq<char>, directory: Seq<char>, id: Seq<char>) -> Seq<char> {
    wd + "/data/"@ + directory + "/"@ + id + ".json"@
}

/// The file that holds the download `id` of kind `directory` under the
/// working directory `wd`.
pub fn filename(wd: &str, directory: &str, id: &str) -> (res: String)
    ensures
        res@ == spec_filename(wd@, directory@, id@),
{
    let mut s = String::from_str(wd);
    s.append("/data/");
    s.append(directory);
    s.append("/");
    s.append(id);
    s.append(".json");
    s
}

/// A download to make: fetch `url` into the file `path`, then pause for
/// `wait` milliseconds.
pub struct Fetch {
    pub url: String,
    pub path: String,
    pub wait: u64,
}

/// What the caller reports back while it carries out a download.
pub enum FetchEvent {
    /// Whether the target file exists already.
    FileChecked { exists: bool },
    /// The HTTP status of the reply, or `None` when the request failed.
    Responded { status: Option<u16> },
    /// The body was written (or writing it failed; nothing depends on it).
    Written,
    /// The pause is over.
    Slept,
}

/// What the caller does next while it carries out a download.
pub enum FetchAction {
    /// Print the address and send the request.
    Request,
    /// Create the file and copy the body of the reply into it.
    Write,
    /// Pause for this many milliseconds.
    Sleep { millis: u64 },
    /// Nothing is left to do.
    Finish,
}

/// The next step of a download: a file that exists is left alone; otherwise
/// the address is requested, the body is kept only for status 200, and the
/// caller pauses `wait` milliseconds after every attempt.
pub fn get_to_file_step(wait: u64, event: &FetchEvent) -> (res: FetchAction)
    ensures
        match *event {
            FetchEvent::FileChecked { exists } => if exists {
                res is Finish
            } else {
                res is Request
            },
            FetchEvent::Responded { status } => if status == Some(200u16) {
                res is Write
            } else {
                res == (FetchAction::Sleep { millis: wait })
            },
            FetchEvent::Written => res == (FetchAction::Sleep { millis: wait }),
            FetchEvent::Slept => res is Finish,
        },
{
    match event {
        FetchEvent::FileChecked { exists } => if *exists {
            FetchAction::Finish
        } else {
            FetchAction::Request
        },
        FetchEvent::Responded { status } => match status {
            Some(code) => if *code == 200 {
                FetchAction::Write
            } else {
                FetchAction::Sleep { millis: wait }
            },
            None => FetchAction::Sleep { millis: wait },
        },
        FetchEvent::Written => FetchAction::Sleep { millis: wait },
        FetchEvent::Slept => FetchAction::Finish,
    }
}

} // verus!
