use vstd::prelude::*;

verus! {

/// What the caller reports back while it carries out a download into a
/// file that it creates before it sends the request.
pub enum BlobEvent {
    /// Whether the target file exists already.
    FileChecked { exists: bool },
    /// Whether the file could be created and whether the request got a reply.
    Prepared { created: bool, replied: bool },
    /// The reply was copied into the file (or copying failed).
    Copied,
    /// The pause is over.
    Slept,
}

/// What the caller does next while it carries out such a download.
pub enum BlobAction {
    /// Print the address, create the file, then send the request.
    Prepare,
    /// Copy the reply, whatever its status, into the file.
    Copy,
    /// Pause for this many milliseconds.
    Sleep { millis: u64 },
    /// Nothing is left to do.
    Finish,
}

/// The next step of a download: a file that exists is left alone;
/// otherwise the file is created and the address requested, the reply is
/// copied when both succeeded, and the caller pauses `wait` milliseconds
/// after every attempt.
pub fn get_to_file_step(wait: u64, event: &BlobEvent) -> (res: BlobAction)
    ensures
        match *event {
            BlobEvent::FileChecked { exists } => if exists {
                res is Finish
            } else {
                res is Prepare
            },
            BlobEvent::Prepared { created, replied } => if created && replied {
                res is Copy
            } else {
                res == (BlobAction::Sleep { millis: wait })
            },
            BlobEvent::Copied => res == (BlobAction::Sleep { millis: wait }),
            BlobEvent::Slept => res is Finish,
        },
{
    match event {
        BlobEvent::FileChecked { exists } => if *exists {
            BlobAction::Finish
        } else {
            BlobAction::Prepare
        },
        BlobEvent::Prepared { created, replied } => if *created && *replied {
            BlobAction::Copy
        } else {
            BlobAction::Sleep { millis: wait }
        },
        BlobEvent::Copied => BlobAction::Sleep { millis: wait },
        BlobEvent::Slept => BlobAction::Finish,
    }
}

} // verus!
