//! What can go wrong in a render.

use vstd::prelude::*;

verus! {

/// What went wrong.
#[derive(Debug, Clone)]
pub enum Error {
    /// A mesh file that cannot be read.
    BadObj,
    /// No graphics adapter.
    NoAdapter,
    /// The graphics device was not granted.
    Device(String),
    /// A picture could not be written.
    Png(String),
    /// The encoder failed.
    Ffmpeg(String),
    /// The user cancelled.
    Cancelled,
    /// A skin cannot be read.
    Config(String),
    /// Two runs cannot race.
    GhostRun(String),
    /// A file could not be read or written.
    Io(String),
}

impl Error {
    /// The words of the error.
    pub open spec fn words(self) -> Seq<char> {
        match self {
            Error::BadObj => "malformed .obj mesh"@,
            Error::NoAdapter => "no compatible GPU adapter found"@,
            Error::Device(e) => "GPU device request failed: "@ + e@,
            Error::Png(e) => "PNG encode failed: "@ + e@,
            Error::Ffmpeg(e) => "video export failed: "@ + e@,
            Error::Cancelled => "render cancelled"@,
            Error::Config(e) => "skin config: "@ + e@,
            Error::GhostRun(e) => e@,
            Error::Io(e) => e@,
        }
    }

    /// The words of the error.
    pub fn message(&self) -> (s: String)
        ensures
            s@ == self.words(),
    {
        match self {
            Error::BadObj => "malformed .obj mesh".to_owned(),
            Error::NoAdapter => "no compatible GPU adapter found".to_owned(),
            Error::Device(e) => behind("GPU device request failed: ", e),
            Error::Png(e) => behind("PNG encode failed: ", e),
            Error::Ffmpeg(e) => behind("video export failed: ", e),
            Error::Cancelled => "render cancelled".to_owned(),
            Error::Config(e) => behind("skin config: ", e),
            Error::GhostRun(e) => e.clone(),
            Error::Io(e) => e.clone(),
        }
    }
}

fn behind(head: &str, tail: &String) -> (s: String)
    ensures
        s@ == head@ + tail@,
{
    let mut s: String = head.to_owned();
    s.append(tail.as_str());
    s
}

} // verus!
