//! The logic of the HTTP-GET leaf computation: the request it sends and what
//! it does with each outcome of a non-blocking read.
use vstd::prelude::*;

verus! {

/// The request text sent for `path`.
pub open spec fn request_text(path: Seq<char>) -> Seq<char> {
    "GET "@ + path + " HTTP/1.1\r\nHost: localhost\r\nConnection: close\r\n\r\n"@
}

/// What `String::from_utf8_lossy` makes of a byte sequence.
pub uninterp spec fn lossy_text(b: Seq<u8>) -> Seq<char>;

/// Relies on `String::from_utf8_lossy`: the text of the bytes, with each
/// invalid sequence replaced; it depends on the bytes alone, and no bytes
/// give no text.
#[verifier::external_body]
fn decode_lossy(b: &Vec<u8>) -> (r: String)
    ensures
        r@ == lossy_text(b@),
        b@.len() == 0 ==> r@.len() == 0,
{
    String::from_utf8_lossy(b.as_slice()).to_string()
}

/// Builds the GET request for `path`.
pub fn get_request(path: &str) -> (r: String)
    ensures
        r@ == request_text(path@),
{
    let mut r = String::from_str("GET ");
    r.append(path);
    r.append(" HTTP/1.1\r\nHost: localhost\r\nConnection: close\r\n\r\n");
    r
}

/// The outcome of one non-blocking read of up to `chunk.len()` bytes.
pub enum ReadEvent {
    /// The read returned this many bytes; zero means end of stream.
    Read(usize),
    /// The read would block: no data yet.
    WouldBlock,
    /// The read was interrupted by a signal.
    Interrupted,
    /// Any other error.
    Failed,
}

/// What the leaf does after a read.
pub enum ReadAction {
    /// Read again at once.
    ReadAgain,
    /// Record the wake handle and report `NotReady`.
    Suspend,
    /// Deregister and resolve to this text.
    Finish(String),
    /// Abort: the read failed.
    Fail,
}

/// Entry point of the leaf operation.
pub struct Http;

impl Http {
    /// A GET of `path`, not started.
    pub fn get(path: &str) -> (r: HttpGetFuture)
        ensures
            r.path() == path@,
            r.buffer() == Seq::<u8>::empty(),
            !r.started(),
    {
        HttpGetFuture::new(path)
    }
}

/// The state of a GET: its path, whether the request went out, and the bytes
/// of the response read so far.
pub struct HttpGetFuture {
    path: String,
    started: bool,
    buffer: Vec<u8>,
}

impl HttpGetFuture {
    pub closed spec fn path(&self) -> Seq<char> {
        self.path@
    }

    pub closed spec fn started(&self) -> bool {
        self.started
    }

    pub closed spec fn buffer(&self) -> Seq<u8> {
        self.buffer@
    }

    pub fn new(path: &str) -> (r: HttpGetFuture)
        ensures
            r.path() == path@,
            r.buffer() == Seq::<u8>::empty(),
            !r.started(),
    {
        HttpGetFuture { path: String::from_str(path), started: false, buffer: Vec::new() }
    }

    /// Whether the request has been sent (the first poll has happened).
    pub fn is_started(&self) -> (r: bool)
        ensures
            r == self.started(),
    {
        self.started
    }

    /// The request to send; the GET counts as started from here on.
    pub fn start(&mut self) -> (r: String)
        ensures
            r@ == request_text(old(self).path()),
            final(self).started(),
            final(self).path() == old(self).path(),
            final(self).buffer() == old(self).buffer(),
    {
        self.started = true;
        get_request(self.path.as_str())
    }

    /// Takes in the outcome of a read into `chunk`. Bytes read are appended
    /// to the response and the read is repeated; a zero-length read ends
    /// the stream and resolves to the response decoded as text; a read that
    /// would block suspends; an interrupted one is repeated; any other
    /// error fails.
    pub fn on_read(&mut self, event: ReadEvent, chunk: &[u8]) -> (r: ReadAction)
        requires
            event matches ReadEvent::Read(n) ==> n <= chunk@.len(),
        ensures
            final(self).path() == old(self).path(),
            final(self).started() == old(self).started(),
            match event {
                ReadEvent::Read(n) => if n == 0 {
                    &&& final(self).buffer() == old(self).buffer()
                    &&& r matches ReadAction::Finish(s)
                    &&& s@ == lossy_text(old(self).buffer())
                    &&& old(self).buffer().len() == 0 ==> s@.len() == 0
                } else {
                    &&& final(self).buffer() == old(self).buffer() + chunk@.subrange(0, n as int)
                    &&& r is ReadAgain
                },
                ReadEvent::WouldBlock => final(self).buffer() == old(self).buffer()
                    && r is Suspend,
                ReadEvent::Interrupted => final(self).buffer() == old(self).buffer()
                    && r is ReadAgain,
                ReadEvent::Failed => final(self).buffer() == old(self).buffer() && r is Fail,
            },
    {
        match event {
            ReadEvent::Read(n) => {
                if n == 0 {
                    ReadAction::Finish(decode_lossy(&self.buffer))
                } else {
                    let mut i: usize = 0;
                    while i < n
                        invariant
                            n <= chunk@.len(),
                            i <= n,
                            self.path() == old(self).path(),
                            self.started() == old(self).started(),
                            self.buffer() == old(self).buffer() + chunk@.subrange(0, i as int),
                        decreases n - i,
                    {
                        self.buffer.push(chunk[i]);
                        assert(chunk@.subrange(0, i + 1 as int) =~= chunk@.subrange(
                            0,
                            i as int,
                        ).push(chunk@[i as int]));
                        i = i + 1;
                    }
                    ReadAction::ReadAgain
                }
            },
            ReadEvent::WouldBlock => ReadAction::Suspend,
            ReadEvent::Interrupted => ReadAction::ReadAgain,
            ReadEvent::Failed => ReadAction::Fail,
        }
    }
}

} // verus!
